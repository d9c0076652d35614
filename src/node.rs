use vstd::prelude::*;

use crate::key_part::{KeyPart, key_part_lt};

verus! {

/// A path through the tree: the key parts on the edges from the root.
pub type Path = Seq<KeyPart<u64, u64>>;

/// A node of the tree, kept in an arena and addressed by its index there.
/// The root (index 0) has no key part; every other node has the key part of
/// the edge that leads to it.
#[derive(Clone)]
pub struct Node<E, W, V> {
    pub key_part: Option<KeyPart<E, W>>,
    pub value: Option<V>,
    pub children: Vec<usize>,
}

/// The children of node `i`, as indices into the arena.
pub open spec fn children_of<V>(nodes: Seq<Node<u64, u64, V>>, i: int) -> Seq<usize> {
    nodes[i].children@
}

/// The key part of node `c`.
pub open spec fn key_of<V>(nodes: Seq<Node<u64, u64, V>>, c: int) -> KeyPart<u64, u64> {
    nodes[c].key_part->0
}

/// Child `c` of node `i` is a node, carries a key part, and its path extends
/// the path of `i` by that key part.
pub open spec fn child_ok<V>(nodes: Seq<Node<u64, u64, V>>, paths: Seq<Path>, i: int, c: int) -> bool {
    &&& 0 <= c < nodes.len()
    &&& nodes[c].key_part is Some
    &&& paths[c] == paths[i].push(key_of(nodes, c))
}

/// The children of every node are strictly ascending by key part.
pub open spec fn children_sorted<V>(nodes: Seq<Node<u64, u64, V>>) -> bool {
    forall|i: int, j: int, k: int|
        0 <= i < nodes.len() && 0 <= j < k < children_of(nodes, i).len() ==> key_part_lt(
            #[trigger] key_of(nodes, children_of(nodes, i)[j] as int),
            #[trigger] key_of(nodes, children_of(nodes, i)[k] as int),
        )
}

/// Well-formedness of an arena tree. `paths[i]` is the path of node `i`, and
/// `index` maps each path of the tree back to its node.
pub open spec fn tree_wf<V>(nodes: Seq<Node<u64, u64, V>>, paths: Seq<Path>, index: Map<Path, int>) -> bool {
    &&& nodes.len() == paths.len()
    &&& nodes.len() > 0
    &&& paths[0] == Seq::<KeyPart<u64, u64>>::empty()
    &&& forall|p: Path| #[trigger]
        index.contains_key(p) ==> 0 <= index[p] < nodes.len() && paths[index[p]] == p
    &&& forall|i: int|
        0 <= i < nodes.len() ==> index.contains_key(#[trigger] paths[i]) && index[paths[i]] == i
    &&& forall|i: int, j: int|
        0 <= i < nodes.len() && 0 <= j < children_of(nodes, i).len() ==> child_ok(
            nodes,
            paths,
            i,
            #[trigger] children_of(nodes, i)[j] as int,
        )
    &&& children_sorted(nodes)
    &&& forall|c: int|
        0 < c < nodes.len() ==> parent_links(nodes, paths, index, c)
}

/// Node `c` is reached from the node of its path without the last key part.
pub open spec fn parent_links<V>(nodes: Seq<Node<u64, u64, V>>, paths: Seq<Path>, index: Map<Path, int>, c: int) -> bool {
    &&& paths[c].len() > 0
    &&& index.contains_key(paths[c].drop_last())
    &&& exists|j: int|
        0 <= j < children_of(nodes, index[paths[c].drop_last()]).len() && children_of(
            nodes,
            index[paths[c].drop_last()],
        )[j] == c
}

/// What the tree maps: each path whose node holds a value, to that value.
pub open spec fn tree_view<V>(nodes: Seq<Node<u64, u64, V>>, index: Map<Path, int>) -> Map<Path, V> {
    Map::new(
        |p: Path| index.contains_key(p) && nodes[index[p]].value is Some,
        |p: Path| nodes[index[p]].value->0,
    )
}

/// Every prefix of a path of the tree is a path of the tree.
pub proof fn lemma_prefix_closed<V>(nodes: Seq<Node<u64, u64, V>>, paths: Seq<Path>, index: Map<Path, int>, p: Path, n: int)
    requires
        tree_wf(nodes, paths, index),
        index.contains_key(p),
        0 <= n <= p.len(),
    ensures
        index.contains_key(p.take(n)),
    decreases p.len() - n,
{
    if n == p.len() {
        assert(p.take(n) =~= p);
    } else {
        let i = index[p];
        assert(paths[i] == p);
        assert(i != 0);
        assert(parent_links(nodes, paths, index, i));
        let q = p.drop_last();
        lemma_prefix_closed(nodes, paths, index, q, n);
        assert(q.take(n) =~= p.take(n));
    }
}

/// A path of the tree that extends the path of node `i` by one key part is the
/// path of a child of `i`.
pub proof fn lemma_child_of_path<V>(nodes: Seq<Node<u64, u64, V>>, paths: Seq<Path>, index: Map<Path, int>, i: int, k: KeyPart<u64, u64>)
    requires
        tree_wf(nodes, paths, index),
        0 <= i < nodes.len(),
        index.contains_key(paths[i].push(k)),
    ensures
        exists|j: int|
            0 <= j < children_of(nodes, i).len() && #[trigger] key_of(nodes, children_of(nodes, i)[j] as int) == k
                && children_of(nodes, i)[j] == index[paths[i].push(k)],
{
    let p = paths[i].push(k);
    let c = index[p];
    assert(paths[c] == p);
    assert(c != 0) by {
        assert(p.len() > 0);
    }
    assert(parent_links(nodes, paths, index, c));
    assert(p.drop_last() =~= paths[i]);
    let j = choose|j: int|
        0 <= j < children_of(nodes, i).len() && children_of(nodes, i)[j] == c;
    assert(child_ok(nodes, paths, i, children_of(nodes, i)[j] as int));
    assert(paths[c].last() == k);
    assert(paths[i].push(key_of(nodes, c)).last() == key_of(nodes, c));
}

/// Two arenas of the same shape (key parts and children) are both
/// well-formed or neither is.
pub proof fn lemma_same_shape<V>(nodes: Seq<Node<u64, u64, V>>, nodes2: Seq<Node<u64, u64, V>>, paths: Seq<Path>, index: Map<Path, int>)
    requires
        tree_wf(nodes, paths, index),
        nodes2.len() == nodes.len(),
        forall|x: int| 0 <= x < nodes.len() ==> #[trigger] nodes2[x].key_part == nodes[x].key_part && nodes2[x].children == nodes[x].children,
    ensures
        tree_wf(nodes2, paths, index),
{
    assert forall|x: int| 0 <= x < nodes.len() implies children_of(nodes2, x) == children_of(nodes, x) && key_of(nodes2, x) == key_of(nodes, x) by {
        assert(nodes2[x].key_part == nodes[x].key_part);
    }
    assert forall|i: int, j: int|
        0 <= i < nodes2.len() && 0 <= j < children_of(nodes2, i).len() implies child_ok(nodes2, paths, i, #[trigger] children_of(nodes2, i)[j] as int) by {
        assert(child_ok(nodes, paths, i, children_of(nodes, i)[j] as int));
        assert(nodes2[children_of(nodes, i)[j] as int].key_part == nodes[children_of(nodes, i)[j] as int].key_part);
    }
    assert forall|i: int, j: int, k: int|
        0 <= i < nodes2.len() && 0 <= j < k < children_of(nodes2, i).len() implies key_part_lt(
            #[trigger] key_of(nodes2, children_of(nodes2, i)[j] as int),
            #[trigger] key_of(nodes2, children_of(nodes2, i)[k] as int),
        ) by {
        assert(key_part_lt(key_of(nodes, children_of(nodes, i)[j] as int), key_of(nodes, children_of(nodes, i)[k] as int)));
        assert(child_ok(nodes, paths, i, children_of(nodes, i)[j] as int));
        assert(child_ok(nodes, paths, i, children_of(nodes, i)[k] as int));
    }
    assert forall|c: int| 0 < c < nodes2.len() implies parent_links(nodes2, paths, index, c) by {
        assert(parent_links(nodes, paths, index, c));
        let p = index[paths[c].drop_last()];
        let j = choose|j: int| 0 <= j < children_of(nodes, p).len() && children_of(nodes, p)[j] == c;
        assert(children_of(nodes2, p)[j] == c);
    }
}

/// Adding a new node `t` for key part `k` below node `cur`, at the place `i`
/// among the children of `cur` that keeps them sorted, keeps the tree
/// well-formed and what it maps.
pub proof fn lemma_add_child<V>(
    nodes: Seq<Node<u64, u64, V>>,
    paths: Seq<Path>,
    index: Map<Path, int>,
    nodes2: Seq<Node<u64, u64, V>>,
    cur: int,
    i: int,
    k: KeyPart<u64, u64>,
)
    requires
        tree_wf(nodes, paths, index),
        0 <= cur < nodes.len(),
        0 <= i <= children_of(nodes, cur).len(),
        forall|j: int| 0 <= j < i ==> key_part_lt(#[trigger] key_of(nodes, children_of(nodes, cur)[j] as int), k),
        forall|j: int| i <= j < children_of(nodes, cur).len() ==> key_part_lt(k, #[trigger] key_of(nodes, children_of(nodes, cur)[j] as int)),
        nodes.len() < usize::MAX,
        nodes2.len() == nodes.len() + 1,
        forall|x: int| 0 <= x < nodes.len() && x != cur ==> #[trigger] nodes2[x] == nodes[x],
        nodes2[cur].key_part == nodes[cur].key_part,
        nodes2[cur].value == nodes[cur].value,
        children_of(nodes2, cur) == children_of(nodes, cur).insert(i, nodes.len() as usize),
        nodes2[nodes.len() as int].key_part == Some(k),
        nodes2[nodes.len() as int].value is None,
        children_of(nodes2, nodes.len() as int).len() == 0,
    ensures
        !index.contains_key(paths[cur].push(k)),
        tree_wf(nodes2, paths.push(paths[cur].push(k)), index.insert(paths[cur].push(k), nodes.len() as int)),
        tree_view(nodes2, index.insert(paths[cur].push(k), nodes.len() as int)) == tree_view(nodes, index),
{
    let t = nodes.len() as int;
    let np = paths[cur].push(k);
    let paths2 = paths.push(np);
    let index2 = index.insert(np, t);
    let ch = children_of(nodes, cur);
    let ch2 = children_of(nodes2, cur);
    if index.contains_key(np) {
        lemma_child_of_path(nodes, paths, index, cur, k);
        let j = choose|j: int| 0 <= j < ch.len() && #[trigger] key_of(nodes, ch[j] as int) == k && ch[j] == index[np];
        if j < i {
            assert(key_part_lt(key_of(nodes, ch[j] as int), k));
        } else {
            assert(key_part_lt(k, key_of(nodes, ch[j] as int)));
        }
    }
    assert forall|x: int| 0 <= x < nodes.len() implies key_of(nodes2, x) == key_of(nodes, x) && nodes2[x].value == nodes[x].value by {
        if x != cur {
            assert(nodes2[x] == nodes[x]);
        }
    }
    assert forall|x: int| 0 <= x < nodes.len() && x != cur implies children_of(nodes2, x) == children_of(nodes, x) by {
        assert(nodes2[x] == nodes[x]);
    }
    assert forall|p: Path| #[trigger] index2.contains_key(p) implies 0 <= index2[p] < nodes2.len() && paths2[index2[p]] == p by {
        if p != np {
            assert(index.contains_key(p));
        }
    }
    assert forall|x: int| 0 <= x < nodes2.len() implies index2.contains_key(#[trigger] paths2[x]) && index2[paths2[x]] == x by {
        if x < t {
            assert(paths2[x] == paths[x]);
            assert(index.contains_key(paths[x]));
            assert(paths[x] != np);
        }
    }
    assert forall|x: int, j: int|
        0 <= x < nodes2.len() && 0 <= j < children_of(nodes2, x).len() implies child_ok(nodes2, paths2, x, #[trigger] children_of(nodes2, x)[j] as int) by {
        if x == cur {
            if j < i {
                assert(ch2[j] == ch[j]);
                assert(child_ok(nodes, paths, x, ch[j] as int));
            } else if j > i {
                assert(ch2[j] == ch[j - 1]);
                assert(child_ok(nodes, paths, x, ch[j - 1] as int));
            } else {
                assert(ch2[j] == t);
            }
        } else if x < t {
            assert(child_ok(nodes, paths, x, children_of(nodes, x)[j] as int));
        }
    }
    assert forall|x: int, j: int, l: int|
        0 <= x < nodes2.len() && 0 <= j < l < children_of(nodes2, x).len() implies key_part_lt(
            #[trigger] key_of(nodes2, children_of(nodes2, x)[j] as int),
            #[trigger] key_of(nodes2, children_of(nodes2, x)[l] as int),
        ) by {
        if x == cur {
            assert(key_of(nodes2, t) == k);
            if j < i {
                assert(child_ok(nodes, paths, x, ch[j] as int));
            }
            if j > i {
                assert(child_ok(nodes, paths, x, ch[j - 1] as int));
            }
            if l < i {
                assert(child_ok(nodes, paths, x, ch[l] as int));
            }
            if l > i {
                assert(child_ok(nodes, paths, x, ch[l - 1] as int));
            }
            if j < i && l < i {
                assert(key_part_lt(key_of(nodes, ch[j] as int), key_of(nodes, ch[l] as int)));
            } else if j < i && l > i {
                assert(key_part_lt(key_of(nodes, ch[j] as int), key_of(nodes, ch[l - 1] as int)));
            } else if j > i && l > i {
                assert(key_part_lt(key_of(nodes, ch[j - 1] as int), key_of(nodes, ch[l - 1] as int)));
            } else if j == i {
                assert(key_part_lt(k, key_of(nodes, ch[l - 1] as int)));
            } else {
                assert(key_part_lt(key_of(nodes, ch[j] as int), k));
            }
        } else if x < t {
            let chx = children_of(nodes, x);
            assert(child_ok(nodes, paths, x, chx[j] as int));
            assert(child_ok(nodes, paths, x, chx[l] as int));
            assert(key_part_lt(key_of(nodes, chx[j] as int), key_of(nodes, chx[l] as int)));
        }
    }
    assert forall|c: int| 0 < c < nodes2.len() implies parent_links(nodes2, paths2, index2, c) by {
        if c == t {
            assert(np.drop_last() =~= paths[cur]);
            assert(index.contains_key(paths[cur]));
            assert(paths[cur] != np);
            assert(ch2[i] == t);
        } else {
            assert(parent_links(nodes, paths, index, c));
            let q = paths[c].drop_last();
            let pnode = index[q];
            assert(q != np) by {
                assert(q.len() < paths[c].len());
                assert(index.contains_key(q));
            }
            let j = choose|j: int| 0 <= j < children_of(nodes, pnode).len() && children_of(nodes, pnode)[j] == c;
            if pnode == cur {
                if j < i {
                    assert(ch2[j] == c);
                } else {
                    assert(ch2[j + 1] == c);
                }
            } else {
                assert(children_of(nodes2, pnode)[j] == c);
            }
        }
    }
    assert(tree_wf(nodes2, paths2, index2));
    assert(tree_view(nodes2, index2) =~= tree_view(nodes, index));
}

/// Scans the children of `cur` in order for the place of key part `k`:
/// `found` tells whether the child at index `i` has key part `k`; otherwise `i`
/// is where a child for `k` keeps the children sorted.
pub fn child_position<V>(nodes: &Vec<Node<u64, u64, V>>, Ghost(paths): Ghost<Seq<Path>>, Ghost(index): Ghost<Map<Path, int>>, cur: usize, k: KeyPart<u64, u64>) -> (r: (usize, bool))
    requires
        tree_wf(nodes@, paths, index),
        cur < nodes@.len(),
    ensures
        r.0 <= children_of(nodes@, cur as int).len(),
        forall|j: int| 0 <= j < r.0 ==> key_part_lt(#[trigger] key_of(nodes@, children_of(nodes@, cur as int)[j] as int), k),
        r.1 ==> r.0 < children_of(nodes@, cur as int).len() && key_of(nodes@, children_of(nodes@, cur as int)[r.0 as int] as int) == k,
        !r.1 ==> forall|j: int| r.0 <= j < children_of(nodes@, cur as int).len() ==> key_part_lt(k, #[trigger] key_of(nodes@, children_of(nodes@, cur as int)[j] as int)),
{
    let children = &nodes[cur].children;
    let mut i: usize = 0;
    while i < children.len()
        invariant
            tree_wf(nodes@, paths, index),
            cur < nodes@.len(),
            children@ == children_of(nodes@, cur as int),
            i <= children@.len(),
            forall|j: int| 0 <= j < i ==> key_part_lt(#[trigger] key_of(nodes@, children@[j] as int), k),
        decreases children.len() - i,
    {
        let c = children[i];
        assert(child_ok(nodes@, paths, cur as int, children@[i as int] as int));
        let kp = match nodes[c].key_part {
            Some(kp) => kp,
            None => vstd::pervasive::unreached(),
        };
        match kp.compare(&k) {
            core::cmp::Ordering::Less => {
                i = i + 1;
            },
            core::cmp::Ordering::Equal => {
                return (i, true);
            },
            core::cmp::Ordering::Greater => {
                assert forall|j: int| i <= j < children@.len() implies key_part_lt(k, #[trigger] key_of(nodes@, children@[j] as int)) by {
                    if j > i {
                        assert(key_part_lt(key_of(nodes@, children_of(nodes@, cur as int)[i as int] as int), key_of(nodes@, children_of(nodes@, cur as int)[j] as int)));
                    }
                }
                return (i, false);
            },
        }
    }
    (i, false)
}

/// Binary search for the child of `cur` whose key part is `Exact(e)`.
pub fn find_exact_child<V>(nodes: &Vec<Node<u64, u64, V>>, Ghost(paths): Ghost<Seq<Path>>, Ghost(index): Ghost<Map<Path, int>>, cur: usize, e: u64) -> (r: Option<usize>)
    requires
        tree_wf(nodes@, paths, index),
        cur < nodes@.len(),
    ensures
        match r {
            Some(c) => children_of(nodes@, cur as int).contains(c) && key_of(nodes@, c as int)
                == KeyPart::<u64, u64>::Exact(e),
            None => forall|j: int|
                0 <= j < children_of(nodes@, cur as int).len() ==> #[trigger] key_of(
                    nodes@,
                    children_of(nodes@, cur as int)[j] as int,
                ) != KeyPart::<u64, u64>::Exact(e),
        },
{
    let children = &nodes[cur].children;
    let target: KeyPart<u64, u64> = KeyPart::Exact(e);
    let mut lo: usize = 0;
    let mut hi: usize = children.len();
    while lo < hi
        invariant
            tree_wf(nodes@, paths, index),
            cur < nodes@.len(),
            children@ == children_of(nodes@, cur as int),
            target == KeyPart::<u64, u64>::Exact(e),
            0 <= lo <= hi <= children@.len(),
            forall|j: int| 0 <= j < lo ==> key_part_lt(#[trigger] key_of(nodes@, children@[j] as int), target),
            forall|j: int| hi <= j < children@.len() ==> key_part_lt(target, #[trigger] key_of(nodes@, children@[j] as int)),
        decreases hi - lo,
    {
        let mid = lo + (hi - lo) / 2;
        let c = children[mid];
        assert(child_ok(nodes@, paths, cur as int, children@[mid as int] as int));
        let kp = match nodes[c].key_part {
            Some(kp) => kp,
            None => vstd::pervasive::unreached(),
        };
        match kp.compare(&target) {
            core::cmp::Ordering::Less => {
                assert forall|j: int| 0 <= j < mid + 1 implies key_part_lt(#[trigger] key_of(nodes@, children@[j] as int), target) by {
                    if j < mid {
                        assert(key_part_lt(key_of(nodes@, children_of(nodes@, cur as int)[j] as int), key_of(nodes@, children_of(nodes@, cur as int)[mid as int] as int)));
                    }
                }
                lo = mid + 1;
            },
            core::cmp::Ordering::Equal => {
                assert(children@[mid as int] == c);
                return Some(c);
            },
            core::cmp::Ordering::Greater => {
                assert forall|j: int| mid <= j < children@.len() implies key_part_lt(target, #[trigger] key_of(nodes@, children@[j] as int)) by {
                    if j > mid {
                        assert(key_part_lt(key_of(nodes@, children_of(nodes@, cur as int)[mid as int] as int), key_of(nodes@, children_of(nodes@, cur as int)[j] as int)));
                    }
                }
                hi = mid;
            },
        }
    }
    None
}

} // verus!
