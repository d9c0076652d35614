use vstd::prelude::*;

use vstd::set_lib::{set_int_range, lemma_int_range, lemma_len_subset};

use crate::key_part::{KeyPart, key_part_lt};
use crate::node::{Node, Path, tree_wf, tree_view, children_of, key_of, child_ok, lemma_prefix_closed, lemma_child_of_path};
use crate::prefix_tree_map::{path_lt, path_matches, is_best_match, captures_of};

verus! {

/// A pending alternative of the backtracking search: a wildcard node, with
/// the number of key elements consumed once it is entered.
pub type Entry = (usize, usize);

/// `p` extends `prefix`: `prefix` is the first part of `p`.
pub open spec fn extends(p: Path, prefix: Path) -> bool {
    prefix.len() <= p.len() && p.take(prefix.len() as int) == prefix
}

/// `p` can begin a path that matches `key`.
pub open spec fn prefix_matches(p: Path, key: Seq<u64>) -> bool {
    &&& p.len() <= key.len()
    &&& forall|i: int|
        0 <= i < p.len() ==> #[trigger] p[i] == KeyPart::<u64, u64>::Exact(key[i]) || p[i] is Wildcard
}

/// Every path extends itself.
pub proof fn lemma_extends_refl(x: Path)
    ensures
        extends(x, x),
{
    assert(x.take(x.len() as int) =~= x);
}

/// `extends` is transitive.
pub proof fn lemma_extends_trans(x: Path, y: Path, z: Path)
    requires
        extends(x, y),
        extends(y, z),
    ensures
        extends(x, z),
{
    assert(x.take(z.len() as int) =~= x.take(y.len() as int).take(z.len() as int));
}

/// Two prefixes of one path: the shorter is a prefix of the longer.
pub proof fn lemma_extends_comparable(x: Path, a: Path, b: Path)
    requires
        extends(x, a),
        extends(x, b),
        a.len() <= b.len(),
    ensures
        extends(b, a),
{
    assert(x.take(a.len() as int) =~= x.take(b.len() as int).take(a.len() as int));
}

/// The order of two paths carries over to paths that extend them.
pub proof fn lemma_lt_extend(a: Path, b: Path, a2: Path, b2: Path)
    requires
        path_lt(a, b),
        extends(a2, a),
        extends(b2, b),
    ensures
        path_lt(a2, b2),
{
    let i = choose|i: int| 0 <= i < a.len() && i < b.len() && a.take(i) == b.take(i) && key_part_lt(a[i], b[i]);
    assert(a2.take(i) =~= a2.take(a.len() as int).take(i));
    assert(b2.take(i) =~= b2.take(b.len() as int).take(i));
    assert(a2[i] == a2.take(a.len() as int)[i]);
    assert(b2[i] == b2.take(b.len() as int)[i]);
}

/// Ordered paths lie apart: neither extends the other.
pub proof fn lemma_lt_apart(a: Path, b: Path)
    requires
        path_lt(a, b),
    ensures
        !extends(a, b),
        !extends(b, a),
{
    let i = choose|i: int| 0 <= i < a.len() && i < b.len() && a.take(i) == b.take(i) && key_part_lt(a[i], b[i]);
    if extends(a, b) {
        assert(a[i] == a.take(b.len() as int)[i]);
    }
    if extends(b, a) {
        assert(b[i] == b.take(a.len() as int)[i]);
    }
}

/// Each entry names a wildcard node whose path can begin a match of `key`.
pub open spec fn entry_ok<V>(nodes: Seq<Node<u64, u64, V>>, paths: Seq<Path>, key: Seq<u64>, e: Entry) -> bool {
    &&& e.1 < nodes.len()
    &&& e.0 == paths[e.1 as int].len()
    &&& 1 <= e.0 <= key.len()
    &&& prefix_matches(paths[e.1 as int], key)
    &&& nodes[e.1 as int].key_part is Some
    &&& key_of(nodes, e.1 as int) is Wildcard
    &&& paths[e.1 as int].last() == key_of(nodes, e.1 as int)
}

/// The stack of pending alternatives, recorded along the way to node `a`:
/// each was pushed at a node on the path of `a`, deeper ones later, and each
/// leads to greater paths than those below it.
pub open spec fn stack_ok<V>(nodes: Seq<Node<u64, u64, V>>, paths: Seq<Path>, key: Seq<u64>, a: int, s: Seq<Entry>) -> bool {
    &&& forall|i: int| 0 <= i < s.len() ==> entry_ok(nodes, paths, key, #[trigger] s[i])
    &&& forall|i: int| 0 <= i < s.len() ==> extends(paths[a], #[trigger] paths[s[i].1 as int].drop_last())
    &&& forall|i: int, j: int| 0 <= i < j < s.len() ==> (#[trigger] s[i]).0 <= (#[trigger] s[j]).0
    &&& forall|i: int, j: int|
        0 <= i < j < s.len() ==> path_lt(paths[(#[trigger] s[i]).1 as int], paths[(#[trigger] s[j]).1 as int])
}

/// The nodes already left behind: a finite set of nodes.
pub open spec fn visited_ok(visited: Set<int>, n: int) -> bool {
    &&& visited.finite()
    &&& visited.subset_of(set_int_range(0, n))
}

/// Some entry of `s` leads to `q`.
pub open spec fn on_stack(paths: Seq<Path>, s: Seq<Entry>, q: Path) -> bool {
    exists|i: int| 0 <= i < s.len() && #[trigger] extends(q, paths[s[i].1 as int]) 
}

/// The state of the search while it stands at node `cur`: every path that
/// matches is below `cur` or below an entry of the stack, those below `cur`
/// are the greatest, and no node left behind is below either.
pub open spec fn live<V>(
    nodes: Seq<Node<u64, u64, V>>,
    paths: Seq<Path>,
    index: Map<Path, int>,
    key: Seq<u64>,
    cur: int,
    s: Seq<Entry>,
    visited: Set<int>,
) -> bool {
    &&& 0 <= cur < nodes.len()
    &&& prefix_matches(paths[cur], key)
    &&& stack_ok(nodes, paths, key, cur, s)
    &&& forall|i: int| 0 <= i < s.len() ==> path_lt(paths[(#[trigger] s[i]).1 as int], paths[cur])
    &&& forall|q: Path|
        #[trigger] tree_view(nodes, index).contains_key(q) && path_matches(q, key) ==> extends(q, paths[cur])
            || on_stack(paths, s, q)
    &&& visited_ok(visited, nodes.len() as int)
    &&& forall|x: int| #[trigger] visited.contains(x) ==> !extends(paths[x], paths[cur])
    &&& forall|x: int, i: int|
        #[trigger] visited.contains(x) && 0 <= i < s.len() ==> !extends(paths[x], paths[(#[trigger] s[i]).1 as int])
}

/// The state of the search once everything below node `a` is given up: every
/// path that matches is below an entry of the stack.
pub open spec fn dead<V>(
    nodes: Seq<Node<u64, u64, V>>,
    paths: Seq<Path>,
    index: Map<Path, int>,
    key: Seq<u64>,
    a: int,
    s: Seq<Entry>,
    visited: Set<int>,
) -> bool {
    &&& 0 <= a < nodes.len()
    &&& stack_ok(nodes, paths, key, a, s)
    &&& forall|q: Path|
        #[trigger] tree_view(nodes, index).contains_key(q) && path_matches(q, key) ==> on_stack(paths, s, q)
    &&& visited_ok(visited, nodes.len() as int)
    &&& forall|x: int, i: int|
        #[trigger] visited.contains(x) && 0 <= i < s.len() ==> !extends(paths[x], paths[(#[trigger] s[i]).1 as int])
}

/// The visited set is no larger than the tree.
pub proof fn lemma_visited_len(visited: Set<int>, n: int)
    requires
        visited_ok(visited, n),
        0 <= n,
    ensures
        visited.len() <= n,
{
    lemma_int_range(0, n);
    lemma_len_subset(visited, set_int_range(0, n));
}

/// The first state: at the root, with an empty stack and nothing visited.
pub proof fn lemma_start<V>(nodes: Seq<Node<u64, u64, V>>, paths: Seq<Path>, index: Map<Path, int>, key: Seq<u64>)
    requires
        tree_wf(nodes, paths, index),
    ensures
        live(nodes, paths, index, key, 0, Seq::empty(), Set::empty()),
{
    assert forall|q: Path| #[trigger] tree_view(nodes, index).contains_key(q) && path_matches(q, key) implies extends(q, paths[0]) by {
        assert(q.take(0) =~= paths[0]);
    }
}

/// Taking the top of the stack after a dead end.
pub proof fn lemma_pop<V>(
    nodes: Seq<Node<u64, u64, V>>,
    paths: Seq<Path>,
    index: Map<Path, int>,
    key: Seq<u64>,
    a: int,
    s: Seq<Entry>,
    visited: Set<int>,
)
    requires
        tree_wf(nodes, paths, index),
        dead(nodes, paths, index, key, a, s, visited),
        s.len() > 0,
    ensures
        live(nodes, paths, index, key, s.last().1 as int, s.drop_last(), visited),
        extends(paths[a], paths[s.last().1 as int].drop_last()),
        paths[s.last().1 as int].drop_last().len() == s.last().0 - 1,
{
    let t = s.len() - 1;
    let e = s[t];
    let c = e.1 as int;
    let s2 = s.drop_last();
    assert(entry_ok(nodes, paths, key, s[t]));
    let pc = paths[c];
    assert(pc =~= pc.drop_last().push(pc.last()));
    assert(extends(pc, pc.drop_last())) by {
        assert(pc.take(pc.drop_last().len() as int) =~= pc.drop_last());
    }
    assert(extends(paths[a], pc.drop_last()));
    assert forall|i: int| 0 <= i < s2.len() implies extends(paths[c], #[trigger] paths[s2[i].1 as int].drop_last()) by {
        assert(s2[i] == s[i]);
        assert(s[i].0 <= s[t].0);
        assert(entry_ok(nodes, paths, key, s[i]));
        let pi = paths[s[i].1 as int];
        assert(extends(paths[a], pi.drop_last()));
        lemma_extends_comparable(paths[a], pi.drop_last(), pc.drop_last());
        lemma_extends_trans(pc, pc.drop_last(), pi.drop_last());
    }
    assert forall|i: int| 0 <= i < s2.len() implies path_lt(paths[(#[trigger] s2[i]).1 as int], paths[c]) by {
        assert(s2[i] == s[i]);
    }
    assert forall|q: Path| #[trigger] tree_view(nodes, index).contains_key(q) && path_matches(q, key) implies extends(q, paths[c])
        || on_stack(paths, s2, q) by {
        let i = choose|i: int| 0 <= i < s.len() && #[trigger] extends(q, paths[s[i].1 as int]);
        if i < t {
            assert(s2[i] == s[i]);
        }
    }
    assert forall|x: int| #[trigger] visited.contains(x) implies !extends(paths[x], paths[c]) by {
        assert(!extends(paths[x], paths[s[t].1 as int]));
    }
    assert forall|x: int, i: int|
        #[trigger] visited.contains(x) && 0 <= i < s2.len() implies !extends(paths[x], paths[(#[trigger] s2[i]).1 as int]) by {
        assert(s2[i] == s[i]);
        assert(!extends(paths[x], paths[s[i].1 as int]));
    }
    assert(stack_ok(nodes, paths, key, c, s2)) by {
        assert forall|i: int| 0 <= i < s2.len() implies entry_ok(nodes, paths, key, #[trigger] s2[i]) by {
            assert(s2[i] == s[i]);
        }
        assert forall|i: int, j: int| 0 <= i < j < s2.len() implies (#[trigger] s2[i]).0 <= (#[trigger] s2[j]).0 by {
            assert(s2[i] == s[i] && s2[j] == s[j]);
        }
        assert forall|i: int, j: int|
            0 <= i < j < s2.len() implies path_lt(paths[(#[trigger] s2[i]).1 as int], paths[(#[trigger] s2[j]).1 as int]) by {
            assert(s2[i] == s[i] && s2[j] == s[j]);
        }
    }
}

/// With an empty stack after a dead end, nothing matches.
pub proof fn lemma_exhausted<V>(
    nodes: Seq<Node<u64, u64, V>>,
    paths: Seq<Path>,
    index: Map<Path, int>,
    key: Seq<u64>,
    a: int,
    s: Seq<Entry>,
    visited: Set<int>,
)
    requires
        dead(nodes, paths, index, key, a, s, visited),
        s.len() == 0,
    ensures
        forall|q: Path| #[trigger] tree_view(nodes, index).contains_key(q) ==> !path_matches(q, key),
{
    assert forall|q: Path| #[trigger] tree_view(nodes, index).contains_key(q) implies !path_matches(q, key) by {
        if path_matches(q, key) {
            assert(on_stack(paths, s, q));
        }
    }
}

/// The entries for the first `k` children of `cur`, entered with `d` key
/// elements consumed.
pub open spec fn wild_entries<V>(nodes: Seq<Node<u64, u64, V>>, cur: int, d: usize, k: int) -> Seq<Entry> {
    Seq::new(k as nat, |j: int| (d, children_of(nodes, cur)[j]))
}

/// A path of the tree below node `cur` goes through the child of `cur` whose
/// key part it has next.
pub proof fn lemma_through_child<V>(nodes: Seq<Node<u64, u64, V>>, paths: Seq<Path>, index: Map<Path, int>, cur: int, q: Path) -> (j: int)
    requires
        tree_wf(nodes, paths, index),
        0 <= cur < nodes.len(),
        index.contains_key(q),
        extends(q, paths[cur]),
        paths[cur].len() < q.len(),
    ensures
        0 <= j < children_of(nodes, cur).len(),
        key_of(nodes, children_of(nodes, cur)[j] as int) == q[paths[cur].len() as int],
        extends(q, paths[children_of(nodes, cur)[j] as int]),
{
    let pos = paths[cur].len() as int;
    lemma_prefix_closed(nodes, paths, index, q, pos + 1);
    assert(q.take(pos + 1) =~= paths[cur].push(q[pos]));
    lemma_child_of_path(nodes, paths, index, cur, q[pos]);
    let j = choose|j: int|
        0 <= j < children_of(nodes, cur).len() && #[trigger] key_of(nodes, children_of(nodes, cur)[j] as int) == q[pos]
            && children_of(nodes, cur)[j] == index[paths[cur].push(q[pos])];
    j
}

/// Recording the wildcard children of `cur`, the first `k` children, on the
/// stack before leaving `cur`.
pub proof fn lemma_push_wildcards<V>(
    nodes: Seq<Node<u64, u64, V>>,
    paths: Seq<Path>,
    index: Map<Path, int>,
    key: Seq<u64>,
    cur: int,
    s: Seq<Entry>,
    visited: Set<int>,
    k: int,
)
    requires
        tree_wf(nodes, paths, index),
        live(nodes, paths, index, key, cur, s, visited),
        paths[cur].len() < key.len(),
        key.len() <= usize::MAX,
        0 <= k <= children_of(nodes, cur).len(),
        forall|j: int| 0 <= j < k ==> #[trigger] key_of(nodes, children_of(nodes, cur)[j] as int) is Wildcard,
        k < children_of(nodes, cur).len() ==> !(key_of(nodes, children_of(nodes, cur)[k] as int) is Wildcard),
    ensures
        ({
            let s2 = s + wild_entries(nodes, cur, (paths[cur].len() + 1) as usize, k);
            &&& stack_ok(nodes, paths, key, cur, s2)
            &&& forall|q: Path|
                #[trigger] tree_view(nodes, index).contains_key(q) && path_matches(q, key) && extends(q, paths[cur])
                    && q[paths[cur].len() as int] is Wildcard ==> on_stack(paths, s2, q)
            &&& forall|q: Path| #[trigger] on_stack(paths, s, q) ==> on_stack(paths, s2, q)
            &&& forall|x: int, i: int|
                #[trigger] visited.insert(cur).contains(x) && 0 <= i < s2.len() ==> !extends(paths[x], paths[(#[trigger] s2[i]).1 as int])
            &&& forall|i: int| s.len() <= i < s2.len() ==> extends(paths[(#[trigger] s2[i]).1 as int], paths[cur])
            &&& forall|i: int| s.len() <= i < s2.len() ==> key_of(nodes, (#[trigger] s2[i]).1 as int) is Wildcard
        }),
        visited_ok(visited.insert(cur), nodes.len() as int),
        !visited.contains(cur),
{
    let pos = paths[cur].len() as int;
    let d = (pos + 1) as usize;
    let ch = children_of(nodes, cur);
    let w = wild_entries(nodes, cur, d, k);
    let s2 = s + w;
    lemma_extends_refl(paths[cur]);
    assert forall|j: int| 0 <= j < k implies child_ok(nodes, paths, cur, #[trigger] ch[j] as int) && extends(paths[ch[j] as int], paths[cur])
        && paths[ch[j] as int].drop_last() == paths[cur] by {
        assert(child_ok(nodes, paths, cur, ch[j] as int));
        assert(paths[ch[j] as int].take(pos) =~= paths[cur]);
        assert(paths[ch[j] as int].drop_last() =~= paths[cur]);
    }
    assert forall|i: int| s.len() <= i < s2.len() implies s2[i] == (d, ch[i - s.len()]) by {}
    assert forall|i: int| 0 <= i < s.len() implies s2[i] == s[i] by {}
    assert(stack_ok(nodes, paths, key, cur, s2)) by {
        assert forall|i: int| 0 <= i < s2.len() implies entry_ok(nodes, paths, key, #[trigger] s2[i]) by {
            if i >= s.len() {
                let c = ch[i - s.len()] as int;
                assert(child_ok(nodes, paths, cur, ch[i - s.len()] as int));
                assert(paths[c].len() == pos + 1);
                assert forall|t: int| 0 <= t < paths[c].len() implies #[trigger] paths[c][t] == KeyPart::<u64, u64>::Exact(key[t])
                    || paths[c][t] is Wildcard by {
                    if t < pos {
                        assert(paths[c][t] == paths[cur][t]);
                    }
                }
            }
        }
        assert forall|i: int| 0 <= i < s2.len() implies extends(paths[cur], #[trigger] paths[s2[i].1 as int].drop_last()) by {
            if i < s.len() {
            }
        }
        assert forall|i: int, j: int| 0 <= i < j < s2.len() implies (#[trigger] s2[i]).0 <= (#[trigger] s2[j]).0 by {
            if i < s.len() && j >= s.len() {
                assert(entry_ok(nodes, paths, key, s[i]));
                assert(extends(paths[cur], paths[s[i].1 as int].drop_last()));
            }
        }
        assert forall|i: int, j: int|
            0 <= i < j < s2.len() implies path_lt(paths[(#[trigger] s2[i]).1 as int], paths[(#[trigger] s2[j]).1 as int]) by {
            if i < s.len() && j >= s.len() {
                lemma_extends_refl(paths[s[i].1 as int]);
                lemma_lt_extend(paths[s[i].1 as int], paths[cur], paths[s[i].1 as int], paths[ch[j - s.len()] as int]);
            } else if i >= s.len() {
                let a = paths[ch[i - s.len()] as int];
                let b = paths[ch[j - s.len()] as int];
                assert(key_part_lt(key_of(nodes, ch[i - s.len()] as int), key_of(nodes, ch[j - s.len()] as int)));
                assert(a.take(pos) =~= b.take(pos));
                assert(a[pos] == key_of(nodes, ch[i - s.len()] as int));
                assert(b[pos] == key_of(nodes, ch[j - s.len()] as int));
            }
        }
    }
    assert forall|q: Path|
        #[trigger] tree_view(nodes, index).contains_key(q) && path_matches(q, key) && extends(q, paths[cur])
            && q[pos] is Wildcard implies on_stack(paths, s2, q) by {
        let jj = lemma_through_child(nodes, paths, index, cur, q);
        if jj >= k {
            if jj > k {
                assert(key_part_lt(key_of(nodes, ch[k] as int), key_of(nodes, ch[jj] as int)));
            }
        }
        assert(s2[s.len() + jj].1 == ch[jj]);
        assert(extends(q, paths[s2[s.len() + jj].1 as int]));
    }
    assert forall|q: Path| #[trigger] on_stack(paths, s, q) implies on_stack(paths, s2, q) by {
        let i = choose|i: int| 0 <= i < s.len() && #[trigger] extends(q, paths[s[i].1 as int]);
        assert(s2[i] == s[i]);
    }
    assert(!visited.contains(cur));
    assert forall|x: int, i: int|
        #[trigger] visited.insert(cur).contains(x) && 0 <= i < s2.len() implies !extends(paths[x], paths[(#[trigger] s2[i]).1 as int]) by {
        if i < s.len() {
            if x == cur {
                lemma_lt_apart(paths[s[i].1 as int], paths[cur]);
            }
        } else {
            let c = ch[i - s.len()] as int;
            if x != cur && extends(paths[x], paths[c]) {
                lemma_extends_trans(paths[x], paths[c], paths[cur]);
            }
        }
    }
    assert(visited.insert(cur).subset_of(set_int_range(0, nodes.len() as int)));
}

/// Leaving `cur` for its exact child `c`.
pub proof fn lemma_descend<V>(
    nodes: Seq<Node<u64, u64, V>>,
    paths: Seq<Path>,
    index: Map<Path, int>,
    key: Seq<u64>,
    cur: int,
    s: Seq<Entry>,
    visited: Set<int>,
    k: int,
    jc: int,
)
    requires
        tree_wf(nodes, paths, index),
        live(nodes, paths, index, key, cur, s, visited),
        paths[cur].len() < key.len(),
        key.len() <= usize::MAX,
        0 <= k <= children_of(nodes, cur).len(),
        forall|j: int| 0 <= j < k ==> #[trigger] key_of(nodes, children_of(nodes, cur)[j] as int) is Wildcard,
        k < children_of(nodes, cur).len() ==> !(key_of(nodes, children_of(nodes, cur)[k] as int) is Wildcard),
        0 <= jc < children_of(nodes, cur).len(),
        key_of(nodes, children_of(nodes, cur)[jc] as int) == KeyPart::<u64, u64>::Exact(key[paths[cur].len() as int]),
    ensures
        live(
            nodes,
            paths,
            index,
            key,
            children_of(nodes, cur)[jc] as int,
            s + wild_entries(nodes, cur, (paths[cur].len() + 1) as usize, k),
            visited.insert(cur),
        ),
        paths[children_of(nodes, cur)[jc] as int] == paths[cur].push(KeyPart::<u64, u64>::Exact(key[paths[cur].len() as int])),
{
    lemma_push_wildcards(nodes, paths, index, key, cur, s, visited, k);
    let pos = paths[cur].len() as int;
    let ch = children_of(nodes, cur);
    let c = ch[jc] as int;
    let s2 = s + wild_entries(nodes, cur, (pos + 1) as usize, k);
    let v2 = visited.insert(cur);
    assert(child_ok(nodes, paths, cur, ch[jc] as int));
    let pc = paths[c];
    assert(pc.take(pos) =~= paths[cur]);
    assert(extends(pc, paths[cur]));
    assert forall|t: int| 0 <= t < pc.len() implies #[trigger] pc[t] == KeyPart::<u64, u64>::Exact(key[t]) || pc[t] is Wildcard by {
        if t < pos {
            assert(pc[t] == paths[cur][t]);
        }
    }
    assert forall|i: int| 0 <= i < s2.len() implies extends(pc, #[trigger] paths[s2[i].1 as int].drop_last()) by {
        lemma_extends_trans(pc, paths[cur], paths[s2[i].1 as int].drop_last());
    }
    assert forall|i: int| 0 <= i < s2.len() implies path_lt(paths[(#[trigger] s2[i]).1 as int], pc) by {
        if i < s.len() {
            assert(s2[i] == s[i]);
            lemma_extends_refl(paths[s[i].1 as int]);
            lemma_lt_extend(paths[s[i].1 as int], paths[cur], paths[s[i].1 as int], pc);
        } else {
            let a = paths[s2[i].1 as int];
            assert(entry_ok(nodes, paths, key, s2[i]));
            assert(a.take(pos) =~= a.take(paths[cur].len() as int));
            assert(a.take(pos) == paths[cur]);
            assert(a[pos] == key_of(nodes, s2[i].1 as int));
        }
    }
    assert forall|q: Path| #[trigger] tree_view(nodes, index).contains_key(q) && path_matches(q, key) implies extends(q, pc)
        || on_stack(paths, s2, q) by {
        if extends(q, paths[cur]) {
            if q[pos] is Wildcard {
            } else {
                let jj = lemma_through_child(nodes, paths, index, cur, q);
                assert(q[pos] == KeyPart::<u64, u64>::Exact(key[pos]));
                if jj < jc {
                    assert(key_part_lt(key_of(nodes, ch[jj] as int), key_of(nodes, ch[jc] as int)));
                } else if jj > jc {
                    assert(key_part_lt(key_of(nodes, ch[jc] as int), key_of(nodes, ch[jj] as int)));
                }
            }
        } else {
            assert(on_stack(paths, s, q));
        }
    }
    assert forall|x: int| #[trigger] v2.contains(x) implies !extends(paths[x], pc) by {
        if x != cur && extends(paths[x], pc) {
            lemma_extends_trans(paths[x], pc, paths[cur]);
        }
    }
    assert(stack_ok(nodes, paths, key, c, s2));
}

/// Giving up `cur` when its exact child is missing: what matches below it goes
/// through its wildcard children, now on the stack.
pub proof fn lemma_no_exact_child<V>(
    nodes: Seq<Node<u64, u64, V>>,
    paths: Seq<Path>,
    index: Map<Path, int>,
    key: Seq<u64>,
    cur: int,
    s: Seq<Entry>,
    visited: Set<int>,
    k: int,
)
    requires
        tree_wf(nodes, paths, index),
        live(nodes, paths, index, key, cur, s, visited),
        paths[cur].len() < key.len(),
        key.len() <= usize::MAX,
        0 <= k <= children_of(nodes, cur).len(),
        forall|j: int| 0 <= j < k ==> #[trigger] key_of(nodes, children_of(nodes, cur)[j] as int) is Wildcard,
        k < children_of(nodes, cur).len() ==> !(key_of(nodes, children_of(nodes, cur)[k] as int) is Wildcard),
        forall|j: int|
            0 <= j < children_of(nodes, cur).len() ==> #[trigger] key_of(nodes, children_of(nodes, cur)[j] as int)
                != KeyPart::<u64, u64>::Exact(key[paths[cur].len() as int]),
    ensures
        dead(
            nodes,
            paths,
            index,
            key,
            cur,
            s + wild_entries(nodes, cur, (paths[cur].len() + 1) as usize, k),
            visited.insert(cur),
        ),
{
    lemma_push_wildcards(nodes, paths, index, key, cur, s, visited, k);
    let pos = paths[cur].len() as int;
    let s2 = s + wild_entries(nodes, cur, (pos + 1) as usize, k);
    assert forall|q: Path| #[trigger] tree_view(nodes, index).contains_key(q) && path_matches(q, key) implies on_stack(paths, s2, q) by {
        if extends(q, paths[cur]) {
            if !(q[pos] is Wildcard) {
                let jj = lemma_through_child(nodes, paths, index, cur, q);
            }
        } else {
            assert(on_stack(paths, s, q));
        }
    }
}

/// Giving up `cur` when the key ends there and `cur` holds no value.
pub proof fn lemma_end_without_value<V>(
    nodes: Seq<Node<u64, u64, V>>,
    paths: Seq<Path>,
    index: Map<Path, int>,
    key: Seq<u64>,
    cur: int,
    s: Seq<Entry>,
    visited: Set<int>,
)
    requires
        tree_wf(nodes, paths, index),
        live(nodes, paths, index, key, cur, s, visited),
        paths[cur].len() == key.len(),
        nodes[cur].value is None,
    ensures
        dead(nodes, paths, index, key, cur, s, visited.insert(cur)),
{
    lemma_extends_refl(paths[cur]);
    assert(!visited.contains(cur));
    assert forall|q: Path| #[trigger] tree_view(nodes, index).contains_key(q) && path_matches(q, key) implies on_stack(paths, s, q) by {
        if extends(q, paths[cur]) {
            assert(q.take(q.len() as int) =~= q);
            assert(q == paths[cur]);
        }
    }
    assert forall|x: int, i: int|
        #[trigger] visited.insert(cur).contains(x) && 0 <= i < s.len() implies !extends(paths[x], paths[(#[trigger] s[i]).1 as int]) by {
        if x == cur {
            lemma_lt_apart(paths[s[i].1 as int], paths[cur]);
        }
    }
    assert(visited.insert(cur).subset_of(set_int_range(0, nodes.len() as int)));
}

/// Reaching the end of the key at a node that holds a value: its path is the
/// greatest match.
pub proof fn lemma_found<V>(
    nodes: Seq<Node<u64, u64, V>>,
    paths: Seq<Path>,
    index: Map<Path, int>,
    key: Seq<u64>,
    cur: int,
    s: Seq<Entry>,
    visited: Set<int>,
)
    requires
        tree_wf(nodes, paths, index),
        live(nodes, paths, index, key, cur, s, visited),
        paths[cur].len() == key.len(),
        nodes[cur].value is Some,
    ensures
        is_best_match(tree_view(nodes, index), key, paths[cur]),
{
    let p = paths[cur];
    let m = tree_view(nodes, index);
    assert(m.contains_key(p));
    assert forall|q: Path| m.contains_key(q) && path_matches(q, key) && q != p implies #[trigger] path_lt(q, p) by {
        if extends(q, p) {
            assert(q.take(q.len() as int) =~= q);
        } else {
            assert(on_stack(paths, s, q));
            let i = choose|i: int| 0 <= i < s.len() && #[trigger] extends(q, paths[s[i].1 as int]);
            lemma_extends_refl(p);
            lemma_lt_extend(paths[s[i].1 as int], p, q, p);
        }
    }
}

/// The captures along path `p` for `key`, each tagged with the number of key
/// elements consumed once its wildcard is entered.
pub open spec fn tagged_captures(p: Path, key: Seq<u64>) -> Seq<(usize, u64, u64)>
    decreases p.len(),
{
    if p.len() == 0 {
        Seq::empty()
    } else {
        let rest = tagged_captures(p.drop_last(), key);
        match p.last() {
            KeyPart::Wildcard(w) => rest.push((p.len() as usize, w, key[p.len() - 1])),
            KeyPart::Exact(_) => rest,
        }
    }
}

/// The captures without their tags.
pub open spec fn untag(t: Seq<(usize, u64, u64)>) -> Seq<(u64, u64)> {
    t.map_values(|e: (usize, u64, u64)| (e.1, e.2))
}

/// Without their tags, the tagged captures are the captures of the path.
pub proof fn lemma_untag(p: Path, key: Seq<u64>)
    ensures
        untag(tagged_captures(p, key)) == captures_of(p, key),
    decreases p.len(),
{
    if p.len() > 0 {
        lemma_untag(p.drop_last(), key);
        assert(untag(tagged_captures(p, key)) =~= captures_of(p, key));
    }
}

/// Entering a child adds a capture exactly when its key part is a wildcard.
pub proof fn lemma_tagged_step(p: Path, k: KeyPart<u64, u64>, key: Seq<u64>)
    ensures
        tagged_captures(p.push(k), key) == match k {
            KeyPart::Wildcard(w) => tagged_captures(p, key).push(((p.len() + 1) as usize, w, key[p.len() as int])),
            KeyPart::Exact(_) => tagged_captures(p, key),
        },
{
    assert(p.push(k).drop_last() =~= p);
}

/// The last capture of `p` is tagged within `p`; without it the captures are
/// those of the part of `p` before its wildcard.
pub proof fn lemma_last_tag(p: Path, key: Seq<u64>)
    requires
        tagged_captures(p, key).len() > 0,
        p.len() <= usize::MAX,
    ensures
        1 <= tagged_captures(p, key).last().0 <= p.len(),
        tagged_captures(p, key).drop_last() == tagged_captures(p.take(tagged_captures(p, key).last().0 - 1), key),
    decreases p.len(),
{
    let q = p.drop_last();
    match p.last() {
        KeyPart::Wildcard(w) => {
            assert(p.take(p.len() - 1) =~= q);
        },
        KeyPart::Exact(_) => {
            lemma_last_tag(q, key);
            let t = tagged_captures(q, key).last().0;
            assert(q.take(t - 1) =~= p.take(t - 1));
        },
    }
}

/// When no capture is tagged `d` or more, the captures of `p` are those of
/// its first `d - 1` key parts.
pub proof fn lemma_keep_below(p: Path, key: Seq<u64>, d: int)
    requires
        1 <= d,
        d - 1 <= p.len(),
        p.len() <= usize::MAX,
        tagged_captures(p, key).len() > 0 ==> tagged_captures(p, key).last().0 < d,
    ensures
        tagged_captures(p, key) == tagged_captures(p.take(d - 1), key),
    decreases p.len(),
{
    if p.len() == d - 1 {
        assert(p.take(d - 1) =~= p);
    } else {
        let q = p.drop_last();
        match p.last() {
            KeyPart::Wildcard(w) => {},
            KeyPart::Exact(_) => {
                lemma_keep_below(q, key, d);
                assert(q.take(d - 1) =~= p.take(d - 1));
            },
        }
    }
}

} // verus!
