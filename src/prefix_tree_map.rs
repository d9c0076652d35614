use vstd::prelude::*;

use crate::builder::exact_path;
use crate::key_part::{KeyPart, key_part_lt};
use crate::backtrack::{Entry, dead, live, lemma_descend, lemma_extends_refl, lemma_end_without_value, lemma_exhausted, lemma_found, lemma_keep_below, lemma_last_tag, lemma_no_exact_child, lemma_pop, lemma_start, lemma_tagged_step, lemma_untag, lemma_visited_len, tagged_captures, untag, wild_entries};
use crate::captures::Captures;
use crate::node::{Node, Path, tree_wf, tree_view, children_of, key_of, child_ok, find_exact_child, lemma_prefix_closed, lemma_child_of_path};

verus! {

/// The prefix tree map: a frozen tree whose children are sorted by key part.
#[derive(Clone)]
#[verifier::reject_recursive_types(E)]
#[verifier::reject_recursive_types(W)]
pub struct PrefixTreeMap<E, W, V> {
    pub(crate) nodes: Vec<Node<E, W, V>>,
    pub(crate) paths: Ghost<Seq<Seq<KeyPart<E, W>>>>,
    pub(crate) index: Ghost<Map<Seq<KeyPart<E, W>>, int>>,
}

/// Path `p` matches `key`: it is as long as `key`, and each of its key parts is
/// either the key's element at that position, exactly, or a wildcard.
pub open spec fn path_matches(p: Path, key: Seq<u64>) -> bool {
    &&& p.len() == key.len()
    &&& forall|i: int|
        0 <= i < p.len() ==> #[trigger] p[i] == KeyPart::<u64, u64>::Exact(key[i]) || p[i] is Wildcard
}

/// Lexicographic order on paths by `key_part_lt`: at the first position where
/// they differ, `p` has the smaller key part.
pub open spec fn path_lt(p: Path, q: Path) -> bool {
    exists|i: int| 0 <= i < p.len() && i < q.len() && p.take(i) == q.take(i) && key_part_lt(p[i], q[i])
}

/// `p` is the greatest path of `m`, by `path_lt`, that matches `key`: at the
/// first position where another matching path differs from it, `p` has an
/// exact key part against a wildcard, or the greater wildcard.
pub open spec fn is_best_match<V>(m: Map<Path, V>, key: Seq<u64>, p: Path) -> bool {
    &&& m.contains_key(p)
    &&& path_matches(p, key)
    &&& forall|q: Path| m.contains_key(q) && path_matches(q, key) && q != p ==> #[trigger] path_lt(q, p)
}

/// The path of `m` that a lookup of `key` with wildcards resolves to, if any
/// path of `m` matches `key`.
pub open spec fn best_match<V>(m: Map<Path, V>, key: Seq<u64>) -> Option<Path> {
    if exists|p: Path| is_best_match(m, key, p) {
        Some(choose|p: Path| is_best_match(m, key, p))
    } else {
        None
    }
}

/// The captures along path `p` for `key`: for each wildcard of `p`, in order
/// from the root, its binder and the key's element at that position.
pub open spec fn captures_of(p: Path, key: Seq<u64>) -> Seq<(u64, u64)>
    decreases p.len(),
{
    if p.len() == 0 {
        Seq::empty()
    } else {
        let rest = captures_of(p.drop_last(), key);
        match p.last() {
            KeyPart::Wildcard(w) => rest.push((w, key[p.len() - 1])),
            KeyPart::Exact(_) => rest,
        }
    }
}

/// The bindings `m` with each capture of `caps` inserted, in order.
pub open spec fn bind_all(m: Map<u64, u64>, caps: Seq<(u64, u64)>) -> Map<u64, u64>
    decreases caps.len(),
{
    if caps.len() == 0 {
        m
    } else {
        bind_all(m, caps.drop_last()).insert(caps.last().0, caps.last().1)
    }
}

/// `path_lt` is asymmetric.
pub proof fn lemma_path_lt_asymmetric(p: Path, q: Path)
    requires
        path_lt(p, q),
    ensures
        !path_lt(q, p),
{
    let i = choose|i: int| 0 <= i < p.len() && i < q.len() && p.take(i) == q.take(i) && key_part_lt(p[i], q[i]);
    if path_lt(q, p) {
        let i2 = choose|i2: int| 0 <= i2 < q.len() && i2 < p.len() && q.take(i2) == p.take(i2) && key_part_lt(q[i2], p[i2]);
        if i < i2 {
            assert(p.take(i2)[i] == q.take(i2)[i]);
        } else if i2 < i {
            assert(p.take(i)[i2] == q.take(i)[i2]);
        }
    }
}

/// At most one path is the greatest match.
pub proof fn lemma_best_match_unique<V>(m: Map<Path, V>, key: Seq<u64>, p: Path, q: Path)
    requires
        is_best_match(m, key, p),
        is_best_match(m, key, q),
    ensures
        p == q,
{
    if p != q {
        assert(path_lt(q, p));
        assert(path_lt(p, q));
        lemma_path_lt_asymmetric(p, q);
    }
}

/// Drops the captures tagged `depth` or deeper: what is left are the
/// captures of the first `depth - 1` key parts of `from`.
fn cut_captures(captured: &mut Vec<(usize, u64, u64)>, depth: usize, Ghost(from): Ghost<Path>, Ghost(key): Ghost<Seq<u64>>)
    requires
        1 <= depth,
        depth - 1 <= from.len(),
        from.len() <= usize::MAX,
        old(captured)@ == tagged_captures(from, key),
    ensures
        final(captured)@ == tagged_captures(from.take(depth - 1), key),
{
    let ghost mut l: int = from.len() as int;
    assert(from.take(l) =~= from);
    while captured.len() > 0 && captured[captured.len() - 1].0 >= depth
        invariant
            1 <= depth,
            depth - 1 <= l <= from.len(),
            from.len() <= usize::MAX,
            captured@ == tagged_captures(from.take(l), key),
        decreases captured.len(),
    {
        proof {
            lemma_last_tag(from.take(l), key);
            let t = captured@.last().0 as int;
            assert(from.take(l).take(t - 1) =~= from.take(t - 1));
            l = t - 1;
        }
        captured.pop();
    }
    proof {
        lemma_keep_below(from.take(l), key, depth as int);
        assert(from.take(l).take(depth - 1) =~= from.take(depth - 1));
    }
}

impl<V> View for PrefixTreeMap<u64, u64, V> {
    type V = Map<Path, V>;

    /// Each path of the tree that holds a value, to that value.
    closed spec fn view(&self) -> Map<Path, V> {
        tree_view(self.nodes@, self.index@)
    }
}

impl<V> PrefixTreeMap<u64, u64, V> {
    /// The tree is well-formed; in particular the children of every node are
    /// strictly ascending by key part.
    pub closed spec fn wf(&self) -> bool {
        tree_wf(self.nodes@, self.paths@, self.index@)
    }

    /// The number of nodes of the tree, the root included.
    pub closed spec fn node_count(&self) -> nat {
        self.nodes@.len()
    }

    /// The key parts of the children of node `i`, in their stored order.
    pub closed spec fn child_keys(&self, i: int) -> Seq<KeyPart<u64, u64>> {
        children_of(self.nodes@, i).map_values(|c: usize| key_of(self.nodes@, c as int))
    }

    /// The children of every node are strictly ascending by key part, so at
    /// every node the wildcard children all stand before the exact ones.
    pub proof fn lemma_children_sorted(&self)
        requires
            self.wf(),
        ensures
            forall|i: int, j: int, k: int|
                0 <= i < self.node_count() && 0 <= j < k < self.child_keys(i).len() ==> key_part_lt(
                    #[trigger] self.child_keys(i)[j],
                    #[trigger] self.child_keys(i)[k],
                ) && (self.child_keys(i)[k] is Wildcard ==> self.child_keys(i)[j] is Wildcard),
    {
        assert forall|i: int, j: int, k: int|
            0 <= i < self.node_count() && 0 <= j < k < self.child_keys(i).len() implies key_part_lt(
                #[trigger] self.child_keys(i)[j],
                #[trigger] self.child_keys(i)[k],
            ) && (self.child_keys(i)[k] is Wildcard ==> self.child_keys(i)[j] is Wildcard) by {
            let ch = children_of(self.nodes@, i);
            assert(key_part_lt(key_of(self.nodes@, ch[j] as int), key_of(self.nodes@, ch[k] as int)));
        }
    }

    /// Freezes a well-formed tree.
    pub(crate) fn from_tree(nodes: Vec<Node<u64, u64, V>>, paths: Ghost<Seq<Path>>, index: Ghost<Map<Path, int>>) -> (r: Self)
        requires
            tree_wf(nodes@, paths@, index@),
        ensures
            r.wf(),
            r@ == tree_view(nodes@, index@),
    {
        PrefixTreeMap { nodes, paths, index }
    }

    /// Records on `stack` the wildcard children of `cur`, which come first
    /// among its children, each to be entered with `depth` key elements
    /// consumed; returns how many there are.
    fn push_wildcards(&self, cur: usize, depth: usize, stack: &mut Vec<Entry>) -> (k: usize)
        requires
            self.wf(),
            cur < self.nodes@.len(),
        ensures
            k <= children_of(self.nodes@, cur as int).len(),
            forall|j: int| 0 <= j < k ==> #[trigger] key_of(self.nodes@, children_of(self.nodes@, cur as int)[j] as int) is Wildcard,
            k < children_of(self.nodes@, cur as int).len() ==> !(key_of(self.nodes@, children_of(self.nodes@, cur as int)[k as int] as int) is Wildcard),
            final(stack)@ == old(stack)@ + wild_entries(self.nodes@, cur as int, depth, k as int),
    {
        let ghost nodes = self.nodes@;
        let ghost s0 = stack@;
        let children = &self.nodes[cur].children;
        let mut k: usize = 0;
        while k < children.len()
            invariant
                self.wf(),
                cur < nodes.len(),
                nodes == self.nodes@,
                children@ == children_of(nodes, cur as int),
                k <= children@.len(),
                forall|j: int| 0 <= j < k ==> #[trigger] key_of(nodes, children@[j] as int) is Wildcard,
                stack@ == s0 + wild_entries(nodes, cur as int, depth, k as int),
            ensures
                k <= children@.len(),
                forall|j: int| 0 <= j < k ==> #[trigger] key_of(nodes, children@[j] as int) is Wildcard,
                k < children@.len() ==> !(key_of(nodes, children@[k as int] as int) is Wildcard),
                stack@ == s0 + wild_entries(nodes, cur as int, depth, k as int),
            decreases children.len() - k,
        {
            let c = children[k];
            proof {
                assert(child_ok(nodes, self.paths@, cur as int, children@[k as int] as int));
            }
            match self.nodes[c].key_part {
                Some(KeyPart::Wildcard(_)) => {
                    stack.push((depth, c));
                    k = k + 1;
                    assert(stack@ =~= s0 + wild_entries(nodes, cur as int, depth, k as int));
                },
                _ => {
                    break;
                },
            }
        }
        k
    }

    /// The backtracking search for `key`. It walks down from the root by the
    /// exact children, and records at each node it leaves the wildcard children
    /// on a stack, in ascending order. When the walk fails (no exact child, or
    /// the key ends at a node without a value) it resumes at the top of the
    /// stack, so the greatest pending wildcard is tried first, and the deepest
    /// alternatives before shallower ones. The active captures, each tagged
    /// with its depth, are cut back to the depth resumed at.
    fn backtracking_search(&self, key: &[u64]) -> (r: Option<(usize, Vec<(usize, u64, u64)>)>)
        requires
            self.wf(),
        ensures
            match r {
                Some((n, caps)) => {
                    &&& n < self.nodes@.len()
                    &&& is_best_match(self@, key@, self.paths@[n as int])
                    &&& caps@ == tagged_captures(self.paths@[n as int], key@)
                },
                None => forall|q: Path| #[trigger] self@.contains_key(q) ==> !path_matches(q, key@),
            },
    {
        let ghost nodes = self.nodes@;
        let ghost paths = self.paths@;
        let ghost index = self.index@;
        let mut cur: usize = 0;
        let mut pos: usize = 0;
        let mut wildcards: Vec<Entry> = Vec::new();
        let mut captured: Vec<(usize, u64, u64)> = Vec::new();
        let ghost mut visited: Set<int> = Set::empty();
        proof {
            lemma_start(nodes, paths, index, key@);
            assert(captured@ =~= tagged_captures(paths[0], key@));
        }
        loop
            invariant
                self.wf(),
                nodes == self.nodes@,
                paths == self.paths@,
                index == self.index@,
                tree_wf(nodes, paths, index),
                key@.len() == key.len(),
                live(nodes, paths, index, key@, cur as int, wildcards@, visited),
                pos == paths[cur as int].len(),
                captured@ == tagged_captures(paths[cur as int], key@),
            decreases nodes.len() - visited.len(),
        {
            proof {
                lemma_visited_len(visited, nodes.len() as int);
                lemma_extends_refl(paths[cur as int]);
                assert(!visited.contains(cur as int));
            }
            let ghost anchor = cur as int;
            let ghost visited0 = visited;
            let mut backtrack = false;
            if pos == key.len() {
                if self.nodes[cur].value.is_some() {
                    proof {
                        lemma_found(nodes, paths, index, key@, cur as int, wildcards@, visited);
                    }
                    return Some((cur, captured));
                }
                proof {
                    lemma_end_without_value(nodes, paths, index, key@, cur as int, wildcards@, visited);
                    visited = visited.insert(cur as int);
                }
                backtrack = true;
            } else {
                let ghost s0 = wildcards@;
                let k = self.push_wildcards(cur, pos + 1, &mut wildcards);
                match find_exact_child(&self.nodes, Ghost(paths), Ghost(index), cur, key[pos]) {
                    Some(c) => {
                        proof {
                            let jc = choose|j: int| 0 <= j < children_of(nodes, cur as int).len() && children_of(nodes, cur as int)[j] == c;
                            lemma_descend(nodes, paths, index, key@, cur as int, s0, visited, k as int, jc);
                            lemma_tagged_step(paths[cur as int], KeyPart::Exact(key@[pos as int]), key@);
                            visited = visited.insert(cur as int);
                        }
                        cur = c;
                        pos = pos + 1;
                    },
                    None => {
                        proof {
                            lemma_no_exact_child(nodes, paths, index, key@, cur as int, s0, visited, k as int);
                            visited = visited.insert(cur as int);
                        }
                        backtrack = true;
                    },
                }
            }
            if backtrack {
                let ghost s = wildcards@;
                assert(dead(nodes, paths, index, key@, anchor, s, visited));
                assert(captured@ == tagged_captures(paths[anchor], key@));
                match wildcards.pop() {
                    Some((depth, w)) => {
                        proof {
                            lemma_pop(nodes, paths, index, key@, anchor, s, visited);
                        }
                        let ghost from = paths[anchor];
                        cut_captures(&mut captured, depth, Ghost(from), Ghost(key@));
                        proof {
                            let a = paths[w as int].drop_last();
                            assert(from.take(depth - 1) =~= a);
                            assert(paths[w as int] =~= a.push(key_of(nodes, w as int)));
                            lemma_tagged_step(a, key_of(nodes, w as int), key@);
                        }
                        let binder = match self.nodes[w].key_part {
                            Some(kp) => kp.unwrap_wildcard(),
                            None => vstd::pervasive::unreached(),
                        };
                        captured.push((depth, binder, key[depth - 1]));
                        cur = w;
                        pos = depth;
                    },
                    None => {
                        proof {
                            lemma_exhausted(nodes, paths, index, key@, anchor, s, visited);
                        }
                        return None;
                    },
                }
            }
            proof {
                assert(visited == visited0.insert(anchor));
                assert(visited.len() == visited0.len() + 1);
                assert(nodes.len() - visited.len() < nodes.len() - visited0.len());
                lemma_visited_len(visited, nodes.len() as int);
            }
        }
    }

    /// Runs the backtracking search; on success it yields the node of the
    /// greatest match and its captures, tagged with their depths.
    fn search_root(&self, key: &[u64]) -> (r: Option<(usize, Vec<(usize, u64, u64)>)>)
        requires
            self.wf(),
        ensures
            match best_match(self@, key@) {
                Some(p) => match r {
                    Some((n, caps)) => n < self.nodes@.len() && self.paths@[n as int] == p && untag(caps@) == captures_of(p, key@),
                    None => false,
                },
                None => r is None,
            },
            best_match(self@, key@) is None <==> !exists|p: Path| self@.contains_key(p) && path_matches(p, key@),
    {
        let r = self.backtracking_search(key);
        proof {
            match r {
                Some((n, _)) => {
                    let best = self.paths@[n as int];
                    let chosen = choose|p: Path| is_best_match(self@, key@, p);
                    lemma_best_match_unique(self@, key@, best, chosen);
                    lemma_untag(best, key@);
                },
                None => {
                    if exists|p: Path| is_best_match(self@, key@, p) {
                        let p = choose|p: Path| is_best_match(self@, key@, p);
                        assert(self@.contains_key(p) && path_matches(p, key@));
                    }
                    if exists|p: Path| self@.contains_key(p) && path_matches(p, key@) {
                        let p = choose|p: Path| self@.contains_key(p) && path_matches(p, key@);
                        assert(!path_matches(p, key@));
                    }
                },
            }
        }
        r
    }

    /// Find a value with matching wildcard part.
    ///
    /// Return the value of the greatest path that matches the given key: where
    /// two matching paths first differ, an exact key part wins over a
    /// wildcard, and a greater wildcard over a smaller one.
    pub fn find(&self, key: &[u64]) -> (r: Option<&V>)
        requires
            self.wf(),
        ensures
            match best_match(self@, key@) {
                Some(p) => r is Some && *r->0 == self@[p],
                None => r is None,
            },
            best_match(self@, key@) is None <==> !exists|p: Path| self@.contains_key(p) && path_matches(p, key@),
    {
        match self.search_root(key) {
            Some((n, _)) => {
                proof {
                    assert(self.index@[self.paths@[n as int]] == n);
                }
                self.nodes[n].value.as_ref()
            },
            None => None,
        }
    }

    /// Find a value with matching wildcard part, and store captured matched
    /// wildcard parts in a map.
    ///
    /// The value found is the one `find` returns. On success each wildcard on
    /// the path found binds, in order from the root, its binder to the element
    /// of the key at its position; on failure `captures` is left untouched.
    pub fn find_and_capture<M: Captures<u64, u64>>(&self, key: &[u64], captures: &mut M) -> (r: Option<&V>)
        requires
            self.wf(),
        ensures
            match best_match(self@, key@) {
                Some(p) => {
                    &&& r is Some
                    &&& *r->0 == self@[p]
                    &&& final(captures).bindings() == bind_all(old(captures).bindings(), captures_of(p, key@))
                },
                None => r is None && *final(captures) == *old(captures),
            },
            best_match(self@, key@) is None <==> !exists|p: Path| self@.contains_key(p) && path_matches(p, key@),
    {
        match self.search_root(key) {
            Some((n, caps)) => {
                let ghost start = captures.bindings();
                let mut i: usize = 0;
                while i < caps.len()
                    invariant
                        i <= caps@.len(),
                        captures.bindings() == bind_all(start, untag(caps@).take(i as int)),
                    decreases caps.len() - i,
                {
                    let (_, w, e) = caps[i];
                    captures.insert(w, e);
                    i = i + 1;
                    assert(untag(caps@).take(i as int).drop_last() =~= untag(caps@).take(i - 1));
                }
                assert(untag(caps@).take(i as int) =~= untag(caps@));
                proof {
                    assert(self.index@[self.paths@[n as int]] == n);
                }
                self.nodes[n].value.as_ref()
            },
            None => None,
        }
    }

    /// Find a value without matching wildcard part
    pub fn find_exact(&self, key: &[u64]) -> (r: Option<&V>)
        requires
            self.wf(),
        ensures
            r is Some == self@.contains_key(exact_path(key@)),
            r is Some ==> *r->0 == self@[exact_path(key@)],
    {
        let ghost nodes = self.nodes@;
        let ghost paths = self.paths@;
        let ghost index = self.index@;
        let ghost target = exact_path(key@);
        let mut cur: usize = 0;
        let mut pos: usize = 0;
        assert(target.take(0) =~= Seq::<KeyPart<u64, u64>>::empty());
        while pos < key.len()
            invariant
                self.wf(),
                nodes == self.nodes@,
                paths == self.paths@,
                index == self.index@,
                target == exact_path(key@),
                cur < nodes.len(),
                pos <= key@.len(),
                paths[cur as int] == target.take(pos as int),
            decreases key.len() - pos,
        {
            match find_exact_child(&self.nodes, Ghost(paths), Ghost(index), cur, key[pos]) {
                Some(c) => {
                    proof {
                        let j = choose|j: int| 0 <= j < children_of(nodes, cur as int).len() && children_of(nodes, cur as int)[j] == c;
                        assert(child_ok(nodes, paths, cur as int, children_of(nodes, cur as int)[j] as int));
                        assert(target.take(pos + 1) =~= target.take(pos as int).push(KeyPart::Exact(key@[pos as int])));
                    }
                    cur = c;
                },
                None => {
                    proof {
                        if index.contains_key(target) {
                            lemma_prefix_closed(nodes, paths, index, target, pos + 1);
                            assert(target.take(pos + 1) =~= paths[cur as int].push(KeyPart::Exact(key@[pos as int])));
                            lemma_child_of_path(nodes, paths, index, cur as int, KeyPart::Exact(key@[pos as int]));
                        }
                    }
                    return None;
                },
            }
            pos = pos + 1;
        }
        assert(target.take(pos as int) =~= target);
        self.nodes[cur].value.as_ref()
    }
}

} // verus!
