use vstd::prelude::*;

use crate::builder::exact_path;
use crate::key_part::KeyPart;
use crate::node::Path;
use crate::prefix_tree_map::{best_match, captures_of, is_best_match, lemma_best_match_unique, path_lt, path_matches};

verus! {

/// The first position at which two different paths of one length differ.
proof fn lemma_first_difference(q: Path, p: Path) -> (i: int)
    requires
        q.len() == p.len(),
        q != p,
    ensures
        0 <= i < q.len(),
        q.take(i) == p.take(i),
        q[i] != p[i],
    decreases q.len(),
{
    if q.len() == 0 {
        assert(q =~= p);
        0
    } else if q.drop_last() == p.drop_last() {
        if q.last() == p.last() {
            assert(q =~= q.drop_last().push(q.last()));
            assert(p =~= p.drop_last().push(p.last()));
        }
        let i = q.len() - 1;
        assert(q.take(i) =~= q.drop_last());
        assert(p.take(i) =~= p.drop_last());
        i
    } else {
        let i = lemma_first_difference(q.drop_last(), p.drop_last());
        assert(q.take(i) =~= q.drop_last().take(i));
        assert(p.take(i) =~= p.drop_last().take(i));
        i
    }
}

/// A key's exact path, where the map holds it, is the greatest match of the
/// key: an exact key part wins over any wildcard.
pub proof fn lemma_exact_path_is_best<V>(m: Map<Path, V>, key: Seq<u64>)
    requires
        m.contains_key(exact_path(key)),
    ensures
        best_match(m, key) == Some(exact_path(key)),
{
    let p = exact_path(key);
    assert forall|q: Path| m.contains_key(q) && path_matches(q, key) && q != p implies #[trigger] path_lt(q, p) by {
        let i = lemma_first_difference(q, p);
        assert(q[i] is Wildcard);
    }
    assert(is_best_match(m, key, p));
    let chosen = choose|r: Path| is_best_match(m, key, r);
    lemma_best_match_unique(m, key, p, chosen);
}

/// Inserting `v2` at a path that holds `v1` makes that path hold `v2` and
/// leaves every other path as it was. An exact lookup of the path then finds
/// `v2`, and so does a lookup with wildcards of a key whose exact path it is.
pub proof fn lemma_overwrite<V>(m: Map<Path, V>, path: Path, v1: V, v2: V)
    requires
        m.contains_key(path),
        m[path] == v1,
    ensures
        m.insert(path, v2).contains_key(path),
        m.insert(path, v2)[path] == v2,
        forall|q: Path| q != path ==> (#[trigger] m.insert(path, v2).contains_key(q) == m.contains_key(q)),
        forall|q: Path| q != path && m.contains_key(q) ==> #[trigger] m.insert(path, v2)[q] == m[q],
        forall|key: Seq<u64>| exact_path(key) == path ==> #[trigger] best_match(m.insert(path, v2), key) == Some(path),
{
    assert forall|key: Seq<u64>| exact_path(key) == path implies #[trigger] best_match(m.insert(path, v2), key) == Some(path) by {
        lemma_exact_path_is_best(m.insert(path, v2), key);
    }
}

/// Two keys with the same exact path are the same key.
pub proof fn lemma_exact_path_injective(a: Seq<u64>, b: Seq<u64>)
    requires
        exact_path(a) == exact_path(b),
    ensures
        a == b,
{
    assert(a.len() == exact_path(a).len());
    assert(b.len() == exact_path(b).len());
    assert forall|i: int| 0 <= i < a.len() implies a[i] == b[i] by {
        assert(exact_path(a)[i] == KeyPart::<u64, u64>::Exact(a[i]));
        assert(exact_path(b)[i] == KeyPart::<u64, u64>::Exact(b[i]));
    }
    assert(a =~= b);
}

/// After inserting `v` at the exact path of `key`, an exact lookup of `key`
/// finds `v`, and an exact lookup of any other key whose exact path was not
/// in the map still finds nothing.
pub proof fn lemma_exact_round_trip<V>(m: Map<Path, V>, key: Seq<u64>, v: V, other: Seq<u64>)
    ensures
        m.insert(exact_path(key), v).contains_key(exact_path(key)),
        m.insert(exact_path(key), v)[exact_path(key)] == v,
        other != key && !m.contains_key(exact_path(other)) ==> !m.insert(exact_path(key), v).contains_key(
            exact_path(other),
        ),
{
    if exact_path(other) == exact_path(key) {
        lemma_exact_path_injective(other, key);
    }
}

/// When one path alone of `m` matches `key`, a lookup with wildcards resolves
/// to it, whatever other branches the tree holds: a greater sibling wildcard
/// that leads to no match is tried and given up.
pub proof fn lemma_single_match<V>(m: Map<Path, V>, key: Seq<u64>, p: Path)
    requires
        m.contains_key(p),
        path_matches(p, key),
        forall|q: Path| #[trigger] m.contains_key(q) && path_matches(q, key) ==> q == p,
    ensures
        best_match(m, key) == Some(p),
{
    assert(is_best_match(m, key, p));
    let chosen = choose|r: Path| is_best_match(m, key, r);
    lemma_best_match_unique(m, key, p, chosen);
}

/// Of two matching paths that agree up to a position where both have a
/// wildcard, the one with the greater binder there wins.
pub proof fn lemma_greater_wildcard_wins<V>(m: Map<Path, V>, key: Seq<u64>, lo: Path, hi: Path, i: int)
    requires
        m.contains_key(lo),
        m.contains_key(hi),
        path_matches(lo, key),
        path_matches(hi, key),
        0 <= i < key.len(),
        lo.take(i) == hi.take(i),
        lo[i] is Wildcard,
        hi[i] is Wildcard,
        lo[i]->Wildcard_0 < hi[i]->Wildcard_0,
    ensures
        best_match(m, key) != Some(lo),
{
    assert(path_lt(lo, hi));
    if best_match(m, key) == Some(lo) {
        let chosen = choose|r: Path| is_best_match(m, key, r);
        assert(is_best_match(m, key, chosen));
        assert(path_lt(hi, lo));
        crate::prefix_tree_map::lemma_path_lt_asymmetric(lo, hi);
    }
}

/// The number of wildcards on a path.
pub open spec fn wildcard_count(p: Path) -> nat
    decreases p.len(),
{
    if p.len() == 0 {
        0
    } else {
        wildcard_count(p.drop_last()) + if p.last() is Wildcard {
            1nat
        } else {
            0nat
        }
    }
}

/// The captures of a path hold one entry per wildcard of the path, in order
/// from the root: the wildcard at position `i` binds its binder to the key's
/// element at `i`.
pub proof fn lemma_captures_per_wildcard(p: Path, key: Seq<u64>)
    requires
        p.len() <= key.len(),
    ensures
        captures_of(p, key).len() == wildcard_count(p),
        forall|i: int|
            0 <= i < p.len() && p[i] is Wildcard ==> #[trigger] captures_of(p, key)[wildcard_count(p.take(i)) as int]
                == (p[i]->Wildcard_0, key[i]),
    decreases p.len(),
{
    if p.len() > 0 {
        let q = p.drop_last();
        lemma_captures_per_wildcard(q, key);
        assert forall|i: int| 0 <= i < p.len() && p[i] is Wildcard implies #[trigger] captures_of(p, key)[wildcard_count(p.take(i)) as int]
            == (p[i]->Wildcard_0, key[i]) by {
            if i < p.len() - 1 {
                assert(p.take(i) =~= q.take(i));
                assert(q[i] == p[i]);
                lemma_count_prefix_bound(q, i);
                assert(captures_of(q, key)[wildcard_count(q.take(i)) as int] == (q[i]->Wildcard_0, key[i]));
            } else {
                assert(p.take(i) =~= q);
            }
        }
    }
}

/// Before a wildcard at `i`, fewer wildcards stand than on the whole path.
proof fn lemma_count_prefix_bound(p: Path, i: int)
    requires
        0 <= i < p.len(),
        p[i] is Wildcard,
    ensures
        wildcard_count(p.take(i)) < wildcard_count(p),
    decreases p.len(),
{
    if i == p.len() - 1 {
        assert(p.take(i) =~= p.drop_last());
    } else {
        assert(p.drop_last()[i] == p[i]);
        lemma_count_prefix_bound(p.drop_last(), i);
        assert(p.take(i) =~= p.drop_last().take(i));
    }
}

} // verus!
