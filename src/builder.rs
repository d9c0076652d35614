use vstd::prelude::*;

use crate::key_part::KeyPart;
use crate::prefix_tree_map::PrefixTreeMap;
use crate::node::{Node, Path, tree_wf, tree_view, lemma_add_child, lemma_same_shape, child_position, children_of, child_ok};

verus! {

/// The prefix tree map builder: grows a tree one path at a time.
#[derive(Clone)]
#[verifier::reject_recursive_types(E)]
#[verifier::reject_recursive_types(W)]
pub struct PrefixTreeMapBuilder<E, W, V> {
    pub(crate) nodes: Vec<Node<E, W, V>>,
    pub(crate) paths: Ghost<Seq<Seq<KeyPart<E, W>>>>,
    pub(crate) index: Ghost<Map<Seq<KeyPart<E, W>>, int>>,
}

impl<V> View for PrefixTreeMapBuilder<u64, u64, V> {
    type V = Map<Path, V>;

    /// Each inserted path, to the value inserted last at it.
    closed spec fn view(&self) -> Map<Path, V> {
        tree_view(self.nodes@, self.index@)
    }
}

/// The path of exact key parts for a sequence of elements.
pub open spec fn exact_path(key: Seq<u64>) -> Path {
    key.map_values(|e: u64| KeyPart::<u64, u64>::Exact(e))
}

impl<V> PrefixTreeMapBuilder<u64, u64, V> {
    /// The builder's tree is well-formed.
    pub closed spec fn wf(&self) -> bool {
        tree_wf(self.nodes@, self.paths@, self.index@)
    }

    /// Create a new `PrefixTreeMapBuilder`
    pub fn new() -> (r: Self)
        ensures
            r.wf(),
            r@ == Map::<Path, V>::empty(),
    {
        let mut nodes: Vec<Node<u64, u64, V>> = Vec::new();
        nodes.push(Node { key_part: None, value: None, children: Vec::new() });
        let ghost root_path = Seq::<KeyPart<u64, u64>>::empty();
        let ghost paths = seq![root_path];
        let ghost index = map![root_path => 0int];
        let r = PrefixTreeMapBuilder { nodes, paths: Ghost(paths), index: Ghost(index) };
        assert(r@ =~= Map::<Path, V>::empty());
        r
    }

    /// Insert a new value into the prefix tree map at a path of key parts.
    ///
    /// Missing edges are created; inserting at a path that already holds a
    /// value replaces that value.
    pub fn insert(&mut self, key: &[KeyPart<u64, u64>], value: V)
        requires
            old(self).wf(),
        ensures
            final(self).wf(),
            final(self)@ == old(self)@.insert(key@, value),
    {
        let ghost before = self@;
        let mut cur: usize = 0;
        let mut pos: usize = 0;
        assert(key@.take(0) =~= Seq::<KeyPart<u64, u64>>::empty());
        while pos < key.len()
            invariant
                self.wf(),
                self@ == before,
                cur < self.nodes@.len(),
                pos <= key@.len(),
                self.paths@[cur as int] == key@.take(pos as int),
            decreases key.len() - pos,
        {
            let k = key[pos];
            let (i, found) = child_position(&self.nodes, Ghost(self.paths@), Ghost(self.index@), cur, k);
            if found {
                let c = self.nodes[cur].children[i];
                proof {
                    assert(child_ok(self.nodes@, self.paths@, cur as int, children_of(self.nodes@, cur as int)[i as int] as int));
                }
                cur = c;
            } else {
                let t = self.nodes.len();
                let ghost nodes0 = self.nodes@;
                self.nodes.push(Node { key_part: Some(k), value: None, children: Vec::new() });
                self.nodes[cur].children.insert(i, t);
                proof {
                    assert(self.nodes@.len() == self.nodes.len());
                    lemma_add_child(nodes0, self.paths@, self.index@, self.nodes@, cur as int, i as int, k);
                    let np = self.paths@[cur as int].push(k);
                    self.index@ = self.index@.insert(np, t as int);
                    self.paths@ = self.paths@.push(np);
                }
                cur = t;
            }
            pos = pos + 1;
            assert(key@.take(pos as int) =~= key@.take(pos - 1).push(k));
        }
        assert(key@.take(pos as int) =~= key@);
        let ghost nodes0 = self.nodes@;
        self.nodes[cur].value = Some(value);
        proof {
            lemma_same_shape(nodes0, self.nodes@, self.paths@, self.index@);
            assert(self@ =~= before.insert(key@, value));
        }
    }

    /// Insert a new value at the path of exact key parts for `key`.
    pub fn insert_exact(&mut self, key: &[u64], value: V)
        requires
            old(self).wf(),
        ensures
            final(self).wf(),
            final(self)@ == old(self)@.insert(exact_path(key@), value),
    {
        let mut parts: Vec<KeyPart<u64, u64>> = Vec::new();
        let mut i: usize = 0;
        while i < key.len()
            invariant
                i <= key@.len(),
                parts@ == exact_path(key@.take(i as int)),
            decreases key.len() - i,
        {
            parts.push(KeyPart::Exact(key[i]));
            i = i + 1;
            assert(parts@ =~= exact_path(key@.take(i as int)));
        }
        assert(key@.take(i as int) =~= key@);
        self.insert(parts.as_slice(), value);
    }

    /// Build the prefix tree map: the children of every node are already in
    /// ascending order of key part, so the tree is handed over as it stands.
    pub fn build(self) -> (r: PrefixTreeMap<u64, u64, V>)
        requires
            self.wf(),
        ensures
            r.wf(),
            r@ == self@,
    {
        PrefixTreeMap::from_tree(self.nodes, self.paths, self.index)
    }
}

impl<V> Default for PrefixTreeMapBuilder<u64, u64, V> {
    fn default() -> (r: Self)
        ensures
            r.wf(),
            r@ == Map::<Path, V>::empty(),
    {
        Self::new()
    }
}

} // verus!
