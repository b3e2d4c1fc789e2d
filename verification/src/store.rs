//! Digests, nodes and the store that maps one to the other.

use vstd::prelude::*;
use vstd::seq_lib::seq_to_set_is_finite;
use crate::model::Shape;

verus! {

/// The identifier of a node: 32 bytes.
pub type Digest = [u8; 32];

/// A node of the tree: a branch names its two children by their digests, a
/// leaf carries a value.
#[derive(Clone, Copy, Debug, PartialEq, Eq)]
pub enum Node {
    Branch(Digest, Digest),
    Leaf(u32),
}

impl View for Node {
    type V = Shape<Digest>;

    open spec fn view(&self) -> Shape<Digest> {
        match *self {
            Node::Branch(l, r) => Shape::Branch(l, r),
            Node::Leaf(v) => Shape::Leaf(v),
        }
    }
}

/// Whether two digests are the same, byte for byte.
pub fn same_digest(a: &Digest, b: &Digest) -> (same: bool)
    ensures
        same == (*a == *b),
{
    broadcast use vstd::array::group_array_axioms;

    let mut i: usize = 0;
    while i < 32
        invariant
            i <= 32,
            forall|j: int| 0 <= j < i ==> a[j] == b[j],
        decreases 32 - i,
    {
        if a[i] != b[i] {
            return false;
        }
        i += 1;
    }
    assert(*a =~= *b);
    true
}

/// A mapping from digest to node. No digest occurs twice in it.
pub struct Store {
    entries: Vec<(Digest, Node)>,
}

impl View for Store {
    type V = Map<Digest, Shape<Digest>>;

    closed spec fn view(&self) -> Map<Digest, Shape<Digest>> {
        Map::new(
            |d: Digest| exists|i: int| 0 <= i < self.entries@.len() && self.entries@[i].0 == d,
            |d: Digest| self.entries@[self.slot(d)].1@,
        )
    }
}

impl Store {
    #[verifier::type_invariant]
    closed spec fn distinct(&self) -> bool {
        forall|i: int, j: int|
            0 <= i < j < self.entries@.len() ==> self.entries@[i].0 != self.entries@[j].0
    }

    /// An index at which `d` is kept, if it is kept at all.
    closed spec fn slot(&self, d: Digest) -> int {
        choose|i: int| 0 <= i < self.entries@.len() && self.entries@[i].0 == d
    }

    /// The digests in the store, in the order in which they are kept.
    closed spec fn keys(&self) -> Seq<Digest> {
        self.entries@.map_values(|entry: (Digest, Node)| entry.0)
    }

    /// The store holds as many digests as it has entries.
    proof fn lemma_counted(&self)
        requires
            self.distinct(),
        ensures
            self@.dom().finite(),
            self@.dom().len() == self.entries@.len(),
    {
        let keys = self.keys();
        assert(keys.no_duplicates());
        keys.unique_seq_to_set();
        seq_to_set_is_finite(keys);
        assert forall|d: Digest| self@.dom().contains(d) == keys.to_set().contains(d) by {
            if self@.dom().contains(d) {
                let i = self.slot(d);
                assert(keys[i] == d);
            }
            if keys.to_set().contains(d) {
                let i = choose|i: int| 0 <= i < keys.len() && keys[i] == d;
                assert(self.entries@[i].0 == d);
            }
        }
        assert(self@.dom() =~= keys.to_set());
    }

    /// A store that holds nothing.
    pub fn new() -> (store: Store)
        ensures
            store@ == Map::<Digest, Shape<Digest>>::empty(),
    {
        let store = Store { entries: Vec::new() };
        assert(store@ =~= Map::<Digest, Shape<Digest>>::empty());
        store
    }

    /// The number of digests in the store.
    pub fn len(&self) -> (n: usize)
        ensures
            self@.dom().finite(),
            n == self@.dom().len(),
    {
        proof {
            use_type_invariant(self);
            self.lemma_counted();
        }
        self.entries.len()
    }

    /// Where `digest` is kept.
    fn position(&self, digest: &Digest) -> (at: Option<usize>)
        ensures
            match at {
                Some(i) => i < self.entries@.len() && self.entries@[i as int].0 == *digest,
                None => forall|j: int|
                    0 <= j < self.entries@.len() ==> self.entries@[j].0 != *digest,
            },
    {
        let mut i: usize = 0;
        while i < self.entries.len()
            invariant
                i <= self.entries@.len(),
                forall|j: int| 0 <= j < i ==> self.entries@[j].0 != *digest,
            decreases self.entries@.len() - i,
        {
            if same_digest(&self.entries[i].0, digest) {
                return Some(i);
            }
            i += 1;
        }
        None
    }

    /// Whether the store holds a node under `digest`.
    pub fn contains_key(&self, digest: &Digest) -> (held: bool)
        ensures
            held == self@.contains_key(*digest),
    {
        self.position(digest).is_some()
    }

    /// The node kept under `digest`, or `None` where the store holds none.
    pub fn get(&self, digest: &Digest) -> (found: Option<&Node>)
        ensures
            match found {
                Some(node) => self@.contains_key(*digest) && self@[*digest] == node@,
                None => !self@.contains_key(*digest),
            },
    {
        proof {
            use_type_invariant(self);
        }
        match self.position(digest) {
            Some(i) => {
                assert(self.slot(*digest) == i);
                Some(&self.entries[i].1)
            },
            None => None,
        }
    }

    /// Puts `node` under `digest`, in place of the node that was kept there,
    /// if any, and returns that node.
    pub fn insert(&mut self, digest: Digest, node: Node) -> (previous: Option<Node>)
        ensures
            final(self)@ == old(self)@.insert(digest, node@),
            match previous {
                Some(was) => old(self)@.contains_key(digest) && old(self)@[digest] == was@,
                None => !old(self)@.contains_key(digest),
            },
    {
        proof {
            use_type_invariant(&*self);
        }
        let ghost before = *self;
        let at = self.position(&digest);
        let mut entries: Vec<(Digest, Node)> = Vec::new();
        core::mem::swap(&mut self.entries, &mut entries);
        match at {
            Some(i) => {
                assert(before.slot(digest) == i);
                let was = entries[i].1;
                entries.set(i, (digest, node));
                core::mem::swap(&mut self.entries, &mut entries);
                proof {
                    assert forall|d: Digest| #[trigger]
                        self@.contains_key(d) == before@.insert(digest, node@).contains_key(
                            d,
                        ) by {
                        if self@.contains_key(d) {
                            let k = self.slot(d);
                            assert(before.entries@[k].0 == d);
                        }
                        if before@.contains_key(d) {
                            let k = before.slot(d);
                            assert(self.entries@[k].0 == d);
                        }
                        if d == digest {
                            assert(self.entries@[i as int].0 == d);
                        }
                    }
                    assert forall|d: Digest| #[trigger] self@.contains_key(d) implies self@[d]
                        == before@.insert(digest, node@)[d] by {
                        let k = self.slot(d);
                        if d != digest {
                            assert(before.entries@[k].0 == d);
                            assert(before.slot(d) == k);
                        }
                    }
                    assert(self@ =~= before@.insert(digest, node@));
                }
                Some(was)
            },
            None => {
                entries.push((digest, node));
                core::mem::swap(&mut self.entries, &mut entries);
                proof {
                    let last = before.entries@.len() as int;
                    assert forall|d: Digest| #[trigger]
                        self@.contains_key(d) == before@.insert(digest, node@).contains_key(
                            d,
                        ) by {
                        if self@.contains_key(d) {
                            let k = self.slot(d);
                            if k < last {
                                assert(before.entries@[k].0 == d);
                            }
                        }
                        if before@.contains_key(d) {
                            let k = before.slot(d);
                            assert(self.entries@[k].0 == d);
                        }
                        if d == digest {
                            assert(self.entries@[last].0 == d);
                        }
                    }
                    assert forall|d: Digest| #[trigger] self@.contains_key(d) implies self@[d]
                        == before@.insert(digest, node@)[d] by {
                        let k = self.slot(d);
                        if d != digest {
                            assert(before.entries@[k].0 == d);
                            assert(before.slot(d) == k);
                        }
                    }
                    assert(self@ =~= before@.insert(digest, node@));
                }
                None
            },
        }
    }
}

impl Default for Store {
    /// A store that holds nothing.
    fn default() -> (store: Store)
        ensures
            store@ == Map::<Digest, Shape<Digest>>::empty(),
    {
        Store::new()
    }
}

} // verus!
