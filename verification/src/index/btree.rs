//! An ordered index: the entries are kept sorted by their keys, compared
//! byte by byte, and are found by binary search.

use crate::data::log_record::LogRecordPos;
use crate::index::{Entries, Indexer};
use vstd::prelude::*;

verus! {

/// How one key stands to another.
#[derive(Clone, Copy, Debug, PartialEq, Eq, Structural)]
pub enum KeyOrder {
    Less,
    Equal,
    Greater,
}

/// Whether `a` comes before `b`: at the first byte where they differ `a` has
/// the smaller one, or `a` is a proper prefix of `b`.
pub open spec fn spec_key_less(a: Seq<u8>, b: Seq<u8>) -> bool
    decreases a.len(),
{
    if b.len() == 0 {
        false
    } else if a.len() == 0 {
        true
    } else if a[0] != b[0] {
        a[0] < b[0]
    } else {
        spec_key_less(a.skip(1), b.skip(1))
    }
}

/// No key comes before itself.
pub proof fn lemma_key_less_irreflexive(a: Seq<u8>)
    ensures
        !spec_key_less(a, a),
    decreases a.len(),
{
    if a.len() > 0 {
        lemma_key_less_irreflexive(a.skip(1));
    }
}

/// The order is transitive.
pub proof fn lemma_key_less_transitive(a: Seq<u8>, b: Seq<u8>, c: Seq<u8>)
    requires
        spec_key_less(a, b),
        spec_key_less(b, c),
    ensures
        spec_key_less(a, c),
    decreases a.len(),
{
    if a.len() > 0 && a[0] == b[0] && b[0] == c[0] {
        lemma_key_less_transitive(a.skip(1), b.skip(1), c.skip(1));
    }
}

/// Compares two keys byte by byte.
pub fn compare_keys(a: &[u8], b: &[u8]) -> (order: KeyOrder)
    ensures
        match order {
            KeyOrder::Less => spec_key_less(a@, b@),
            KeyOrder::Equal => a@ == b@,
            KeyOrder::Greater => spec_key_less(b@, a@),
        },
{
    let mut i: usize = 0;
    proof {
        assert(a@.skip(0) =~= a@);
        assert(b@.skip(0) =~= b@);
    }
    while i < a.len() && i < b.len()
        invariant
            i <= a@.len(),
            i <= b@.len(),
            a@.take(i as int) == b@.take(i as int),
            spec_key_less(a@, b@) == spec_key_less(a@.skip(i as int), b@.skip(i as int)),
            spec_key_less(b@, a@) == spec_key_less(b@.skip(i as int), a@.skip(i as int)),
        decreases a@.len() - i,
    {
        proof {
            assert(a@.skip(i as int)[0] == a@[i as int]);
            assert(b@.skip(i as int)[0] == b@[i as int]);
            assert(a@.skip(i as int).skip(1) =~= a@.skip(i + 1));
            assert(b@.skip(i as int).skip(1) =~= b@.skip(i + 1));
        }
        if a[i] < b[i] {
            return KeyOrder::Less;
        }
        if a[i] > b[i] {
            return KeyOrder::Greater;
        }
        proof {
            assert(a@.take(i + 1) =~= a@.take(i as int).push(a@[i as int]));
            assert(b@.take(i + 1) =~= b@.take(i as int).push(b@[i as int]));
        }
        i = i + 1;
    }
    if i < b.len() {
        KeyOrder::Less
    } else if i < a.len() {
        KeyOrder::Greater
    } else {
        proof {
            assert(a@ =~= a@.take(i as int));
            assert(b@ =~= b@.take(i as int));
        }
        KeyOrder::Equal
    }
}

/// One entry of the index.
struct Entry {
    key: Vec<u8>,
    pos: LogRecordPos,
}

/// The ordered index.
pub struct BTree {
    entries: Vec<Entry>,
}

impl BTree {
    /// The keys are strictly ascending.
    #[verifier::type_invariant]
    spec fn sorted(self) -> bool {
        forall|i: int, j: int|
            0 <= i < j < self.entries@.len() ==> spec_key_less(
                #[trigger] self.entries@[i].key@,
                #[trigger] self.entries@[j].key@,
            )
    }

    /// Whether entry `i` holds `key`.
    spec fn holds(self, i: int, key: Seq<u8>) -> bool {
        0 <= i < self.entries@.len() && self.entries@[i].key@ == key
    }

    /// An empty index.
    pub fn new() -> (tree: BTree)
        ensures
            tree@ == Entries::empty(),
    {
        let tree = BTree { entries: Vec::new() };
        assert(tree@ =~= Entries::empty());
        tree
    }

    /// The entry that holds a key is the only one.
    proof fn lemma_unique(self, i: int, j: int)
        requires
            self.sorted(),
            0 <= i < self.entries@.len(),
            0 <= j < self.entries@.len(),
            self.entries@[i].key@ == self.entries@[j].key@,
        ensures
            i == j,
    {
        lemma_key_less_irreflexive(self.entries@[i].key@);
        if i < j {
            assert(spec_key_less(self.entries@[i].key@, self.entries@[j].key@));
        } else if j < i {
            assert(spec_key_less(self.entries@[j].key@, self.entries@[i].key@));
        }
    }

    /// Finds where `key` is, or where it belongs: the index of the first
    /// entry whose key does not come before it.
    fn locate(&self, key: &[u8]) -> (res: (usize, bool))
        ensures
            res.0 <= self.entries@.len(),
            res.1 ==> self.holds(res.0 as int, key@),
            !res.1 ==> forall|i: int| !self.holds(i, key@),
            forall|i: int| 0 <= i < res.0 ==> spec_key_less(#[trigger] self.entries@[i].key@, key@),
            forall|i: int|
                res.0 + (if res.1 { 1int } else { 0int }) <= i < self.entries@.len() ==> spec_key_less(
                    key@,
                    #[trigger] self.entries@[i].key@,
                ),
    {
        proof {
            use_type_invariant(self);
        }
        let mut low: usize = 0;
        let mut high: usize = self.entries.len();
        while low < high
            invariant
                self.sorted(),
                low <= high <= self.entries@.len(),
                forall|i: int| 0 <= i < low ==> spec_key_less(#[trigger] self.entries@[i].key@, key@),
                forall|i: int|
                    high <= i < self.entries@.len() ==> spec_key_less(
                        key@,
                        #[trigger] self.entries@[i].key@,
                    ),
            decreases high - low,
        {
            let mid: usize = low + (high - low) / 2;
            match compare_keys(self.entries[mid].key.as_slice(), key) {
                KeyOrder::Less => {
                    proof {
                        assert forall|i: int| 0 <= i < mid + 1 implies spec_key_less(
                            #[trigger] self.entries@[i].key@,
                            key@,
                        ) by {
                            if i < mid {
                                assert(spec_key_less(
                                    self.entries@[i].key@,
                                    self.entries@[mid as int].key@,
                                ));
                                lemma_key_less_transitive(
                                    self.entries@[i].key@,
                                    self.entries@[mid as int].key@,
                                    key@,
                                );
                            }
                        }
                    }
                    low = mid + 1;
                },
                KeyOrder::Greater => {
                    proof {
                        assert forall|i: int| mid <= i < self.entries@.len() implies spec_key_less(
                            key@,
                            #[trigger] self.entries@[i].key@,
                        ) by {
                            if mid < i {
                                assert(spec_key_less(
                                    self.entries@[mid as int].key@,
                                    self.entries@[i].key@,
                                ));
                                lemma_key_less_transitive(
                                    key@,
                                    self.entries@[mid as int].key@,
                                    self.entries@[i].key@,
                                );
                            }
                        }
                    }
                    high = mid;
                },
                KeyOrder::Equal => {
                    proof {
                        assert forall|i: int| 0 <= i < mid implies spec_key_less(
                            #[trigger] self.entries@[i].key@,
                            key@,
                        ) by {
                            assert(spec_key_less(
                                self.entries@[i].key@,
                                self.entries@[mid as int].key@,
                            ));
                        }
                        assert forall|i: int| mid + 1 <= i < self.entries@.len() implies spec_key_less(
                            key@,
                            #[trigger] self.entries@[i].key@,
                        ) by {
                            assert(spec_key_less(
                                self.entries@[mid as int].key@,
                                self.entries@[i].key@,
                            ));
                        }
                    }
                    return (mid, true);
                },
            }
        }
        proof {
            assert forall|i: int| !self.holds(i, key@) by {
                lemma_key_less_irreflexive(key@);
                if self.holds(i, key@) {
                    if i < low {
                        assert(spec_key_less(self.entries@[i].key@, key@));
                    } else {
                        assert(spec_key_less(key@, self.entries@[i].key@));
                    }
                }
            }
        }
        (low, false)
    }
}

impl Indexer for BTree {
    closed spec fn view(&self) -> Entries {
        Map::new(
            |k: Seq<u8>| exists|i: int| self.holds(i, k),
            |k: Seq<u8>| self.entries@[choose|i: int| self.holds(i, k)].pos,
        )
    }

    fn put(&mut self, key: Vec<u8>, pos: LogRecordPos) -> (ok: bool)
        ensures
            ok,
    {
        let (at, found) = self.locate(key.as_slice());
        proof {
            use_type_invariant(&*self);
        }
        let ghost before = *self;
        let ghost k = key@;
        let mut entries: Vec<Entry> = Vec::new();
        core::mem::swap(&mut entries, &mut self.entries);
        if found {
            entries[at].pos = pos;
        } else {
            entries.insert(at, Entry { key, pos });
        }
        core::mem::swap(&mut entries, &mut self.entries);
        proof {
            let after = *self;
            let shift = |i: int| if found || i < at { i } else { i + 1 };
            assert(after.holds(at as int, k));
            assert forall|i: int, x: Seq<u8>| before.holds(i, x) implies after.holds(
                shift(i),
                x,
            ) by {}
            assert forall|x: Seq<u8>| #[trigger] after@.contains_key(x) <==> before@.insert(
                k,
                pos,
            ).contains_key(x) by {
                if after@.contains_key(x) {
                    let j = choose|j: int| after.holds(j, x);
                    if j != at {
                        let i = if found || j < at { j } else { j - 1 };
                        assert(before.holds(i, x));
                    }
                }
                if before@.contains_key(x) {
                    let i = choose|i: int| before.holds(i, x);
                    assert(after.holds(shift(i), x));
                }
            }
            assert forall|x: Seq<u8>| #[trigger] after@.contains_key(x) implies after@[x]
                == before@.insert(k, pos)[x] by {
                let j = choose|j: int| after.holds(j, x);
                if x == k {
                    after.lemma_unique(j, at as int);
                } else {
                    let i = choose|i: int| before.holds(i, x);
                    assert(after.holds(shift(i), x));
                    after.lemma_unique(j, shift(i));
                }
            }
            assert(after@ =~= before@.insert(k, pos));
        }
        true
    }

    fn get(&self, key: Vec<u8>) -> (pos: Option<LogRecordPos>) {
        let (at, found) = self.locate(key.as_slice());
        proof {
            use_type_invariant(self);
        }
        if found {
            proof {
                let j = choose|j: int| self.holds(j, key@);
                self.lemma_unique(j, at as int);
            }
            Some(self.entries[at].pos)
        } else {
            None
        }
    }

    fn delete(&mut self, key: Vec<u8>) -> (removed: bool) {
        let (at, found) = self.locate(key.as_slice());
        proof {
            use_type_invariant(&*self);
        }
        let ghost before = *self;
        let ghost k = key@;
        if found {
            let mut entries: Vec<Entry> = Vec::new();
            core::mem::swap(&mut entries, &mut self.entries);
            entries.remove(at);
            core::mem::swap(&mut entries, &mut self.entries);
            proof {
                let after = *self;
                let shift = |i: int| if i < at { i } else { i - 1 };
                assert forall|x: Seq<u8>| #[trigger] after@.contains_key(x) <==> before@.remove(
                    k,
                ).contains_key(x) by {
                    if after@.contains_key(x) {
                        let j = choose|j: int| after.holds(j, x);
                        let i = if j < at { j } else { j + 1 };
                        assert(before.holds(i, x));
                        if x == k {
                            before.lemma_unique(i, at as int);
                        }
                    }
                    if before@.remove(k).contains_key(x) {
                        let i = choose|i: int| before.holds(i, x);
                        assert(after.holds(shift(i), x));
                    }
                }
                assert forall|x: Seq<u8>| #[trigger] after@.contains_key(x) implies after@[x]
                    == before@.remove(k)[x] by {
                    let j = choose|j: int| after.holds(j, x);
                    let i = choose|i: int| before.holds(i, x);
                    assert(after.holds(shift(i), x));
                    after.lemma_unique(j, shift(i));
                }
                assert(after@ =~= before@.remove(k));
            }
        } else {
            assert(self@ =~= self@.remove(k));
        }
        found
    }
}

} // verus!
