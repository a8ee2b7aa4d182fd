//! An ordered map from byte-string keys to versioned values.

use vstd::prelude::*;

use crate::raft::log::copy_bytes;
use crate::seqs::{asymmetric, lists, strictly_sorted, total_order};

verus! {

/// A stored value and how often its key was written since it was created.
#[derive(Debug, PartialEq, Eq)]
pub struct ValueEntry {
    pub value: Vec<u8>,
    pub version: u64,
}

/// What a [`ValueEntry`] holds.
pub struct ValueView {
    pub value: Seq<u8>,
    pub version: u64,
}

impl View for ValueEntry {
    type V = ValueView;

    open spec fn view(&self) -> ValueView {
        ValueView { value: self.value@, version: self.version }
    }
}

/// Dictionary order of byte strings.
pub open spec fn lex_lt(a: Seq<u8>, b: Seq<u8>) -> bool
    decreases a.len(),
{
    if b.len() == 0 {
        false
    } else if a.len() == 0 {
        true
    } else if a[0] != b[0] {
        a[0] < b[0]
    } else {
        lex_lt(a.skip(1), b.skip(1))
    }
}

/// Whether one key comes before another.
pub open spec fn key_lt() -> spec_fn(Seq<u8>, Seq<u8>) -> bool {
    |a: Seq<u8>, b: Seq<u8>| lex_lt(a, b)
}

proof fn lemma_lex_asymmetric(a: Seq<u8>, b: Seq<u8>)
    requires
        lex_lt(a, b),
    ensures
        !lex_lt(b, a),
    decreases a.len(),
{
    if a.len() > 0 && b.len() > 0 && a[0] == b[0] {
        lemma_lex_asymmetric(a.skip(1), b.skip(1));
    }
}

proof fn lemma_lex_transitive(a: Seq<u8>, b: Seq<u8>, c: Seq<u8>)
    requires
        lex_lt(a, b),
        lex_lt(b, c),
    ensures
        lex_lt(a, c),
    decreases a.len(),
{
    if a.len() > 0 && b.len() > 0 && c.len() > 0 && a[0] == b[0] && b[0] == c[0] {
        lemma_lex_transitive(a.skip(1), b.skip(1), c.skip(1));
    }
}

/// No two keys come before each other.
pub proof fn lemma_key_lt_asymmetric()
    ensures
        asymmetric(key_lt()),
{
    assert forall|a: Seq<u8>, b: Seq<u8>| #[trigger] key_lt()(a, b) implies !key_lt()(b, a) by {
        lemma_lex_asymmetric(a, b);
    }
}

proof fn lemma_lex_total(a: Seq<u8>, b: Seq<u8>)
    ensures
        a == b || lex_lt(a, b) || lex_lt(b, a),
    decreases a.len(),
{
    if a.len() > 0 && b.len() > 0 && a[0] == b[0] {
        lemma_lex_total(a.skip(1), b.skip(1));
        if a.skip(1) == b.skip(1) {
            assert forall|i: int| 0 <= i < a.len() implies a[i] == b[i] by {
                if i > 0 {
                    assert(a.skip(1)[i - 1] == b.skip(1)[i - 1]);
                }
            }
            assert(a.skip(1).len() == b.skip(1).len());
            assert(a =~= b);
        }
    } else if a.len() == 0 && b.len() == 0 {
        assert(a =~= b);
    }
}

/// Dictionary order is total.
pub proof fn lemma_key_lt_total()
    ensures
        total_order(key_lt()),
{
    lemma_key_lt_asymmetric();
    assert forall|a: Seq<u8>, b: Seq<u8>, c: Seq<u8>| #[trigger]
        key_lt()(a, b) && #[trigger] key_lt()(b, c) implies key_lt()(a, c) by {
        lemma_lex_transitive(a, b, c);
    }
    assert forall|a: Seq<u8>, b: Seq<u8>| a != b implies #[trigger] key_lt()(a, b) || key_lt()(
        b,
        a,
    ) by {
        lemma_lex_total(a, b);
    }
}

/// How two keys stand to each other.
enum KeyOrder {
    Before,
    Same,
    After,
}

/// Compares two keys in dictionary order.
fn order_keys(a: &[u8], b: &[u8]) -> (r: KeyOrder)
    ensures
        match r {
            KeyOrder::Before => lex_lt(a@, b@),
            KeyOrder::Same => a@ == b@,
            KeyOrder::After => lex_lt(b@, a@),
        },
{
    let mut i: usize = 0;
    assert(a@.skip(0) =~= a@);
    assert(b@.skip(0) =~= b@);
    while i < a.len() && i < b.len()
        invariant
            i <= a@.len(),
            i <= b@.len(),
            a@.take(i as int) =~= b@.take(i as int),
            lex_lt(a@, b@) == lex_lt(a@.skip(i as int), b@.skip(i as int)),
            lex_lt(b@, a@) == lex_lt(b@.skip(i as int), a@.skip(i as int)),
        decreases a@.len() - i,
    {
        proof {
            assert(a@.skip(i as int)[0] == a@[i as int]);
            assert(b@.skip(i as int)[0] == b@[i as int]);
            assert(a@.skip(i as int).skip(1) =~= a@.skip(i + 1));
            assert(b@.skip(i as int).skip(1) =~= b@.skip(i + 1));
        }
        if a[i] < b[i] {
            return KeyOrder::Before;
        }
        if a[i] > b[i] {
            return KeyOrder::After;
        }
        i += 1;
    }
    if i < b.len() {
        KeyOrder::Before
    } else if i < a.len() {
        KeyOrder::After
    } else {
        assert(a@.take(i as int) =~= a@);
        assert(b@.take(i as int) =~= b@);
        KeyOrder::Same
    }
}

/// A key and what is stored under it.
#[derive(Debug, PartialEq, Eq)]
pub struct Slot {
    pub key: Vec<u8>,
    pub entry: ValueEntry,
}

/// The keys of slots, in order.
pub open spec fn keys_of(slots: Seq<Slot>) -> Seq<Seq<u8>> {
    Seq::new(slots.len(), |i: int| slots[i].key@)
}

/// What is stored under each key.
pub open spec fn map_of(slots: Seq<Slot>) -> Map<Seq<u8>, ValueView> {
    Map::new(
        |k: Seq<u8>| keys_of(slots).contains(k),
        |k: Seq<u8>| slots[keys_of(slots).index_of(k)].entry@,
    )
}

/// In sorted slots every key is found at its place.
proof fn lemma_map_at(slots: Seq<Slot>, i: int)
    requires
        strictly_sorted(keys_of(slots), key_lt()),
        0 <= i < slots.len(),
    ensures
        map_of(slots).contains_key(slots[i].key@),
        map_of(slots)[slots[i].key@] == slots[i].entry@,
{
    let keys = keys_of(slots);
    let k = slots[i].key@;
    assert(keys[i] == k);
    assert(keys.contains(k));
    let j = keys.index_of(k);
    if i < j {
        assert(key_lt()(keys[i], keys[j]));
        lemma_lex_asymmetric(k, k);
    }
    if j < i {
        assert(key_lt()(keys[j], keys[i]));
        lemma_lex_asymmetric(k, k);
    }
}

/// Two sets of sorted slots hold the same map where each key of one stands in
/// the other with the same value.
proof fn lemma_same_map(slots: Seq<Slot>, map: Map<Seq<u8>, ValueView>)
    requires
        strictly_sorted(keys_of(slots), key_lt()),
        forall|i: int|
            0 <= i < slots.len() ==> map.contains_key((#[trigger] slots[i]).key@)
                && map[slots[i].key@] == slots[i].entry@,
        forall|k: Seq<u8>| #[trigger]
            map.contains_key(k) ==> exists|i: int|
                0 <= i < slots.len() && (#[trigger] slots[i]).key@ == k,
    ensures
        map_of(slots) == map,
{
    let m = map_of(slots);
    assert forall|k: Seq<u8>| m.contains_key(k) == map.contains_key(k) by {
        if m.contains_key(k) {
            let i = keys_of(slots).index_of(k);
            assert(slots[i].key@ == k);
        }
        if map.contains_key(k) {
            let i = choose|i: int| 0 <= i < slots.len() && (#[trigger] slots[i]).key@ == k;
            assert(keys_of(slots)[i] == k);
        }
    }
    assert forall|k: Seq<u8>| m.contains_key(k) implies #[trigger] m[k] == map[k] by {
        let i = keys_of(slots).index_of(k);
        assert(slots[i].key@ == k);
    }
    assert(m =~= map);
}

/// Slots in strictly ascending order of their keys.
#[derive(Debug, PartialEq, Eq)]
pub struct OrderedStore {
    slots: Vec<Slot>,
}

impl View for OrderedStore {
    type V = Map<Seq<u8>, ValueView>;

    closed spec fn view(&self) -> Map<Seq<u8>, ValueView> {
        map_of(self.slots@)
    }
}

impl OrderedStore {
    #[verifier::type_invariant]
    spec fn sorted(&self) -> bool {
        strictly_sorted(keys_of(self.slots@), key_lt())
    }

    /// A map without keys.
    pub fn new() -> (r: Self)
        ensures
            r@ == Map::<Seq<u8>, ValueView>::empty(),
    {
        let r = OrderedStore { slots: Vec::new() };
        assert(r@ =~= Map::<Seq<u8>, ValueView>::empty());
        r
    }

    /// The place of `key`, or where it would stand.
    fn find(&self, key: &[u8]) -> (r: (usize, bool))
        ensures
            r.0 <= self.slots@.len(),
            forall|i: int| 0 <= i < r.0 ==> lex_lt((#[trigger] self.slots@[i]).key@, key@),
            r.1 ==> r.0 < self.slots@.len() && self.slots@[r.0 as int].key@ == key@,
            !r.1 ==> forall|i: int|
                r.0 <= i < self.slots@.len() ==> lex_lt(key@, (#[trigger] self.slots@[i]).key@),
    {
        proof {
            use_type_invariant(self);
        }
        let ghost keys = keys_of(self.slots@);
        let mut lo: usize = 0;
        let mut hi: usize = self.slots.len();
        while lo < hi
            invariant
                lo <= hi <= self.slots@.len(),
                keys == keys_of(self.slots@),
                strictly_sorted(keys, key_lt()),
                forall|i: int| 0 <= i < lo ==> lex_lt((#[trigger] self.slots@[i]).key@, key@),
                forall|i: int|
                    hi <= i < self.slots@.len() ==> lex_lt(key@, (#[trigger] self.slots@[i]).key@),
            decreases hi - lo,
        {
            let mid: usize = lo + (hi - lo) / 2;
            match order_keys(self.slots[mid].key.as_slice(), key) {
                KeyOrder::Before => {
                    proof {
                        assert forall|i: int| 0 <= i <= mid implies lex_lt(
                            (#[trigger] self.slots@[i]).key@,
                            key@,
                        ) by {
                            if i < mid {
                                assert(key_lt()(keys[i], keys[mid as int]));
                                lemma_lex_transitive(keys[i], keys[mid as int], key@);
                            }
                        }
                    }
                    lo = mid + 1;
                },
                KeyOrder::After => {
                    proof {
                        assert forall|i: int| mid <= i < self.slots@.len() implies lex_lt(
                            key@,
                            (#[trigger] self.slots@[i]).key@,
                        ) by {
                            if i > mid {
                                assert(key_lt()(keys[mid as int], keys[i]));
                                lemma_lex_transitive(key@, keys[mid as int], keys[i]);
                            }
                        }
                    }
                    hi = mid;
                },
                KeyOrder::Same => {
                    proof {
                        assert forall|i: int| 0 <= i < mid implies lex_lt(
                            (#[trigger] self.slots@[i]).key@,
                            key@,
                        ) by {
                            assert(key_lt()(keys[i], keys[mid as int]));
                        }
                    }
                    return (mid, true);
                },
            }
        }
        (lo, false)
    }

    /// What is stored under `key`.
    pub fn get(&self, key: &[u8]) -> (r: Option<&ValueEntry>)
        ensures
            match r {
                Some(entry) => self@.contains_key(key@) && entry@ == self@[key@],
                None => !self@.contains_key(key@),
            },
    {
        proof {
            use_type_invariant(self);
        }
        let (at, found): (usize, bool) = self.find(key);
        if found {
            proof {
                lemma_map_at(self.slots@, at as int);
            }
            Some(&self.slots[at].entry)
        } else {
            proof {
                self.lemma_absent(key@, at as int);
            }
            None
        }
    }

    proof fn lemma_absent(&self, key: Seq<u8>, at: int)
        requires
            0 <= at <= self.slots@.len(),
            forall|i: int| 0 <= i < at ==> lex_lt((#[trigger] self.slots@[i]).key@, key),
            forall|i: int|
                at <= i < self.slots@.len() ==> lex_lt(key, (#[trigger] self.slots@[i]).key@),
        ensures
            !self@.contains_key(key),
    {
        if self@.contains_key(key) {
            let i = keys_of(self.slots@).index_of(key);
            assert(self.slots@[i].key@ == key);
            lemma_lex_asymmetric(key, key);
        }
    }

    /// Stores `entry` under `key`.
    pub fn insert(&mut self, key: Vec<u8>, entry: ValueEntry)
        ensures
            final(self)@ == old(self)@.insert(key@, entry@),
    {
        proof {
            use_type_invariant(&*self);
        }
        let (at, found): (usize, bool) = self.find(key.as_slice());
        let ghost before = self.slots@;
        let ghost old_keys = keys_of(before);
        let ghost expected = self@.insert(key@, entry@);
        let slot = Slot { key, entry };
        let ghost after = if found {
            before.update(at as int, slot)
        } else {
            before.insert(at as int, slot)
        };
        proof {
            let keys = keys_of(after);
            if found {
                assert(keys =~= old_keys);
            } else {
                assert forall|i: int, j: int| 0 <= i < j < keys.len() implies key_lt()(
                    #[trigger] keys[i],
                    #[trigger] keys[j],
                ) by {
                    let oi = if i < at {
                        i
                    } else {
                        i - 1
                    };
                    let oj = if j < at {
                        j
                    } else {
                        j - 1
                    };
                    if i != at && j != at {
                        assert(key_lt()(old_keys[oi], old_keys[oj]));
                        assert(after[i] == before[oi]);
                        assert(after[j] == before[oj]);
                    } else if i == at {
                        assert(after[j] == before[oj]);
                    } else {
                        assert(after[i] == before[oi]);
                    }
                }
            }
            assert(strictly_sorted(keys, key_lt()));
            assert forall|i: int| 0 <= i < after.len() implies expected.contains_key(
                (#[trigger] after[i]).key@,
            ) && expected[after[i].key@] == after[i].entry@ by {
                if i != at {
                    let o = if found || i < at {
                        i
                    } else {
                        i - 1
                    };
                    assert(after[i] == before[o]);
                    lemma_map_at(before, o);
                    if after[i].key@ == key@ {
                        if found && i > at {
                            assert(key_lt()(old_keys[at as int], old_keys[i]));
                        }
                        lemma_lex_asymmetric(key@, key@);
                    }
                }
            }
            assert forall|k: Seq<u8>| #[trigger] expected.contains_key(k) implies exists|i: int|
                0 <= i < after.len() && (#[trigger] after[i]).key@ == k by {
                if k == key@ {
                    assert(after[at as int].key@ == k);
                } else {
                    let o = old_keys.index_of(k);
                    assert(before[o].key@ == k);
                    let i = if found || o < at {
                        o
                    } else {
                        o + 1
                    };
                    assert(after[i].key@ == k);
                }
            }
            lemma_same_map(after, expected);
        }
        let mut slots: Vec<Slot> = Vec::new();
        core::mem::swap(&mut slots, &mut self.slots);
        if found {
            slots[at] = slot;
        } else {
            slots.insert(at, slot);
        }
        assert(slots@ =~= after);
        self.slots = slots;
    }

    /// Removes `key` and what is stored under it.
    pub fn remove(&mut self, key: &[u8])
        ensures
            final(self)@ == old(self)@.remove(key@),
    {
        proof {
            use_type_invariant(&*self);
        }
        let (at, found): (usize, bool) = self.find(key);
        if !found {
            proof {
                self.lemma_absent(key@, at as int);
                assert(self@ =~= self@.remove(key@));
            }
            return;
        }
        let ghost before = self.slots@;
        let ghost old_keys = keys_of(before);
        let ghost expected = self@.remove(key@);
        let ghost after = before.remove(at as int);
        proof {
            let keys = keys_of(after);
            assert forall|i: int, j: int| 0 <= i < j < keys.len() implies key_lt()(
                #[trigger] keys[i],
                #[trigger] keys[j],
            ) by {
                let oi = if i < at {
                    i
                } else {
                    i + 1
                };
                let oj = if j < at {
                    j
                } else {
                    j + 1
                };
                assert(key_lt()(old_keys[oi], old_keys[oj]));
                assert(after[i] == before[oi]);
                assert(after[j] == before[oj]);
            }
            assert forall|i: int| 0 <= i < after.len() implies expected.contains_key(
                (#[trigger] after[i]).key@,
            ) && expected[after[i].key@] == after[i].entry@ by {
                let o = if i < at {
                    i
                } else {
                    i + 1
                };
                assert(after[i] == before[o]);
                lemma_map_at(before, o);
                if after[i].key@ == key@ {
                    if o > at {
                        assert(key_lt()(old_keys[at as int], old_keys[o]));
                    }
                    lemma_lex_asymmetric(key@, key@);
                }
            }
            assert forall|k: Seq<u8>| #[trigger] expected.contains_key(k) implies exists|i: int|
                0 <= i < after.len() && (#[trigger] after[i]).key@ == k by {
                let o = old_keys.index_of(k);
                assert(before[o].key@ == k);
                let i = if o < at {
                    o
                } else {
                    o - 1
                };
                assert(after[i].key@ == k);
            }
            lemma_same_map(after, expected);
        }
        let mut slots: Vec<Slot> = Vec::new();
        core::mem::swap(&mut slots, &mut self.slots);
        let _ = slots.remove(at);
        assert(slots@ =~= after);
        self.slots = slots;
    }

    /// The slots, in ascending order of their keys.
    pub fn slots(&self) -> (r: &Vec<Slot>)
        ensures
            strictly_sorted(keys_of(r@), key_lt()),
            lists(keys_of(r@), self@.dom()),
            forall|i: int|
                0 <= i < r@.len() ==> self@.contains_key((#[trigger] r@[i]).key@)
                    && self@[r@[i].key@] == r@[i].entry@,
            map_of(r@) == self@,
    {
        proof {
            use_type_invariant(self);
            assert forall|i: int| 0 <= i < self.slots@.len() implies self@.contains_key(
                (#[trigger] self.slots@[i]).key@,
            ) && self@[self.slots@[i].key@] == self.slots@[i].entry@ by {
                lemma_map_at(self.slots@, i);
            }
        }
        &self.slots
    }
}

impl Clone for OrderedStore {
    fn clone(&self) -> (r: Self)
        ensures
            r@ == self@,
    {
        let mut r = OrderedStore::new();
        let slots = self.slots();
        let mut i: usize = 0;
        let ghost keys = keys_of(slots@);
        while i < slots.len()
            invariant
                i <= slots@.len(),
                keys == keys_of(slots@),
                forall|k: int|
                    0 <= k < slots@.len() ==> self@.contains_key((#[trigger] slots@[k]).key@)
                        && self@[slots@[k].key@] == slots@[k].entry@,
                forall|k: Seq<u8>| #[trigger]
                    r@.contains_key(k) ==> self@.contains_key(k) && r@[k] == self@[k],
                forall|k: int| 0 <= k < i ==> r@.contains_key((#[trigger] slots@[k]).key@),
            decreases slots@.len() - i,
        {
            let slot = &slots[i];
            r.insert(
                copy_bytes(&slot.key),
                ValueEntry {
                    value: copy_bytes(&slot.entry.value),
                    version: slot.entry.version,
                },
            );
            i += 1;
        }
        proof {
            assert forall|k: Seq<u8>| self@.contains_key(k) implies #[trigger] r@.contains_key(
                k,
            ) by {
                assert(self@.dom().contains(k));
                assert(keys.contains(k));
                let j = keys.index_of(k);
                assert(slots@[j].key@ == k);
            }
            assert(r@ =~= self@);
        }
        r
    }
}

} // verus!
