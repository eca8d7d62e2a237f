//! The keyed multi-value store: a mapping from product name to an ordered
//! bucket of records, with insert, lookup, in-place modification, deletion,
//! and an exhaustive enumeration.
//!
//! The store is modelled as a `Map<Seq<char>, Seq<Product>>`; every operation
//! states its effect on that map through the `spec_*` transition functions
//! below, so callers reason entirely at the level of the map.

use vstd::prelude::*;

use crate::product::Product;

verus! {

/// The bucket a key maps to, or the empty sequence where the key is absent.
pub open spec fn bucket_of(m: Map<Seq<char>, Seq<Product>>, k: Seq<char>) -> Seq<Product> {
    if m.contains_key(k) {
        m[k]
    } else {
        Seq::empty()
    }
}

/// The map after appending `p` to the bucket for `k`, creating the bucket
/// where it was absent. Duplicates are permitted by design: an occupied
/// bucket is appended to, never overwritten.
pub open spec fn spec_insert(
    m: Map<Seq<char>, Seq<Product>>,
    k: Seq<char>,
    p: Product,
) -> Map<Seq<char>, Seq<Product>> {
    m.insert(k, bucket_of(m, k).push(p))
}

/// Whether a choice is acceptable for a bucket of length `len`: buckets of
/// more than one record need a 1-based position within the bucket, while a
/// bucket of at most one record needs no disambiguation at all.
pub open spec fn valid_choice(len: int, choice: int) -> bool {
    len > 1 ==> 1 <= choice <= len
}

/// The 0-based position a choice selects: the supplied 1-based position when
/// the bucket needs disambiguation, and the sole front slot otherwise.
pub open spec fn chosen_index(len: int, choice: int) -> int {
    if len > 1 {
        choice - 1
    } else {
        0
    }
}

/// The map after replacing the chosen record of the bucket for `k` with `p`.
/// An absent key or an empty bucket leaves the map unchanged.
pub open spec fn spec_modify(
    m: Map<Seq<char>, Seq<Product>>,
    k: Seq<char>,
    choice: int,
    p: Product,
) -> Map<Seq<char>, Seq<Product>> {
    let b = bucket_of(m, k);
    if b.len() == 0 {
        m
    } else {
        m.insert(k, b.update(chosen_index(b.len() as int, choice), p))
    }
}

/// The map after a deletion under `k`: a bucket of more than one record
/// loses exactly the chosen record, a bucket of at most one record is
/// emptied in place, and an absent key is left alone. A key once present
/// stays present, even with an empty bucket: deletion never unmaps a key.
pub open spec fn spec_delete(
    m: Map<Seq<char>, Seq<Product>>,
    k: Seq<char>,
    choice: int,
) -> Map<Seq<char>, Seq<Product>> {
    if !m.contains_key(k) {
        m
    } else if m[k].len() > 1 {
        m.insert(k, m[k].remove(choice - 1))
    } else {
        m.insert(k, Seq::empty())
    }
}

/// The concatenation of the buckets of `m` for the keys of `ks`, in order.
pub open spec fn spec_all_products(
    ks: Seq<Seq<char>>,
    m: Map<Seq<char>, Seq<Product>>,
) -> Seq<Product>
    decreases ks.len(),
{
    if ks.len() == 0 {
        Seq::empty()
    } else {
        spec_all_products(ks.drop_last(), m) + bucket_of(m, ks.last())
    }
}

/// One key together with the ordered bucket of records filed under it.
struct Entry {
    key: String,
    bucket: Vec<Product>,
}

/// The inventory store. Internally an insertion-ordered vector of entries
/// with pairwise distinct keys; its public face is the map view.
pub struct Inventory {
    entries: Vec<Entry>,
}

impl View for Inventory {
    type V = Map<Seq<char>, Seq<Product>>;

    closed spec fn view(&self) -> Map<Seq<char>, Seq<Product>> {
        map_of(self.entries@)
    }
}

/// The map an entry sequence denotes: later entries would shadow earlier
/// ones, but `wf` rules repeated keys out.
spec fn map_of(es: Seq<Entry>) -> Map<Seq<char>, Seq<Product>>
    decreases es.len(),
{
    if es.len() == 0 {
        Map::empty()
    } else {
        map_of(es.drop_last()).insert(es.last().key@, es.last().bucket@)
    }
}

/// Pairwise distinct keys.
spec fn distinct_keys(es: Seq<Entry>) -> bool {
    forall|i: int, j: int|
        0 <= i < j < es.len() ==> #[trigger] es[i].key@ != #[trigger] es[j].key@
}

/// A key is in the map of an entry sequence exactly when some entry bears it.
proof fn lemma_map_of_contains(es: Seq<Entry>, k: Seq<char>)
    ensures
        map_of(es).contains_key(k) <==> exists|i: int| 0 <= i < es.len() && es[i].key@ == k,
    decreases es.len(),
{
    if es.len() > 0 {
        lemma_map_of_contains(es.drop_last(), k);
        if es.last().key@ == k {
            assert(es[es.len() - 1].key@ == k);
        } else {
            if exists|i: int| 0 <= i < es.len() && es[i].key@ == k {
                let i = choose|i: int| 0 <= i < es.len() && es[i].key@ == k;
                assert(es.drop_last()[i] == es[i]);
            }
        }
    }
}

/// With distinct keys, the map sends each entry's key to that entry's bucket.
proof fn lemma_map_of_get(es: Seq<Entry>, i: int)
    requires
        distinct_keys(es),
        0 <= i < es.len(),
    ensures
        map_of(es).contains_key(es[i].key@),
        map_of(es)[es[i].key@] == es[i].bucket@,
    decreases es.len(),
{
    if i < es.len() - 1 {
        lemma_map_of_get(es.drop_last(), i);
        assert(es.drop_last()[i] == es[i]);
        assert(es[es.len() - 1].key@ != es[i].key@);
    }
}

/// Replacing one entry's bucket, key kept, is one insertion on the map.
proof fn lemma_map_of_update(es: Seq<Entry>, i: int, e: Entry)
    requires
        distinct_keys(es),
        0 <= i < es.len(),
        e.key@ == es[i].key@,
    ensures
        map_of(es.update(i, e)) == map_of(es).insert(e.key@, e.bucket@),
        distinct_keys(es.update(i, e)),
    decreases es.len(),
{
    let es2 = es.update(i, e);
    assert forall|p: int, q: int| 0 <= p < q < es2.len() implies #[trigger] es2[p].key@
        != #[trigger] es2[q].key@ by {
        assert(es2[p].key@ == es[p].key@);
        assert(es2[q].key@ == es[q].key@);
    }
    if i == es.len() - 1 {
        assert(es2.drop_last() =~= es.drop_last());
        assert(es2.last() == e);
        assert(map_of(es.drop_last()).insert(e.key@, e.bucket@) =~= map_of(es.drop_last()).insert(
            e.key@,
            es.last().bucket@,
        ).insert(e.key@, e.bucket@));
    } else {
        lemma_map_of_update(es.drop_last(), i, e);
        assert(es2.drop_last() =~= es.drop_last().update(i, e));
        assert(es[es.len() - 1].key@ != es[i].key@);
        assert(map_of(es.drop_last()).insert(e.key@, e.bucket@).insert(
            es.last().key@,
            es.last().bucket@,
        ) =~= map_of(es.drop_last()).insert(es.last().key@, es.last().bucket@).insert(
            e.key@,
            e.bucket@,
        ));
    }
}

/// Appending an entry under a fresh key is one insertion on the map.
proof fn lemma_map_of_push(es: Seq<Entry>, e: Entry)
    requires
        distinct_keys(es),
        forall|i: int| 0 <= i < es.len() ==> #[trigger] es[i].key@ != e.key@,
    ensures
        map_of(es.push(e)) == map_of(es).insert(e.key@, e.bucket@),
        distinct_keys(es.push(e)),
{
    assert(es.push(e).drop_last() =~= es);
    assert(es.push(e).last() == e);
    assert forall|p: int, q: int| 0 <= p < q < es.push(e).len() implies #[trigger] es.push(
        e,
    )[p].key@ != #[trigger] es.push(e)[q].key@ by {
        if q < es.len() {
            assert(es.push(e)[p] == es[p]);
            assert(es.push(e)[q] == es[q]);
        } else {
            assert(es.push(e)[p] == es[p]);
            assert(es.push(e)[q] == e);
        }
    }
}

impl Inventory {
    /// The store's internal invariant.
    pub closed spec fn wf(&self) -> bool {
        distinct_keys(self.entries@)
    }

    /// The keys the store enumerates, in the order they first arrived.
    pub closed spec fn keys_in_order(&self) -> Seq<Seq<char>> {
        self.entries@.map_values(|e: Entry| e.key@)
    }

    /// A fresh store holds nothing.
    pub fn new() -> (r: Inventory)
        ensures
            r.wf(),
            r@ == Map::<Seq<char>, Seq<Product>>::empty(),
            r.keys_in_order() == Seq::<Seq<char>>::empty(),
    {
        let r = Inventory { entries: Vec::new() };
        proof {
            assert(r.keys_in_order() =~= Seq::<Seq<char>>::empty());
        }
        r
    }

    /// The position of the entry bearing `key`, if there is one.
    fn find_index(&self, key: &str) -> (r: Option<usize>)
        ensures
            match r {
                Some(i) => i < self.entries@.len() && self.entries@[i as int].key@ == key@,
                None => forall|j: int|
                    0 <= j < self.entries@.len() ==> #[trigger] self.entries@[j].key@ != key@,
            },
    {
        let k: String = key.to_owned();
        let n = self.entries.len();
        let mut i: usize = 0;
        while i < n
            invariant
                n == self.entries@.len(),
                i <= n,
                k@ == key@,
                forall|j: int| 0 <= j < i ==> #[trigger] self.entries@[j].key@ != key@,
            decreases n - i,
        {
            if self.entries[i].key == k {
                return Some(i);
            }
            i += 1;
        }
        None
    }

    /// Whether the store maps no key at all. A key whose bucket was emptied
    /// by a deletion still counts: it remains mapped.
    pub fn is_empty(&self) -> (r: bool)
        ensures
            r == (self.keys_in_order().len() == 0),
            r == (self@ == Map::<Seq<char>, Seq<Product>>::empty()),
    {
        let r = self.entries.is_empty();
        proof {
            if self.entries@.len() == 0 {
                assert(self.keys_in_order() =~= Seq::<Seq<char>>::empty());
            } else {
                assert(map_of(self.entries@).contains_key(self.entries@.last().key@));
            }
        }
        r
    }

    /// Every record currently filed under `key`, in insertion order; the
    /// empty vector where the key is absent or its bucket was emptied.
    /// Lookup never faults, whatever the key.
    pub fn lookup(&self, key: &str) -> (r: Vec<Product>)
        requires
            self.wf(),
        ensures
            r@ == bucket_of(self@, key@),
    {
        proof {
            lemma_map_of_contains(self.entries@, key@);
        }
        match self.find_index(key) {
            None => Vec::new(),
            Some(i) => {
                proof {
                    lemma_map_of_get(self.entries@, i as int);
                }
                let ghost b = self.entries@[i as int].bucket@;
                let mut r: Vec<Product> = Vec::new();
                let n = self.entries[i].bucket.len();
                let mut j: usize = 0;
                while j < n
                    invariant
                        i < self.entries@.len(),
                        b == self.entries@[i as int].bucket@,
                        n == b.len(),
                        j <= n,
                        r@ == b.take(j as int),
                    decreases n - j,
                {
                    let p = self.entries[i].bucket[j].clone();
                    r.push(p);
                    proof {
                        assert(b.take(j as int).push(b[j as int]) =~= b.take(j + 1 as int));
                    }
                    j += 1;
                }
                proof {
                    assert(b.take(n as int) =~= b);
                }
                r
            },
        }
    }

    /// Files `value` at the back of the bucket for `key`, creating the
    /// bucket where the key is new. Returns whether the bucket already held
    /// a record — the duplicate-key diagnostic; the append happens either
    /// way, since several records may share one name by design.
    pub fn insert(&mut self, key: String, value: Product) -> (duplicate: bool)
        requires
            old(self).wf(),
        ensures
            final(self).wf(),
            duplicate == (bucket_of(old(self)@, key@).len() > 0),
            final(self)@ == spec_insert(old(self)@, key@, value),
            final(self).keys_in_order() == if old(self)@.contains_key(key@) {
                old(self).keys_in_order()
            } else {
                old(self).keys_in_order().push(key@)
            },
    {
        proof {
            lemma_map_of_contains(self.entries@, key@);
        }
        match self.find_index(key.as_str()) {
            Some(i) => {
                proof {
                    lemma_map_of_get(self.entries@, i as int);
                }
                let ghost es = self.entries@;
                let duplicate = self.entries[i].bucket.len() > 0;
                self.entries[i].bucket.push(value);
                proof {
                    lemma_map_of_update(es, i as int, self.entries@[i as int]);
                    assert(self.entries@ =~= es.update(i as int, self.entries@[i as int]));
                    assert(self.keys_in_order() =~= old(self).keys_in_order());
                }
                duplicate
            },
            None => {
                let ghost es = self.entries@;
                let mut bucket: Vec<Product> = Vec::new();
                bucket.push(value);
                self.entries.push(Entry { key, bucket });
                proof {
                    lemma_map_of_push(es, self.entries@.last());
                    assert(bucket_of(map_of(es), self.entries@.last().key@) =~= Seq::<
                        Product,
                    >::empty());
                    assert(self.entries@.last().bucket@ =~= bucket_of(
                        map_of(es),
                        self.entries@.last().key@,
                    ).push(value));
                    assert(self.keys_in_order() =~= old(self).keys_in_order().push(
                        self.entries@.last().key@,
                    ));
                }
                false
            },
        }
    }

    /// Replaces one record of the bucket for `key` with `new_value` and
    /// reports success. A bucket of more than one record needs a 1-based
    /// `choice` within it — the caller is expected to have shown the bucket
    /// and read a validated position; a bucket of one record is replaced
    /// outright, and an absent key or an emptied bucket is a failure that
    /// changes nothing.
    pub fn modify(&mut self, key: &str, choice: usize, new_value: Product) -> (ok: bool)
        requires
            old(self).wf(),
            valid_choice(bucket_of(old(self)@, key@).len() as int, choice as int),
        ensures
            final(self).wf(),
            ok == (bucket_of(old(self)@, key@).len() > 0),
            final(self)@ == spec_modify(old(self)@, key@, choice as int, new_value),
            final(self).keys_in_order() == old(self).keys_in_order(),
    {
        proof {
            lemma_map_of_contains(self.entries@, key@);
        }
        match self.find_index(key) {
            None => false,
            Some(i) => {
                proof {
                    lemma_map_of_get(self.entries@, i as int);
                }
                let blen = self.entries[i].bucket.len();
                if blen == 0 {
                    return false;
                }
                let ghost es = self.entries@;
                let j = if blen > 1 {
                    choice - 1
                } else {
                    0
                };
                self.entries[i].bucket.set(j, new_value);
                proof {
                    lemma_map_of_update(es, i as int, self.entries@[i as int]);
                    assert(self.entries@ =~= es.update(i as int, self.entries@[i as int]));
                    assert(self.keys_in_order() =~= old(self).keys_in_order());
                }
                true
            },
        }
    }

    /// Removes one record from the bucket for `key`: the record at the
    /// 1-based `choice` where the bucket holds more than one, the whole
    /// bucket — emptied in place, key kept — where it holds at most one.
    /// An absent key is a no-op; callers are expected to look the key up
    /// first, and the store itself never signals "not found" here.
    pub fn delete(&mut self, key: &str, choice: usize)
        requires
            old(self).wf(),
            valid_choice(bucket_of(old(self)@, key@).len() as int, choice as int),
        ensures
            final(self).wf(),
            final(self)@ == spec_delete(old(self)@, key@, choice as int),
            final(self).keys_in_order() == old(self).keys_in_order(),
    {
        proof {
            lemma_map_of_contains(self.entries@, key@);
        }
        match self.find_index(key) {
            None => (),
            Some(i) => {
                proof {
                    lemma_map_of_get(self.entries@, i as int);
                }
                let ghost es = self.entries@;
                let blen = self.entries[i].bucket.len();
                if blen > 1 {
                    self.entries[i].bucket.remove(choice - 1);
                } else {
                    self.entries[i].bucket.clear();
                    proof {
                        assert(self.entries@[i as int].bucket@ =~= Seq::<Product>::empty());
                    }
                }
                proof {
                    lemma_map_of_update(es, i as int, self.entries@[i as int]);
                    assert(self.entries@ =~= es.update(i as int, self.entries@[i as int]));
                    assert(self.keys_in_order() =~= old(self).keys_in_order());
                }
            },
        }
    }

    /// The enumerable keys are exactly the mapped keys, each exactly once.
    pub proof fn lemma_enumerable_keys(&self)
        requires
            self.wf(),
        ensures
            self.keys_in_order().no_duplicates(),
            forall|k: Seq<char>|
                self@.contains_key(k) <==> #[trigger] self.keys_in_order().contains(k),
    {
        let ks = self.keys_in_order();
        assert forall|p: int, q: int| 0 <= p < q < ks.len() implies ks[p] != ks[q] by {
            assert(self.entries@[p].key@ != self.entries@[q].key@);
        }
        assert forall|k: Seq<char>| self@.contains_key(k) <==> #[trigger] ks.contains(k) by {
            lemma_map_of_contains(self.entries@, k);
            if self@.contains_key(k) {
                let i = choose|i: int| 0 <= i < self.entries@.len() && self.entries@[i].key@ == k;
                assert(ks[i] == k);
            }
            if ks.contains(k) {
                let i = choose|i: int| 0 <= i < ks.len() && ks[i] == k;
                assert(self.entries@[i].key@ == k);
            }
        }
    }

    /// Every record in the store, bucket by bucket: the keys come in the
    /// order `keys_in_order` gives, and within one bucket the records come
    /// in insertion order. Reads everything, changes nothing.
    pub fn all_products(&self) -> (r: Vec<Product>)
        requires
            self.wf(),
        ensures
            r@ == spec_all_products(self.keys_in_order(), self@),
    {
        let ghost ks = self.keys_in_order();
        let mut r: Vec<Product> = Vec::new();
        let n = self.entries.len();
        let mut i: usize = 0;
        while i < n
            invariant
                self.wf(),
                ks == self.keys_in_order(),
                n == self.entries@.len(),
                i <= n,
                r@ == spec_all_products(ks.take(i as int), self@),
            decreases n - i,
        {
            let ghost b = self.entries@[i as int].bucket@;
            let m = self.entries[i].bucket.len();
            let mut j: usize = 0;
            while j < m
                invariant
                    i < self.entries@.len(),
                    b == self.entries@[i as int].bucket@,
                    m == b.len(),
                    j <= m,
                    r@ == spec_all_products(ks.take(i as int), self@) + b.take(j as int),
                decreases m - j,
            {
                let p = self.entries[i].bucket[j].clone();
                r.push(p);
                proof {
                    assert(b.take(j as int).push(b[j as int]) =~= b.take(j + 1 as int));
                }
                j += 1;
            }
            proof {
                lemma_map_of_get(self.entries@, i as int);
                assert(ks[i as int] == self.entries@[i as int].key@);
                assert(b.take(m as int) =~= b);
                assert(ks.take(i as int + 1).drop_last() =~= ks.take(i as int));
                assert(ks.take(i as int + 1).last() == ks[i as int]);
            }
            i += 1;
        }
        proof {
            assert(ks.take(n as int) =~= ks);
        }
        r
    }
}

} // verus!
