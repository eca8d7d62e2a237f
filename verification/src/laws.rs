//! The general laws of the store, stated once over the map model and proved
//! here, so that a reader sees them written down rather than left implicit
//! in the operations' contracts.

use vstd::prelude::*;

use crate::product::Product;
use crate::store::bucket_of;
use crate::store::spec_delete;
use crate::store::spec_insert;
use crate::store::spec_modify;

verus! {

/// Inserting under `k` appends: afterwards `k` is mapped, its bucket is one
/// longer, the new record sits at the back, every record already there keeps
/// its place, and the buckets of all other keys are untouched.
pub proof fn lemma_insert_appends(m: Map<Seq<char>, Seq<Product>>, k: Seq<char>, p: Product)
    ensures
        spec_insert(m, k, p).contains_key(k),
        bucket_of(spec_insert(m, k, p), k).len() == bucket_of(m, k).len() + 1,
        bucket_of(spec_insert(m, k, p), k).last() == p,
        forall|j: int|
            0 <= j < bucket_of(m, k).len() ==> #[trigger] bucket_of(spec_insert(m, k, p), k)[j]
                == bucket_of(m, k)[j],
        forall|k2: Seq<char>|
            k2 != k ==> #[trigger] bucket_of(spec_insert(m, k, p), k2) == bucket_of(m, k2),
{
}

/// Two records filed under the same key both stay retrievable, in insertion
/// order: neither insert overwrites the other, and the bucket that was there
/// before is kept unchanged in front of them.
pub proof fn lemma_insert_keeps_both(
    m: Map<Seq<char>, Seq<Product>>,
    k: Seq<char>,
    p1: Product,
    p2: Product,
)
    ensures
        bucket_of(spec_insert(spec_insert(m, k, p1), k, p2), k) == bucket_of(m, k).push(p1).push(
            p2,
        ),
        bucket_of(spec_insert(spec_insert(m, k, p1), k, p2), k)[bucket_of(m, k).len() as int]
            == p1,
        bucket_of(spec_insert(spec_insert(m, k, p1), k, p2), k)[bucket_of(m, k).len() as int + 1]
            == p2,
{
}

/// Modifying a bucket of exactly one record always succeeds, and the bucket
/// afterwards holds exactly the new record at the same sole position; other
/// keys keep their buckets.
pub proof fn lemma_modify_singleton(
    m: Map<Seq<char>, Seq<Product>>,
    k: Seq<char>,
    choice: int,
    p: Product,
)
    requires
        bucket_of(m, k).len() == 1,
    ensures
        bucket_of(m, k).len() > 0,
        spec_modify(m, k, choice, p).contains_key(k),
        bucket_of(spec_modify(m, k, choice, p), k) == seq![p],
        forall|k2: Seq<char>|
            k2 != k ==> #[trigger] bucket_of(spec_modify(m, k, choice, p), k2) == bucket_of(
                m,
                k2,
            ),
{
    assert(bucket_of(m, k).update(0, p) =~= seq![p]);
}

/// Modifying a bucket of more than one record with a 1-based choice replaces
/// exactly the chosen record: the bucket keeps its length, every other
/// record keeps its place, and other keys keep their buckets.
pub proof fn lemma_modify_targets_choice(
    m: Map<Seq<char>, Seq<Product>>,
    k: Seq<char>,
    choice: int,
    p: Product,
)
    requires
        bucket_of(m, k).len() > 1,
        1 <= choice <= bucket_of(m, k).len(),
    ensures
        spec_modify(m, k, choice, p).contains_key(k),
        bucket_of(spec_modify(m, k, choice, p), k).len() == bucket_of(m, k).len(),
        bucket_of(spec_modify(m, k, choice, p), k)[choice - 1] == p,
        forall|j: int|
            0 <= j < bucket_of(m, k).len() && j != choice - 1 ==> #[trigger] bucket_of(
                spec_modify(m, k, choice, p),
                k,
            )[j] == bucket_of(m, k)[j],
        forall|k2: Seq<char>|
            k2 != k ==> #[trigger] bucket_of(spec_modify(m, k, choice, p), k2) == bucket_of(
                m,
                k2,
            ),
{
}

/// Deleting from a bucket of more than one record with a 1-based choice
/// removes exactly the chosen record: the records in front of it keep their
/// places, the records behind it shift down one place in their old order,
/// and other keys keep their buckets.
pub proof fn lemma_delete_targets_choice(
    m: Map<Seq<char>, Seq<Product>>,
    k: Seq<char>,
    choice: int,
)
    requires
        m.contains_key(k),
        m[k].len() > 1,
        1 <= choice <= m[k].len(),
    ensures
        spec_delete(m, k, choice).contains_key(k),
        bucket_of(spec_delete(m, k, choice), k).len() == m[k].len() - 1,
        forall|j: int|
            0 <= j < choice - 1 ==> #[trigger] bucket_of(spec_delete(m, k, choice), k)[j]
                == m[k][j],
        forall|j: int|
            choice - 1 <= j < m[k].len() - 1 ==> #[trigger] bucket_of(spec_delete(m, k, choice), k)[j]
                == m[k][j + 1],
        forall|k2: Seq<char>|
            k2 != k ==> #[trigger] bucket_of(spec_delete(m, k, choice), k2) == bucket_of(m, k2),
{
    m[k].remove_ensures(choice - 1);
}

/// Deleting under a key whose bucket holds at most one record empties the
/// bucket in place: a lookup afterwards returns the empty sequence, yet the
/// key itself stays mapped — deletion never unmaps a key.
pub proof fn lemma_delete_empties_small_bucket(
    m: Map<Seq<char>, Seq<Product>>,
    k: Seq<char>,
    choice: int,
)
    requires
        m.contains_key(k),
        m[k].len() <= 1,
    ensures
        spec_delete(m, k, choice).contains_key(k),
        bucket_of(spec_delete(m, k, choice), k) == Seq::<Product>::empty(),
        forall|k2: Seq<char>|
            k2 != k ==> #[trigger] bucket_of(spec_delete(m, k, choice), k2) == bucket_of(m, k2),
{
}

/// A lookup under an absent key denotes the empty bucket: it cannot fault,
/// it merely finds nothing.
pub proof fn lemma_lookup_absent(m: Map<Seq<char>, Seq<Product>>, k: Seq<char>)
    requires
        !m.contains_key(k),
    ensures
        bucket_of(m, k) == Seq::<Product>::empty(),
{
}

} // verus!
