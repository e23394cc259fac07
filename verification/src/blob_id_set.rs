use vstd::prelude::*;

use crate::blob_id::BlobId;
use crate::blob_id::ID_LEN;
use crate::blob_id::lemma_blob_id_len;
use crate::blob_id::partition_key_of;

verus! {

/// Number of buckets: one per possible value of the partition key (the
/// identifier's first byte), so the key indexes the bucket directly.
pub const BUCKET_COUNT: usize = 256;

/// Initial capacity of each bucket's collection: a tuning constant that
/// amortizes growth under heavy insertion, with no bearing on correctness.
const BUCKET_CAPACITY_HINT: usize = 1024;

/// A membership set of `BlobId` values, sharded into `BUCKET_COUNT`
/// independent buckets.
///
/// Each identifier lives in exactly one bucket, the one named by its
/// partition key, and appears there at most once. The abstract contents are
/// the set of identifiers present, viewed as byte strings.
pub struct BlobIdSet {
    buckets: Vec<Vec<BlobId>>,
}

impl BlobIdSet {
    /// The identifiers held in bucket `k`, in storage order, as byte strings.
    pub closed spec fn bucket_view(self, k: int) -> Seq<Seq<u8>> {
        self.buckets@[k]@.map_values(|id: BlobId| id@)
    }

    /// Well-formed: there are exactly `BUCKET_COUNT` buckets; every stored
    /// identifier is `ID_LEN` bytes long and sits in the bucket named by its
    /// partition key; and no bucket holds an identifier twice.
    pub closed spec fn wf(self) -> bool {
        &&& self.buckets@.len() == BUCKET_COUNT
        &&& forall|k: int, i: int|
            0 <= k < BUCKET_COUNT && 0 <= i < self.bucket_view(k).len() ==> {
                &&& (#[trigger] self.bucket_view(k)[i]).len() == ID_LEN
                &&& partition_key_of(self.bucket_view(k)[i]) == k as u8
            }
        &&& forall|k: int|
            0 <= k < BUCKET_COUNT ==> (#[trigger] self.bucket_view(k)).no_duplicates()
    }

    /// Whether the byte string `id` is one of the stored identifiers.
    pub closed spec fn spec_contains(self, id: Seq<u8>) -> bool {
        id.len() == ID_LEN && self.bucket_view(partition_key_of(id) as int).contains(id)
    }

    /// Whether `id` occurs among the identifiers of `bucket`.
    fn bucket_has(bucket: &Vec<BlobId>, id: &BlobId) -> (r: bool)
        ensures
            r == bucket@.map_values(|b: BlobId| b@).contains(id@),
    {
        let ghost s = bucket@.map_values(|b: BlobId| b@);
        let mut i: usize = 0;
        while i < bucket.len()
            invariant
                i <= bucket@.len(),
                s == bucket@.map_values(|b: BlobId| b@),
                forall|j: int| 0 <= j < i ==> s[j] != id@,
            decreases bucket@.len() - i,
        {
            if bucket[i].equals(id) {
                proof {
                    assert(s[i as int] == id@);
                }
                return true;
            }
            i += 1;
        }
        false
    }

    /// Create an empty set with one (empty) bucket per partition key.
    pub fn new() -> (r: Self)
        ensures
            r.wf(),
            r@ == Set::<Seq<u8>>::empty(),
    {
        let mut buckets: Vec<Vec<BlobId>> = Vec::with_capacity(BUCKET_COUNT);
        while buckets.len() < BUCKET_COUNT
            invariant
                buckets@.len() <= BUCKET_COUNT,
                forall|k: int| 0 <= k < buckets@.len() ==> (#[trigger] buckets@[k])@.len() == 0,
            decreases BUCKET_COUNT - buckets@.len(),
        {
            // A capacity hint amortizes bucket growth; it carries no
            // correctness weight.
            buckets.push(Vec::with_capacity(BUCKET_CAPACITY_HINT));
        }
        let r = BlobIdSet { buckets };
        proof {
            assert(r@ =~= Set::<Seq<u8>>::empty());
        }
        r
    }

    /// Add `blob_id` to the set. The result says whether the set changed:
    /// `true` exactly when the identifier was not already present, `false`
    /// when it was (in which case the contents stay as they were).
    ///
    /// Only the bucket named by the identifier's partition key is touched;
    /// every other bucket is left exactly as it was.
    pub fn insert(&mut self, blob_id: BlobId) -> (r: bool)
        requires
            old(self).wf(),
        ensures
            final(self).wf(),
            r == !old(self)@.contains(blob_id@),
            final(self)@ == old(self)@.insert(blob_id@),
            forall|k: int|
                0 <= k < BUCKET_COUNT && k != partition_key_of(blob_id@) as int
                    ==> final(self).bucket_view(k) == old(self).bucket_view(k),
    {
        proof {
            lemma_blob_id_len(blob_id);
        }
        let k = blob_id.partition_key() as usize;
        if Self::bucket_has(&self.buckets[k], &blob_id) {
            proof {
                assert(old(self)@.contains(blob_id@));
                assert(old(self)@.insert(blob_id@) =~= self@);
            }
            false
        } else {
            let ghost prior = *self;
            let bucket = &mut self.buckets[k];
            let ghost old_len = bucket@.len();
            bucket.push(blob_id);
            proof {
                let ki = k as int;
                assert(self.buckets@[ki]@ == prior.buckets@[ki]@.push(blob_id));
                assert(self.bucket_view(ki) =~= prior.bucket_view(ki).push(blob_id@));
                assert forall|j: int| 0 <= j < BUCKET_COUNT && j != ki
                    implies self.bucket_view(j) == prior.bucket_view(j) by {
                    assert(self.buckets@[j] == prior.buckets@[j]);
                }
                // Each identifier of the grown bucket is well-formed and
                // keyed to this bucket.
                assert forall|kk: int, i: int|
                    0 <= kk < BUCKET_COUNT && 0 <= i < self.bucket_view(kk).len()
                    implies {
                        &&& (#[trigger] self.bucket_view(kk)[i]).len() == ID_LEN
                        &&& partition_key_of(self.bucket_view(kk)[i]) == kk as u8
                    } by {
                    if kk == ki && i == old_len {
                        assert(self.bucket_view(kk)[i] == blob_id@);
                    } else {
                        assert(self.bucket_view(kk)[i] == prior.bucket_view(kk)[i]);
                        assert(prior.bucket_view(kk)[i].len() == ID_LEN);
                    }
                }
                // The grown bucket is still duplicate-free: the new
                // identifier differed from every stored one.
                assert(!prior.bucket_view(ki).contains(blob_id@));
                assert forall|kk: int| 0 <= kk < BUCKET_COUNT
                    implies (#[trigger] self.bucket_view(kk)).no_duplicates() by {
                    if kk == ki {
                        assert forall|i: int, j: int|
                            0 <= i < self.bucket_view(ki).len()
                                && 0 <= j < self.bucket_view(ki).len() && i != j
                            implies self.bucket_view(ki)[i] != self.bucket_view(ki)[j] by {
                            if i == old_len {
                                assert(prior.bucket_view(ki)[j] == self.bucket_view(ki)[j]);
                                assert(prior.bucket_view(ki).contains(prior.bucket_view(ki)[j]));
                            } else if j == old_len {
                                assert(prior.bucket_view(ki)[i] == self.bucket_view(ki)[i]);
                                assert(prior.bucket_view(ki).contains(prior.bucket_view(ki)[i]));
                            } else {
                                assert(prior.bucket_view(ki)[i] == self.bucket_view(ki)[i]);
                                assert(prior.bucket_view(ki)[j] == self.bucket_view(ki)[j]);
                            }
                        }
                    } else {
                        assert(self.bucket_view(kk) == prior.bucket_view(kk));
                    }
                }
                assert(self.wf());
                // The abstract contents grew by exactly this identifier.
                assert forall|s: Seq<u8>|
                    #[trigger] self@.contains(s) <==> prior@.insert(blob_id@).contains(s) by {
                    assert(self@.contains(s) == self.spec_contains(s));
                    assert(prior@.contains(s) == prior.spec_contains(s));
                    if self.spec_contains(s) && s != blob_id@
                        && partition_key_of(s) as int == ki {
                        let i = choose|i: int|
                            0 <= i < self.bucket_view(ki).len() && self.bucket_view(ki)[i] == s;
                        assert(i != old_len);
                        assert(prior.bucket_view(ki)[i] == s);
                        assert(prior.bucket_view(ki).contains(s));
                    }
                    if s == blob_id@ {
                        assert(self.bucket_view(ki)[old_len as int] == blob_id@);
                        assert(self.bucket_view(ki).contains(s));
                    }
                    if prior.spec_contains(s) && s != blob_id@ {
                        let kj = partition_key_of(s) as int;
                        let i = choose|i: int|
                            0 <= i < prior.bucket_view(kj).len()
                                && prior.bucket_view(kj)[i] == s;
                        assert(self.bucket_view(kj)[i] == s);
                        assert(self.bucket_view(kj).contains(s));
                    }
                }
                assert(self@ =~= prior@.insert(blob_id@));
            }
            true
        }
    }

    /// The identifiers whose partition key is below `n`: the part of the
    /// contents held by the first `n` buckets.
    spec fn partial_view(self, n: int) -> Set<Seq<u8>> {
        Set::new(|id: Seq<u8>| self.spec_contains(id) && (partition_key_of(id) as int) < n)
    }

    /// No bucket comes before bucket zero, so the first partial view is empty.
    proof fn lemma_partial_view_zero(self)
        ensures
            self.partial_view(0) =~= Set::<Seq<u8>>::empty(),
    {
    }

    /// Every identifier's partition key is below `BUCKET_COUNT`, so the full
    /// partial view is the whole contents.
    proof fn lemma_partial_view_full(self)
        ensures
            self.partial_view(BUCKET_COUNT as int) =~= self@,
    {
    }

    /// Adding bucket `n` to the first `n` buckets adds exactly that bucket's
    /// identifiers, which are distinct from each other and from everything
    /// held before, so the cardinalities add up.
    proof fn lemma_partial_view_step(self, n: int)
        requires
            self.wf(),
            0 <= n < BUCKET_COUNT,
            self.partial_view(n).finite(),
        ensures
            self.partial_view(n + 1).finite(),
            self.partial_view(n + 1).len() == self.partial_view(n).len()
                + self.bucket_view(n).len(),
    {
        let bucket_set = self.bucket_view(n).to_set();
        self.bucket_view(n).unique_seq_to_set();
        vstd::seq_lib::seq_to_set_is_finite(self.bucket_view(n));
        assert forall|s: Seq<u8>| #[trigger] bucket_set.contains(s)
            implies self.spec_contains(s) && partition_key_of(s) as int == n by {
            let i = choose|i: int|
                0 <= i < self.bucket_view(n).len() && self.bucket_view(n)[i] == s;
            assert(self.bucket_view(n)[i].len() == ID_LEN);
        }
        assert(self.partial_view(n + 1) =~= self.partial_view(n) + bucket_set);
        assert(self.partial_view(n).disjoint(bucket_set));
        vstd::set_lib::lemma_set_disjoint_lens(self.partial_view(n), bucket_set);
    }

    /// Each partial view is finite.
    proof fn lemma_partial_view_finite(self, n: int)
        requires
            self.wf(),
            0 <= n <= BUCKET_COUNT,
        ensures
            self.partial_view(n).finite(),
        decreases n,
    {
        if n == 0 {
            self.lemma_partial_view_zero();
        } else {
            self.lemma_partial_view_finite(n - 1);
            self.lemma_partial_view_step(n - 1);
        }
    }

    /// The contents of a well-formed set are finite.
    pub proof fn lemma_view_finite(self)
        requires
            self.wf(),
        ensures
            self@.finite(),
    {
        self.lemma_partial_view_finite(BUCKET_COUNT as int);
        self.lemma_partial_view_full();
    }

    /// Count the identifiers in the set: visit each bucket in turn and sum
    /// the bucket sizes. Every identifier sits in exactly one bucket and no
    /// bucket holds one twice, so the total is the size of the contents.
    pub fn len(&self) -> (r: usize)
        requires
            self.wf(),
            self@.len() <= usize::MAX,
        ensures
            r == self@.len(),
    {
        proof {
            self.lemma_view_finite();
            self.lemma_partial_view_full();
            self.lemma_partial_view_zero();
        }
        let mut total: usize = 0;
        let mut k: usize = 0;
        while k < BUCKET_COUNT
            invariant
                self.wf(),
                self@.finite(),
                self@.len() <= usize::MAX,
                self.partial_view(BUCKET_COUNT as int) == self@,
                k <= BUCKET_COUNT,
                self.partial_view(k as int).finite(),
                total == self.partial_view(k as int).len(),
            decreases BUCKET_COUNT - k,
        {
            let b = self.buckets[k].len();
            proof {
                self.lemma_partial_view_step(k as int);
                assert(self.bucket_view(k as int).len() == self.buckets@[k as int]@.len());
                assert(self.partial_view(k as int + 1).subset_of(self@));
                vstd::set_lib::lemma_len_subset(self.partial_view(k as int + 1), self@);
            }
            total = total + b;
            k += 1;
        }
        total
    }

    /// Check whether `blob_id` is in the set, without modifying it.
    ///
    /// Only the bucket named by the identifier's partition key is read.
    pub fn contains(&self, blob_id: &BlobId) -> (r: bool)
        requires
            self.wf(),
        ensures
            r == self@.contains(blob_id@),
    {
        proof {
            lemma_blob_id_len(*blob_id);
        }
        let k = blob_id.partition_key() as usize;
        Self::bucket_has(&self.buckets[k], blob_id)
    }
}

/// The contents after inserting every identifier of `ids`, in order,
/// starting from `contents`. This is the abstract effect of a run of
/// `insert` calls, each of whose `ensures` adds one identifier to the view.
pub open spec fn insert_all(contents: Set<Seq<u8>>, ids: Seq<Seq<u8>>) -> Set<Seq<u8>>
    decreases ids.len(),
{
    if ids.len() == 0 {
        contents
    } else {
        insert_all(contents, ids.drop_last()).insert(ids.last())
    }
}

/// The contents after `n` insertions of the one identifier `id`.
pub open spec fn insert_repeated(contents: Set<Seq<u8>>, id: Seq<u8>, n: nat) -> Set<Seq<u8>>
    decreases n,
{
    if n == 0 {
        contents
    } else {
        insert_repeated(contents, id, (n - 1) as nat).insert(id)
    }
}

/// Idempotent insert: once an identifier has been inserted it is a member,
/// and inserting it again leaves the contents exactly as they were — so by
/// `insert`'s contract the repeated call reports no change (`false`), while
/// the first call reports a change (`true`) exactly when the identifier was
/// absent.
pub proof fn lemma_insert_idempotent(contents: Set<Seq<u8>>, id: Seq<u8>)
    ensures
        contents.insert(id).contains(id),
        contents.insert(id).insert(id) == contents.insert(id),
        !contents.contains(id) ==> contents.insert(id) != contents,
{
    assert(contents.insert(id).insert(id) =~= contents.insert(id));
}

/// Partition independence: for identifiers with different partition keys,
/// the two insertions commute, and inserting one never changes whether the
/// other is a member — together with `insert`'s promise to leave every
/// bucket but its own untouched, operations on different partition keys are
/// independent of their interleaving.
pub proof fn lemma_partition_independence(
    contents: Set<Seq<u8>>,
    x: Seq<u8>,
    y: Seq<u8>,
)
    requires
        x.len() == ID_LEN,
        y.len() == ID_LEN,
        partition_key_of(x) != partition_key_of(y),
    ensures
        contents.insert(x).insert(y) == contents.insert(y).insert(x),
        contents.insert(x).contains(y) == contents.contains(y),
        contents.insert(y).contains(x) == contents.contains(x),
{
    assert(x != y);
    assert(contents.insert(x).insert(y) =~= contents.insert(y).insert(x));
}

/// Inserting a finite run of identifiers, duplicates and all, yields as
/// contents exactly the prior contents together with the distinct
/// identifiers of the run.
pub proof fn lemma_insert_all_members(contents: Set<Seq<u8>>, ids: Seq<Seq<u8>>)
    ensures
        insert_all(contents, ids) == contents + ids.to_set(),
    decreases ids.len(),
{
    if ids.len() == 0 {
        assert(ids.to_set() =~= Set::<Seq<u8>>::empty());
        assert(insert_all(contents, ids) =~= contents + ids.to_set());
    } else {
        let rest = ids.drop_last();
        lemma_insert_all_members(contents, rest);
        rest.lemma_push_to_set_commute(ids.last());
        assert(rest.push(ids.last()) =~= ids);
        assert(insert_all(contents, ids) =~= contents + ids.to_set());
    }
}

/// Set semantics: starting from empty, inserting a finite run of
/// identifiers (with duplicates) leaves exactly the distinct identifiers of
/// the run, so `len`, observed with no mutation in flight, reports the
/// number of distinct identifiers inserted.
pub proof fn lemma_set_semantics(ids: Seq<Seq<u8>>)
    ensures
        insert_all(Set::<Seq<u8>>::empty(), ids) == ids.to_set(),
        insert_all(Set::<Seq<u8>>::empty(), ids).len() == ids.to_set().len(),
{
    lemma_insert_all_members(Set::<Seq<u8>>::empty(), ids);
    assert(Set::<Seq<u8>>::empty() + ids.to_set() =~= ids.to_set());
}

/// Membership accuracy: after any run of insertions, an identifier is a
/// member exactly when it was a member before or occurs in the run. In
/// particular an identifier never inserted stays absent, and one inserted
/// stays present through every later insertion — nothing is ever evicted.
pub proof fn lemma_membership_accuracy(
    contents: Set<Seq<u8>>,
    ids: Seq<Seq<u8>>,
    x: Seq<u8>,
)
    ensures
        insert_all(contents, ids).contains(x) == (contents.contains(x) || ids.contains(x)),
{
    lemma_insert_all_members(contents, ids);
    assert(ids.to_set().contains(x) == ids.contains(x));
}

/// Serialized insert race: in a run of insertions of one absent identifier,
/// the identifier is a member after the first insertion and the contents
/// never change again — so by `insert`'s contract the first call of the run
/// reports a change (`true`) and every later one reports none (`false`):
/// exactly one caller wins.
pub proof fn lemma_single_winner(contents: Set<Seq<u8>>, id: Seq<u8>, n: nat)
    requires
        !contents.contains(id),
    ensures
        insert_repeated(contents, id, n).contains(id) <==> n >= 1,
        insert_repeated(contents, id, n) == if n == 0 {
            contents
        } else {
            contents.insert(id)
        },
    decreases n,
{
    if n > 0 {
        lemma_single_winner(contents, id, (n - 1) as nat);
        assert(insert_repeated(contents, id, n) =~= contents.insert(id));
    }
}

impl View for BlobIdSet {
    type V = Set<Seq<u8>>;

    /// The abstract contents: the set of identifiers present, as byte strings.
    closed spec fn view(&self) -> Set<Seq<u8>> {
        Set::new(|id: Seq<u8>| self.spec_contains(id))
    }
}

} // verus!
