//! The key to accumulator mapping.
//!
//! A `StatsTable` is the private state of one worker, and later the
//! state of the global merger.  It maps opaque byte keys to their
//! `Stats` accumulators.  The table also tracks how many values were
//! ever folded into it, which bounds every per-key count and so keeps
//! all counter arithmetic inside machine integers.

use vstd::prelude::*;

use crate::error::Error;
use crate::format::{format_tenths, round_div, round_mean, spec_tenths_bytes};
use crate::record::extract_records;
use crate::record::records_of;
use crate::stats::{fold_values, model_wf, stats_combine, stats_fold, stats_of, stats_single, Stats,
    StatsModel};

verus! {

/// Observing one `(key, value)` record in a mapping: fold the value
/// into the key's accumulator, seeding a fresh accumulator on the
/// key's first sighting.
pub open spec fn spec_observe(m: Map<Seq<u8>, StatsModel>, k: Seq<u8>, v: int) -> Map<
    Seq<u8>,
    StatsModel,
> {
    if m.dom().contains(k) {
        m.insert(k, stats_fold(m[k], v))
    } else {
        m.insert(k, stats_single(v))
    }
}

/// Observing a sequence of records in order.
pub open spec fn spec_observe_all(
    m: Map<Seq<u8>, StatsModel>,
    pairs: Seq<(Seq<u8>, int)>,
) -> Map<Seq<u8>, StatsModel>
    decreases pairs.len(),
{
    if pairs.len() == 0 {
        m
    } else {
        spec_observe(spec_observe_all(m, pairs.drop_last()), pairs.last().0, pairs.last().1)
    }
}

/// The values a sequence of records assigns to one key, in order.
pub open spec fn key_values(pairs: Seq<(Seq<u8>, int)>, k: Seq<u8>) -> Seq<int>
    decreases pairs.len(),
{
    if pairs.len() == 0 {
        Seq::empty()
    } else if pairs.last().0 == k {
        key_values(pairs.drop_last(), k).push(pairs.last().1)
    } else {
        key_values(pairs.drop_last(), k)
    }
}

/// Folding records into a mapping computes, for every key, exactly the
/// statistics of the sequence of values assigned to that key, however
/// records for other keys are interleaved between them.  A key is
/// present afterwards exactly when it was present before or some
/// record assigns it a value.
pub proof fn lemma_observe_all_per_key(
    m: Map<Seq<u8>, StatsModel>,
    pairs: Seq<(Seq<u8>, int)>,
    k: Seq<u8>,
)
    ensures
        spec_observe_all(m, pairs).dom().contains(k) <==> m.dom().contains(k) || key_values(
            pairs,
            k,
        ).len() > 0,
        !m.dom().contains(k) && key_values(pairs, k).len() > 0 ==> spec_observe_all(m, pairs)[k]
            == stats_of(key_values(pairs, k)),
        m.dom().contains(k) ==> spec_observe_all(m, pairs)[k] == fold_values(
            m[k],
            key_values(pairs, k),
        ),
    decreases pairs.len(),
{
    if pairs.len() > 0 {
        let rest = pairs.drop_last();
        let k0 = pairs.last().0;
        let v = pairs.last().1;
        let mm = spec_observe_all(m, rest);
        lemma_observe_all_per_key(m, rest, k);
        let kvr = key_values(rest, k);
        if k0 == k {
            let kv = key_values(pairs, k);
            assert(kv == kvr.push(v));
            assert(kv.drop_last() =~= kvr);
            assert(kv.last() == v);
            if m.dom().contains(k) {
                assert(fold_values(m[k], kv) == stats_fold(fold_values(m[k], kvr), v));
                assert(spec_observe_all(m, pairs)[k] == stats_fold(mm[k], v));
            } else if kvr.len() > 0 {
                assert(mm[k] == stats_of(kvr));
                assert(stats_of(kv) == stats_fold(stats_of(kvr), v));
                assert(spec_observe_all(m, pairs)[k] == stats_fold(mm[k], v));
            } else {
                assert(!mm.dom().contains(k));
                assert(spec_observe_all(m, pairs)[k] == stats_single(v));
                assert(kv.len() == 1);
                assert(kv[0] == v);
                assert(stats_of(kv) == stats_single(v));
            }
        } else {
            assert(key_values(pairs, k) == kvr);
            assert(spec_observe_all(m, pairs) == spec_observe(mm, k0, v));
            assert(spec_observe(mm, k0, v).dom().contains(k) <==> mm.dom().contains(k));
            if mm.dom().contains(k) {
                assert(spec_observe(mm, k0, v)[k] == mm[k]);
            }
        }
    }
}

/// Merging two mappings: the union of their keys, combining the two
/// accumulators of every key they share.
pub open spec fn spec_merge(a: Map<Seq<u8>, StatsModel>, b: Map<Seq<u8>, StatsModel>) -> Map<
    Seq<u8>,
    StatsModel,
> {
    Map::new(
        |k: Seq<u8>| a.dom().contains(k) || b.dom().contains(k),
        |k: Seq<u8>|
            if a.dom().contains(k) && b.dom().contains(k) {
                stats_combine(a[k], b[k])
            } else if a.dom().contains(k) {
                a[k]
            } else {
                b[k]
            },
    )
}

/// Merging mappings is commutative: the order in which two workers'
/// mappings are folded into the global result does not matter.
pub proof fn lemma_merge_commutative(a: Map<Seq<u8>, StatsModel>, b: Map<Seq<u8>, StatsModel>)
    ensures
        spec_merge(a, b) == spec_merge(b, a),
{
    assert(spec_merge(a, b) =~= spec_merge(b, a));
}

/// Merging mappings is associative: any grouping of the workers'
/// mappings yields the same global result.
pub proof fn lemma_merge_associative(
    a: Map<Seq<u8>, StatsModel>,
    b: Map<Seq<u8>, StatsModel>,
    c: Map<Seq<u8>, StatsModel>,
)
    ensures
        spec_merge(spec_merge(a, b), c) == spec_merge(a, spec_merge(b, c)),
{
    assert(spec_merge(spec_merge(a, b), c) =~= spec_merge(a, spec_merge(b, c)));
}

/// The empty mapping is the identity of merging.
pub proof fn lemma_merge_empty(a: Map<Seq<u8>, StatsModel>)
    ensures
        spec_merge(Map::empty(), a) == a,
        spec_merge(a, Map::empty()) == a,
{
    assert(spec_merge(Map::empty(), a) =~= a);
    assert(spec_merge(a, Map::empty()) =~= a);
}

/// Compare two byte ranges for equality.
#[verifier::loop_isolation(false)]
fn bytes_eq(a: &[u8], b: &[u8]) -> (r: bool)
    ensures
        r <==> a@ == b@,
{
    if a.len() != b.len() {
        assert(a@.len() != b@.len());
        return false;
    }
    let mut i: usize = 0;
    while i < a.len()
        invariant
            0 <= i <= a@.len(),
            forall|j: int| 0 <= j < i ==> a@[j] == b@[j],
        decreases a@.len() - i,
    {
        if a[i] != b[i] {
            return false;
        }
        i = i + 1;
    }
    proof {
        assert(a@ =~= b@);
    }
    true
}

/// Copy a byte key.
fn copy_key(k: &Vec<u8>) -> (r: Vec<u8>)
    ensures
        r@ == k@,
{
    vstd::slice::slice_to_vec(k.as_slice())
}

/// The mapping denoted by parallel key and accumulator vectors.
spec fn map_of(ks: Seq<Vec<u8>>, ss: Seq<Stats>) -> Map<Seq<u8>, StatsModel>
    decreases ks.len(),
{
    if ks.len() == 0 || ss.len() == 0 {
        Map::empty()
    } else {
        map_of(ks.drop_last(), ss.drop_last()).insert(ks.last()@, ss.last()@)
    }
}

/// Pairwise-distinct key views.
spec fn distinct_keys(ks: Seq<Vec<u8>>) -> bool {
    forall|i: int, j: int| 0 <= i < j < ks.len() ==> ks[i]@ != ks[j]@
}

/// A key is in the denoted mapping exactly when some entry holds it.
proof fn lemma_map_of_dom(ks: Seq<Vec<u8>>, ss: Seq<Stats>)
    requires
        ks.len() == ss.len(),
    ensures
        forall|k: Seq<u8>|
            #[trigger] map_of(ks, ss).dom().contains(k) <==> (exists|i: int|
                0 <= i < ks.len() && ks[i]@ == k),
    decreases ks.len(),
{
    if ks.len() > 0 {
        let dk = ks.drop_last();
        let ds = ss.drop_last();
        lemma_map_of_dom(dk, ds);
        assert forall|k: Seq<u8>| #[trigger]
            map_of(ks, ss).dom().contains(k) implies (exists|i: int|
            0 <= i < ks.len() && ks[i]@ == k) by {
            if k == ks.last()@ {
                assert(ks[ks.len() - 1]@ == k);
            } else {
                assert(map_of(dk, ds).dom().contains(k));
                let i = choose|i: int| 0 <= i < dk.len() && dk[i]@ == k;
                assert(dk[i] == ks[i]);
                assert(ks[i]@ == k);
            }
        }
        assert forall|k: Seq<u8>| (exists|i: int|
            0 <= i < ks.len() && ks[i]@ == k) implies #[trigger] map_of(ks, ss).dom().contains(
            k,
        ) by {
            let i = choose|i: int| 0 <= i < ks.len() && ks[i]@ == k;
            if i == ks.len() - 1 {
                assert(map_of(ks, ss).dom().contains(ks.last()@));
            } else {
                assert(dk[i] == ks[i]);
                assert(exists|j: int| 0 <= j < dk.len() && dk[j]@ == k);
                assert(map_of(dk, ds).dom().contains(k));
            }
        }
    }
}

/// With distinct keys, the denoted mapping sends each entry's key to
/// that entry's accumulator.
proof fn lemma_map_of_get(ks: Seq<Vec<u8>>, ss: Seq<Stats>, i: int)
    requires
        ks.len() == ss.len(),
        distinct_keys(ks),
        0 <= i < ks.len(),
    ensures
        map_of(ks, ss).dom().contains(ks[i]@),
        map_of(ks, ss)[ks[i]@] == ss[i]@,
    decreases ks.len(),
{
    if i == ks.len() - 1 {
    } else {
        assert(ks.drop_last()[i] == ks[i]);
        assert(ks[i]@ != ks.last()@);
        lemma_map_of_get(ks.drop_last(), ss.drop_last(), i);
    }
}

/// Replacing one entry's accumulator denotes an insert on the mapping.
proof fn lemma_map_of_update(ks: Seq<Vec<u8>>, ss: Seq<Stats>, i: int, st: Stats)
    requires
        ks.len() == ss.len(),
        distinct_keys(ks),
        0 <= i < ks.len(),
    ensures
        map_of(ks, ss.update(i, st)) == map_of(ks, ss).insert(ks[i]@, st@),
    decreases ks.len(),
{
    let ss2 = ss.update(i, st);
    if i == ks.len() - 1 {
        assert(ss2.drop_last() =~= ss.drop_last());
        assert(ss2.last() == st);
        assert(map_of(ks, ss2) =~= map_of(ks, ss).insert(ks[i]@, st@));
    } else {
        assert(ss2.drop_last() =~= ss.drop_last().update(i, st));
        assert(ss2.last() == ss.last());
        assert(ks.drop_last()[i] == ks[i]);
        lemma_map_of_update(ks.drop_last(), ss.drop_last(), i, st);
        assert(ks[i]@ != ks.last()@);
        assert(map_of(ks, ss2) =~= map_of(ks, ss).insert(ks[i]@, st@));
    }
}

/// Appending an entry denotes an insert on the mapping.
proof fn lemma_map_of_push(ks: Seq<Vec<u8>>, ss: Seq<Stats>, k: Vec<u8>, st: Stats)
    requires
        ks.len() == ss.len(),
    ensures
        map_of(ks.push(k), ss.push(st)) == map_of(ks, ss).insert(k@, st@),
{
    assert(ks.push(k).drop_last() =~= ks);
    assert(ss.push(st).drop_last() =~= ss);
    assert(ks.push(k).last() == k);
    assert(ss.push(st).last() == st);
}

/// With distinct keys, the denoted mapping has exactly one key per
/// entry.
proof fn lemma_map_of_dom_len(ks: Seq<Vec<u8>>, ss: Seq<Stats>)
    requires
        ks.len() == ss.len(),
        distinct_keys(ks),
    ensures
        map_of(ks, ss).dom().finite(),
        map_of(ks, ss).dom().len() == ks.len(),
    decreases ks.len(),
{
    if ks.len() == 0 {
        assert(map_of(ks, ss).dom() =~= Set::<Seq<u8>>::empty());
    } else {
        lemma_map_of_dom_len(ks.drop_last(), ss.drop_last());
        lemma_map_of_dom(ks.drop_last(), ss.drop_last());
        let k = ks.last()@;
        assert(!map_of(ks.drop_last(), ss.drop_last()).dom().contains(k)) by {
            if map_of(ks.drop_last(), ss.drop_last()).dom().contains(k) {
                let i = choose|i: int| 0 <= i < ks.len() - 1 && ks.drop_last()[i]@ == k;
                assert(ks[i]@ == ks[ks.len() - 1]@);
            }
        }
        assert(map_of(ks, ss).dom() =~= map_of(ks.drop_last(), ss.drop_last()).dom().insert(k));
    }
}

/// The total number of values folded into a sequence of accumulators.
spec fn sum_counts(ss: Seq<Stats>) -> int
    decreases ss.len(),
{
    if ss.len() == 0 {
        0
    } else {
        sum_counts(ss.drop_last()) + ss.last().count
    }
}

/// Replacing one accumulator replaces exactly its contribution to the
/// summed count.
proof fn lemma_sum_counts_update(ss: Seq<Stats>, i: int, st: Stats)
    requires
        0 <= i < ss.len(),
    ensures
        sum_counts(ss.update(i, st)) == sum_counts(ss) - ss[i].count + st.count,
    decreases ss.len(),
{
    let ss2 = ss.update(i, st);
    if i == ss.len() - 1 {
        assert(ss2.drop_last() =~= ss.drop_last());
        assert(ss2.last() == st);
    } else {
        assert(ss2.drop_last() =~= ss.drop_last().update(i, st));
        assert(ss2.last() == ss.last());
        lemma_sum_counts_update(ss.drop_last(), i, st);
    }
}

/// No accumulator's count exceeds the summed count.
proof fn lemma_sum_counts_le(ss: Seq<Stats>, i: int)
    requires
        0 <= i < ss.len(),
    ensures
        ss[i].count <= sum_counts(ss),
        sum_counts(ss) >= 0,
    decreases ss.len(),
{
    if ss.len() > 0 {
        if i == ss.len() - 1 {
            lemma_sum_counts_nonneg(ss.drop_last());
        } else {
            assert(ss.drop_last()[i] == ss[i]);
            lemma_sum_counts_le(ss.drop_last(), i);
        }
    }
}

/// Counts are unsigned, so the summed count is non-negative.
proof fn lemma_sum_counts_nonneg(ss: Seq<Stats>)
    ensures
        sum_counts(ss) >= 0,
    decreases ss.len(),
{
    if ss.len() > 0 {
        lemma_sum_counts_nonneg(ss.drop_last());
    }
}

/// One worker's (or the merger's) key to accumulator table.
pub struct StatsTable {
    keys: Vec<Vec<u8>>,
    stats: Vec<Stats>,
    total: u64,
}

impl View for StatsTable {
    type V = Map<Seq<u8>, StatsModel>;

    closed spec fn view(&self) -> Map<Seq<u8>, StatsModel> {
        map_of(self.keys@, self.stats@)
    }
}

impl StatsTable {
    /// How many values were ever folded into this table.
    pub closed spec fn total_spec(self) -> int {
        self.total as int
    }

    /// Internal consistency: parallel vectors, distinct keys,
    /// well-formed accumulators, and a total holding exactly the
    /// number of values ever folded in, which bounds every count.
    pub closed spec fn wf(self) -> bool {
        &&& self.keys@.len() == self.stats@.len()
        &&& distinct_keys(self.keys@)
        &&& forall|i: int| 0 <= i < self.stats@.len() ==> (#[trigger] self.stats@[i]).wf()
        &&& sum_counts(self.stats@) == self.total
    }

    /// A fresh, empty table.
    pub fn new() -> (r: StatsTable)
        ensures
            r.wf(),
            r@ == Map::<Seq<u8>, StatsModel>::empty(),
            r.total_spec() == 0,
    {
        StatsTable { keys: Vec::new(), stats: Vec::new(), total: 0 }
    }

    /// Every accumulator of a well-formed table is well formed and its
    /// count is bounded by the table's total.
    pub proof fn lemma_values_wf(self)
        requires
            self.wf(),
        ensures
            forall|k: Seq<u8>| #[trigger]
                self@.dom().contains(k) ==> model_wf(self@[k]) && self@[k].count
                    <= self.total_spec(),
    {
        lemma_map_of_dom(self.keys@, self.stats@);
        assert forall|k: Seq<u8>| #[trigger] self@.dom().contains(k) implies model_wf(self@[k])
            && self@[k].count <= self.total_spec() by {
            let i = choose|i: int| 0 <= i < self.keys@.len() && self.keys@[i]@ == k;
            lemma_map_of_get(self.keys@, self.stats@, i);
            lemma_sum_counts_le(self.stats@, i);
            assert(self.stats@[i].wf());
        }
    }

    /// How many values were ever folded into this table.  The caller
    /// uses this to keep the running total inside a machine word.
    pub fn total(&self) -> (r: u64)
        ensures
            r as int == self.total_spec(),
    {
        self.total
    }

    /// The number of distinct keys observed.
    pub fn num_keys(&self) -> (r: usize)
        requires
            self.wf(),
        ensures
            r as nat == self@.dom().len(),
    {
        proof {
            lemma_map_of_dom_len(self.keys@, self.stats@);
        }
        self.keys.len()
    }

    /// Find the index holding a key, if any.
    #[verifier::loop_isolation(false)]
    fn find_key(&self, key: &[u8]) -> (r: Option<usize>)
        ensures
            match r {
                Some(i) => i < self.keys@.len() && self.keys@[i as int]@ == key@,
                None => forall|i: int| 0 <= i < self.keys@.len() ==> self.keys@[i]@ != key@,
            },
    {
        let n = self.keys.len();
        let mut i: usize = 0;
        while i < n
            invariant
                0 <= i <= n,
                forall|j: int| 0 <= j < i ==> self.keys@[j]@ != key@,
            decreases n - i,
        {
            if bytes_eq(self.keys[i].as_slice(), key) {
                return Some(i);
            }
            i = i + 1;
        }
        None
    }

    /// The accumulator of one key, if the key was observed.
    pub fn get(&self, key: &[u8]) -> (r: Option<Stats>)
        requires
            self.wf(),
        ensures
            match r {
                Some(st) => self@.dom().contains(key@) && st@ == self@[key@],
                None => !self@.dom().contains(key@),
            },
    {
        proof {
            lemma_map_of_dom(self.keys@, self.stats@);
        }
        match self.find_key(key) {
            Some(i) => {
                proof {
                    lemma_map_of_get(self.keys@, self.stats@, i as int);
                }
                Some(self.stats[i])
            },
            None => None,
        }
    }

    /// Fold one observed `(key, value)` record into the table.
    pub fn observe(&mut self, key: &[u8], v: i64)
        requires
            old(self).wf(),
            old(self).total_spec() < u64::MAX,
        ensures
            final(self).wf(),
            final(self)@ == spec_observe(old(self)@, key@, v as int),
            final(self).total_spec() == old(self).total_spec() + 1,
    {
        proof {
            lemma_map_of_dom(self.keys@, self.stats@);
        }
        match self.find_key(key) {
            Some(i) => {
                proof {
                    lemma_map_of_get(self.keys@, self.stats@, i as int);
                    lemma_sum_counts_le(self.stats@, i as int);
                }
                let mut st = self.stats[i];
                st.fold(v);
                self.stats.set(i, st);
                self.total = self.total + 1;
                proof {
                    lemma_map_of_update(self.keys@, old(self).stats@, i as int, st);
                    lemma_sum_counts_update(old(self).stats@, i as int, st);
                }
            },
            None => {
                let k = vstd::slice::slice_to_vec(key);
                let st = Stats::new(v);
                proof {
                    lemma_map_of_push(self.keys@, self.stats@, k, st);
                }
                self.keys.push(k);
                self.stats.push(st);
                self.total = self.total + 1;
                proof {
                    assert(self.stats@.drop_last() =~= old(self).stats@);
                }
            },
        }
    }

    /// Run the record extractor over one record-aligned block and fold
    /// every record of the block into the table.  On the first
    /// malformed record the whole block is rejected and the table is
    /// left unchanged.
    #[verifier::loop_isolation(false)]
    pub fn process_block(&mut self, block: &[u8]) -> (r: Result<(), Error>)
        requires
            old(self).wf(),
            old(self).total_spec() + block@.len() <= u64::MAX,
        ensures
            final(self).wf(),
            match r {
                Ok(_) => match records_of(block@) {
                    Ok(ps) => final(self)@ == spec_observe_all(old(self)@, ps)
                        && final(self).total_spec() == old(self).total_spec() + ps.len(),
                    Err(_) => false,
                },
                Err(e) => records_of(block@) == Err::<Seq<(Seq<u8>, int)>, Error>(e)
                    && *final(self) == *old(self),
            },
    {
        let ghost m0 = self@;
        match extract_records(block) {
            Err(e) => Err(e),
            Ok(mut pairs) => {
                let ghost ps = records_of(block@)->Ok_0;
                let ghost orig = pairs@;
                let ghost mut done: int = 0;
                while pairs.len() > 0
                    invariant
                        0 <= done <= ps.len(),
                        pairs@ == orig.skip(done),
                        self.wf(),
                        self@ == spec_observe_all(m0, ps.take(done)),
                        self.total_spec() == old(self).total_spec() + done,
                    decreases pairs@.len(),
                {
                    let p = pairs.remove(0);
                    proof {
                        assert(orig.skip(done)[0] == orig[done]);
                        assert(pairs@ =~= orig.skip(done + 1));
                        assert(p == orig[done]);
                    }
                    self.observe(p.0.as_slice(), p.1);
                    proof {
                        done = done + 1;
                        assert(ps.take(done).drop_last() =~= ps.take(done - 1));
                        assert(ps.take(done).last() == ps[done - 1]);
                        assert(p.0@ == ps[done - 1].0 && p.1 as int == ps[done - 1].1);
                    }
                }
                proof {
                    assert(ps.take(done) =~= ps);
                }
                Ok(())
            },
        }
    }

    /// Fold another table (one worker's private mapping) into this
    /// one, combining the accumulators of every shared key.
    #[verifier::loop_isolation(false)]
    #[verifier::rlimit(30)]
    pub fn merge_from(&mut self, other: &StatsTable)
        requires
            old(self).wf(),
            other.wf(),
            old(self).total_spec() + other.total_spec() <= u64::MAX,
        ensures
            final(self).wf(),
            final(self)@ == spec_merge(old(self)@, other@),
            final(self).total_spec() == old(self).total_spec() + other.total_spec(),
    {
        proof {
            lemma_sum_counts_nonneg(self.stats@);
            lemma_sum_counts_nonneg(other.stats@);
        }
        let ghost a0 = self@;
        self.total = self.total + other.total;
        let n = other.keys.len();
        let mut i: usize = 0;
        while i < n
            invariant
                0 <= i <= n,
                self.keys@.len() == self.stats@.len(),
                distinct_keys(self.keys@),
                forall|t: int| 0 <= t < self.stats@.len() ==> (#[trigger] self.stats@[t]).wf(),
                sum_counts(self.stats@) == old(self).total_spec() + sum_counts(
                    other.stats@.take(i as int),
                ),
                self.total == old(self).total + other.total,
                self@ == merge_fold(a0, other.keys@.take(i as int), other.stats@.take(i as int)),
            decreases n - i,
        {
            let st_other = other.stats[i];
            proof {
                lemma_sum_counts_le(other.stats@, i as int);
                lemma_sum_counts_nonneg(other.stats@.take(i as int));
                assert(other.stats@.take(i + 1).drop_last() =~= other.stats@.take(i as int));
                assert(other.stats@.take(i + 1).last() == st_other);
                lemma_sum_counts_take_le(other.stats@, i + 1);
                assert(other.keys@.take(i + 1).drop_last() =~= other.keys@.take(i as int));
                assert(other.keys@.take(i + 1).last() == other.keys@[i as int]);
            }
            match self.find_key(other.keys[i].as_slice()) {
                Some(j) => {
                    proof {
                        lemma_map_of_get(self.keys@, self.stats@, j as int);
                        lemma_sum_counts_le(self.stats@, j as int);
                    }
                    let ghost stats_before = self.stats@;
                    let combined = self.stats[j].combine(&st_other);
                    self.stats.set(j, combined);
                    proof {
                        lemma_map_of_update(self.keys@, stats_before, j as int, combined);
                        lemma_sum_counts_update(stats_before, j as int, combined);
                    }
                },
                None => {
                    let k = copy_key(&other.keys[i]);
                    proof {
                        lemma_map_of_dom(self.keys@, self.stats@);
                        lemma_map_of_push(self.keys@, self.stats@, k, st_other);
                    }
                    let ghost stats_before = self.stats@;
                    self.keys.push(k);
                    self.stats.push(st_other);
                    proof {
                        assert(self.stats@.drop_last() =~= stats_before);
                    }
                },
            }
            i = i + 1;
        }
        proof {
            assert(other.keys@.take(n as int) =~= other.keys@);
            assert(other.stats@.take(n as int) =~= other.stats@);
            lemma_merge_fold_is_merge(a0, other.keys@, other.stats@);
        }
    }

    /// Render the table as the final result: one row per key, sorted
    /// ascending in byte-lexicographic key order, the mean rounded to
    /// the nearest tenth, every value printed with one fractional
    /// digit.
    #[verifier::loop_isolation(false)]
    #[verifier::rlimit(100)]
    pub fn rows(&self) -> (r: Vec<Row>)
        requires
            self.wf(),
        ensures
            r@.len() == self@.dom().len(),
            forall|i: int|
                0 <= i < r@.len() ==> self@.dom().contains(#[trigger] r@[i].key@) && row_matches(
                    r@[i],
                    r@[i].key@,
                    self@[r@[i].key@],
                ),
            forall|i: int, j: int|
                0 <= i < j < r@.len() ==> lex_le(r@[i].key@, r@[j].key@) && r@[i].key@
                    != r@[j].key@,
            forall|k: Seq<u8>| #[trigger]
                self@.dom().contains(k) ==> exists|i: int| 0 <= i < r@.len() && r@[i].key@ == k,
    {
        proof {
            lemma_map_of_dom(self.keys@, self.stats@);
            lemma_map_of_dom_len(self.keys@, self.stats@);
        }
        let n = self.keys.len();
        let mut out: Vec<Row> = Vec::new();
        let mut i: usize = 0;
        while i < n
            invariant
                0 <= i <= n,
                out@.len() == i,
                forall|t: int|
                    0 <= t < out@.len() ==> exists|e: int|
                        0 <= e < i && row_matches(
                            #[trigger] out@[t],
                            self.keys@[e]@,
                            self.stats@[e]@,
                        ),
                forall|e: int|
                    0 <= e < i ==> exists|t: int|
                        0 <= t < out@.len() && out@[t].key@ == (#[trigger] self.keys@[e])@,
                forall|t1: int, t2: int|
                    0 <= t1 < t2 < out@.len() ==> lex_le(
                        #[trigger] out@[t1].key@,
                        #[trigger] out@[t2].key@,
                    ) && out@[t1].key@ != out@[t2].key@,
            decreases n - i,
        {
            let st = self.stats[i];
            proof {
                assert(self.stats@[i as int].wf());
                assert(st.count * (i64::MIN as int) <= st.sum <= st.count * (
                i64::MAX as int)) by (nonlinear_arith)
                    requires
                        1 <= st@.count,
                        st@.count * st@.min <= st@.sum,
                        st@.sum <= st@.count * st@.max,
                        i64::MIN <= st@.min,
                        st@.max <= i64::MAX,
                ;
            }
            let mean = round_mean(st.sum, st.count);
            let row = Row {
                key: vstd::slice::slice_to_vec(self.keys[i].as_slice()),
                min: format_tenths(st.min),
                mean: format_tenths(mean),
                max: format_tenths(st.max),
            };
            let ghost rowg = row;
            let p = insert_pos(&out, row.key.as_slice());
            let ghost out_old = out@;
            out.insert(p, row);
            proof {
                out_old.insert_ensures(p as int, rowg);
                assert(row_matches(rowg, self.keys@[i as int]@, self.stats@[i as int]@));
                assert(out@[p as int] == rowg);
                assert forall|t1: int, t2: int| 0 <= t1 < t2 < out@.len() implies lex_le(
                    #[trigger] out@[t1].key@,
                    #[trigger] out@[t2].key@,
                ) && out@[t1].key@ != out@[t2].key@ by {
                    let k_new = rowg.key@;
                    if t1 == p {
                        let o2 = out@[t2];
                        assert(o2 == out_old[t2 - 1]);
                        lemma_lex_total(out_old[p as int].key@, k_new);
                        if t2 - 1 > p {
                            lemma_lex_trans(k_new, out_old[p as int].key@, out_old[t2 - 1].key@);
                        }
                        let e2 = choose|e: int|
                            0 <= e < i && row_matches(out_old[t2 - 1], self.keys@[e]@, self.stats@[e]@);
                        assert(out_old[t2 - 1].key@ == self.keys@[e2]@);
                        assert(self.keys@[e2]@ != self.keys@[i as int]@);
                    } else if t2 == p {
                        assert(out@[t1] == out_old[t1]);
                        let e1 = choose|e: int|
                            0 <= e < i && row_matches(out_old[t1], self.keys@[e]@, self.stats@[e]@);
                        assert(out_old[t1].key@ == self.keys@[e1]@);
                        assert(self.keys@[e1]@ != self.keys@[i as int]@);
                    } else if t1 < p && t2 > p {
                        assert(out@[t1] == out_old[t1]);
                        assert(out@[t2] == out_old[t2 - 1]);
                        if t1 < t2 - 1 {
                        } else {
                            assert(t1 == t2 - 1);
                            assert(t1 < p && t2 > p && t2 == t1 + 1);
                            assert(false);
                        }
                    } else if t2 < p {
                        assert(out@[t1] == out_old[t1]);
                        assert(out@[t2] == out_old[t2]);
                    } else {
                        assert(t1 > p);
                        assert(out@[t1] == out_old[t1 - 1]);
                        assert(out@[t2] == out_old[t2 - 1]);
                    }
                }
                assert forall|t: int| 0 <= t < out@.len() implies exists|e: int|
                    0 <= e < i + 1 && row_matches(
                        #[trigger] out@[t],
                        self.keys@[e]@,
                        self.stats@[e]@,
                    ) by {
                    if t == p {
                        assert(row_matches(out@[t], self.keys@[i as int]@, self.stats@[i as int]@));
                    } else if t < p {
                        assert(out@[t] == out_old[t]);
                    } else {
                        assert(out@[t] == out_old[t - 1]);
                    }
                }
                assert forall|e: int| 0 <= e < i + 1 implies exists|t: int|
                    0 <= t < out@.len() && out@[t].key@ == (#[trigger] self.keys@[e])@ by {
                    if e == i {
                        assert(out@[p as int].key@ == self.keys@[i as int]@);
                    } else {
                        let t = choose|t: int|
                            0 <= t < out_old.len() && out_old[t].key@ == self.keys@[e]@;
                        if t < p {
                            assert(out@[t].key@ == self.keys@[e]@);
                        } else {
                            assert(out@[t + 1].key@ == self.keys@[e]@);
                        }
                    }
                }
            }
            i = i + 1;
        }
        proof {
            assert forall|t: int| 0 <= t < out@.len() implies self@.dom().contains(
                #[trigger] out@[t].key@,
            ) && row_matches(out@[t], out@[t].key@, self@[out@[t].key@]) by {
                let e = choose|e: int|
                    0 <= e < n && row_matches(out@[t], self.keys@[e]@, self.stats@[e]@);
                lemma_map_of_get(self.keys@, self.stats@, e);
            }
            assert forall|k: Seq<u8>| #[trigger]
                self@.dom().contains(k) implies exists|t: int|
                0 <= t < out@.len() && out@[t].key@ == k by {
                let e = choose|e: int| 0 <= e < self.keys@.len() && self.keys@[e]@ == k;
                assert(exists|t: int| 0 <= t < out@.len() && out@[t].key@ == self.keys@[e]@);
            }
        }
        out
    }
}

/// Byte-lexicographic order on keys: the order of the final output.
pub open spec fn lex_le(a: Seq<u8>, b: Seq<u8>) -> bool
    decreases a.len(),
{
    if a.len() == 0 {
        true
    } else if b.len() == 0 {
        false
    } else if a[0] < b[0] {
        true
    } else if a[0] > b[0] {
        false
    } else {
        lex_le(a.skip(1), b.skip(1))
    }
}

/// The lexicographic order is total.
proof fn lemma_lex_total(a: Seq<u8>, b: Seq<u8>)
    ensures
        lex_le(a, b) || lex_le(b, a),
    decreases a.len(),
{
    if a.len() > 0 && b.len() > 0 && a[0] == b[0] {
        lemma_lex_total(a.skip(1), b.skip(1));
    }
}

/// The lexicographic order is transitive.
proof fn lemma_lex_trans(a: Seq<u8>, b: Seq<u8>, c: Seq<u8>)
    requires
        lex_le(a, b),
        lex_le(b, c),
    ensures
        lex_le(a, c),
    decreases a.len(),
{
    if a.len() > 0 && c.len() > 0 {
        assert(b.len() > 0);
        if a[0] == c[0] {
            assert(a[0] <= b[0] && b[0] <= c[0]);
            assert(a[0] == b[0] && b[0] == c[0]);
            lemma_lex_trans(a.skip(1), b.skip(1), c.skip(1));
        }
    }
}

/// Compare two keys in byte-lexicographic order.
#[verifier::loop_isolation(false)]
fn lex_le_bytes(a: &[u8], b: &[u8]) -> (r: bool)
    ensures
        r == lex_le(a@, b@),
{
    let alen = a.len();
    let blen = b.len();
    proof {
        assert(a@.skip(0) =~= a@);
        assert(b@.skip(0) =~= b@);
    }
    let mut i: usize = 0;
    while i < alen && i < blen && a[i] == b[i]
        invariant
            0 <= i <= alen,
            i <= blen,
            lex_le(a@, b@) == lex_le(a@.skip(i as int), b@.skip(i as int)),
        decreases alen - i,
    {
        proof {
            let sa = a@.skip(i as int);
            let sb = b@.skip(i as int);
            assert(sa[0] == sb[0]);
            assert(sa.skip(1) =~= a@.skip(i + 1));
            assert(sb.skip(1) =~= b@.skip(i + 1));
        }
        i = i + 1;
    }
    let ghost sa = a@.skip(i as int);
    let ghost sb = b@.skip(i as int);
    if i == alen {
        proof {
            assert(sa.len() == 0);
        }
        true
    } else if i == blen {
        proof {
            assert(sb.len() == 0 && sa.len() > 0);
        }
        false
    } else {
        proof {
            assert(sa[0] == a@[i as int] && sb[0] == b@[i as int]);
            assert(a@[i as int] != b@[i as int]);
        }
        a[i] < b[i]
    }
}

/// One rendered line of the final result.
pub struct Row {
    pub key: Vec<u8>,
    pub min: Vec<u8>,
    pub mean: Vec<u8>,
    pub max: Vec<u8>,
}

/// A row renders one key's statistics: the minimum, the mean rounded
/// to the nearest tenth (ties away from zero), and the maximum, each
/// with exactly one fractional digit.
pub open spec fn row_matches(r: Row, k: Seq<u8>, m: StatsModel) -> bool {
    &&& r.key@ == k
    &&& r.min@ == spec_tenths_bytes(m.min)
    &&& r.mean@ == spec_tenths_bytes(round_div(m.sum, m.count))
    &&& r.max@ == spec_tenths_bytes(m.max)
}

impl Row {
    /// The full output line of this row:
    /// `<key><delimiter><min><delimiter><mean><delimiter><max>`.
    #[verifier::loop_isolation(false)]
    pub fn line(&self) -> (r: Vec<u8>)
        ensures
            r@ == self.key@ + seq![crate::record::DELIMITER] + self.min@ + seq![
                crate::record::DELIMITER,
            ] + self.mean@ + seq![crate::record::DELIMITER] + self.max@,
    {
        let mut out: Vec<u8> = Vec::new();
        append_bytes(&mut out, self.key.as_slice());
        out.push(crate::record::DELIMITER);
        append_bytes(&mut out, self.min.as_slice());
        out.push(crate::record::DELIMITER);
        append_bytes(&mut out, self.mean.as_slice());
        out.push(crate::record::DELIMITER);
        append_bytes(&mut out, self.max.as_slice());
        proof {
            assert(out@ =~= self.key@ + seq![crate::record::DELIMITER] + self.min@ + seq![
                crate::record::DELIMITER,
            ] + self.mean@ + seq![crate::record::DELIMITER] + self.max@);
        }
        out
    }
}

/// Append a byte range to a vector.
#[verifier::loop_isolation(false)]
fn append_bytes(out: &mut Vec<u8>, data: &[u8])
    ensures
        final(out)@ == old(out)@ + data@,
{
    let mut t: usize = 0;
    while t < data.len()
        invariant
            0 <= t <= data@.len(),
            out@ == old(out)@ + data@.take(t as int),
        decreases data@.len() - t,
    {
        out.push(data[t]);
        proof {
            assert(old(out)@ + data@.take(t + 1) =~= (old(out)@ + data@.take(t as int)).push(
                data@[t as int],
            ));
        }
        t = t + 1;
    }
    proof {
        assert(data@.take(data@.len() as int) =~= data@);
        assert(out@ =~= old(out)@ + data@);
    }
}

/// The position at which a key sorts into already-sorted rows.
#[verifier::loop_isolation(false)]
fn insert_pos(out: &Vec<Row>, key: &[u8]) -> (p: usize)
    ensures
        p <= out@.len(),
        forall|q: int| 0 <= q < p ==> lex_le(#[trigger] out@[q].key@, key@),
        p < out@.len() ==> !lex_le(out@[p as int].key@, key@),
{
    let mut p: usize = 0;
    while p < out.len()
        invariant
            0 <= p <= out@.len(),
            forall|q: int| 0 <= q < p ==> lex_le(#[trigger] out@[q].key@, key@),
        decreases out@.len() - p,
    {
        if !lex_le_bytes(out[p].key.as_slice(), key) {
            return p;
        }
        p = p + 1;
    }
    p
}

/// Folding the entries of a table one at a time into a mapping.
spec fn merge_entry(m: Map<Seq<u8>, StatsModel>, k: Seq<u8>, s: StatsModel) -> Map<
    Seq<u8>,
    StatsModel,
> {
    if m.dom().contains(k) {
        m.insert(k, stats_combine(m[k], s))
    } else {
        m.insert(k, s)
    }
}

/// Folding a table's entries in order into a mapping.
spec fn merge_fold(m: Map<Seq<u8>, StatsModel>, ks: Seq<Vec<u8>>, ss: Seq<Stats>) -> Map<
    Seq<u8>,
    StatsModel,
>
    decreases ks.len(),
{
    if ks.len() == 0 || ss.len() == 0 {
        m
    } else {
        merge_entry(merge_fold(m, ks.drop_last(), ss.drop_last()), ks.last()@, ss.last()@)
    }
}

/// A prefix of the accumulators contributes at most the whole summed
/// count.
proof fn lemma_sum_counts_take_le(ss: Seq<Stats>, i: int)
    requires
        0 <= i <= ss.len(),
    ensures
        sum_counts(ss.take(i)) <= sum_counts(ss),
    decreases ss.len() - i,
{
    if i == ss.len() {
        assert(ss.take(i) =~= ss);
    } else {
        assert(ss.take(i + 1).drop_last() =~= ss.take(i));
        assert(ss.take(i + 1).last() == ss[i]);
        lemma_sum_counts_take_le(ss, i + 1);
    }
}

/// Folding a table entry by entry merges the mapping it denotes.
proof fn lemma_merge_fold_is_merge(m: Map<Seq<u8>, StatsModel>, ks: Seq<Vec<u8>>, ss: Seq<Stats>)
    requires
        ks.len() == ss.len(),
        distinct_keys(ks),
    ensures
        merge_fold(m, ks, ss) == spec_merge(m, map_of(ks, ss)),
    decreases ks.len(),
{
    if ks.len() == 0 {
        lemma_merge_empty(m);
    } else {
        let dk = ks.drop_last();
        let ds = ss.drop_last();
        let md = map_of(dk, ds);
        lemma_merge_fold_is_merge(m, dk, ds);
        lemma_map_of_dom(dk, ds);
        let k = ks.last()@;
        let s = ss.last()@;
        assert(!md.dom().contains(k)) by {
            if md.dom().contains(k) {
                let i = choose|i: int| 0 <= i < dk.len() && dk[i]@ == k;
                assert(ks[i]@ == ks[ks.len() - 1]@);
            }
        }
        assert(merge_entry(spec_merge(m, md), k, s) =~= spec_merge(m, md.insert(k, s)));
    }
}

} // verus!
