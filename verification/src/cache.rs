//! The scan result cache: a bounded store keyed by canonical root path.
//! Capacity pressure evicts the entry with the oldest observed directory
//! mtime (age of data, not access recency); rescanning a root first drops
//! every cached entry under it by key prefix. An approximate memory budget
//! is tracked as `entry count x per-item footprint`.

use vstd::prelude::*;
use vstd::string::*;
use vstd::arithmetic::div_mod::{lemma_fundamental_div_mod, lemma_mod_bound};
use crate::items::{ScanResult, ResultV};
use crate::paths::str_starts_with;

verus! {

/// Rough per-item memory footprint used for the cache's byte budget.
pub const ITEM_FOOTPRINT_BYTES: usize = 188;

/// One cached scan: the stored result and the root directory's modification
/// time (seconds since the epoch) observed when the scan was made.
pub struct CacheEntry {
    pub result: ScanResult,
    pub dir_mtime: i64,
}

/// Mathematical image of a `CacheEntry`.
pub ghost struct EntryV {
    pub result: ResultV,
    pub dir_mtime: int,
}

impl View for CacheEntry {
    type V = EntryV;

    open spec fn view(&self) -> EntryV {
        EntryV { result: self.result@, dir_mtime: self.dir_mtime as int }
    }
}

struct CacheRec {
    key: String,
    entry: CacheEntry,
    estimate: usize,
}

/// Mathematical image of one cache slot: key, entry, recorded size estimate.
#[verifier::ext_equal]
pub ghost struct RecV {
    pub key: Seq<char>,
    pub entry: EntryV,
    pub estimate: int,
}

impl View for CacheRec {
    type V = RecV;

    closed spec fn view(&self) -> RecV {
        RecV { key: self.key@, entry: self.entry@, estimate: self.estimate as int }
    }
}

/// Mathematical image of the whole cache.
#[verifier::ext_equal]
pub ghost struct CacheModel {
    pub recs: Seq<RecV>,
    pub max_entries: int,
    pub max_size_bytes: int,
}

/// Index of the first slot holding `key`, or `-1`.
pub open spec fn find_rec(recs: Seq<RecV>, key: Seq<char>) -> int
    decreases recs.len(),
{
    if recs.len() == 0 {
        -1
    } else if recs[0].key == key {
        0
    } else {
        let r = find_rec(recs.drop_first(), key);
        if r == -1 {
            -1
        } else {
            r + 1
        }
    }
}

pub proof fn lemma_find_rec_props(recs: Seq<RecV>, key: Seq<char>)
    ensures
        -1 <= find_rec(recs, key) < recs.len(),
        find_rec(recs, key) >= 0 ==> recs[find_rec(recs, key)].key == key,
        find_rec(recs, key) == -1 ==> forall|j: int|
            0 <= j < recs.len() ==> (#[trigger] recs[j]).key != key,
    decreases recs.len(),
{
    if recs.len() > 0 && recs[0].key != key {
        lemma_find_rec_props(recs.drop_first(), key);
        assert forall|j: int| 1 <= j < recs.len() implies recs.drop_first()[j - 1] == recs[j] by {}
    }
}

/// The cached entry stored under `key`, if any.
pub open spec fn spec_lookup(m: CacheModel, key: Seq<char>) -> Option<EntryV> {
    let i = find_rec(m.recs, key);
    if i == -1 {
        Option::None
    } else {
        Option::Some(m.recs[i].entry)
    }
}

/// Index of the first slot with the oldest observed mtime.
pub open spec fn oldest_idx(recs: Seq<RecV>) -> int
    decreases recs.len(),
{
    if recs.len() <= 1 {
        0
    } else {
        let r = oldest_idx(recs.drop_last());
        if recs.last().entry.dir_mtime < recs[r].entry.dir_mtime {
            recs.len() - 1
        } else {
            r
        }
    }
}

pub proof fn lemma_oldest_idx_bounds(recs: Seq<RecV>)
    requires
        recs.len() > 0,
    ensures
        0 <= oldest_idx(recs) < recs.len(),
    decreases recs.len(),
{
    if recs.len() > 1 {
        lemma_oldest_idx_bounds(recs.drop_last());
    }
}

/// Integer addition saturating at the machine word, mirroring how the byte
/// budget is accounted.
pub open spec fn sat_add(a: int, b: int) -> int {
    if a + b > usize::MAX {
        usize::MAX as int
    } else {
        a + b
    }
}

/// The recorded size estimates of all slots, summed with saturation.
pub open spec fn total_estimate(recs: Seq<RecV>) -> int
    decreases recs.len(),
{
    if recs.len() == 0 {
        0
    } else {
        sat_add(total_estimate(recs.drop_last()), recs.last().estimate)
    }
}

/// The approximate memory footprint recorded for a result.
pub open spec fn spec_estimate(n_items: int) -> int {
    if n_items * ITEM_FOOTPRINT_BYTES > usize::MAX {
        usize::MAX as int
    } else {
        n_items * ITEM_FOOTPRINT_BYTES
    }
}

/// The cache after evicting the entry with the oldest observed mtime; an
/// empty cache is unchanged.
pub open spec fn spec_evict_oldest(m: CacheModel) -> CacheModel {
    if m.recs.len() == 0 {
        m
    } else {
        CacheModel { recs: m.recs.remove(oldest_idx(m.recs)), ..m }
    }
}

/// The cache after inserting `entry` under `key` with recorded estimate
/// `est`: if the store is at capacity or the new entry would push the byte
/// budget over its bound, one oldest entry is evicted first; then the slot
/// for `key` is replaced or appended.
pub open spec fn spec_insert(m: CacheModel, key: Seq<char>, entry: EntryV, est: int) -> CacheModel {
    let m1 = if m.recs.len() >= m.max_entries || sat_add(total_estimate(m.recs), est)
        > m.max_size_bytes {
        spec_evict_oldest(m)
    } else {
        m
    };
    let i = find_rec(m1.recs, key);
    let rec = RecV { key: key, entry: entry, estimate: est };
    if i == -1 {
        CacheModel { recs: m1.recs.push(rec), ..m1 }
    } else {
        CacheModel { recs: m1.recs.update(i, rec), ..m1 }
    }
}

/// The cache after dropping every entry whose key starts with `prefix`.
pub open spec fn keep_recs(recs: Seq<RecV>, prefix: Seq<char>) -> Seq<RecV>
    decreases recs.len(),
{
    if recs.len() == 0 {
        Seq::empty()
    } else if prefix.is_prefix_of(recs.last().key) {
        keep_recs(recs.drop_last(), prefix)
    } else {
        keep_recs(recs.drop_last(), prefix).push(recs.last())
    }
}

pub open spec fn spec_invalidate(m: CacheModel, prefix: Seq<char>) -> CacheModel {
    CacheModel { recs: keep_recs(m.recs, prefix), ..m }
}

/// The bounded, mtime-aware scan cache: canonical root path -> cached scan.
pub struct ScanCache {
    recs: Vec<CacheRec>,
    max_entries: usize,
    max_size_bytes: usize,
}

impl View for ScanCache {
    type V = CacheModel;

    closed spec fn view(&self) -> CacheModel {
        CacheModel {
            recs: self.recs@.map_values(|r: CacheRec| r@),
            max_entries: self.max_entries as int,
            max_size_bytes: self.max_size_bytes as int,
        }
    }
}

impl ScanCache {
    /// A fresh cache bounded to `max_entries` entries and roughly
    /// `max_size_mb` megabytes of result storage.
    pub fn new(max_entries: usize, max_size_mb: usize) -> (r: ScanCache)
        requires
            max_size_mb as int <= usize::MAX as int / 1048576int,
        ensures
            r@.recs.len() == 0,
            r@.max_entries == max_entries as int,
            r@.max_size_bytes == max_size_mb as int * 1048576int,
    {
        proof {
            lemma_fundamental_div_mod(usize::MAX as int, 1048576int);
            lemma_mod_bound(usize::MAX as int, 1048576int);
            assert(max_size_mb as int * 1048576int <= (usize::MAX as int / 1048576int)
                * 1048576int) by (nonlinear_arith)
                requires
                    max_size_mb as int <= usize::MAX as int / 1048576int,
            ;
        }
        let r = ScanCache {
            recs: Vec::new(),
            max_entries: max_entries,
            max_size_bytes: max_size_mb * 1024 * 1024,
        };
        proof {
            assert(r@.recs =~= Seq::<RecV>::empty());
        }
        r
    }

    /// How many results are cached.
    pub fn len(&self) -> (n: usize)
        ensures
            n as int == self@.recs.len(),
    {
        self.recs.len()
    }

    #[verifier::loop_isolation(false)]
    fn find_idx(&self, key: &String) -> (r: Option<usize>)
        ensures
            match r {
                Option::Some(i) => i < self@.recs.len() && find_rec(self@.recs, key@) == i,
                Option::None => find_rec(self@.recs, key@) == -1,
            },
    {
        proof {
            lemma_find_rec_props(self@.recs, key@);
        }
        let mut i: usize = 0;
        while i < self.recs.len()
            invariant
                i <= self@.recs.len(),
                forall|j: int| 0 <= j < i ==> (#[trigger] self@.recs[j]).key != key@,
            decreases self@.recs.len() - i,
        {
            if self.recs[i].key == *key {
                proof {
                    assert(self@.recs[i as int].key == key@);
                    let f = find_rec(self@.recs, key@);
                    if f == -1 {
                        assert(self@.recs[i as int].key != key@);
                    }
                    lemma_find_first(self@.recs, key@, f);
                    if f < i as int {
                        assert(self@.recs[f].key != key@);
                        assert(false);
                    }
                    if f > i as int {
                        assert(self@.recs[i as int].key != key@);
                        assert(false);
                    }
                }
                return Some(i);
            }
            proof {
                assert(self@.recs[i as int].key == self.recs@[i as int].key@);
            }
            i += 1;
        }
        proof {
            let f = find_rec(self@.recs, key@);
            if f >= 0 {
                assert(self@.recs[f].key == key@);
            }
        }
        None
    }

    /// Plain lookup of the entry cached under `path`; no freshness check.
    pub fn get(&self, path: &String) -> (r: Option<&CacheEntry>)
        ensures
            match r {
                Option::Some(e) => spec_lookup(self@, path@) == Option::Some(e@),
                Option::None => spec_lookup(self@, path@) is None,
            },
    {
        match self.find_idx(path) {
            Option::Some(i) => {
                proof {
                    assert(self@.recs[i as int].entry == self.recs@[i as int].entry@);
                }
                Some(&self.recs[i].entry)
            },
            Option::None => None,
        }
    }

    /// The usability test for a cached entry: it is fresh exactly when the
    /// observed mtime is at least the root's current mtime.
    pub fn freshness_check(entry: &CacheEntry, current_mtime: i64) -> (r: bool)
        ensures
            r == (entry@.dir_mtime >= current_mtime as int),
    {
        entry.dir_mtime >= current_mtime
    }

    fn estimate_size(result: &ScanResult) -> (e: usize)
        ensures
            e as int == spec_estimate(result.items@.len() as int),
    {
        let n = result.items.len();
        proof {
            let q = usize::MAX as int / 188;
            lemma_fundamental_div_mod(usize::MAX as int, 188);
            lemma_mod_bound(usize::MAX as int, 188);
            assert((n > q ==> n * 188 > usize::MAX) && (n <= q ==> n * 188 <= usize::MAX))
                by (nonlinear_arith)
                requires
                    usize::MAX as int == 188 * q + usize::MAX as int % 188,
                    0 <= usize::MAX as int % 188 < 188,
                    n >= 0,
            ;
        }
        if n > usize::MAX / 188 {
            usize::MAX
        } else {
            n * 188
        }
    }

    #[verifier::loop_isolation(false)]
    fn get_total_size(&self) -> (t: usize)
        ensures
            t as int == total_estimate(self@.recs),
    {
        let mut acc: usize = 0;
        let mut i: usize = 0;
        while i < self.recs.len()
            invariant
                i <= self@.recs.len(),
                acc as int == total_estimate(self@.recs.subrange(0, i as int)),
            decreases self@.recs.len() - i,
        {
            proof {
                assert(self@.recs.subrange(0, i + 1 as int).drop_last() =~= self@.recs.subrange(
                    0,
                    i as int,
                ));
                assert(self@.recs.subrange(0, i + 1 as int).last() == self@.recs[i as int]);
            }
            let e = self.recs[i].estimate;
            if acc > usize::MAX - e {
                acc = usize::MAX;
            } else {
                acc = acc + e;
            }
            i += 1;
        }
        proof {
            assert(self@.recs.subrange(0, self@.recs.len() as int) =~= self@.recs);
        }
        acc
    }

    #[verifier::rlimit(60)]
    #[verifier::loop_isolation(false)]
    fn evict_oldest(&mut self)
        ensures
            final(self)@ == spec_evict_oldest(old(self)@),
    {
        if self.recs.len() == 0 {
            return ;
        }
        proof {
            lemma_oldest_idx_bounds(self@.recs);
        }
        let mut best: usize = 0;
        let mut i: usize = 1;
        while i < self.recs.len()
            invariant
                self@.recs.len() > 0,
                i <= self@.recs.len(),
                i >= 1,
                best < i,
                best as int == oldest_idx(self@.recs.subrange(0, i as int)),
            decreases self@.recs.len() - i,
        {
            proof {
                assert(self@.recs.subrange(0, i + 1 as int).drop_last() =~= self@.recs.subrange(
                    0,
                    i as int,
                ));
                assert(self@.recs.subrange(0, i + 1 as int).last() == self@.recs[i as int]);
                lemma_oldest_idx_bounds(self@.recs.subrange(0, i as int));
            }
            if self.recs[i].entry.dir_mtime < self.recs[best].entry.dir_mtime {
                best = i;
            }
            i += 1;
        }
        proof {
            assert(self@.recs.subrange(0, self@.recs.len() as int) =~= self@.recs);
        }
        self.recs.remove(best);
        proof {
            assert(self@.recs =~= old(self)@.recs.remove(oldest_idx(old(self)@.recs)));
            assert(self@ =~= spec_evict_oldest(old(self)@));
        }
    }

    /// Stores `result` under the canonical root `path` with the observed
    /// mtime, evicting the oldest entry first when the store is at capacity
    /// or the byte budget would be exceeded.
    #[verifier::loop_isolation(false)]
    pub fn insert(&mut self, path: String, result: ScanResult, dir_mtime: i64)
        ensures
            final(self)@ == spec_insert(
                old(self)@,
                path@,
                EntryV { result: result@, dir_mtime: dir_mtime as int },
                spec_estimate(result.items@.len() as int),
            ),
    {
        let est = Self::estimate_size(&result);
        let total = self.get_total_size();
        let sum = if total > usize::MAX - est {
            usize::MAX
        } else {
            total + est
        };
        let ghost m0 = self@;
        if self.recs.len() >= self.max_entries || sum > self.max_size_bytes {
            self.evict_oldest();
        }
        let ghost m1 = self@;
        proof {
            lemma_find_rec_props(m1.recs, path@);
        }
        let idx = self.find_idx(&path);
        let rec = CacheRec {
            key: path,
            entry: CacheEntry { result: result, dir_mtime: dir_mtime },
            estimate: est,
        };
        let ghost recv = rec@;
        match idx {
            Option::Some(i) => {
                self.recs[i] = rec;
                proof {
                    assert(self@.recs =~= m1.recs.update(i as int, recv));
                    assert(self@ =~= spec_insert(m0, recv.key, recv.entry, recv.estimate));
                }
            },
            Option::None => {
                self.recs.push(rec);
                proof {
                    assert(self@.recs =~= m1.recs.push(recv));
                    assert(self@ =~= spec_insert(m0, recv.key, recv.entry, recv.estimate));
                }
            },
        }
    }

    /// Drops every cached entry whose key starts with `path_prefix`; used
    /// before a root is rescanned so that results for its subdirectories go
    /// stale with it.
    #[verifier::loop_isolation(false)]
    pub fn invalidate(&mut self, path_prefix: &String)
        ensures
            final(self)@ == spec_invalidate(old(self)@, path_prefix@),
    {
        let mut kept: Vec<CacheRec> = Vec::new();
        proof {
            assert(kept@.map_values(|r: CacheRec| r@) =~= keep_recs(
                Seq::<RecV>::empty(),
                path_prefix@,
            ));
        }
        loop
            invariant
                kept@.map_values(|r: CacheRec| r@) == keep_recs(
                    old(self)@.recs.subrange(
                        0,
                        old(self)@.recs.len() - self@.recs.len(),
                    ),
                    path_prefix@,
                ),
                self@.recs.len() <= old(self)@.recs.len(),
                self@.recs =~= old(self)@.recs.subrange(
                    old(self)@.recs.len() - self@.recs.len(),
                    old(self)@.recs.len() as int,
                ),
                self@.max_entries == old(self)@.max_entries,
                self@.max_size_bytes == old(self)@.max_size_bytes,
            decreases self@.recs.len(),
        {
            if self.recs.len() == 0 {
                break ;
            }
            let ghost done = old(self)@.recs.len() - self@.recs.len();
            let ghost pre = self@.recs;
            let ghost prevec = self.recs@;
            proof {
                assert(pre[0] == old(self)@.recs[done]);
            }
            let rec = self.recs.remove(0);
            let ghost recv = rec@;
            proof {
                assert(recv == pre[0]);
                assert(recv == old(self)@.recs[done]);
                assert(old(self)@.recs.subrange(0, done + 1).drop_last() =~= old(
                    self,
                )@.recs.subrange(0, done));
                assert(old(self)@.recs.subrange(0, done + 1).last() == old(self)@.recs[done]);
            }
            if !str_starts_with(rec.key.as_str(), path_prefix.as_str()) {
                let ghost kept0 = kept@;
                kept.push(rec);
                proof {
                    assert(!path_prefix@.is_prefix_of(recv.key));
                    assert(old(self)@.recs.subrange(0, done + 1).last() == recv);
                    let target = keep_recs(old(self)@.recs.subrange(0, done + 1), path_prefix@);
                    assert(target == keep_recs(
                        old(self)@.recs.subrange(0, done),
                        path_prefix@,
                    ).push(recv));
                    assert forall|k: int| 0 <= k < kept@.len() implies kept@.map_values(
                        |r: CacheRec| r@,
                    )[k] == target[k] by {
                        if k < kept0.len() {
                            assert(kept@[k] == kept0[k]);
                            assert(kept0.map_values(|r: CacheRec| r@)[k] == keep_recs(
                                old(self)@.recs.subrange(0, done),
                                path_prefix@,
                            )[k]);
                        } else {
                            assert(kept@[k]@ == recv);
                        }
                    }
                    assert(kept@.map_values(|r: CacheRec| r@) =~= target);
                }
            } else {
                proof {
                    assert(path_prefix@.is_prefix_of(recv.key));
                    assert(old(self)@.recs.subrange(0, done + 1).last() == recv);
                    assert(keep_recs(old(self)@.recs.subrange(0, done + 1), path_prefix@)
                        == keep_recs(old(self)@.recs.subrange(0, done), path_prefix@));
                    assert(kept@.map_values(|r: CacheRec| r@) =~= keep_recs(
                        old(self)@.recs.subrange(0, done + 1),
                        path_prefix@,
                    ));
                }
            }
            proof {
                assert forall|k: int| 0 <= k < self@.recs.len() implies self@.recs[k] == old(
                    self,
                )@.recs.subrange(
                    old(self)@.recs.len() - self@.recs.len(),
                    old(self)@.recs.len() as int,
                )[k] by {
                    assert(self.recs@[k] == prevec[k + 1]);
                    assert(self@.recs[k] == pre[k + 1]);
                    assert(pre[k + 1] == old(self)@.recs[done + 1 + k]);
                }
                assert(self@.recs =~= old(self)@.recs.subrange(
                    old(self)@.recs.len() - self@.recs.len(),
                    old(self)@.recs.len() as int,
                ));
            }
        }
        self.recs = kept;
        proof {
            assert(old(self)@.recs.subrange(0, old(self)@.recs.len() as int) =~= old(self)@.recs);
            assert(self@ =~= spec_invalidate(old(self)@, path_prefix@));
        }
    }

    /// Empties the cache.
    pub fn clear(&mut self)
        ensures
            final(self)@.recs.len() == 0,
            final(self)@.max_entries == old(self)@.max_entries,
            final(self)@.max_size_bytes == old(self)@.max_size_bytes,
    {
        self.recs = Vec::new();
        proof {
            assert(self@.recs =~= Seq::<RecV>::empty());
        }
    }
}

proof fn lemma_find_first(recs: Seq<RecV>, key: Seq<char>, f: int)
    requires
        find_rec(recs, key) == f,
        0 <= f < recs.len(),
    ensures
        forall|j: int| 0 <= j < f ==> (#[trigger] recs[j]).key != key,
    decreases recs.len(),
{
    if recs.len() > 0 && recs[0].key != key && f >= 1 {
        lemma_find_first(recs.drop_first(), key, f - 1);
        assert forall|j: int| 0 <= j < f implies (#[trigger] recs[j]).key != key by {
            if j >= 1 {
                assert(recs.drop_first()[j - 1] == recs[j]);
            }
        }
    }
}

/// Eviction bound: inserting into a cache holding no more than
/// `max_entries` entries (at least one slot is always granted) leaves it
/// within the same bound; capacity pressure evicts before the insert.
pub proof fn lemma_insert_bounded(m: CacheModel, key: Seq<char>, entry: EntryV, est: int)
    requires
        m.recs.len() <= if m.max_entries >= 1 {
            m.max_entries
        } else {
            1
        },
    ensures
        spec_insert(m, key, entry, est).recs.len() <= if m.max_entries >= 1 {
            m.max_entries
        } else {
            1
        },
{
    let m1 = if m.recs.len() >= m.max_entries || sat_add(total_estimate(m.recs), est)
        > m.max_size_bytes {
        spec_evict_oldest(m)
    } else {
        m
    };
    if m.recs.len() > 0 {
        lemma_oldest_idx_bounds(m.recs);
    }
    lemma_find_rec_props(m1.recs, key);
}

/// A just-inserted entry is found under its key.
pub proof fn lemma_insert_then_lookup(m: CacheModel, key: Seq<char>, entry: EntryV, est: int)
    ensures
        spec_lookup(spec_insert(m, key, entry, est), key) == Option::Some(entry),
{
    let m1 = if m.recs.len() >= m.max_entries || sat_add(total_estimate(m.recs), est)
        > m.max_size_bytes {
        spec_evict_oldest(m)
    } else {
        m
    };
    if m.recs.len() > 0 {
        lemma_oldest_idx_bounds(m.recs);
    }
    lemma_find_rec_props(m1.recs, key);
    let i = find_rec(m1.recs, key);
    let rec = RecV { key: key, entry: entry, estimate: est };
    let m2 = spec_insert(m, key, entry, est);
    if i == -1 {
        assert(m2.recs == m1.recs.push(rec));
        lemma_find_rec_props(m2.recs, key);
        let f = find_rec(m2.recs, key);
        if f == -1 {
            assert(m2.recs[m1.recs.len() as int].key == key);
        }
        lemma_find_first(m2.recs, key, f);
        if f < m1.recs.len() {
            assert(m2.recs[f] == m1.recs[f]);
            assert(find_rec(m1.recs, key) == -1 ==> m1.recs[f].key != key);
        }
        assert(f == m1.recs.len());
    } else {
        assert(m2.recs == m1.recs.update(i, rec));
        lemma_find_rec_props(m2.recs, key);
        let f = find_rec(m2.recs, key);
        if f == -1 {
            assert(m2.recs[i].key == key);
        }
        lemma_find_first(m2.recs, key, f);
        lemma_find_first(m1.recs, key, i);
        if f < i {
            assert(m2.recs[f] == m1.recs[f]);
            assert(m1.recs[f].key == key);
            assert(false);
        }
        if f > i {
            assert(m2.recs[i].key != key);
            assert(false);
        }
        assert(f == i);
    }
}

} // verus!
