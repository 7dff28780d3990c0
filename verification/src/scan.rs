//! The scan orchestrator's decision logic: request validation, root
//! classification, the cache consultation step, and the cache-miss path
//! that aggregates a traversal listing, stores the report, and returns it.
//!
//! The filesystem work itself — reading metadata, canonicalizing the root,
//! walking the tree — happens in the surrounding program, which hands the
//! listing in as plain values.

use vstd::prelude::*;
use vstd::string::*;
use crate::items::{FileEntry, ScanResult, ScanError};
use crate::agg::{sum_sizes, all_files_wf};
use crate::assemble::{assemble_result, report_ok, file_item_v, rel_of, report_lists,
    dir_items_of, spec_file_items};
use crate::cache::{ScanCache, CacheModel, EntryV, spec_lookup, spec_insert, spec_invalidate,
    spec_estimate, lemma_insert_then_lookup};
use crate::paths::{wf_under, check_wf_under};
use vstd::seq_lib::lemma_multiset_commutative;

verus! {

/// The four characters treated as trimmable whitespace around a request.
pub open spec fn is_space_char(c: char) -> bool {
    c == ' ' || c == '\t' || c == '\n' || c == '\r'
}

/// A request that holds nothing but whitespace.
pub open spec fn is_blank(s: Seq<char>) -> bool {
    forall|i: int| 0 <= i < s.len() ==> is_space_char(#[trigger] s[i])
}

/// `lo..hi` spans exactly the trimmed middle of `s`: only whitespace lies
/// outside it, and a nonempty middle starts and ends on non-whitespace.
pub open spec fn trim_span(s: Seq<char>, lo: int, hi: int) -> bool {
    &&& 0 <= lo <= hi <= s.len()
    &&& (forall|j: int| 0 <= j < lo ==> is_space_char(#[trigger] s[j]))
    &&& (forall|j: int| hi <= j < s.len() ==> is_space_char(#[trigger] s[j]))
    &&& (lo < hi ==> !is_space_char(s[lo]) && !is_space_char(s[hi - 1]))
}

/// Validates the request path: trims surrounding whitespace and rejects a
/// blank request. No filesystem work happens before or during this check.
#[verifier::loop_isolation(false)]
pub fn validate_input(path: &str) -> (r: Result<String, ScanError>)
    ensures
        match r {
            Result::Ok(t) => !is_blank(path@) && exists|lo: int, hi: int|
                #[trigger] trim_span(path@, lo, hi) && lo < hi && t@ == path@.subrange(lo, hi),
            Result::Err(e) => e == ScanError::InvalidInput && is_blank(path@),
        },
{
    let n = path.unicode_len();
    let mut lo: usize = 0;
    while lo < n && (path.get_char(lo) == ' ' || path.get_char(lo) == '\t' || path.get_char(lo)
        == '\n' || path.get_char(lo) == '\r')
        invariant
            lo <= n,
            forall|j: int| 0 <= j < lo ==> is_space_char(#[trigger] path@[j]),
        decreases n - lo,
    {
        lo += 1;
    }
    if lo == n {
        return Err(ScanError::InvalidInput);
    }
    let mut hi: usize = n;
    while hi > lo + 1 && (path.get_char(hi - 1) == ' ' || path.get_char(hi - 1) == '\t'
        || path.get_char(hi - 1) == '\n' || path.get_char(hi - 1) == '\r')
        invariant
            lo < hi <= n,
            forall|j: int| hi <= j < n ==> is_space_char(#[trigger] path@[j]),
        decreases hi,
    {
        hi -= 1;
    }
    if hi == lo + 1 && (path.get_char(lo) == ' ' || path.get_char(lo) == '\t' || path.get_char(lo)
        == '\n' || path.get_char(lo) == '\r') {
        return Err(ScanError::InvalidInput);
    }
    let t = String::from_str(path.substring_char(lo, hi));
    proof {
        assert(trim_span(path@, lo as int, hi as int));
        assert(!is_space_char(path@[lo as int]));
    }
    Ok(t)
}

/// Classifies the root's metadata before any traversal: an unreadable root
/// is `NotAccessible`, a readable non-directory is `NotADirectory`.
pub fn classify_root(accessible: bool, is_dir: bool) -> (r: Result<(), ScanError>)
    ensures
        match r {
            Result::Ok(_) => accessible && is_dir,
            Result::Err(e) => (!accessible && e == ScanError::NotAccessible) || (accessible
                && !is_dir && e == ScanError::NotADirectory),
        },
{
    if !accessible {
        Err(ScanError::NotAccessible)
    } else if !is_dir {
        Err(ScanError::NotADirectory)
    } else {
        Ok(())
    }
}

/// `rv` with its recorded scan time replaced by zero, marking a result as
/// served from the cache.
pub open spec fn zeroed(rv: crate::items::ResultV) -> crate::items::ResultV {
    crate::items::ResultV { scan_time_millis: 0, ..rv }
}

/// What the cache consultation step of a scan yields: the stored result,
/// time zeroed, exactly when the entry under the root is fresh and no
/// refresh was forced.
pub open spec fn spec_fresh_hit(
    m: CacheModel,
    root: Seq<char>,
    current_mtime: int,
    force_refresh: bool,
) -> Option<crate::items::ResultV> {
    if force_refresh {
        Option::None
    } else {
        match spec_lookup(m, root) {
            Option::None => Option::None,
            Option::Some(e) => if e.dir_mtime >= current_mtime {
                Option::Some(zeroed(e.result))
            } else {
                Option::None
            },
        }
    }
}

/// Consults the cache for the canonical root: a fresh entry is returned
/// with its scan time zeroed; a missing or stale entry, or a forced
/// refresh, yields nothing and the caller must rescan.
pub fn try_cached(
    cache: &ScanCache,
    root: &String,
    current_mtime: i64,
    force_refresh: bool,
) -> (r: Option<ScanResult>)
    ensures
        match r {
            Option::Some(res) => spec_fresh_hit(cache@, root@, current_mtime as int, force_refresh)
                == Option::Some(res@),
            Option::None => spec_fresh_hit(
                cache@,
                root@,
                current_mtime as int,
                force_refresh,
            ) is None,
        },
{
    if force_refresh {
        return None;
    }
    match cache.get(root) {
        Option::None => None,
        Option::Some(e) => {
            if ScanCache::freshness_check(e, current_mtime) {
                let res = e.result.duplicate_with_time(0);
                proof {
                    assert(res@ =~= zeroed(e@.result));
                }
                Some(res)
            } else {
                None
            }
        },
    }
}

/// Screens one traversal entry: accepted exactly when its absolute path is
/// well-formed strictly beneath the canonical root and its size is not
/// negative. Entries that fail this are skipped, in line with best-effort
/// traversal.
pub fn acceptable_entry(root: &String, entry: &FileEntry) -> (r: bool)
    ensures
        r == (wf_under(root@, entry.path@) && entry.size >= 0),
{
    entry.size >= 0 && check_wf_under(root.as_str(), entry.path.as_str())
}

/// Decides whether a listing's total fits the result's size field, so the
/// sums of a scan cannot overflow.
pub fn listing_fits(files: &Vec<FileEntry>) -> (r: bool)
    requires
        forall|j: int| 0 <= j < files@.len() ==> (#[trigger] files@[j]).size >= 0,
    ensures
        r == (sum_sizes(files@) <= i64::MAX),
{
    let mut acc: i64 = 0;
    let mut t: usize = 0;
    while t < files.len()
        invariant
            t <= files@.len(),
            forall|j: int| 0 <= j < files@.len() ==> (#[trigger] files@[j]).size >= 0,
            acc as int == sum_sizes(files@.subrange(0, t as int)),
            acc >= 0,
        decreases files@.len() - t,
    {
        proof {
            assert(files@.subrange(0, t + 1 as int).drop_last() =~= files@.subrange(0, t as int));
            assert(files@.subrange(0, t + 1 as int).last() == files@[t as int]);
        }
        let s = files[t].size;
        if acc > i64::MAX - s {
            proof {
                lemma_sum_sizes_grows(files@, t + 1 as int);
            }
            return false;
        }
        acc = acc + s;
        t += 1;
    }
    proof {
        assert(files@.subrange(0, files@.len() as int) =~= files@);
    }
    true
}

proof fn lemma_sum_sizes_grows(files: Seq<FileEntry>, k: int)
    requires
        0 <= k <= files.len(),
        forall|j: int| 0 <= j < files.len() ==> (#[trigger] files[j]).size >= 0,
    ensures
        sum_sizes(files) >= sum_sizes(files.subrange(0, k)),
    decreases files.len() - k,
{
    if k < files.len() {
        lemma_sum_sizes_grows(files, k + 1);
        assert(files.subrange(0, k + 1).drop_last() =~= files.subrange(0, k));
        assert(files.subrange(0, k + 1).last() == files[k]);
    } else {
        assert(files.subrange(0, k) =~= files);
    }
}

/// The cache-miss path of a scan: drops every cached result under the
/// canonical root, builds the report from the traversal listing, stores it
/// under the root with the observed mtime, and returns it with the caller's
/// display path and elapsed time.
pub fn complete_scan(
    cache: &mut ScanCache,
    root: &String,
    display_path: &String,
    files: &Vec<FileEntry>,
    observed_mtime: i64,
    elapsed_millis: u64,
) -> (r: ScanResult)
    requires
        all_files_wf(files@, root@),
        sum_sizes(files@) <= i64::MAX,
    ensures
        report_ok(files@, root@, r),
        r.scan_time_millis == elapsed_millis,
        r.path@ == display_path@,
        final(cache)@ == spec_insert(
            spec_invalidate(old(cache)@, root@),
            root@,
            EntryV { result: r@, dir_mtime: observed_mtime as int },
            spec_estimate(r.items@.len() as int),
        ),
{
    cache.invalidate(root);
    let r = assemble_result(files, root, display_path, elapsed_millis);
    let copy = r.duplicate_with_time(r.scan_time_millis);
    proof {
        assert(copy@ =~= r@);
        assert(copy.items@.len() == r.items@.len());
    }
    cache.insert(root.clone(), copy, observed_mtime);
    r
}

/// Scanning an unchanged directory a second time without a forced refresh
/// is served from the cache: after a scan stored its report under the root,
/// a lookup against any mtime at or before the observed one returns that
/// report with the same entries and total and a scan time of zero.
pub proof fn lemma_second_scan_from_cache(
    m: CacheModel,
    root: Seq<char>,
    rv: crate::items::ResultV,
    observed_mtime: int,
    est: int,
    current_mtime: int,
)
    requires
        observed_mtime >= current_mtime,
    ensures
        spec_fresh_hit(
            spec_insert(
                spec_invalidate(m, root),
                root,
                EntryV { result: rv, dir_mtime: observed_mtime },
                est,
            ),
            root,
            current_mtime,
            false,
        ) == Option::Some(zeroed(rv)),
{
    lemma_insert_then_lookup(
        spec_invalidate(m, root),
        root,
        EntryV { result: rv, dir_mtime: observed_mtime },
        est,
    );
}

/// Staleness is detected: once the root's current mtime has moved past the
/// recorded one, the cached entry is never served and a rescan must happen.
pub proof fn lemma_stale_entry_not_served(m: CacheModel, root: Seq<char>, current_mtime: int)
    requires
        match spec_lookup(m, root) {
            Option::Some(e) => e.dir_mtime < current_mtime,
            Option::None => true,
        },
    ensures
        spec_fresh_hit(m, root, current_mtime, false) is None,
{
}

/// Every listed file appears in the report a rescan returns; in particular
/// a file added since the previous scan shows up after the stale entry is
/// bypassed.
pub proof fn lemma_file_listed(files: Seq<FileEntry>, root: Seq<char>, r: ScanResult, j: int)
    requires
        report_ok(files, root, r),
        0 <= j < files.len(),
    ensures
        r@.items.contains(file_item_v(rel_of(files[j].path@, root.len() as int), files[j].size as int)),
{
    broadcast use vstd::seq_lib::group_to_multiset_ensures;
    broadcast use vstd::multiset::group_multiset_axioms;

    let dirs = choose|dirs: Seq<Seq<char>>| #[trigger] report_lists(files, root, dirs, r@.items);
    let dpart = dir_items_of(dirs, files, root.len() as int);
    let fpart = spec_file_items(files, root.len() as int);
    let it = file_item_v(rel_of(files[j].path@, root.len() as int), files[j].size as int);
    assert(fpart[j] == it);
    assert(fpart.contains(it));
    lemma_multiset_commutative(dpart, fpart);
    assert(fpart.to_multiset().count(it) > 0);
    assert((dpart + fpart).to_multiset().count(it) > 0);
    assert(r@.items.to_multiset().count(it) > 0);
    assert(r@.items.contains(it));
}

} // verus!
