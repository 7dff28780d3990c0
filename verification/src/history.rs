//! The history log: an append-only, capacity-bounded audit trail of
//! completed scans, kept apart from the result cache and queried by path,
//! most recent match first.

use vstd::prelude::*;
use vstd::string::*;
use crate::items::{Item, ScanResult, duplicate_items};

verus! {

/// Most records the history log keeps; the oldest is dropped beyond this.
pub const HISTORY_CAP: usize = 50;

/// One audit record of a completed scan: the requested path, when the scan
/// ran (seconds since the epoch), its total, and its entries.
pub struct HistoryItem {
    pub path: String,
    pub scan_time: i64,
    pub total_size: i64,
    pub size_format: String,
    pub items: Vec<Item>,
}

/// The two records carry the same data.
pub open spec fn same_record(a: HistoryItem, b: HistoryItem) -> bool {
    &&& a.path == b.path
    &&& a.scan_time == b.scan_time
    &&& a.total_size == b.total_size
    &&& a.size_format == b.size_format
    &&& a.items@ == b.items@
}

impl HistoryItem {
    /// An exact copy of this record.
    pub fn duplicate(&self) -> (r: HistoryItem)
        ensures
            same_record(r, *self),
    {
        HistoryItem {
            path: self.path.clone(),
            scan_time: self.scan_time,
            total_size: self.total_size,
            size_format: self.size_format.clone(),
            items: duplicate_items(&self.items),
        }
    }
}

/// Index of the most recent record for `p`, or `-1` if none matches.
pub open spec fn latest_match(entries: Seq<HistoryItem>, p: Seq<char>) -> int
    decreases entries.len(),
{
    if entries.len() == 0 {
        -1
    } else if entries.last().path@ == p {
        entries.len() - 1
    } else {
        latest_match(entries.drop_last(), p)
    }
}

/// The bounded log of past scans.
pub struct HistoryLog {
    entries: Vec<HistoryItem>,
}

impl HistoryLog {
    /// The stored records, oldest first.
    pub closed spec fn entries_seq(&self) -> Seq<HistoryItem> {
        self.entries@
    }

    pub fn new() -> (r: HistoryLog)
        ensures
            r.entries_seq().len() == 0,
    {
        HistoryLog { entries: Vec::new() }
    }

    pub fn len(&self) -> (n: usize)
        ensures
            n == self.entries_seq().len(),
    {
        self.entries.len()
    }

    /// Appends a record; once the log holds `HISTORY_CAP` records, the
    /// oldest one is dropped to make room.
    pub fn push(&mut self, item: HistoryItem)
        ensures
            final(self).entries_seq() == if old(self).entries_seq().len() < HISTORY_CAP {
                old(self).entries_seq().push(item)
            } else {
                old(self).entries_seq().push(item).subrange(
                    1,
                    (old(self).entries_seq().len() + 1) as int,
                )
            },
    {
        self.entries.push(item);
        if self.entries.len() > HISTORY_CAP {
            self.entries.remove(0);
            proof {
                assert(final(self).entries_seq() =~= old(self).entries_seq().push(item).subrange(
                    1,
                    (old(self).entries_seq().len() + 1) as int,
                ));
            }
        }
    }

    /// The records, most recent first.
    pub fn get_history(&self) -> (r: Vec<HistoryItem>)
        ensures
            r@.len() == self.entries_seq().len(),
            forall|i: int|
                0 <= i < r@.len() ==> same_record(
                    #[trigger] r@[i],
                    self.entries_seq()[self.entries_seq().len() - 1 - i],
                ),
    {
        let mut r: Vec<HistoryItem> = Vec::new();
        let n = self.entries.len();
        let mut i: usize = 0;
        while i < n
            invariant
                i <= n,
                n == self.entries_seq().len(),
                r@.len() == i,
                forall|k: int|
                    0 <= k < i ==> same_record(
                        #[trigger] r@[k],
                        self.entries_seq()[self.entries_seq().len() - 1 - k],
                    ),
            decreases n - i,
        {
            r.push(self.entries[n - 1 - i].duplicate());
            i += 1;
        }
        r
    }

    /// Replays the most recent record for `path` as a result, with a scan
    /// time of zero; yields nothing when no record matches.
    pub fn get_history_item(&self, path: &String) -> (r: Option<ScanResult>)
        ensures
            match r {
                Option::Some(res) => {
                    let lm = latest_match(self.entries_seq(), path@);
                    &&& lm >= 0
                    &&& res.items@ == self.entries_seq()[lm].items@
                    &&& res.total_size == self.entries_seq()[lm].total_size
                    &&& res.total_size_formatted == self.entries_seq()[lm].size_format
                    &&& res.scan_time_millis == 0
                    &&& res.path == self.entries_seq()[lm].path
                },
                Option::None => latest_match(self.entries_seq(), path@) == -1,
            },
    {
        let n = self.entries.len();
        proof {
            assert(self.entries_seq().subrange(0, n as int) =~= self.entries_seq());
        }
        let mut i: usize = n;
        while i > 0
            invariant
                i <= n,
                n == self.entries_seq().len(),
                latest_match(self.entries_seq().subrange(0, i as int), path@) == latest_match(
                    self.entries_seq(),
                    path@,
                ),
            decreases i,
        {
            i -= 1;
            proof {
                assert(self.entries_seq().subrange(0, i + 1 as int).drop_last()
                    =~= self.entries_seq().subrange(0, i as int));
                assert(self.entries_seq().subrange(0, i + 1 as int).last()
                    == self.entries_seq()[i as int]);
            }
            if self.entries[i].path == *path {
                let e = &self.entries[i];
                let res = ScanResult {
                    items: duplicate_items(&e.items),
                    total_size: e.total_size,
                    total_size_formatted: e.size_format.clone(),
                    scan_time_millis: 0,
                    path: e.path.clone(),
                };
                return Some(res);
            }
        }
        proof {
            assert(self.entries_seq().subrange(0, 0) =~= Seq::<HistoryItem>::empty());
        }
        None
    }
}

} // verus!
