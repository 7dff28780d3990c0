//! The data model of a scan: report entries, whole scan results, the error
//! taxonomy, and the raw file listing a traversal front end hands over.

use vstd::prelude::*;

verus! {

/// Why a scan request was rejected. Individual unreadable entries below the
/// root never produce an error: traversal is best-effort and skips them.
#[derive(Clone, Copy, Debug, PartialEq, Eq, Structural)]
pub enum ScanError {
    /// The request named an empty (or all-whitespace) path; no I/O was done.
    InvalidInput,
    /// The root's own metadata could not be read.
    NotAccessible,
    /// The root exists but is not a directory.
    NotADirectory,
    /// The root path could not be canonicalized.
    CanonicalizationFailed,
}

impl ScanError {
    /// The descriptive message surfaced to callers for this error.
    pub open spec fn spec_message(self) -> Seq<char> {
        match self {
            ScanError::InvalidInput => "path must not be empty"@,
            ScanError::NotAccessible => "path is not accessible"@,
            ScanError::NotADirectory => "path is not a directory"@,
            ScanError::CanonicalizationFailed => "path could not be canonicalized"@,
        }
    }

    /// Descriptive message for this error.
    pub fn message(&self) -> (m: &'static str)
        ensures
            m@ == self.spec_message(),
    {
        match *self {
            ScanError::InvalidInput => "path must not be empty",
            ScanError::NotAccessible => "path is not accessible",
            ScanError::NotADirectory => "path is not a directory",
            ScanError::CanonicalizationFailed => "path could not be canonicalized",
        }
    }
}

/// One file found by the traversal front end: its absolute path (forward
/// slashes) and its length in bytes.
pub struct FileEntry {
    pub path: String,
    pub size: i64,
}

/// Mathematical image of a `FileEntry`.
pub ghost struct FileV {
    pub path: Seq<char>,
    pub size: int,
}

impl View for FileEntry {
    type V = FileV;

    open spec fn view(&self) -> FileV {
        FileV { path: self.path@, size: self.size as int }
    }
}

/// One entry of a scan report: a file or a directory strictly beneath the
/// scan root, under its root-relative path.
#[derive(Debug)]
pub struct Item {
    pub path: String,
    pub name: String,
    pub size: i64,
    pub size_formatted: String,
    pub is_dir: bool,
}

/// Mathematical image of an `Item`.
pub ghost struct ItemV {
    pub path: Seq<char>,
    pub name: Seq<char>,
    pub size: int,
    pub size_formatted: Seq<char>,
    pub is_dir: bool,
}

impl View for Item {
    type V = ItemV;

    open spec fn view(&self) -> ItemV {
        ItemV {
            path: self.path@,
            name: self.name@,
            size: self.size as int,
            size_formatted: self.size_formatted@,
            is_dir: self.is_dir,
        }
    }
}

impl Item {
    /// An exact copy of this entry.
    pub fn duplicate(&self) -> (r: Item)
        ensures
            r == *self,
    {
        Item {
            path: self.path.clone(),
            name: self.name.clone(),
            size: self.size,
            size_formatted: self.size_formatted.clone(),
            is_dir: self.is_dir,
        }
    }
}

/// An exact copy of a report entry list.
pub fn duplicate_items(v: &Vec<Item>) -> (r: Vec<Item>)
    ensures
        r@ == v@,
{
    let mut r: Vec<Item> = Vec::new();
    let mut i: usize = 0;
    while i < v.len()
        invariant
            i <= v@.len(),
            r@ == v@.subrange(0, i as int),
        decreases v@.len() - i,
    {
        r.push(v[i].duplicate());
        proof {
            assert(r@ =~= v@.subrange(0, i + 1 as int));
        }
        i += 1;
    }
    proof {
        assert(v@.subrange(0, v@.len() as int) =~= v@);
    }
    r
}

/// The report of one scan: entries sorted by size (largest first), the total
/// over regular files, and the display path of the root.
#[derive(Debug)]
pub struct ScanResult {
    pub items: Vec<Item>,
    pub total_size: i64,
    pub total_size_formatted: String,
    pub scan_time_millis: u64,
    pub path: String,
}

/// Mathematical image of a `ScanResult`.
pub ghost struct ResultV {
    pub items: Seq<ItemV>,
    pub total_size: int,
    pub total_size_formatted: Seq<char>,
    pub scan_time_millis: int,
    pub path: Seq<char>,
}

impl View for ScanResult {
    type V = ResultV;

    open spec fn view(&self) -> ResultV {
        ResultV {
            items: self.items@.map_values(|it: Item| it@),
            total_size: self.total_size as int,
            total_size_formatted: self.total_size_formatted@,
            scan_time_millis: self.scan_time_millis as int,
            path: self.path@,
        }
    }
}

impl ScanResult {
    /// An exact copy of this result, with the recorded scan time replaced:
    /// a result served from the cache reports a scan time of zero.
    pub fn duplicate_with_time(&self, millis: u64) -> (r: ScanResult)
        ensures
            r.items@ == self.items@,
            r.total_size == self.total_size,
            r.total_size_formatted == self.total_size_formatted,
            r.scan_time_millis == millis,
            r.path == self.path,
    {
        ScanResult {
            items: duplicate_items(&self.items),
            total_size: self.total_size,
            total_size_formatted: self.total_size_formatted.clone(),
            scan_time_millis: millis,
            path: self.path.clone(),
        }
    }
}

} // verus!
