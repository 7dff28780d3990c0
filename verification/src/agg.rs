//! Bottom-up size aggregation: every file's size is credited to each of its
//! ancestor directories strictly between the file and the scan root, walking
//! the ancestor chain upward from the file's immediate parent.

use vstd::prelude::*;
use vstd::string::*;
use crate::items::FileEntry;
use crate::paths::{under_dir, wf_under};

verus! {

/// Sum of the sizes of all files in the listing.
pub open spec fn sum_sizes(files: Seq<FileEntry>) -> int
    decreases files.len(),
{
    if files.len() == 0 {
        0
    } else {
        sum_sizes(files.drop_last()) + files.last().size as int
    }
}

/// Sum of the sizes of the files lying strictly beneath directory `d`.
pub open spec fn sum_under(files: Seq<FileEntry>, d: Seq<char>) -> int
    decreases files.len(),
{
    if files.len() == 0 {
        0
    } else {
        sum_under(files.drop_last(), d) + if under_dir(files.last().path@, d) {
            files.last().size as int
        } else {
            0
        }
    }
}

/// Every file size in the listing is nonnegative.
pub open spec fn sizes_nonneg(files: Seq<FileEntry>) -> bool {
    forall|j: int| 0 <= j < files.len() ==> (#[trigger] files[j]).size >= 0
}

/// Every listed path is well-formed strictly beneath `root`, with a
/// nonnegative size.
pub open spec fn all_files_wf(files: Seq<FileEntry>, root: Seq<char>) -> bool {
    forall|j: int|
        0 <= j < files.len() ==> wf_under(root, (#[trigger] files[j]).path@) && files[j].size
            >= 0
}

/// `d` is an aggregation bucket for the listing: a directory strictly below
/// `root` with at least one listed file beneath it.
pub open spec fn dir_key(files: Seq<FileEntry>, root: Seq<char>, d: Seq<char>) -> bool {
    &&& d.len() > root.len()
    &&& exists|j: int| 0 <= j < files.len() && under_dir((#[trigger] files[j]).path@, d)
}

pub proof fn lemma_sum_under_zero(files: Seq<FileEntry>, d: Seq<char>)
    requires
        forall|j: int| 0 <= j < files.len() ==> !under_dir((#[trigger] files[j]).path@, d),
    ensures
        sum_under(files, d) == 0,
    decreases files.len(),
{
    if files.len() > 0 {
        assert(files.last() == files[files.len() - 1]);
        lemma_sum_under_zero(files.drop_last(), d);
    }
}

pub proof fn lemma_sum_under_bounds(files: Seq<FileEntry>, d: Seq<char>)
    requires
        sizes_nonneg(files),
    ensures
        0 <= sum_under(files, d) <= sum_sizes(files),
    decreases files.len(),
{
    if files.len() > 0 {
        assert(files.last() == files[files.len() - 1]);
        lemma_sum_under_bounds(files.drop_last(), d);
    }
}

pub proof fn lemma_sum_sizes_prefix(files: Seq<FileEntry>, k: int)
    requires
        sizes_nonneg(files),
        0 <= k <= files.len(),
    ensures
        sum_sizes(files.subrange(0, k)) <= sum_sizes(files),
    decreases files.len() - k,
{
    if k < files.len() {
        lemma_sum_sizes_prefix(files, k + 1);
        assert(files.subrange(0, k + 1).drop_last() =~= files.subrange(0, k));
        assert(files.subrange(0, k + 1).last() == files[k]);
    } else {
        assert(files.subrange(0, k) =~= files);
    }
}

/// The aggregation buckets: directory path -> cumulative bytes, with the
/// insertion order of the keys kept for iteration.
pub struct SizeMap {
    keys: Vec<String>,
    sizes: Vec<i64>,
}

impl SizeMap {
    /// The bucket keys, in insertion order.
    pub closed spec fn key_seq(&self) -> Seq<Seq<char>> {
        self.keys@.map_values(|k: String| k@)
    }

    pub open spec fn spec_len(&self) -> nat {
        self.key_seq().len()
    }

    pub closed spec fn wf(&self) -> bool {
        &&& self.keys@.len() == self.sizes@.len()
        &&& forall|a: int, b: int|
            0 <= a < b < self.key_seq().len() ==> self.key_seq()[a] != self.key_seq()[b]
    }

    /// Whether directory `d` has a bucket.
    pub open spec fn contains(&self, d: Seq<char>) -> bool {
        self.key_seq().contains(d)
    }

    pub closed spec fn idx_of(&self, d: Seq<char>) -> int {
        choose|a: int| 0 <= a < self.key_seq().len() && self.key_seq()[a] == d
    }

    /// The cumulative byte count of directory `d`'s bucket; zero if absent.
    pub closed spec fn at(&self, d: Seq<char>) -> int {
        if self.contains(d) {
            self.sizes@[self.idx_of(d)] as int
        } else {
            0
        }
    }

    pub fn new() -> (r: SizeMap)
        ensures
            r.wf(),
            r.spec_len() == 0,
            forall|d: Seq<char>| !(#[trigger] r.contains(d)),
    {
        SizeMap { keys: Vec::new(), sizes: Vec::new() }
    }

    fn find(&self, key: &String) -> (r: Option<usize>)
        requires
            self.wf(),
        ensures
            match r {
                Some(i) => i < self.spec_len() && self.key_seq()[i as int] == key@
                    && self.contains(key@) && self.idx_of(key@) == i,
                None => !self.contains(key@),
            },
    {
        let mut i: usize = 0;
        while i < self.keys.len()
            invariant
                self.wf(),
                i <= self.spec_len(),
                forall|a: int| 0 <= a < i ==> self.key_seq()[a] != key@,
            decreases self.spec_len() - i,
        {
            if self.keys[i] == *key {
                proof {
                    assert(self.key_seq()[i as int] == key@);
                    let a = self.idx_of(key@);
                    if a != i {
                        assert(self.key_seq()[a] == self.key_seq()[i as int]);
                    }
                }
                return Some(i);
            }
            proof {
                assert(self.key_seq()[i as int] == self.keys@[i as int]@);
            }
            i += 1;
        }
        None
    }

    /// Credits `amount` bytes to directory `key`'s bucket, opening the bucket
    /// if it does not exist yet.
    pub fn add(&mut self, key: String, amount: i64)
        requires
            old(self).wf(),
            amount >= 0,
            old(self).at(key@) + amount <= i64::MAX,
        ensures
            final(self).wf(),
            final(self).key_seq() == if old(self).contains(key@) {
                old(self).key_seq()
            } else {
                old(self).key_seq().push(key@)
            },
            forall|d: Seq<char>|
                #[trigger] final(self).contains(d) <==> (old(self).contains(d) || d == key@),
            final(self).at(key@) == old(self).at(key@) + amount,
            forall|d: Seq<char>|
                d != key@ ==> #[trigger] final(self).at(d) == old(self).at(d),
    {
        let found = self.find(&key);
        match found {
            Some(i) => {
                let v = self.sizes[i];
                self.sizes[i] = v + amount;
                proof {
                    assert(self.key_seq() =~= old(self).key_seq());
                    assert(self.contains(key@));
                    let a = self.idx_of(key@);
                    assert(self.key_seq()[a] == key@);
                    if a != i {
                        assert(self.key_seq()[a] == self.key_seq()[i as int]);
                    }
                    assert(self.at(key@) == old(self).at(key@) + amount);
                    assert forall|d: Seq<char>| d != key@ implies #[trigger] self.at(d)
                        == old(self).at(d) by {
                        if self.contains(d) {
                            let b = self.idx_of(d);
                            assert(self.key_seq()[b] == d);
                            assert(b != i);
                            assert(old(self).idx_of(d) == self.idx_of(d));
                        }
                    }
                }
            },
            None => {
                let ghost old_map = *self;
                self.keys.push(key);
                self.sizes.push(amount);
                proof {
                    assert(self.key_seq() =~= old_map.key_seq().push(key@));
                    let n = old_map.key_seq().len() as int;
                    assert(self.key_seq()[n] == key@);
                    assert forall|a: int, b: int|
                        0 <= a < b < self.key_seq().len() implies self.key_seq()[a]
                        != self.key_seq()[b] by {
                        if b < n {
                            assert(old_map.key_seq()[a] == self.key_seq()[a]);
                            assert(old_map.key_seq()[b] == self.key_seq()[b]);
                        } else {
                            assert(self.key_seq()[b] == key@);
                            assert(old_map.key_seq()[a] == self.key_seq()[a]);
                            if self.key_seq()[a] == key@ {
                                assert(old_map.contains(key@));
                            }
                        }
                    }
                    assert forall|d: Seq<char>| #[trigger] self.contains(d) implies (
                    old_map.contains(d) || d == key@) by {
                        let a = choose|a: int|
                            0 <= a < self.key_seq().len() && self.key_seq()[a] == d;
                        if a < n {
                            assert(old_map.key_seq()[a] == d);
                        }
                    }
                    assert forall|d: Seq<char>| old_map.contains(d) implies #[trigger] self.contains(
                        d,
                    ) by {
                        let a = choose|a: int|
                            0 <= a < old_map.key_seq().len() && old_map.key_seq()[a] == d;
                        assert(self.key_seq()[a] == d);
                    }
                    assert(self.contains(key@));
                    let c = self.idx_of(key@);
                    assert(self.key_seq()[c] == key@);
                    if c != n {
                        assert(old_map.key_seq()[c] == key@);
                        assert(old_map.contains(key@));
                    }
                    assert(self.at(key@) == amount);
                    assert(old_map.at(key@) == 0);
                    assert forall|d: Seq<char>| d != key@ implies #[trigger] self.at(d)
                        == old_map.at(d) by {
                        if self.contains(d) {
                            let a = self.idx_of(d);
                            assert(self.key_seq()[a] == d);
                            assert(a < n);
                            assert(old_map.key_seq()[a] == d);
                            assert(old_map.contains(d));
                            let b = old_map.idx_of(d);
                            assert(old_map.key_seq()[b] == d);
                            if b != a {
                                assert(self.key_seq()[b] == d);
                                assert(self.key_seq()[a] == self.key_seq()[b]);
                            }
                        } else {
                            if old_map.contains(d) {
                                let a = old_map.idx_of(d);
                                assert(old_map.key_seq()[a] == d);
                                assert(self.key_seq()[a] == d);
                            }
                        }
                    }
                }
            },
        }
    }

    pub fn len(&self) -> (n: usize)
        ensures
            n == self.spec_len(),
    {
        self.keys.len()
    }

    pub fn key_at(&self, g: usize) -> (k: &String)
        requires
            g < self.spec_len(),
        ensures
            k@ == self.key_seq()[g as int],
    {
        &self.keys[g]
    }

    pub fn size_at(&self, g: usize) -> (s: i64)
        requires
            self.wf(),
            g < self.spec_len(),
        ensures
            s as int == self.at(self.key_seq()[g as int]),
    {
        proof {
            let d = self.key_seq()[g as int];
            assert(self.contains(d));
            let a = self.idx_of(d);
            assert(self.key_seq()[a] == d);
            if a != g {
                assert(self.key_seq()[a] == self.key_seq()[g as int]);
            }
        }
        self.sizes[g]
    }
}

/// Consumes a traversal listing and fills the aggregation buckets: for each
/// file, every ancestor directory strictly between the file and `root` is
/// credited with the file's size. The buckets are exactly the directories
/// below `root` holding at least one listed file, and each holds the sum of
/// the sizes of the files beneath it.
#[verifier::loop_isolation(false)]
pub fn aggregate_sizes(files: &Vec<FileEntry>, root: &String) -> (m: SizeMap)
    requires
        all_files_wf(files@, root@),
        sum_sizes(files@) <= i64::MAX,
    ensures
        m.wf(),
        m.key_seq().no_duplicates(),
        forall|d: Seq<char>| #[trigger] m.contains(d) <==> dir_key(files@, root@, d),
        forall|d: Seq<char>| m.contains(d) ==> #[trigger] m.at(d) == sum_under(files@, d),
{
    let rootlen = root.as_str().unicode_len();
    let mut m = SizeMap::new();
    let mut k: usize = 0;
    while k < files.len()
        invariant
            m.wf(),
            k <= files@.len(),
            rootlen == root@.len(),
            all_files_wf(files@, root@),
            sum_sizes(files@) <= i64::MAX,
            forall|d: Seq<char>|
                #[trigger] m.contains(d) <==> dir_key(files@.subrange(0, k as int), root@, d),
            forall|d: Seq<char>|
                m.contains(d) ==> #[trigger] m.at(d) == sum_under(
                    files@.subrange(0, k as int),
                    d,
                ),
        decreases files@.len() - k,
    {
        let ghost prior = files@.subrange(0, k as int);
        let ghost fp = files@[k as int].path@;
        let f = &files[k];
        let p = f.path.as_str();
        let n = p.unicode_len();
        let size = f.size;
        proof {
            assert(all_files_wf(files@, root@));
            assert(wf_under(root@, files@[k as int].path@));
        }
        let mut i: usize = n;
        while i > rootlen + 1
            invariant
                m.wf(),
                k < files@.len(),
                rootlen == root@.len(),
                all_files_wf(files@, root@),
                sum_sizes(files@) <= i64::MAX,
                prior == files@.subrange(0, k as int),
                fp == files@[k as int].path@,
                wf_under(root@, fp),
                p@ == fp,
                n == fp.len(),
                size == files@[k as int].size,
                rootlen + 1 <= i <= n,
                forall|d: Seq<char>|
                    #[trigger] m.contains(d) <==> (dir_key(prior, root@, d) || (under_dir(
                        fp,
                        d,
                    ) && i <= d.len() && d.len() > rootlen)),
                forall|d: Seq<char>|
                    m.contains(d) ==> #[trigger] m.at(d) == sum_under(prior, d) + if under_dir(
                        fp,
                        d,
                    ) && i <= d.len() {
                        size as int
                    } else {
                        0
                    },
            decreases i,
        {
            i -= 1;
            if p.get_char(i) == '/' {
                let key = String::from_str(p.substring_char(0, i));
                proof {
                    assert(key@ == fp.subrange(0, i as int));
                    assert(under_dir(fp, key@));
                    // the bucket has not yet been credited for this file
                    assert(!(i + 1 <= key@.len()));
                    if m.contains(key@) {
                        assert(m.at(key@) == sum_under(prior, key@));
                    } else {
                        assert(!dir_key(prior, root@, key@));
                        assert forall|j: int| 0 <= j < prior.len() implies !under_dir(
                            (#[trigger] prior[j]).path@,
                            key@,
                        ) by {
                            if under_dir(prior[j].path@, key@) {
                                assert(dir_key(prior, root@, key@));
                            }
                        }
                        lemma_sum_under_zero(prior, key@);
                        assert(m.at(key@) == 0);
                    }
                    assert(sizes_nonneg(files@));
                    assert forall|j: int| 0 <= j < prior.len() implies (
                    #[trigger] prior[j]).size >= 0 by {
                        assert(prior[j] == files@[j]);
                    }
                    lemma_sum_under_bounds(prior, key@);
                    lemma_sum_sizes_prefix(files@, k + 1);
                    assert(files@.subrange(0, k + 1).drop_last() =~= prior);
                    assert(files@.subrange(0, k + 1).last() == files@[k as int]);
                    assert(sum_sizes(prior) + size <= sum_sizes(files@));
                    assert(m.at(key@) + size <= i64::MAX);
                }
                let ghost m_before = m;
                m.add(key, size);
                proof {
                    assert forall|d: Seq<char>| #[trigger] m.contains(d) <==> (dir_key(
                        prior,
                        root@,
                        d,
                    ) || (under_dir(fp, d) && i <= d.len() && d.len() > rootlen)) by {
                        if d != key@ && under_dir(fp, d) && d.len() == i {
                            assert(d =~= fp.subrange(0, i as int));
                        }
                    }
                    assert forall|d: Seq<char>| m.contains(d) implies #[trigger] m.at(d)
                        == sum_under(prior, d) + if under_dir(fp, d) && i <= d.len() {
                        size as int
                    } else {
                        0
                    } by {
                        if d == key@ {
                        } else {
                            assert(m.at(d) == m_before.at(d));
                            if under_dir(fp, d) && d.len() == i {
                                assert(d =~= fp.subrange(0, i as int));
                            }
                        }
                    }
                }
            } else {
                proof {
                    assert forall|d: Seq<char>| m.contains(d) implies #[trigger] m.at(d)
                        == sum_under(prior, d) + if under_dir(fp, d) && i <= d.len() {
                        size as int
                    } else {
                        0
                    } by {
                        if under_dir(fp, d) && d.len() == i {
                            assert(fp[i as int] == '/');
                        }
                    }
                    assert forall|d: Seq<char>| #[trigger] m.contains(d) <==> (dir_key(
                        prior,
                        root@,
                        d,
                    ) || (under_dir(fp, d) && i <= d.len() && d.len() > rootlen)) by {
                        if under_dir(fp, d) && d.len() == i {
                            assert(fp[i as int] == '/');
                        }
                    }
                }
            }
        }
        proof {
            let next = files@.subrange(0, k + 1 as int);
            assert(next.drop_last() =~= prior);
            assert(next.last() == files@[k as int]);
            // paths never continue right after the root slash, so every
            // bucket of this file is at least two characters past the root
            assert forall|d: Seq<char>| #[trigger] m.contains(d) <==> dir_key(
                next,
                root@,
                d,
            ) by {
                if m.contains(d) {
                    if dir_key(prior, root@, d) {
                        let j = choose|j: int|
                            0 <= j < prior.len() && under_dir((#[trigger] prior[j]).path@, d);
                        assert(next[j] == prior[j]);
                        assert(under_dir(next[j].path@, d));
                    } else {
                        assert(under_dir(fp, d));
                        assert(next[k as int] == files@[k as int]);
                    }
                } else {
                    if dir_key(next, root@, d) {
                        let j = choose|j: int|
                            0 <= j < next.len() && under_dir((#[trigger] next[j]).path@, d);
                        if j < k {
                            assert(prior[j] == next[j]);
                            assert(dir_key(prior, root@, d));
                        } else {
                            assert(under_dir(fp, d));
                        }
                    }
                }
            }
            assert forall|d: Seq<char>| m.contains(d) implies #[trigger] m.at(d) == sum_under(
                next,
                d,
            ) by {
                assert(d.len() > rootlen);
                assert(sum_under(next, d) == sum_under(prior, d) + if under_dir(fp, d) {
                    size as int
                } else {
                    0
                });
            }
        }
        k += 1;
    }
    proof {
        assert(files@.subrange(0, files@.len() as int) =~= files@);
        assert forall|a: int, b: int|
            0 <= a < m.key_seq().len() && 0 <= b < m.key_seq().len() && a != b implies m.key_seq()[a]
            != m.key_seq()[b] by {
            if b < a {
                assert(m.key_seq()[b] != m.key_seq()[a]);
            }
        }
    }
    m
}

} // verus!
