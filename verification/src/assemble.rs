//! Report assembly: turns the aggregation buckets and the file listing into
//! root-relative report entries, sorts them by size (largest first), and
//! totals the sizes of the regular files.

use vstd::prelude::*;
use vstd::string::*;
use vstd::seq_lib::lemma_multiset_commutative;
use crate::items::{FileEntry, Item, ItemV, ScanResult};
use crate::fmt_bytes::{format_size, spec_format_size};
use crate::paths::{under_dir, wf_under, spec_base_name, base_name, rel_path};
use crate::agg::{SizeMap, aggregate_sizes, sum_sizes, sum_under, dir_key, all_files_wf,
    lemma_sum_under_bounds, lemma_sum_sizes_prefix};

verus! {

/// The mathematical images of a list of report entries.
pub open spec fn views_of(items: Seq<Item>) -> Seq<ItemV> {
    items.map_values(|it: Item| it@)
}

/// The root-relative form of an absolute path `p` beneath a root of length
/// `rootlen`: everything past the separating slash.
pub open spec fn rel_of(p: Seq<char>, rootlen: int) -> Seq<char> {
    p.subrange(rootlen + 1, p.len() as int)
}

/// The report entry for the directory with relative path `rel` holding
/// `size` bytes.
pub open spec fn dir_item_v(rel: Seq<char>, size: int) -> ItemV {
    ItemV {
        path: rel,
        name: spec_base_name(rel),
        size: size,
        size_formatted: spec_format_size(size),
        is_dir: true,
    }
}

/// The report entry for the file with relative path `rel` of `size` bytes.
pub open spec fn file_item_v(rel: Seq<char>, size: int) -> ItemV {
    ItemV {
        path: rel,
        name: spec_base_name(rel),
        size: size,
        size_formatted: spec_format_size(size),
        is_dir: false,
    }
}

/// One report entry per listed file, in listing order.
pub open spec fn spec_file_items(files: Seq<FileEntry>, rootlen: int) -> Seq<ItemV> {
    Seq::new(
        files.len(),
        |j: int| file_item_v(rel_of(files[j].path@, rootlen), files[j].size as int),
    )
}

/// One report entry per aggregation bucket, in bucket order.
pub open spec fn dir_items_of(dirs: Seq<Seq<char>>, files: Seq<FileEntry>, rootlen: int) -> Seq<
    ItemV,
> {
    dirs.map_values(|d: Seq<char>| dir_item_v(rel_of(d, rootlen), sum_under(files, d)))
}

/// What a file entry adds to the total of the directory with relative path
/// `dp`: its size if it lies beneath `dp`, nothing otherwise.
pub open spec fn item_contrib(it: ItemV, dp: Seq<char>) -> int {
    if !it.is_dir && under_dir(it.path, dp) {
        it.size
    } else {
        0
    }
}

/// Sum of the sizes of the file entries lying beneath the directory with
/// relative path `dp`.
pub open spec fn sum_items_under(items: Seq<ItemV>, dp: Seq<char>) -> int
    decreases items.len(),
{
    if items.len() == 0 {
        0
    } else {
        sum_items_under(items.drop_last(), dp) + item_contrib(items.last(), dp)
    }
}

/// The entries are sorted by size, largest first.
pub open spec fn sorted_desc(items: Seq<ItemV>) -> bool {
    forall|a: int, b: int| 0 <= a <= b < items.len() ==> items[a].size >= items[b].size
}

/// `items` lists exactly one entry per aggregation bucket `dirs` and one per
/// listed file, in some order.
pub open spec fn report_lists(
    files: Seq<FileEntry>,
    root: Seq<char>,
    dirs: Seq<Seq<char>>,
    items: Seq<ItemV>,
) -> bool {
    &&& dirs.no_duplicates()
    &&& (forall|d: Seq<char>| #[trigger] dirs.contains(d) <==> dir_key(files, root, d))
    &&& items.to_multiset() == (dir_items_of(dirs, files, root.len() as int) + spec_file_items(
        files,
        root.len() as int,
    )).to_multiset()
}

/// Everything a finished report promises about the listing it was built
/// from: entries sorted by size; the total is the sum over the regular
/// files; there is exactly one entry per file and per populated directory;
/// each directory entry carries the sum of the file entries beneath it; and
/// an empty listing yields an empty report.
pub open spec fn report_ok(files: Seq<FileEntry>, root: Seq<char>, r: ScanResult) -> bool {
    &&& sorted_desc(r@.items)
    &&& r.total_size as int == sum_sizes(files)
    &&& r.total_size_formatted@ == spec_format_size(sum_sizes(files))
    &&& exists|dirs: Seq<Seq<char>>| #[trigger] report_lists(files, root, dirs, r@.items)
    &&& (forall|a: int|
        0 <= a < r@.items.len() && (#[trigger] r@.items[a]).is_dir ==> r@.items[a].size
            == sum_items_under(r@.items, r@.items[a].path))
    &&& (files.len() == 0 ==> r@.items.len() == 0)
}

pub proof fn lemma_sum_items_remove(items: Seq<ItemV>, j: int, dp: Seq<char>)
    requires
        0 <= j < items.len(),
    ensures
        sum_items_under(items, dp) == sum_items_under(items.remove(j), dp) + item_contrib(
            items[j],
            dp,
        ),
    decreases items.len(),
{
    if j == items.len() - 1 {
        assert(items.remove(j) =~= items.drop_last());
    } else {
        lemma_sum_items_remove(items.drop_last(), j, dp);
        assert(items.remove(j).drop_last() =~= items.drop_last().remove(j));
        assert(items.remove(j).last() == items.last());
    }
}

/// The sum beneath a directory does not depend on the order of the entries.
pub proof fn lemma_sum_items_permutation(s1: Seq<ItemV>, s2: Seq<ItemV>, dp: Seq<char>)
    requires
        s1.to_multiset() == s2.to_multiset(),
    ensures
        sum_items_under(s1, dp) == sum_items_under(s2, dp),
    decreases s1.len(),
{
    broadcast use vstd::seq_lib::group_to_multiset_ensures;
    broadcast use vstd::multiset::group_multiset_axioms;

    if s1.len() == 0 {
        assert(s1.to_multiset().len() == 0);
        assert(s2.to_multiset().len() == s2.len());
        assert(s2.len() == 0);
    } else {
        let x = s1.last();
        assert(s1.contains(x));
        assert(s2.to_multiset().count(x) > 0);
        assert(s2.contains(x));
        let j = choose|j: int| 0 <= j < s2.len() && s2[j] == x;
        lemma_sum_items_remove(s2, j, dp);
        assert(s1 =~= s1.drop_last().push(x));
        assert(s1.drop_last().to_multiset() =~= s2.remove(j).to_multiset());
        lemma_sum_items_permutation(s1.drop_last(), s2.remove(j), dp);
    }
}

/// A view-level multiset is preserved by any entry-level permutation.
pub proof fn lemma_views_permutation(s1: Seq<Item>, s2: Seq<Item>)
    requires
        s1.to_multiset() == s2.to_multiset(),
    ensures
        views_of(s1).to_multiset() == views_of(s2).to_multiset(),
    decreases s1.len(),
{
    broadcast use vstd::seq_lib::group_to_multiset_ensures;
    broadcast use vstd::multiset::group_multiset_axioms;

    if s1.len() == 0 {
        assert(s1.to_multiset().len() == 0);
        assert(s2.to_multiset().len() == s2.len());
        assert(s2.len() == 0);
        assert(views_of(s1) =~= views_of(s2));
    } else {
        let x = s1.last();
        assert(s1.contains(x));
        assert(s2.to_multiset().count(x) > 0);
        assert(s2.contains(x));
        let j = choose|j: int| 0 <= j < s2.len() && s2[j] == x;
        assert(s1 =~= s1.drop_last().push(x));
        assert(s1.drop_last().to_multiset() =~= s2.remove(j).to_multiset());
        lemma_views_permutation(s1.drop_last(), s2.remove(j));
        assert(views_of(s1) =~= views_of(s1.drop_last()).push(x@));
        assert(views_of(s2.remove(j)) =~= views_of(s2).remove(j));
        assert(views_of(s2)[j] == x@);
        lemma_sum_items_remove_multiset(views_of(s2), j);
    }
}

proof fn lemma_sum_items_remove_multiset(s: Seq<ItemV>, j: int)
    requires
        0 <= j < s.len(),
    ensures
        s.to_multiset() == s.remove(j).to_multiset().insert(s[j]),
{
    broadcast use vstd::seq_lib::group_to_multiset_ensures;
    broadcast use vstd::multiset::group_multiset_axioms;

    assert(s.remove(j).to_multiset() =~= s.to_multiset().remove(s[j]));
    assert(s.contains(s[j]));
    assert(s.to_multiset().count(s[j]) > 0);
    assert(s.remove(j).to_multiset().insert(s[j]) =~= s.to_multiset());
}

proof fn lemma_insert_multiset(s: Seq<Item>, p: int, x: Item)
    requires
        0 <= p <= s.len(),
    ensures
        s.insert(p, x).to_multiset() == s.to_multiset().insert(x),
{
    broadcast use vstd::seq_lib::group_to_multiset_ensures;
    broadcast use vstd::multiset::group_multiset_axioms;

    let a = s.subrange(0, p);
    let b = s.subrange(p, s.len() as int);
    assert(s =~= a + b);
    assert(s.insert(p, x) =~= a.push(x) + b);
    lemma_multiset_commutative(a.push(x), b);
    lemma_multiset_commutative(a, b);
    assert(a.push(x).to_multiset() =~= a.to_multiset().insert(x));
    assert(s.insert(p, x).to_multiset() =~= s.to_multiset().insert(x));
}

/// Sum beneath a directory splits over concatenation.
proof fn lemma_sum_items_concat(a: Seq<ItemV>, b: Seq<ItemV>, dp: Seq<char>)
    ensures
        sum_items_under(a + b, dp) == sum_items_under(a, dp) + sum_items_under(b, dp),
    decreases b.len(),
{
    if b.len() == 0 {
        assert(a + b =~= a);
    } else {
        assert((a + b).drop_last() =~= a + b.drop_last());
        assert((a + b).last() == b.last());
        lemma_sum_items_concat(a, b.drop_last(), dp);
    }
}

/// Directory entries add nothing to any file-size sum.
proof fn lemma_sum_items_all_dirs(items: Seq<ItemV>, dp: Seq<char>)
    requires
        forall|a: int| 0 <= a < items.len() ==> (#[trigger] items[a]).is_dir,
    ensures
        sum_items_under(items, dp) == 0,
    decreases items.len(),
{
    if items.len() > 0 {
        assert(items.last() == items[items.len() - 1]);
        lemma_sum_items_all_dirs(items.drop_last(), dp);
    }
}

/// Lying beneath a directory reads the same on relative paths as on the
/// absolute paths they came from.
pub proof fn lemma_rel_under_iff(root: Seq<char>, p: Seq<char>, d: Seq<char>)
    requires
        wf_under(root, p),
        d.len() >= root.len() + 2,
        d.subrange(0, root.len() as int) == root,
        d[root.len() as int] == '/',
    ensures
        under_dir(p, d) <==> under_dir(rel_of(p, root.len() as int), rel_of(d, root.len() as int)),
{
    let rl = root.len() as int;
    let rp = rel_of(p, rl);
    let rd = rel_of(d, rl);
    if under_dir(p, d) {
        assert forall|t: int| 0 <= t < rd.len() implies rp[t] == rd[t] by {
            assert(p.subrange(0, d.len() as int)[rl + 1 + t] == p[rl + 1 + t]);
        }
        assert(rp.subrange(0, rd.len() as int) =~= rd);
        assert(rp[rd.len() as int] == p[d.len() as int]);
    }
    if under_dir(rp, rd) {
        assert forall|i: int| 0 <= i < d.len() implies p[i] == d[i] by {
            if i < rl {
                assert(p.subrange(0, rl)[i] == p[i]);
                assert(d.subrange(0, rl)[i] == d[i]);
            } else if i > rl {
                assert(rp.subrange(0, rd.len() as int)[i - rl - 1] == rp[i - rl - 1]);
            }
        }
        assert(p.subrange(0, d.len() as int) =~= d);
        assert(p[d.len() as int] == rp[rd.len() as int]);
    }
}

/// Every aggregation bucket reaches at least two characters past the root:
/// the first segment beneath the root is nonempty.
pub proof fn lemma_dir_key_long(files: Seq<FileEntry>, root: Seq<char>, d: Seq<char>)
    requires
        all_files_wf(files, root),
        dir_key(files, root, d),
    ensures
        d.len() >= root.len() + 2,
        d.subrange(0, root.len() as int) == root,
        d[root.len() as int] == '/',
{
    let rl = root.len() as int;
    let j = choose|j: int| 0 <= j < files.len() && under_dir((#[trigger] files[j]).path@, d);
    let p = files[j].path@;
    assert(wf_under(root, p));
    assert forall|i: int| 0 <= i < d.len() implies d[i] == p[i] by {
        assert(p.subrange(0, d.len() as int)[i] == p[i]);
    }
    assert(d.subrange(0, rl) =~= p.subrange(0, rl));
    if d.len() == rl + 1 {
        assert(p[rl] == '/');
        assert(p[rl + 1] == '/');
    }
}

/// The sum beneath a bucket over the file entries equals the sum beneath it
/// over the listing itself.
proof fn lemma_file_items_sum(files: Seq<FileEntry>, root: Seq<char>, d: Seq<char>)
    requires
        all_files_wf(files, root),
        d.len() >= root.len() + 2,
        d.subrange(0, root.len() as int) == root,
        d[root.len() as int] == '/',
    ensures
        sum_items_under(spec_file_items(files, root.len() as int), rel_of(d, root.len() as int))
            == sum_under(files, d),
    decreases files.len(),
{
    let rl = root.len() as int;
    let fi = spec_file_items(files, rl);
    if files.len() == 0 {
    } else {
        assert(files.last() == files[files.len() - 1]);
        assert(fi.drop_last() =~= spec_file_items(files.drop_last(), rl));
        assert(fi.last() == file_item_v(rel_of(files.last().path@, rl), files.last().size as int));
        lemma_rel_under_iff(root, files.last().path@, d);
        lemma_file_items_sum(files.drop_last(), root, d);
    }
}

/// Sorts the report entries by size, largest first, by insertion; the order
/// of equal sizes is left unspecified.
fn sort_items(v: &mut Vec<Item>)
    ensures
        sorted_desc(views_of(final(v)@)),
        final(v)@.to_multiset() == old(v)@.to_multiset(),
        final(v)@.len() == old(v)@.len(),
{
    broadcast use vstd::seq_lib::group_to_multiset_ensures;

    let mut i: usize = 1;
    while i < v.len()
        invariant
            1 <= i,
            i <= v@.len() || v@.len() == 0,
            v@.len() == old(v)@.len(),
            v@.to_multiset() == old(v)@.to_multiset(),
            forall|a: int, b: int| 0 <= a <= b < i && b < v@.len() ==> v@[a].size >= v@[b].size,
        decreases v@.len() - i,
    {
        let ghost before = v@;
        let x = v.remove(i);
        let mut p: usize = 0;
        while p < i && v[p].size >= x.size
            invariant
                p <= i,
                i < before.len(),
                v@ == before.remove(i as int),
                forall|a: int| 0 <= a < p ==> v@[a].size >= x.size,
            decreases i - p,
        {
            p += 1;
        }
        v.insert(p, x);
        proof {
            lemma_sum_items_remove_multiset_item(before, i as int);
            lemma_insert_multiset(before.remove(i as int), p as int, x);
            assert(v@.to_multiset() =~= before.to_multiset());
            assert forall|a: int, b: int|
                0 <= a <= b < i + 1 && b < v@.len() implies v@[a].size >= v@[b].size by {
                if a < p && b >= p {
                    if b == p {
                    } else {
                        assert(v@[b] == before.remove(i as int)[b - 1]);
                    }
                } else if a == p && b > p {
                    assert(v@[b] == before.remove(i as int)[b - 1]);
                }
            }
        }
        i += 1;
    }
    proof {
        if v@.len() == 0 {
        }
    }
}

proof fn lemma_sum_items_remove_multiset_item(s: Seq<Item>, j: int)
    requires
        0 <= j < s.len(),
    ensures
        s.to_multiset() == s.remove(j).to_multiset().insert(s[j]),
{
    broadcast use vstd::seq_lib::group_to_multiset_ensures;
    broadcast use vstd::multiset::group_multiset_axioms;

    assert(s.remove(j).to_multiset() =~= s.to_multiset().remove(s[j]));
    assert(s.contains(s[j]));
    assert(s.to_multiset().count(s[j]) > 0);
    assert(s.remove(j).to_multiset().insert(s[j]) =~= s.to_multiset());
}

/// Builds the report for a scanned listing beneath `root`: aggregates the
/// per-directory sizes, emits one entry per populated directory and one per
/// file under their root-relative paths, sorts by size descending, and
/// totals the regular files. `display_path` is echoed as the report's root.
#[verifier::loop_isolation(false)]
pub fn assemble_result(
    files: &Vec<FileEntry>,
    root: &String,
    display_path: &String,
    elapsed_millis: u64,
) -> (r: ScanResult)
    requires
        all_files_wf(files@, root@),
        sum_sizes(files@) <= i64::MAX,
    ensures
        report_ok(files@, root@, r),
        r.scan_time_millis == elapsed_millis,
        r.path@ == display_path@,
{
    let rootlen = root.as_str().unicode_len();
    let m = aggregate_sizes(files, root);
    let ghost dkeys = m.key_seq();
    let nd = m.len();
    proof {
        assert(dkeys.len() == nd);
        assert forall|a: int| 0 <= a < dkeys.len() implies #[trigger] dir_key(
            files@,
            root@,
            dkeys[a],
        ) by {
            assert(m.key_seq()[a] == dkeys[a]);
            assert(m.contains(dkeys[a]));
        }
    }
    let mut u: Vec<Item> = Vec::new();
    let mut g: usize = 0;
    while g < nd
        invariant
            g <= nd,
            views_of(u@) == dir_items_of(dkeys.subrange(0, g as int), files@, rootlen as int),
        decreases nd - g,
    {
        proof {
            assert(m.key_seq()[g as int] == dkeys[g as int]);
            assert(m.contains(dkeys[g as int]));
            assert(dir_key(files@, root@, dkeys[g as int]));
            lemma_dir_key_long(files@, root@, dkeys[g as int]);
            assert forall|j: int| 0 <= j < files@.len() implies (#[trigger] files@[j]).size
                >= 0 by {}
            lemma_sum_under_bounds(files@, dkeys[g as int]);
        }
        let key = m.key_at(g);
        let size = m.size_at(g);
        let rel = rel_path(key.as_str(), rootlen);
        let name = base_name(rel.as_str());
        let formatted = format_size(size);
        let ghost relv = rel@;
        let ghost namev = name@;
        let ghost fmtv = formatted@;
        let ghost prev_u = u@;
        u.push(Item { path: rel, name: name, size: size, size_formatted: formatted, is_dir: true });
        proof {
            let d = dkeys[g as int];
            assert(size as int == sum_under(files@, d));
            assert(relv == rel_of(d, rootlen as int));
            assert(u@.last()@ == ItemV {
                path: relv,
                name: namev,
                size: size as int,
                size_formatted: fmtv,
                is_dir: true,
            });
            assert(u@.last()@ == dir_item_v(rel_of(d, rootlen as int), sum_under(files@, d)));
            assert forall|c: int| 0 <= c < u@.len() implies views_of(u@)[c] == dir_items_of(
                dkeys.subrange(0, g + 1 as int),
                files@,
                rootlen as int,
            )[c] by {
                if c < g {
                    assert(u@[c] == prev_u[c]);
                    assert(views_of(prev_u)[c] == dir_items_of(
                        dkeys.subrange(0, g as int),
                        files@,
                        rootlen as int,
                    )[c]);
                }
            }
            assert(views_of(u@) =~= dir_items_of(
                dkeys.subrange(0, g + 1 as int),
                files@,
                rootlen as int,
            ));
        }
        g += 1;
    }
    proof {
        assert(dkeys.subrange(0, nd as int) =~= dkeys);
    }
    let ghost dir_part = views_of(u@);
    let mut j: usize = 0;
    while j < files.len()
        invariant
            j <= files@.len(),
            views_of(u@) == dir_part + spec_file_items(files@, rootlen as int).subrange(
                0,
                j as int,
            ),
        decreases files@.len() - j,
    {
        proof {
            assert(all_files_wf(files@, root@));
            assert(wf_under(root@, files@[j as int].path@));
            assert forall|t: int| 0 <= t < files@.len() implies (#[trigger] files@[t]).size
                >= 0 by {}
        }
        let fe = &files[j];
        let rel = rel_path(fe.path.as_str(), rootlen);
        let name = base_name(rel.as_str());
        let formatted = format_size(fe.size);
        let ghost relv = rel@;
        let ghost namev = name@;
        let ghost fmtv = formatted@;
        let ghost prev_u = u@;
        u.push(
            Item { path: rel, name: name, size: fe.size, size_formatted: formatted, is_dir: false },
        );
        proof {
            assert(u@.last()@ == ItemV {
                path: relv,
                name: namev,
                size: fe.size as int,
                size_formatted: fmtv,
                is_dir: false,
            });
            assert(u@.last()@ == spec_file_items(files@, rootlen as int)[j as int]);
            let target = dir_part + spec_file_items(files@, rootlen as int).subrange(
                0,
                j + 1 as int,
            );
            assert forall|c: int| 0 <= c < u@.len() implies views_of(u@)[c] == target[c] by {
                if c < prev_u.len() {
                    assert(u@[c] == prev_u[c]);
                    assert(views_of(prev_u)[c] == (dir_part + spec_file_items(
                        files@,
                        rootlen as int,
                    ).subrange(0, j as int))[c]);
                }
            }
            assert(views_of(u@) =~= target);
        }
        j += 1;
    }
    proof {
        assert(spec_file_items(files@, rootlen as int).subrange(
            0,
            files@.len() as int,
        ) =~= spec_file_items(files@, rootlen as int));
    }
    let ghost u0 = views_of(u@);
    let ghost file_part = spec_file_items(files@, rootlen as int);
    proof {
        // each directory entry of the unsorted report carries the sum of the
        // file entries beneath it
        assert forall|a: int| 0 <= a < u0.len() && (#[trigger] u0[a]).is_dir implies u0[a].size
            == sum_items_under(u0, u0[a].path) by {
            if a >= dir_part.len() {
                assert(u0[a] == file_part[a - dir_part.len()]);
                assert(!u0[a].is_dir);
            }
            assert(a < dir_part.len());
            let d = dkeys[a];
            assert(u0[a] == dir_item_v(rel_of(d, rootlen as int), sum_under(files@, d)));
            assert(dir_key(files@, root@, d));
            lemma_dir_key_long(files@, root@, d);
            lemma_sum_items_concat(dir_part, file_part, u0[a].path);
            assert forall|t: int| 0 <= t < dir_part.len() implies (
            #[trigger] dir_part[t]).is_dir by {}
            lemma_sum_items_all_dirs(dir_part, u0[a].path);
            lemma_file_items_sum(files@, root@, d);
        }
    }
    // total over the regular files alone; directory sizes are derived
    let mut total: i64 = 0;
    let mut t: usize = 0;
    while t < files.len()
        invariant
            t <= files@.len(),
            total as int == sum_sizes(files@.subrange(0, t as int)),
        decreases files@.len() - t,
    {
        proof {
            assert forall|q: int| 0 <= q < files@.len() implies (#[trigger] files@[q]).size
                >= 0 by {}
            lemma_sum_sizes_prefix(files@, t + 1 as int);
            assert(files@.subrange(0, t + 1 as int).drop_last() =~= files@.subrange(0, t as int));
            assert(files@.subrange(0, t + 1 as int).last() == files@[t as int]);
            lemma_sum_under_bounds(files@.subrange(0, t as int), root@);
        }
        total = total + files[t].size;
        t += 1;
    }
    proof {
        assert(files@.subrange(0, files@.len() as int) =~= files@);
        assert forall|q: int| 0 <= q < files@.len() implies (#[trigger] files@[q]).size >= 0 by {}
        lemma_sum_under_bounds(files@, root@);
    }
    let total_formatted = format_size(total);
    let mut items = u;
    let ghost unsorted = items@;
    sort_items(&mut items);
    let r = ScanResult {
        items: items,
        total_size: total,
        total_size_formatted: total_formatted,
        scan_time_millis: elapsed_millis,
        path: display_path.clone(),
    };
    proof {
        broadcast use vstd::seq_lib::group_to_multiset_ensures;

        lemma_views_permutation(r.items@, unsorted);
        assert(r@.items =~= views_of(r.items@));
        assert(r@.items.to_multiset() == u0.to_multiset());
        // the sorted report still lists exactly the buckets and the files
        assert(dkeys.no_duplicates()) by {
            assert(forall|a: int, b: int|
                0 <= a < b < dkeys.len() ==> dkeys[a] != dkeys[b]);
        }
        assert(dkeys.subrange(0, nd as int) == dkeys);
        assert(dir_part == dir_items_of(dkeys.subrange(0, nd as int), files@, rootlen as int));
        assert(dir_part == dir_items_of(dkeys, files@, rootlen as int));
        assert(u0 == dir_part + file_part);
        assert(u0 =~= dir_items_of(dkeys, files@, rootlen as int) + file_part);
        assert forall|d: Seq<char>| #[trigger] dkeys.contains(d) implies dir_key(
            files@,
            root@,
            d,
        ) by {
            let a = choose|a: int| 0 <= a < dkeys.len() && dkeys[a] == d;
            assert(m.key_seq()[a] == d);
            assert(m.contains(d));
        }
        assert forall|d: Seq<char>| dir_key(files@, root@, d) implies #[trigger] dkeys.contains(
            d,
        ) by {
            assert(m.contains(d));
        }
        assert(report_lists(files@, root@, dkeys, r@.items));
        // transfer the per-directory sums through the permutation
        assert forall|a: int|
            0 <= a < r@.items.len() && (#[trigger] r@.items[a]).is_dir implies r@.items[a].size
            == sum_items_under(r@.items, r@.items[a].path) by {
            let it = r@.items[a];
            assert(r@.items.contains(it));
            assert(r@.items.to_multiset().count(it) > 0);
            assert(u0.to_multiset().count(it) > 0);
            assert(u0.contains(it));
            let b = choose|b: int| 0 <= b < u0.len() && u0[b] == it;
            lemma_sum_items_permutation(r@.items, u0, it.path);
        }
        if files@.len() == 0 {
            if dkeys.len() > 0 {
                assert(dir_key(files@, root@, dkeys[0]));
            }
            assert(u0.len() == 0);
            assert(r@.items.to_multiset().len() == 0);
            assert(r@.items.len() == 0);
        }
    }
    r
}

} // verus!
