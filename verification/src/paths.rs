//! Slash-separated path reasoning: directory prefixes, well-formed absolute
//! paths beneath a scan root, base names, and root normalization.

use vstd::prelude::*;
use vstd::string::*;

verus! {

/// `d` is a strict directory prefix of `p`: `p` continues beneath `d` after
/// a separating slash.
pub open spec fn under_dir(p: Seq<char>, d: Seq<char>) -> bool {
    &&& d.len() < p.len()
    &&& p.subrange(0, d.len() as int) == d
    &&& p[d.len() as int] == '/'
}

/// `p` is a well-formed absolute path strictly beneath `root`: it extends
/// `root` with one or more slash-separated, nonempty segments and does not
/// end in a slash. `root` itself must not end in a slash.
pub open spec fn wf_under(root: Seq<char>, p: Seq<char>) -> bool {
    &&& p.len() >= root.len() + 2
    &&& p.subrange(0, root.len() as int) == root
    &&& p[root.len() as int] == '/'
    &&& p[p.len() - 1] != '/'
    &&& (forall|i: int|
        root.len() <= i < p.len() - 1 && #[trigger] p[i] == '/' ==> p[i + 1] != '/')
}

/// Decides `wf_under` for concrete strings, so a traversal front end can
/// screen the listing it hands to the aggregator.
pub fn check_wf_under(root: &str, p: &str) -> (r: bool)
    ensures
        r == wf_under(root@, p@),
{
    let rl = root.unicode_len();
    let pl = p.unicode_len();
    if pl <= rl || pl - rl < 2 {
        return false;
    }
    let mut i: usize = 0;
    while i < rl
        invariant
            i <= rl,
            rl == root@.len(),
            pl == p@.len(),
            rl + 2 <= pl,
            forall|j: int| 0 <= j < i ==> p@[j] == root@[j],
        decreases rl - i,
    {
        if p.get_char(i) != root.get_char(i) {
            proof {
                assert(p@.subrange(0, rl as int)[i as int] == p@[i as int]);
            }
            return false;
        }
        i += 1;
    }
    proof {
        assert(p@.subrange(0, rl as int) =~= root@);
    }
    if p.get_char(rl) != '/' {
        return false;
    }
    if p.get_char(pl - 1) == '/' {
        return false;
    }
    let mut k: usize = rl;
    while k < pl - 1
        invariant
            rl <= k <= pl - 1,
            rl == root@.len(),
            pl == p@.len(),
            rl + 2 <= pl,
            forall|j: int| rl <= j < k && #[trigger] p@[j] == '/' ==> p@[j + 1] != '/',
        decreases pl - k,
    {
        if p.get_char(k) == '/' && p.get_char(k + 1) == '/' {
            return false;
        }
        k += 1;
    }
    true
}

/// Decides whether `prefix` is a prefix of `s`; the cache's prefix
/// invalidation keys on this.
pub fn str_starts_with(s: &str, prefix: &str) -> (r: bool)
    ensures
        r == prefix@.is_prefix_of(s@),
{
    let sl = s.unicode_len();
    let fl = prefix.unicode_len();
    if fl > sl {
        return false;
    }
    let mut i: usize = 0;
    while i < fl
        invariant
            i <= fl <= sl,
            sl == s@.len(),
            fl == prefix@.len(),
            forall|j: int| 0 <= j < i ==> s@[j] == prefix@[j],
        decreases fl - i,
    {
        if s.get_char(i) != prefix.get_char(i) {
            proof {
                assert(s@.subrange(0, fl as int)[i as int] == s@[i as int]);
            }
            return false;
        }
        i += 1;
    }
    proof {
        assert(s@.subrange(0, fl as int) =~= prefix@);
    }
    true
}

/// Index of the last slash in `s`, or `-1` if `s` holds none.
pub open spec fn last_slash(s: Seq<char>) -> int
    decreases s.len(),
{
    if s.len() == 0 {
        -1
    } else if s[s.len() - 1] == '/' {
        s.len() - 1
    } else {
        last_slash(s.drop_last())
    }
}

/// The final segment of `s`: everything after the last slash.
pub open spec fn spec_base_name(s: Seq<char>) -> Seq<char> {
    s.subrange(last_slash(s) + 1, s.len() as int)
}

/// The display name of a relative path: its final segment.
pub fn base_name(s: &str) -> (r: String)
    ensures
        r@ == spec_base_name(s@),
{
    let n = s.unicode_len();
    let mut cut: usize = 0;
    let mut i: usize = 0;
    while i < n
        invariant
            i <= n,
            n == s@.len(),
            cut == last_slash(s@.subrange(0, i as int)) + 1,
            cut <= i,
        decreases n - i,
    {
        proof {
            assert(s@.subrange(0, i + 1 as int).drop_last() =~= s@.subrange(0, i as int));
            assert(s@.subrange(0, i + 1 as int)[i as int] == s@[i as int]);
        }
        if s.get_char(i) == '/' {
            cut = i + 1;
        }
        i += 1;
    }
    proof {
        assert(s@.subrange(0, n as int) =~= s@);
    }
    let r = s.substring_char(cut, n);
    proof {
        assert(r@ =~= spec_base_name(s@));
    }
    String::from_str(r)
}

/// Separators mapped to forward slashes.
pub open spec fn norm_seps(s: Seq<char>) -> Seq<char> {
    s.map_values(|c: char| if c == '\\' { '/' } else { c })
}

/// `s` with any trailing slashes removed.
pub open spec fn trim_trailing_slashes(s: Seq<char>) -> Seq<char>
    decreases s.len(),
{
    if s.len() > 0 && s[s.len() - 1] == '/' {
        trim_trailing_slashes(s.drop_last())
    } else {
        s
    }
}

/// The canonical cache-key form of a root path: separators normalized to
/// forward slashes, trailing slashes dropped.
pub open spec fn spec_normalize_root(s: Seq<char>) -> Seq<char> {
    trim_trailing_slashes(norm_seps(s))
}

/// Normalizes a canonicalized root path into the cache-key form.
pub fn normalize_root(s: &str) -> (r: String)
    ensures
        r@ == spec_normalize_root(s@),
{
    let n = s.unicode_len();
    let mut t = String::new();
    let mut i: usize = 0;
    while i < n
        invariant
            i <= n,
            n == s@.len(),
            t@ == norm_seps(s@.subrange(0, i as int)),
            t@.len() == i,
        decreases n - i,
    {
        if s.get_char(i) == '\\' {
            t.append("/");
            proof {
                reveal_strlit("/");
            }
        } else {
            let piece = s.substring_char(i, i + 1);
            t.append(piece);
        }
        proof {
            assert(t@ =~= norm_seps(s@.subrange(0, i + 1 as int)));
        }
        i += 1;
    }
    proof {
        assert(s@.subrange(0, n as int) =~= s@);
        assert(t@.subrange(0, n as int) =~= t@);
    }
    let mut hi: usize = n;
    while hi > 0 && t.as_str().get_char(hi - 1) == '/'
        invariant
            hi <= n,
            n == t@.len(),
            t@ == norm_seps(s@),
            trim_trailing_slashes(t@.subrange(0, hi as int)) == trim_trailing_slashes(t@),
        decreases hi,
    {
        proof {
            assert(t@.subrange(0, hi as int).drop_last() =~= t@.subrange(0, hi - 1 as int));
        }
        hi -= 1;
    }
    let r = t.as_str().substring_char(0, hi);
    proof {
        assert(r@ =~= trim_trailing_slashes(t@.subrange(0, hi as int)));
    }
    String::from_str(r)
}

/// The root-relative form of an absolute path strictly beneath the root:
/// everything after the slash that follows the root prefix.
pub fn rel_path(p: &str, root_len: usize) -> (r: String)
    requires
        root_len + 1 < p@.len(),
    ensures
        r@ == p@.subrange(root_len + 1, p@.len() as int),
{
    let n = p.unicode_len();
    let r = p.substring_char(root_len + 1, n);
    String::from_str(r)
}

} // verus!
