//! Test-file filtering: when test code is excluded from a search, files are
//! skipped whose path holds a test directory segment or whose file name
//! follows a test naming pattern.

use vstd::prelude::*;

use crate::text::str_chars;

verus! {

/// `p` occurs in `s` starting at position `i`.
pub open spec fn occurs_at(s: Seq<char>, p: Seq<char>, i: int) -> bool {
    0 <= i && i + p.len() <= s.len() && s.subrange(i, i + p.len()) == p
}

/// `p` occurs somewhere in `s`.
pub open spec fn contains_seq(s: Seq<char>, p: Seq<char>) -> bool {
    exists|i: int| occurs_at(s, p, i)
}

pub open spec fn starts_with(s: Seq<char>, p: Seq<char>) -> bool {
    p.len() <= s.len() && s.take(p.len() as int) == p
}

pub open spec fn ends_with(s: Seq<char>, p: Seq<char>) -> bool {
    p.len() <= s.len() && s.skip(s.len() - p.len()) == p
}

/// Where the file name begins: just after the last path separator.
pub open spec fn name_start(s: Seq<char>) -> int
    decreases s.len(),
{
    if s.len() == 0 {
        0
    } else if s.last() == '/' {
        s.len() as int
    } else {
        name_start(s.drop_last())
    }
}

/// The file name of a path: everything after the last `/`.
pub open spec fn base_name(s: Seq<char>) -> Seq<char> {
    s.skip(name_start(s))
}

/// The length of the file name up to its first `.`.
pub open spec fn stem_len(b: Seq<char>) -> int
    decreases b.len(),
{
    if b.len() == 0 {
        0
    } else if b[0] == '.' {
        0
    } else {
        1 + stem_len(b.drop_first())
    }
}

/// The file name before its first `.`.
pub open spec fn stem_of_name(b: Seq<char>) -> Seq<char> {
    b.take(stem_len(b))
}

/// Whether a path names test code: a `tests/`, `test/`, `__tests__/` or
/// `spec/` segment, or a file name of the shape `*_test.*`, `*.test.*`,
/// `*.spec.*` or `test_*`.
pub open spec fn spec_is_test_path(p: Seq<char>) -> bool {
    ||| contains_seq(p, "/tests/"@)
    ||| contains_seq(p, "/test/"@)
    ||| contains_seq(p, "/__tests__/"@)
    ||| contains_seq(p, "/spec/"@)
    ||| starts_with(p, "tests/"@)
    ||| starts_with(p, "test/"@)
    ||| starts_with(p, "__tests__/"@)
    ||| starts_with(p, "spec/"@)
    ||| ends_with(stem_of_name(base_name(p)), "_test"@)
    ||| contains_seq(base_name(p), ".test."@)
    ||| contains_seq(base_name(p), ".spec."@)
    ||| starts_with(stem_of_name(base_name(p)), "test_"@)
}

fn starts_with_chars(s: &Vec<char>, p: &Vec<char>) -> (r: bool)
    ensures
        r == starts_with(s@, p@),
{
    if p.len() > s.len() {
        return false;
    }
    let mut i: usize = 0;
    while i < p.len()
        invariant
            0 <= i <= p@.len(),
            p@.len() <= s@.len(),
            forall|k: int| 0 <= k < i ==> s@[k] == p@[k],
        decreases p@.len() - i,
    {
        if s[i] != p[i] {
            proof {
                assert(s@.take(p@.len() as int)[i as int] != p@[i as int]);
            }
            return false;
        }
        i += 1;
    }
    proof {
        assert(s@.take(p@.len() as int) =~= p@);
    }
    true
}

fn ends_with_chars(s: &Vec<char>, p: &Vec<char>) -> (r: bool)
    ensures
        r == ends_with(s@, p@),
{
    if p.len() > s.len() {
        return false;
    }
    let off = s.len() - p.len();
    let sn = s.len();
    let mut i: usize = 0;
    while i < p.len()
        invariant
            0 <= i <= p@.len(),
            p@.len() <= s@.len(),
            s@.len() == sn,
            off == s@.len() - p@.len(),
            forall|k: int| 0 <= k < i ==> s@[off + k] == p@[k],
        decreases p@.len() - i,
    {
        if s[off + i] != p[i] {
            proof {
                assert(s@.skip(s@.len() - p@.len())[i as int] != p@[i as int]);
            }
            return false;
        }
        i += 1;
    }
    proof {
        assert(s@.skip(s@.len() - p@.len()) =~= p@);
    }
    true
}

fn matches_at(s: &Vec<char>, p: &Vec<char>, i: usize) -> (r: bool)
    requires
        i + p@.len() <= s@.len(),
    ensures
        r == occurs_at(s@, p@, i as int),
{
    let sn = s.len();
    let mut j: usize = 0;
    while j < p.len()
        invariant
            0 <= j <= p@.len(),
            i + p@.len() <= s@.len(),
            s@.len() == sn,
            forall|k: int| 0 <= k < j ==> s@[i + k] == p@[k],
        decreases p@.len() - j,
    {
        if s[i + j] != p[j] {
            proof {
                assert(s@.subrange(i as int, i + p@.len())[j as int] != p@[j as int]);
            }
            return false;
        }
        j += 1;
    }
    proof {
        assert(s@.subrange(i as int, i + p@.len()) =~= p@);
    }
    true
}

fn contains_chars(s: &Vec<char>, p: &Vec<char>) -> (r: bool)
    ensures
        r == contains_seq(s@, p@),
{
    if p.len() > s.len() {
        proof {
            if contains_seq(s@, p@) {
                let w = choose|w: int| occurs_at(s@, p@, w);
            }
        }
        return false;
    }
    let last = s.len() - p.len();
    let mut i: usize = 0;
    loop
        invariant
            0 <= i <= last,
            last == s@.len() - p@.len(),
            p@.len() <= s@.len(),
            forall|w: int| 0 <= w < i ==> !occurs_at(s@, p@, w),
        ensures
            forall|w: int| 0 <= w <= last ==> !occurs_at(s@, p@, w),
        decreases last - i,
    {
        if matches_at(s, p, i) {
            return true;
        }
        proof {
            assert(!occurs_at(s@, p@, i as int));
        }
        if i == last {
            break ;
        }
        i += 1;
    }
    proof {
        if contains_seq(s@, p@) {
            let w = choose|w: int| occurs_at(s@, p@, w);
            assert(w + p@.len() <= s@.len());
            assert(!occurs_at(s@, p@, w));
        }
    }
    false
}

fn base_name_chars(s: &Vec<char>) -> (r: Vec<char>)
    ensures
        r@ == base_name(s@),
{
    let mut cut: usize = s.len();
    proof {
        assert(s@.take(s@.len() as int) =~= s@);
    }
    while cut > 0
        invariant
            0 <= cut <= s@.len(),
            name_start(s@) == name_start(s@.take(cut as int)),
        ensures
            name_start(s@) == cut as int,
        decreases cut,
    {
        proof {
            assert(s@.take(cut as int).last() == s@[cut - 1]);
            assert(s@.take(cut as int).drop_last() =~= s@.take(cut as int - 1));
        }
        if s[cut - 1] == '/' {
            proof {
                assert(name_start(s@.take(cut as int)) == cut as int);
            }
            break ;
        }
        cut -= 1;
    }
    let mut out: Vec<char> = Vec::new();
    let mut i: usize = cut;
    while i < s.len()
        invariant
            cut <= i <= s@.len(),
            out@ == s@.skip(cut as int).take(i - cut),
        decreases s@.len() - i,
    {
        let ghost gout = out@;
        out.push(s[i]);
        proof {
            assert(s@.skip(cut as int)[i - cut] == s@[i as int]);
            assert(out@ =~= s@.skip(cut as int).take(i + 1 - cut));
        }
        i += 1;
    }
    proof {
        assert(out@ =~= s@.skip(cut as int));
    }
    out
}

fn stem_chars(b: &Vec<char>) -> (r: Vec<char>)
    ensures
        r@ == stem_of_name(b@),
{
    let mut out: Vec<char> = Vec::new();
    let mut i: usize = 0;
    proof {
        assert(b@.skip(0) =~= b@);
    }
    while i < b.len()
        invariant
            0 <= i <= b@.len(),
            out@ == b@.take(i as int),
            stem_len(b@) == i + stem_len(b@.skip(i as int)),
        decreases b@.len() - i,
    {
        proof {
            assert(b@.skip(i as int)[0] == b@[i as int]);
            assert(b@.skip(i as int).drop_first() =~= b@.skip(i as int + 1));
        }
        if b[i] == '.' {
            proof {
                assert(stem_len(b@.skip(i as int)) == 0);
                assert(out@ =~= b@.take(stem_len(b@)));
            }
            return out;
        }
        let ghost gout = out@;
        out.push(b[i]);
        proof {
            assert(out@ =~= b@.take(i as int + 1));
        }
        i += 1;
    }
    proof {
        assert(stem_len(b@.skip(b@.len() as int)) == 0);
        assert(out@ =~= b@.take(stem_len(b@)));
    }
    out
}

/// Whether a path points into test code, by directory segment or file name.
pub fn is_test_path(path: &str) -> (r: bool)
    ensures
        r == spec_is_test_path(path@),
{
    let p = str_chars(path);
    let base = base_name_chars(&p);
    let stem = stem_chars(&base);
    contains_chars(&p, &str_chars("/tests/")) || contains_chars(&p, &str_chars("/test/"))
        || contains_chars(&p, &str_chars("/__tests__/")) || contains_chars(
        &p,
        &str_chars("/spec/"),
    ) || starts_with_chars(&p, &str_chars("tests/")) || starts_with_chars(
        &p,
        &str_chars("test/"),
    ) || starts_with_chars(&p, &str_chars("__tests__/")) || starts_with_chars(
        &p,
        &str_chars("spec/"),
    ) || ends_with_chars(&stem, &str_chars("_test")) || contains_chars(
        &base,
        &str_chars(".test."),
    ) || contains_chars(&base, &str_chars(".spec.")) || starts_with_chars(
        &stem,
        &str_chars("test_"),
    )
}

} // verus!
