//! Character-sequence utilities shared by the trace parser and the
//! formatters: whitespace trimming, prefix/suffix/substring tests and
//! conversions between `str`/`String` and `Vec<char>`.
use vstd::prelude::*;

verus! {

/// The characters stripped by `str::trim`: those with the Unicode
/// `White_Space` property.
pub open spec fn is_trace_space(c: char) -> bool {
    ||| c == ' '
    ||| c == '\t'
    ||| c == '\n'
    ||| c == '\u{b}'
    ||| c == '\u{c}'
    ||| c == '\r'
    ||| c == '\u{85}'
    ||| c == '\u{a0}'
    ||| c == '\u{1680}'
    ||| c == '\u{2000}'
    ||| c == '\u{2001}'
    ||| c == '\u{2002}'
    ||| c == '\u{2003}'
    ||| c == '\u{2004}'
    ||| c == '\u{2005}'
    ||| c == '\u{2006}'
    ||| c == '\u{2007}'
    ||| c == '\u{2008}'
    ||| c == '\u{2009}'
    ||| c == '\u{200a}'
    ||| c == '\u{2028}'
    ||| c == '\u{2029}'
    ||| c == '\u{202f}'
    ||| c == '\u{205f}'
    ||| c == '\u{3000}'
}

/// Runtime test for [`is_trace_space`].
pub fn is_space_char(c: char) -> (r: bool)
    ensures
        r == is_trace_space(c),
{
    c == ' ' || c == '\t' || c == '\n' || c == '\u{b}' || c == '\u{c}' || c == '\r'
        || c == '\u{85}' || c == '\u{a0}' || c == '\u{1680}' || c == '\u{2000}' || c == '\u{2001}'
        || c == '\u{2002}' || c == '\u{2003}' || c == '\u{2004}' || c == '\u{2005}'
        || c == '\u{2006}' || c == '\u{2007}' || c == '\u{2008}' || c == '\u{2009}'
        || c == '\u{200a}' || c == '\u{2028}' || c == '\u{2029}' || c == '\u{202f}'
        || c == '\u{205f}' || c == '\u{3000}'
}

/// `s` with trailing whitespace removed.
pub open spec fn trim_end_spec(s: Seq<char>) -> Seq<char>
    decreases s.len(),
{
    if s.len() == 0 {
        s
    } else if is_trace_space(s.last()) {
        trim_end_spec(s.drop_last())
    } else {
        s
    }
}

/// `s` with leading whitespace removed.
pub open spec fn trim_start_spec(s: Seq<char>) -> Seq<char>
    decreases s.len(),
{
    if s.len() == 0 {
        s
    } else if is_trace_space(s.first()) {
        trim_start_spec(s.drop_first())
    } else {
        s
    }
}

/// `s` with whitespace removed on both sides, as `str::trim` does.
pub open spec fn trim_spec(s: Seq<char>) -> Seq<char> {
    trim_start_spec(trim_end_spec(s))
}

/// `s` begins with `p`.
pub open spec fn starts_with_seq(s: Seq<char>, p: Seq<char>) -> bool {
    p.len() <= s.len() && s.subrange(0, p.len() as int) == p
}

/// `s` ends with `p`.
pub open spec fn ends_with_seq(s: Seq<char>, p: Seq<char>) -> bool {
    p.len() <= s.len() && s.subrange(s.len() - p.len(), s.len() as int) == p
}

/// `p` occurs contiguously somewhere in `s`.
pub open spec fn contains_seq(s: Seq<char>, p: Seq<char>) -> bool {
    exists|i: int|
        0 <= i && i + p.len() <= s.len() && #[trigger] s.subrange(i, i + p.len()) == p
}

/// Index just before which the trailing whitespace of `v[lo..hi]` starts.
pub fn trim_end_range(v: &Vec<char>, lo: usize, hi: usize) -> (r: usize)
    requires
        lo <= hi <= v@.len(),
    ensures
        lo <= r <= hi,
        v@.subrange(lo as int, r as int) == trim_end_spec(v@.subrange(lo as int, hi as int)),
{
    let mut r: usize = hi;
    while r > lo && is_space_char(v[r - 1])
        invariant
            lo <= r <= hi <= v@.len(),
            trim_end_spec(v@.subrange(lo as int, r as int)) == trim_end_spec(
                v@.subrange(lo as int, hi as int),
            ),
        decreases r,
    {
        proof {
            assert(v@.subrange(lo as int, r as int).drop_last() =~= v@.subrange(
                lo as int,
                r - 1,
            ));
        }
        r = r - 1;
    }
    proof {
        if r > lo {
            assert(trim_end_spec(v@.subrange(lo as int, r as int)) == v@.subrange(
                lo as int,
                r as int,
            ));
        } else {
            assert(v@.subrange(lo as int, r as int) =~= Seq::<char>::empty());
        }
    }
    r
}

/// Index at which `v[lo..hi]` continues after its leading whitespace.
pub fn trim_start_range(v: &Vec<char>, lo: usize, hi: usize) -> (r: usize)
    requires
        lo <= hi <= v@.len(),
    ensures
        lo <= r <= hi,
        v@.subrange(r as int, hi as int) == trim_start_spec(v@.subrange(lo as int, hi as int)),
{
    let mut r: usize = lo;
    while r < hi && is_space_char(v[r])
        invariant
            lo <= r <= hi <= v@.len(),
            trim_start_spec(v@.subrange(r as int, hi as int)) == trim_start_spec(
                v@.subrange(lo as int, hi as int),
            ),
        decreases hi - r,
    {
        proof {
            assert(v@.subrange(r as int, hi as int).drop_first() =~= v@.subrange(
                r + 1,
                hi as int,
            ));
        }
        r = r + 1;
    }
    proof {
        if r < hi {
            assert(trim_start_spec(v@.subrange(r as int, hi as int)) == v@.subrange(
                r as int,
                hi as int,
            ));
        } else {
            assert(v@.subrange(r as int, hi as int) =~= Seq::<char>::empty());
        }
    }
    r
}

/// Does `v[lo..hi]` begin with `p`?
pub fn range_starts_with(v: &Vec<char>, lo: usize, hi: usize, p: &Vec<char>) -> (r: bool)
    requires
        lo <= hi <= v@.len(),
    ensures
        r == starts_with_seq(v@.subrange(lo as int, hi as int), p@),
{
    if hi - lo < p.len() {
        return false;
    }
    let mut i: usize = 0;
    while i < p.len()
        invariant
            lo <= hi <= v@.len(),
            p@.len() <= hi - lo,
            0 <= i <= p@.len(),
            forall|j: int| 0 <= j < i ==> v@.subrange(lo as int, hi as int)[j] == p@[j],
        decreases p@.len() - i,
    {
        if v[lo + i] != p[i] {
            proof {
                assert(v@.subrange(lo as int, hi as int)[i as int] != p@[i as int]);
            }
            return false;
        }
        i = i + 1;
    }
    proof {
        assert(v@.subrange(lo as int, hi as int).subrange(0, p@.len() as int) =~= p@);
    }
    true
}

/// Does `v[lo..hi]` end with `p`?
pub fn range_ends_with(v: &Vec<char>, lo: usize, hi: usize, p: &Vec<char>) -> (r: bool)
    requires
        lo <= hi <= v@.len(),
    ensures
        r == ends_with_seq(v@.subrange(lo as int, hi as int), p@),
{
    if hi - lo < p.len() {
        return false;
    }
    let base: usize = hi - p.len();
    let mut i: usize = 0;
    while i < p.len()
        invariant
            lo <= hi <= v@.len(),
            p@.len() <= hi - lo,
            base == hi - p@.len(),
            0 <= i <= p@.len(),
            forall|j: int| 0 <= j < i ==> v@[base + j] == p@[j],
        decreases p@.len() - i,
    {
        if v[base + i] != p[i] {
            proof {
                let s = v@.subrange(lo as int, hi as int);
                assert(s.subrange(s.len() - p@.len(), s.len() as int)[i as int] == v@[base + i]);
            }
            return false;
        }
        i = i + 1;
    }
    proof {
        let s = v@.subrange(lo as int, hi as int);
        assert(s.subrange(s.len() - p@.len(), s.len() as int) =~= p@);
    }
    true
}

/// First position of `c` in `v[lo..hi]`, if any.
pub fn find_char_in_range(v: &Vec<char>, lo: usize, hi: usize, c: char) -> (r: Option<usize>)
    requires
        lo <= hi <= v@.len(),
    ensures
        match r {
            Some(i) => lo <= i < hi && v@[i as int] == c && forall|j: int|
                lo <= j < i ==> v@[j] != c,
            None => forall|j: int| lo <= j < hi ==> v@[j] != c,
        },
{
    let mut i: usize = lo;
    while i < hi
        invariant
            lo <= i <= hi <= v@.len(),
            forall|j: int| lo <= j < i ==> v@[j] != c,
        decreases hi - i,
    {
        if v[i] == c {
            return Some(i);
        }
        i = i + 1;
    }
    None
}

/// Number of copies of `c` at the start of `v[lo..hi]`.
pub fn count_leading_char(v: &Vec<char>, lo: usize, hi: usize, c: char) -> (r: usize)
    requires
        lo <= hi <= v@.len(),
    ensures
        lo <= r <= hi,
        forall|j: int| lo <= j < r ==> v@[j] == c,
        r < hi ==> v@[r as int] != c,
{
    let mut i: usize = lo;
    while i < hi && v[i] == c
        invariant
            lo <= i <= hi <= v@.len(),
            forall|j: int| lo <= j < i ==> v@[j] == c,
        decreases hi - i,
    {
        i = i + 1;
    }
    i
}

/// A fresh vector holding `v[lo..hi]`.
pub fn copy_range(v: &Vec<char>, lo: usize, hi: usize) -> (r: Vec<char>)
    requires
        lo <= hi <= v@.len(),
    ensures
        r@ == v@.subrange(lo as int, hi as int),
{
    let mut r: Vec<char> = Vec::new();
    let mut i: usize = lo;
    while i < hi
        invariant
            lo <= i <= hi <= v@.len(),
            r@ == v@.subrange(lo as int, i as int),
        decreases hi - i,
    {
        r.push(v[i]);
        proof {
            assert(v@.subrange(lo as int, i + 1) =~= v@.subrange(lo as int, i as int).push(
                v@[i as int],
            ));
        }
        i = i + 1;
    }
    r
}

/// Does `s` contain `p` as a contiguous run?
pub fn vec_contains(s: &Vec<char>, p: &Vec<char>) -> (r: bool)
    ensures
        r == contains_seq(s@, p@),
{
    if p.len() > s.len() {
        return false;
    }
    let mut i: usize = 0;
    while i <= s.len() - p.len()
        invariant
            p@.len() <= s@.len(),
            s@.len() <= usize::MAX,
            0 <= i <= s@.len() - p@.len() + 1,
            forall|k: int|
                0 <= k < i ==> #[trigger] s@.subrange(k, k + p@.len()) != p@,
        decreases s@.len() - p@.len() + 1 - i,
    {
        let mut j: usize = 0;
        let mut found: bool = true;
        while j < p.len()
            invariant
                p@.len() <= s@.len(),
                s@.len() <= usize::MAX,
                0 <= i <= s@.len() - p@.len(),
                0 <= j <= p@.len(),
                found == (forall|k: int| 0 <= k < j ==> s@[i + k] == p@[k]),
            decreases p@.len() - j,
        {
            if s[i + j] != p[j] {
                found = false;
                proof {
                    assert(s@[i + j] != p@[j as int]);
                }
                j = p.len();
            } else {
                j = j + 1;
            }
        }
        if found {
            proof {
                assert(s@.subrange(i as int, i + p@.len()) =~= p@);
            }
            return true;
        }
        proof {
            assert(s@.subrange(i as int, i + p@.len()) != p@) by {
                assert(exists|k: int|
                    0 <= k < p@.len() && s@[i + k] != p@[k]);
                let k = choose|k: int| 0 <= k < p@.len() && s@[i + k] != p@[k];
                assert(s@.subrange(i as int, i + p@.len())[k] == s@[i + k]);
            }
        }
        i = i + 1;
    }
    false
}

/// Relies on `str::chars`: the iterator yields exactly the characters of
/// `s`, in order (the view of a `str` is that character sequence).
#[verifier::external_body]
pub fn str_to_chars(s: &str) -> (r: Vec<char>)
    ensures
        r@ == s@,
{
    s.chars().collect()
}

/// Relies on `String`'s `FromIterator<char>` implementation: collecting
/// the characters of `v` yields the string with exactly those characters.
#[verifier::external_body]
pub fn chars_to_string(v: &Vec<char>) -> (r: String)
    ensures
        r@ == v@,
{
    v.iter().collect()
}

} // verus!
