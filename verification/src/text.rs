//! Character sequences: the few text operations that the duration codec is
//! built from, each with its meaning on `Seq<char>`.

use vstd::prelude::*;
use vstd::string::*;

verus! {

/// Whether `c` is Unicode white space (the code points with the property
/// `White_Space`).
pub open spec fn is_whitespace(c: char) -> bool {
    let u = c as u32;
    ||| 0x09 <= u <= 0x0D
    ||| u == 0x20
    ||| u == 0x85
    ||| u == 0xA0
    ||| u == 0x1680
    ||| 0x2000 <= u <= 0x200A
    ||| u == 0x2028
    ||| u == 0x2029
    ||| u == 0x202F
    ||| u == 0x205F
    ||| u == 0x3000
}

/// `s` without its leading white space.
pub open spec fn trim_start(s: Seq<char>) -> Seq<char>
    decreases s.len(),
{
    if s.len() > 0 && is_whitespace(s[0]) {
        trim_start(s.drop_first())
    } else {
        s
    }
}

/// `s` without its trailing white space.
pub open spec fn trim_end(s: Seq<char>) -> Seq<char>
    decreases s.len(),
{
    if s.len() > 0 && is_whitespace(s.last()) {
        trim_end(s.drop_last())
    } else {
        s
    }
}

/// `s` without leading and trailing white space.
pub open spec fn trim(s: Seq<char>) -> Seq<char> {
    trim_end(trim_start(s))
}

/// The index of the first `c` in `s`, or `s.len()` where `s` holds none.
pub open spec fn find(s: Seq<char>, c: char) -> int
    decreases s.len(),
{
    if s.len() == 0 || s[0] == c {
        0
    } else {
        1 + find(s.drop_first(), c)
    }
}

/// `s` without the ending `suffix`, if it ends with it.
pub open spec fn strip_suffix(s: Seq<char>, suffix: Seq<char>) -> Option<Seq<char>> {
    if s.len() >= suffix.len() && s.skip(s.len() - suffix.len()) == suffix {
        Some(s.take(s.len() - suffix.len()))
    } else {
        None
    }
}

/// `find` returns the first position of `c`: nothing before it is `c`, and
/// what stands there is `c` unless the sequence ran out.
pub proof fn lemma_find(s: Seq<char>, c: char)
    ensures
        0 <= find(s, c) <= s.len(),
        forall|j: int| 0 <= j < find(s, c) ==> s[j] != c,
        find(s, c) < s.len() ==> s[find(s, c)] == c,
    decreases s.len(),
{
    if s.len() == 0 || s[0] == c {
    } else {
        let rest = s.drop_first();
        lemma_find(rest, c);
        assert forall|j: int| 0 <= j < find(s, c) implies s[j] != c by {
            if j > 0 {
                assert(s[j] == rest[j - 1]);
            }
        }
    }
}

/// A position before which nothing is `c`, and which is the end or holds
/// `c`, is the one that `find` returns.
pub proof fn lemma_find_is(s: Seq<char>, c: char, i: int)
    requires
        0 <= i <= s.len(),
        forall|j: int| 0 <= j < i ==> s[j] != c,
        i < s.len() ==> s[i] == c,
    ensures
        find(s, c) == i,
{
    lemma_find(s, c);
    let f = find(s, c);
    if f < i {
        assert(s[f] != c);
    } else if i < f {
        assert(s[i] != c);
    }
}

/// A sequence without `c` is searched to its end.
pub proof fn lemma_find_absent(s: Seq<char>, c: char)
    requires
        forall|j: int| 0 <= j < s.len() ==> s[j] != c,
    ensures
        find(s, c) == s.len(),
{
    lemma_find_is(s, c, s.len() as int);
}

/// Trimming leaves a text alone that neither begins nor ends with white
/// space.
pub proof fn lemma_trim_plain(s: Seq<char>)
    requires
        s.len() > 0,
        !is_whitespace(s[0]),
        !is_whitespace(s.last()),
    ensures
        trim(s) == s,
{
}

/// Trimming removes one white space character at the end.
pub proof fn lemma_trim_end_one(s: Seq<char>, c: char)
    requires
        s.len() > 0,
        !is_whitespace(s[0]),
        !is_whitespace(s.last()),
        is_whitespace(c),
    ensures
        trim(s.push(c)) == s,
{
    let t = s.push(c);
    assert(t[0] == s[0]);
    assert(trim_start(t) == t);
    assert(t.drop_last() =~= s);
    assert(trim_end(t) == trim_end(s));
}

/// A text that ends with `suffix` is stripped of it.
pub proof fn lemma_strip_suffix(a: Seq<char>, suffix: Seq<char>)
    ensures
        strip_suffix(a + suffix, suffix) == Some(a),
{
    let s = a + suffix;
    assert(s.skip(s.len() - suffix.len()) =~= suffix);
    assert(s.take(s.len() - suffix.len()) =~= a);
}

/// A text that differs from `suffix` somewhere in its last characters does
/// not end with it.
pub proof fn lemma_not_suffix(s: Seq<char>, suffix: Seq<char>, j: int)
    requires
        suffix.len() <= s.len(),
        0 <= j < suffix.len(),
        s[s.len() - suffix.len() + j] != suffix[j],
    ensures
        strip_suffix(s, suffix) is None,
{
    assert(s.skip(s.len() - suffix.len())[j] != suffix[j]);
}

/// Whether `c` is Unicode white space.
pub fn char_is_whitespace(c: char) -> (b: bool)
    ensures
        b == is_whitespace(c),
{
    let u: u32 = c as u32;
    (0x09 <= u && u <= 0x0D) || u == 0x20 || u == 0x85 || u == 0xA0 || u == 0x1680 || (0x2000 <= u
        && u <= 0x200A) || u == 0x2028 || u == 0x2029 || u == 0x202F || u == 0x205F || u == 0x3000
}

/// The characters of `s`.
pub fn chars_of(s: &str) -> (v: Vec<char>)
    ensures
        v@ == s@,
{
    let n = s.unicode_len();
    let mut v: Vec<char> = Vec::new();
    let mut i: usize = 0;
    while i < n
        invariant
            n == s@.len(),
            i <= n,
            v@ == s@.take(i as int),
        decreases n - i,
    {
        v.push(s.get_char(i));
        i += 1;
    }
    v
}

/// The characters of `v` from `lo` up to `hi`.
pub fn slice_of(v: &Vec<char>, lo: usize, hi: usize) -> (r: Vec<char>)
    requires
        lo <= hi <= v.len(),
    ensures
        r@ == v@.subrange(lo as int, hi as int),
{
    let mut r: Vec<char> = Vec::new();
    let mut i: usize = lo;
    while i < hi
        invariant
            lo <= i <= hi <= v.len(),
            r@ == v@.subrange(lo as int, i as int),
        decreases hi - i,
    {
        r.push(v[i]);
        i += 1;
    }
    r
}

/// The index of the first `c` in `v`, or `v.len()` where there is none.
pub fn find_char(v: &Vec<char>, c: char) -> (i: usize)
    ensures
        i == find(v@, c),
        i <= v.len(),
{
    let mut i: usize = 0;
    while i < v.len() && v[i] != c
        invariant
            i <= v.len(),
            forall|j: int| 0 <= j < i ==> v@[j] != c,
        decreases v.len() - i,
    {
        i += 1;
    }
    proof {
        lemma_find_is(v@, c, i as int);
    }
    i
}

/// `v` without leading and trailing white space.
pub fn trimmed(v: &Vec<char>) -> (r: Vec<char>)
    ensures
        r@ == trim(v@),
{
    let mut lo: usize = 0;
    assert(v@.skip(0) =~= v@);
    while lo < v.len() && char_is_whitespace(v[lo])
        invariant
            lo <= v.len(),
            trim_start(v@) == trim_start(v@.skip(lo as int)),
        decreases v.len() - lo,
    {
        assert(v@.skip(lo as int).drop_first() =~= v@.skip(lo as int + 1));
        lo += 1;
    }
    assert(trim_start(v@) == v@.skip(lo as int));
    assert(v@.skip(lo as int) =~= v@.subrange(lo as int, v.len() as int));
    let mut hi: usize = v.len();
    while hi > lo && char_is_whitespace(v[hi - 1])
        invariant
            lo <= hi <= v.len(),
            trim(v@) == trim_end(v@.subrange(lo as int, hi as int)),
        decreases hi - lo,
    {
        assert(v@.subrange(lo as int, hi as int).drop_last() =~= v@.subrange(
            lo as int,
            hi as int - 1,
        ));
        hi -= 1;
    }
    slice_of(v, lo, hi)
}

/// `v` without the ending `suffix`, if it ends with it.
pub fn strip_suffix_of(v: &Vec<char>, suffix: &str) -> (r: Option<Vec<char>>)
    ensures
        match r {
            Some(rest) => strip_suffix(v@, suffix@) == Some(rest@),
            None => strip_suffix(v@, suffix@) is None,
        },
{
    let tail = chars_of(suffix);
    let n = tail.len();
    if v.len() < n {
        return None;
    }
    let start = v.len() - n;
    let mut i: usize = 0;
    while i < n
        invariant
            n == tail.len(),
            tail@ == suffix@,
            start + n == v.len(),
            i <= n,
            forall|j: int| 0 <= j < i ==> v@[start + j] == tail@[j],
        decreases n - i,
    {
        if v[start + i] != tail[i] {
            assert(v@.skip(start as int)[i as int] != tail@[i as int]);
            return None;
        }
        i += 1;
    }
    assert(v@.skip(start as int) =~= tail@);
    let rest = slice_of(v, 0, start);
    assert(rest@ =~= v@.take(start as int));
    Some(rest)
}

} // verus!
