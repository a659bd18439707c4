//! Telling from the power manager's report whether the user is in a
//! meeting: a browser that keeps the display awake is taken for a call.

use vstd::prelude::*;
use vstd::string::*;

verus! {

/// Whether `needle` stands in `hay` at the position `i`.
pub open spec fn occurs_at(hay: Seq<u8>, needle: Seq<u8>, i: int) -> bool {
    0 <= i && i + needle.len() <= hay.len() && hay.subrange(i, i + needle.len()) == needle
}

/// Whether `needle` stands somewhere in `hay`.
pub open spec fn mentions(hay: Seq<u8>, needle: Seq<u8>) -> bool {
    exists|i: int| occurs_at(hay, needle, i)
}

/// The bytes that name the browser in the report.
pub open spec fn browser() -> Seq<u8> {
    "Google Chrome".spec_bytes()
}

/// Whether `needle` stands in `hay` at the position `i`.
fn found_at(hay: &[u8], needle: &[u8], i: usize) -> (b: bool)
    requires
        i + needle@.len() <= hay@.len(),
    ensures
        b == occurs_at(hay@, needle@, i as int),
{
    let n = needle.len();
    let h = hay.len();
    let mut j: usize = 0;
    while j < n
        invariant
            n == needle@.len(),
            h == hay@.len(),
            i + n <= h,
            j <= n,
            forall|k: int| 0 <= k < j ==> hay@[i + k] == needle@[k],
        decreases n - j,
    {
        if hay[i + j] != needle[j] {
            assert(hay@.subrange(i as int, i + n)[j as int] != needle@[j as int]);
            return false;
        }
        j += 1;
    }
    assert(hay@.subrange(i as int, i + n) =~= needle@);
    true
}

/// Whether `needle` stands somewhere in `hay`.
pub fn contains(hay: &[u8], needle: &[u8]) -> (b: bool)
    ensures
        b == mentions(hay@, needle@),
{
    let n = needle.len();
    if n == 0 {
        assert(hay@.subrange(0, 0) =~= needle@);
        assert(occurs_at(hay@, needle@, 0));
        return true;
    }
    if hay.len() < n {
        return false;
    }
    let last = hay.len() - n;
    let mut i: usize = 0;
    while i <= last
        invariant
            n == needle@.len(),
            n > 0,
            last + n == hay@.len(),
            hay@.len() <= usize::MAX,
            i <= last + 1,
            forall|k: int| 0 <= k < i ==> !occurs_at(hay@, needle@, k),
        decreases last + 1 - i,
    {
        if found_at(hay, needle, i) {
            return true;
        }
        i += 1;
    }
    false
}

/// Whether the power manager's report `output` shows the user in a meeting.
pub fn am_in_meet(output: &[u8]) -> (b: bool)
    ensures
        b == mentions(output@, browser()),
{
    contains(output, "Google Chrome".as_bytes())
}

/// Whether the user is in a meeting, given the power manager's report if
/// one could be had. Without a report the user counts as not in a meeting.
pub fn in_meeting(output: Option<&[u8]>) -> (b: bool)
    ensures
        b == (output matches Some(o) && mentions(o@, browser())),
{
    match output {
        Some(o) => am_in_meet(o),
        None => false,
    }
}

} // verus!
