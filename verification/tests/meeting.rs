use breaks::meeting::{am_in_meet, contains, in_meeting};

#[test]
fn browser_in_the_report() {
    let report = b"Assertion status system-wide:\n   PreventUserIdleDisplaySleep    1\n   pid 412(Google Chrome): [0x0001] 00:12:01 NoDisplaySleepAssertion named: \"Video Wake Lock\"\n";
    assert!(am_in_meet(report));
    assert!(am_in_meet(b"Google Chrome"));
    assert!(am_in_meet(b"xGoogle Chrome"));
    assert!(am_in_meet(b"Google ChromGoogle Chrome!"));
}

#[test]
fn no_browser_in_the_report() {
    assert!(!am_in_meet(b""));
    assert!(!am_in_meet(b"Google Chrom"));
    assert!(!am_in_meet(b"google chrome"));
    assert!(!am_in_meet(b"Google  Chrome"));
    assert!(!am_in_meet(b"pid 1(Firefox): NoDisplaySleepAssertion"));
}

#[test]
fn contains_finds_any_needle() {
    assert!(contains(b"abc", b""));
    assert!(contains(b"", b""));
    assert!(contains(b"abc", b"c"));
    assert!(contains(b"abc", b"abc"));
    assert!(!contains(b"abc", b"abcd"));
    assert!(!contains(b"abc", b"ca"));
    assert!(contains(b"aab", b"ab"));
}

#[test]
fn no_report_is_no_meeting() {
    assert!(!in_meeting(None));
    assert!(!in_meeting(Some(&b""[..])));
    assert!(!in_meeting(Some(&b"pid 1(Firefox)"[..])));
    assert!(in_meeting(Some(&b"pid 412(Google Chrome): NoDisplaySleepAssertion"[..])));
}
