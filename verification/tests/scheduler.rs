use breaks::rules::{Break, Config};
use breaks::scheduler::{Presentation, State, Status, TickError};
use breaks::time::{Duration, Instant};

fn secs(n: u64) -> Duration {
    Duration::from_secs(n)
}

fn at(n: u64) -> Instant {
    Instant::from_secs(n)
}

fn minutes(n: u64) -> Duration {
    Duration::from_secs(n * 60)
}

fn last_done(state: &State) -> Vec<u64> {
    state.breaks.iter().map(|b| b.last_done.as_secs()).collect()
}

#[test]
fn new_state() {
    let state = State::new(Config::default(), at(1000));
    assert_eq!(state.status, Status::WorkingSince(at(1000)));
    assert_eq!(state.screen_time, secs(0));
    assert_eq!(state.last_prompt, at(1000));
    assert_eq!(state.am_prompting, None);
    assert_eq!(state.status_report, "");
    assert_eq!(state.latest_update, "");
    assert!(!state.am_emphasizing);
    assert_eq!(state.breaks.len(), 2);
    assert_eq!(state.breaks[0].prompt, "Time for a 7-minute exercise");
    assert_eq!(state.breaks[1].after, secs(4 * 3600 + 60));
    assert_eq!(last_done(&state), vec![0, 0]);
    assert_eq!(state.config.workday, secs(8 * 3600));
}

#[test]
fn idle_transition() {
    let mut state = State::new(Config::default(), at(1000));
    let spoken = state.update(minutes(11), false, at(1000 + 3600));
    assert_eq!(spoken, None);
    assert_eq!(state.status, Status::IdleSince(at(4600 - 660)));
    assert_eq!(state.screen_time, secs(3600 - 660));
    assert_eq!(state.status_report, "After working 49 minutes you are now AFK!");
    assert_eq!(state.latest_update, "");
    assert_eq!(state.am_prompting, None);
}

#[test]
fn idle_transition_needs_more_than_the_threshold() {
    let mut state = State::new(Config::default(), at(1000));
    state.update(minutes(10), false, at(1000 + 3600));
    assert_eq!(state.status, Status::WorkingSince(at(1000)));
    assert_eq!(state.screen_time, secs(0));
    assert_eq!(state.latest_update, "You've been working for 1 hour");
    state.update(secs(601), false, at(1000 + 3600));
    assert_eq!(state.status, Status::IdleSince(at(4600 - 601)));
}

#[test]
fn idle_transition_adds_to_earlier_screen_time() {
    let mut state = State::new(Config::default(), at(1000));
    state.screen_time = secs(7200);
    state.update(minutes(20), false, at(1000 + 3600));
    assert_eq!(state.screen_time, secs(7200 + 2400));
    assert_eq!(state.status_report, "After working 2:40 you are now AFK!");
}

#[test]
fn idle_sample_longer_than_the_stretch_of_work() {
    let mut state = State::new(Config::default(), at(1000));
    // Idle since before the stretch began: nothing is added.
    state.update(minutes(30), false, at(1000 + 600));
    assert_eq!(state.status, Status::IdleSince(at(0)));
    assert_eq!(state.screen_time, secs(0));
    assert_eq!(state.status_report, "After working 0 minutes you are now AFK!");
}

#[test]
fn a_meeting_keeps_the_user_at_work() {
    let mut state = State::new(Config::default(), at(1000));
    let spoken = state.update(minutes(11), true, at(1000 + 3600));
    assert_eq!(spoken, None);
    assert_eq!(state.status, Status::WorkingSince(at(1000)));
    assert_eq!(state.screen_time, secs(0));
    assert_eq!(state.status_report, "");
    assert_eq!(state.latest_update, "You've been working for 1 hour");
}

#[test]
fn resume_after_a_break() {
    let mut state = State::new(Config::default(), at(1000));
    state.update(minutes(11), false, at(4600));
    assert_eq!(state.status, Status::IdleSince(at(3940)));
    // Still away: the idle time began where the status began.
    state.update(minutes(16), false, at(4900));
    assert_eq!(state.status, Status::IdleSince(at(3940)));
    assert_eq!(state.latest_update, "You've been idle for 16 minutes");
    // Back at the desk at 4640: the last input is only just ago.
    let spoken = state.update(secs(0), false, at(4640));
    assert_eq!(spoken, None);
    assert_eq!(state.status, Status::WorkingSince(at(4640)));
    assert_eq!(state.status_report, "You resumed working after a 11 minutes break.");
    assert_eq!(state.screen_time, secs(2940));
}

#[test]
fn short_absence_is_no_resume() {
    let mut state = State::new(Config::default(), at(1000));
    state.update(minutes(11), false, at(4600));
    state.update(secs(0), false, at(3940 + 600));
    assert_eq!(state.status, Status::IdleSince(at(3940)));
    assert_eq!(state.latest_update, "You've been idle for 0 minutes");
    state.update(secs(0), false, at(3940 + 601));
    assert_eq!(state.status, Status::WorkingSince(at(3940 + 601)));
}

#[test]
fn day_reset() {
    let mut state = State::new(Config::default(), at(1000));
    state.breaks[0].last_done = secs(500);
    state.breaks[1].last_done = secs(900);
    state.update(minutes(11), false, at(4600));
    assert_eq!(state.screen_time, secs(2940));
    let spoken = state.update(secs(7 * 3600 + 1), false, at(3940 + 7 * 3600 + 1));
    assert_eq!(spoken, None);
    assert_eq!(state.screen_time, secs(0));
    assert_eq!(last_done(&state), vec![0, 0]);
    assert_eq!(state.breaks[0].prompt, "Time for a 7-minute exercise");
    assert_eq!(state.breaks[0].after, secs(3 * 3600));
    assert_eq!(state.breaks[1].after, secs(4 * 3600 + 60));
    assert_eq!(state.status, Status::IdleSince(at(3940)));
    assert_eq!(state.status_report, "I think it is a new day.  Resetting.");
}

#[test]
fn no_day_reset_without_screen_time_or_before_the_threshold() {
    let mut state = State::new(Config::default(), at(1000));
    state.status = Status::IdleSince(at(1000));
    state.breaks[0].last_done = secs(500);
    state.update(secs(7 * 3600 + 1), false, at(1000 + 7 * 3600 + 1));
    assert_eq!(last_done(&state), vec![500, 0]);
    assert_eq!(state.status_report, "");
    assert_eq!(state.latest_update, "You've been idle for 7 hours");

    state.screen_time = secs(60);
    state.update(secs(7 * 3600), false, at(1000 + 7 * 3600));
    assert_eq!(state.screen_time, secs(60));
    assert_eq!(last_done(&state), vec![500, 0]);
}

#[test]
fn coming_back_goes_before_the_day_reset() {
    let mut state = State::new(Config::default(), at(0));
    state.status = Status::IdleSince(at(0));
    state.screen_time = secs(60);
    state.breaks[0].last_done = secs(500);
    // Idle for eight hours, but only since long after the status began.
    state.update(secs(8 * 3600), false, at(100_000));
    assert_eq!(state.status, Status::WorkingSince(at(100_000 - 8 * 3600)));
    assert_eq!(state.screen_time, secs(60));
    assert_eq!(last_done(&state), vec![500, 0]);
    assert_eq!(state.status_report, "You resumed working after a 19:46 break.");
}

#[test]
fn end_of_day_prompt_and_its_cooldown() {
    let mut state = State::new(Config::default(), at(0));
    state.screen_time = secs(8 * 3600);
    // Over the workday, but the last prompt is not more than six minutes ago.
    let spoken = state.update(secs(0), false, at(360));
    assert_eq!(spoken, None);
    assert_eq!(state.am_prompting, None);
    assert_eq!(state.latest_update, "You've been working for 8:06");

    let spoken = state.update(secs(0), false, at(361));
    assert_eq!(spoken, Some("End of day after 8:06".to_string()));
    assert_eq!(state.am_prompting, Some("End of day after 8:06".to_string()));
    assert_eq!(state.last_prompt, at(361));
    assert_eq!(state.latest_update, "You've been working for 8:06");

    // Still over the workday: nothing until the cooldown has passed.
    let spoken = state.update(secs(0), false, at(371));
    assert_eq!(spoken, None);
    assert_eq!(state.last_prompt, at(361));
    let spoken = state.update(secs(0), false, at(361 + 360));
    assert_eq!(spoken, None);
    assert_eq!(state.am_prompting, Some("End of day after 8:06".to_string()));

    // Then it comes again, though the first still waits.
    let spoken = state.update(secs(0), false, at(361 + 361));
    assert_eq!(spoken, Some("End of day after 8:12".to_string()));
    assert_eq!(state.am_prompting, Some("End of day after 8:12".to_string()));
    assert_eq!(state.last_prompt, at(722));
}

#[test]
fn end_of_day_needs_more_than_the_workday() {
    let mut state = State::new(Config::default(), at(0));
    state.screen_time = secs(8 * 3600 - 400);
    let spoken = state.update(secs(0), false, at(400));
    assert_eq!(spoken, None);
    let spoken = state.update(secs(0), false, at(401));
    assert_eq!(spoken, Some("End of day after 8 hours".to_string()));
}

#[test]
fn break_is_postponed_then_taken() {
    let mut state = State::new(Config::default(), at(0));
    state.screen_time = secs(3 * 3600);
    // Three hours and 100 seconds of work, 100 seconds after the last prompt.
    let spoken = state.update(secs(0), false, at(100));
    assert_eq!(spoken, None);
    assert_eq!(state.am_prompting, None);
    assert_eq!(
        state.status_report,
        "Postponing Time for a 7-minute exercise for 3 minutes."
    );
    assert_eq!(last_done(&state), vec![0, 0]);
    assert_eq!(state.last_prompt, at(0));
    assert_eq!(state.latest_update, "You've been working for 3:01");

    let spoken = state.update(secs(0), false, at(300));
    assert_eq!(spoken, Some("Time for a 7-minute exercise".to_string()));
    assert_eq!(state.am_prompting, Some("Time for a 7-minute exercise".to_string()));
    assert_eq!(last_done(&state), vec![3 * 3600 + 300, 0]);
    assert_eq!(state.last_prompt, at(300));
    assert_eq!(
        state.status_report,
        "Postponing Time for a 7-minute exercise for 3 minutes."
    );
    assert_eq!(state.latest_update, "You've been working for 3:05");
}

#[test]
fn no_break_while_a_prompt_waits_or_in_the_middle_of_work() {
    let mut state = State::new(Config::default(), at(0));
    state.screen_time = secs(4 * 3600);
    state.last_prompt = at(0);
    // Ten minutes into the stretch: neither just started nor a good chunk.
    let spoken = state.update(secs(0), false, at(600));
    assert_eq!(spoken, None);
    assert_eq!(last_done(&state), vec![0, 0]);
    assert_eq!(state.status_report, "");
    // A good chunk of work, but in a meeting.
    let spoken = state.update(secs(0), true, at(1801));
    assert_eq!(spoken, None);
    assert_eq!(state.status_report, "");
    // A good chunk of work, but a prompt waits.
    state.am_prompting = Some("Earlier".to_string());
    let spoken = state.update(secs(0), false, at(1801));
    assert_eq!(spoken, None);
    assert_eq!(state.am_prompting, Some("Earlier".to_string()));
    assert_eq!(last_done(&state), vec![0, 0]);
    // Once it is gone the rule is taken.
    state.am_prompting = None;
    let spoken = state.update(secs(0), false, at(1801));
    assert_eq!(spoken, Some("Time for a 7-minute exercise".to_string()));
    assert_eq!(last_done(&state), vec![4 * 3600 + 1801, 0]);
}

#[test]
fn second_rule_waits_for_the_cooldown() {
    let mut state = State::new(Config::default(), at(0));
    state.screen_time = secs(5 * 3600);
    let spoken = state.update(secs(0), false, at(300));
    assert_eq!(spoken, Some("Time for a 7-minute exercise".to_string()));
    assert_eq!(last_done(&state), vec![5 * 3600 + 300, 0]);
    assert_eq!(state.status_report, "Postponing Switch to standing desk for 5 minutes.");
    assert_eq!(state.last_prompt, at(300));
}

#[test]
fn last_rule_taken_wins() {
    let mut config = Config::default();
    config.minimum_time_between_breaks = secs(0);
    let mut state = State::new(config, at(0));
    state.screen_time = secs(5 * 3600);
    let spoken = state.update(secs(0), false, at(10));
    assert_eq!(spoken, Some("Switch to standing desk".to_string()));
    assert_eq!(state.am_prompting, Some("Switch to standing desk".to_string()));
    assert_eq!(last_done(&state), vec![5 * 3600 + 10, 5 * 3600 + 10]);
    assert_eq!(state.last_prompt, at(10));
    assert_eq!(state.status_report, "");
}

#[test]
fn evaluate_breaks_reports_why_a_rule_is_put_off() {
    let mut config = Config::default();
    config.breaks = vec![
        Break::new("Tea", secs(10)),
        Break::new("Walk", secs(1000)),
        Break::new("Water", secs(20)),
    ];
    let mut state = State::new(config, at(0));

    let taken = state.evaluate_breaks(secs(500), true, at(5000));
    assert_eq!(taken, None);
    assert_eq!(state.status_report, "Postponing Water while you meet.");
    assert_eq!(last_done(&state), vec![0, 0, 0]);
    assert_eq!(state.last_prompt, at(0));

    state.am_prompting = Some("Earlier".to_string());
    let taken = state.evaluate_breaks(secs(15), false, at(5000));
    assert_eq!(taken, None);
    assert_eq!(state.status_report, "Postponing Tea, see above.");
    assert_eq!(state.am_prompting, Some("Earlier".to_string()));

    state.am_prompting = None;
    let taken = state.evaluate_breaks(secs(15), false, at(5000));
    assert_eq!(taken, Some("Tea".to_string()));
    assert_eq!(last_done(&state), vec![15, 0, 0]);
    assert_eq!(state.last_prompt, at(5000));
    assert_eq!(state.am_prompting, None);
    assert_eq!(state.status_report, "Postponing Tea, see above.");

    // Nothing fires: nothing changes.
    let taken = state.evaluate_breaks(secs(20), false, at(9000));
    assert_eq!(taken, None);
    assert_eq!(last_done(&state), vec![15, 0, 0]);
    assert_eq!(state.last_prompt, at(5000));

    // The first is taken, the third is too soon after it.
    let taken = state.evaluate_breaks(secs(26), false, at(9000));
    assert_eq!(taken, Some("Tea".to_string()));
    assert_eq!(last_done(&state), vec![26, 0, 0]);
    assert_eq!(state.status_report, "Postponing Water for 5 minutes.");
}

#[test]
fn cooldown_report_names_the_wait() {
    let mut config = Config::default();
    config.minimum_time_between_breaks = secs(2 * 3600);
    config.breaks = vec![Break::new("Tea", secs(10))];
    let mut state = State::new(config, at(1000));
    let taken = state.evaluate_breaks(secs(11), false, at(1000 + 1800));
    assert_eq!(taken, None);
    assert_eq!(state.status_report, "Postponing Tea for 1:30.");
    let taken = state.evaluate_breaks(secs(11), false, at(1000 + 7200));
    assert_eq!(taken, Some("Tea".to_string()));
}

#[test]
fn acknowledge_clears_the_prompt() {
    let mut state = State::new(Config::default(), at(0));
    state.prompt("Stretch".to_string());
    state.am_emphasizing = true;
    assert_eq!(state.am_prompting, Some("Stretch".to_string()));
    assert!(state.acknowledge());
    assert_eq!(state.am_prompting, None);
    assert!(!state.am_emphasizing);
    assert_eq!(state.status_report, "Well done with the Stretch!");

    state.am_emphasizing = true;
    assert!(!state.acknowledge());
    assert!(!state.am_emphasizing);
    assert_eq!(state.status_report, "Well done with the Stretch!");
}

#[test]
fn announce_repeats_the_waiting_prompt() {
    let mut state = State::new(Config::default(), at(0));
    assert_eq!(state.announce(), None);
    state.prompt("Stretch".to_string());
    assert_eq!(state.announce(), Some("Stretch".to_string()));
    assert_eq!(state.am_prompting, Some("Stretch".to_string()));
}

#[test]
fn presentation_escalates_after_a_while() {
    let mut state = State::new(Config::default(), at(300));
    let quiet = Presentation { show_window: false, hide_others: false, announce: false };
    assert_eq!(state.present(at(10_000)), quiet);
    assert_eq!(state.last_prompt, at(300));

    state.prompt("Stretch".to_string());
    assert_eq!(
        state.present(at(420)),
        Presentation { show_window: true, hide_others: false, announce: false }
    );
    assert_eq!(state.last_prompt, at(300));
    assert_eq!(
        state.present(at(421)),
        Presentation { show_window: true, hide_others: true, announce: false }
    );
    assert_eq!(state.last_prompt, at(421));
    state.am_emphasizing = true;
    assert_eq!(
        state.present(at(430)),
        Presentation { show_window: true, hide_others: false, announce: true }
    );
    assert_eq!(state.last_prompt, at(421));
}

#[test]
fn can_tick_tells_when_the_work_fits() {
    let mut state = State::new(Config::default(), at(0));
    assert!(state.can_tick(secs(0), false, at(1_700_000_000)));
    state.screen_time = secs(u64::MAX - 10);
    assert!(state.can_tick(secs(0), false, at(10)));
    assert!(!state.can_tick(secs(0), false, at(11)));
    // When the stretch of work ends, only the part before the idle time counts.
    assert!(state.can_tick(secs(700), false, at(710)));
    assert!(!state.can_tick(secs(700), false, at(711)));
    // Where no sum is stored, nothing has to fit.
    assert!(state.can_tick(secs(700), true, at(710)));
    assert!(state.can_tick(secs(0), false, at(1000)));
    state.am_prompting = Some("Earlier".to_string());
    assert!(state.can_tick(secs(0), false, at(11)));
    state.am_prompting = None;
    assert!(state.can_tick(secs(700), false, at(5)));
    state.status = Status::IdleSince(at(0));
    assert!(state.can_tick(secs(0), false, at(11)));
}

#[test]
fn a_tick_at_the_limit_of_the_integers() {
    let mut state = State::new(Config::default(), at(0));
    state.screen_time = secs(u64::MAX - 10);
    state.update(secs(700), false, at(710));
    assert_eq!(state.screen_time, secs(u64::MAX));
    assert_eq!(state.status, Status::IdleSince(at(10)));
}

#[test]
fn tick_without_a_sample_changes_nothing() {
    let mut state = State::new(Config::default(), at(1000));
    state.screen_time = secs(8 * 3600);
    let r = state.tick(None, false, at(5000));
    assert_eq!(r, Err(TickError::NoSample));
    assert_eq!(state.status, Status::WorkingSince(at(1000)));
    assert_eq!(state.screen_time, secs(8 * 3600));
    assert_eq!(state.am_prompting, None);
    assert_eq!(state.latest_update, "");
    assert_eq!(state.last_prompt, at(1000));
}

#[test]
fn tick_that_does_not_fit_changes_nothing() {
    let mut state = State::new(Config::default(), at(0));
    state.screen_time = secs(u64::MAX - 10);
    let r = state.tick(Some(secs(0)), false, at(11));
    assert_eq!(r, Err(TickError::TooLong));
    assert_eq!(state.screen_time, secs(u64::MAX - 10));
    assert_eq!(state.status, Status::WorkingSince(at(0)));
    assert_eq!(state.latest_update, "");
}

#[test]
fn tick_with_a_sample_is_an_update() {
    let mut state = State::new(Config::default(), at(1000));
    let r = state.tick(Some(minutes(11)), false, at(4600));
    assert_eq!(r, Ok(None));
    assert_eq!(state.status, Status::IdleSince(at(3940)));
    assert_eq!(state.screen_time, secs(2940));

    let mut state = State::new(Config::default(), at(0));
    state.screen_time = secs(8 * 3600);
    let r = state.tick(Some(secs(0)), false, at(361));
    assert_eq!(r, Ok(Some("End of day after 8:06".to_string())));
    assert_eq!(state.last_prompt, at(361));
}

#[test]
fn work_beyond_the_integers_is_still_told() {
    let mut state = State::new(Config::default(), at(0));
    state.screen_time = secs(u64::MAX - 10);
    let spoken = state.update(secs(0), false, at(1000));
    assert_eq!(spoken, Some("End of day after 5124095576030431:16".to_string()));
    assert_eq!(state.latest_update, "You've been working for 5124095576030431:16");
    assert_eq!(state.last_prompt, at(1000));
    assert_eq!(state.screen_time, secs(u64::MAX - 10));
    let spoken = state.update(secs(0), false, at(1060));
    assert_eq!(spoken, None);
    assert_eq!(state.latest_update, "You've been working for 5124095576030431:17");
}
