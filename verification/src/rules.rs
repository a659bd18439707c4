//! Reminder rules and the thresholds that a scheduler is set up with.

use vstd::prelude::*;
use vstd::string::*;
use crate::time::Duration;

verus! {

/// A reminder that comes back each time a given amount of work has been
/// done since it was last heeded.
#[derive(Debug)]
pub struct Break {
    /// What the user is told.
    pub prompt: String,
    /// The work time that must pass after `last_done` before the rule fires.
    pub after: Duration,
    /// The accumulated work time at which the rule last fired and was taken.
    pub last_done: Duration,
}

/// A reminder rule as plain values.
pub struct BreakView {
    pub prompt: Seq<char>,
    pub after: nat,
    pub last_done: nat,
}

impl View for Break {
    type V = BreakView;

    open spec fn view(&self) -> BreakView {
        BreakView { prompt: self.prompt@, after: self.after@, last_done: self.last_done@ }
    }
}

impl BreakView {
    /// Whether the rule fires once `worktime` of work has accumulated: more
    /// than `after` has been worked since `last_done`.
    pub open spec fn fires(self, worktime: nat) -> bool {
        worktime > self.after + self.last_done
    }

    /// The rule after it was taken at the work time `worktime`.
    pub open spec fn done_at(self, worktime: nat) -> BreakView {
        BreakView { last_done: worktime, ..self }
    }

    /// The rule as it was first made.
    pub open spec fn reset(self) -> BreakView {
        BreakView { last_done: 0, ..self }
    }
}

/// A rule re-arms when it is taken: marked done at the work time
/// `worktime`, it does not fire there, and fires again exactly once more
/// than `after` of further work has accumulated.
pub proof fn lemma_rearms(rule: BreakView, worktime: nat, later: nat)
    ensures
        !rule.done_at(worktime).fires(worktime),
        rule.done_at(worktime).fires(later) <==> later > worktime + rule.after,
{
}

/// The rules `breaks` as plain values.
pub open spec fn views(breaks: Seq<Break>) -> Seq<BreakView> {
    breaks.map_values(|b: Break| b@)
}

impl Clone for Break {
    fn clone(&self) -> (copy: Break)
        ensures
            copy@ == self@,
    {
        Break { prompt: self.prompt.clone(), after: self.after, last_done: self.last_done }
    }
}

impl Break {
    /// A rule that has never fired.
    pub fn new(prompt: &str, after: Duration) -> (b: Break)
        ensures
            b@.prompt == prompt@,
            b@.after == after@,
            b@.last_done == 0,
    {
        Break { prompt: String::from_str(prompt), after, last_done: Duration::from_secs(0) }
    }

    /// Whether the rule fires at the accumulated work time `worktime`.
    pub fn check(&mut self, worktime: Duration) -> (fires: bool)
        ensures
            fires == old(self)@.fires(worktime@),
            *final(self) == *old(self),
    {
        worktime.secs as u128 > self.after.secs as u128 + self.last_done.secs as u128
    }
}

/// The thresholds and rules that a scheduler works with.
#[derive(Debug)]
pub struct Config {
    /// An idle sample above this ends a stretch of work.
    pub max_idle_time_while_working: Duration,
    /// The accumulated work time beyond which the day should end.
    pub workday: Duration,
    /// An idle sample above this starts a new day.
    pub day_resets_after: Duration,
    /// The time after resuming work in which no break is asked for, and the
    /// least time between two prompts for the end of the day.
    pub just_started: Duration,
    /// A stretch of work longer than this may be interrupted for a break.
    pub good_chunk_of_work: Duration,
    /// The least time between two prompts for a break.
    pub minimum_time_between_breaks: Duration,
    /// How long a prompt may stand before it is shown with emphasis.
    pub when_to_emphasize_break: Duration,
    /// How long a prompt may stand before the screen is locked.
    pub when_to_lock_screen: Duration,
    /// The reminder rules, in the order in which they are evaluated.
    pub breaks: Vec<Break>,
}

/// The thresholds and rules as plain values.
pub struct ConfigView {
    pub max_idle_time_while_working: nat,
    pub workday: nat,
    pub day_resets_after: nat,
    pub just_started: nat,
    pub good_chunk_of_work: nat,
    pub minimum_time_between_breaks: nat,
    pub when_to_emphasize_break: nat,
    pub when_to_lock_screen: nat,
    pub breaks: Seq<BreakView>,
}

impl View for Config {
    type V = ConfigView;

    open spec fn view(&self) -> ConfigView {
        ConfigView {
            max_idle_time_while_working: self.max_idle_time_while_working@,
            workday: self.workday@,
            day_resets_after: self.day_resets_after@,
            just_started: self.just_started@,
            good_chunk_of_work: self.good_chunk_of_work@,
            minimum_time_between_breaks: self.minimum_time_between_breaks@,
            when_to_emphasize_break: self.when_to_emphasize_break@,
            when_to_lock_screen: self.when_to_lock_screen@,
            breaks: views(self.breaks@),
        }
    }
}

/// The thresholds that are used where the user has set none: ten minutes
/// of idleness end a stretch of work, the workday is eight hours, seven
/// hours of idleness start a new day, and there are two rules.
pub open spec fn default_config() -> ConfigView {
    ConfigView {
        max_idle_time_while_working: 600,
        workday: 28800,
        day_resets_after: 25200,
        just_started: 360,
        good_chunk_of_work: 1800,
        minimum_time_between_breaks: 300,
        when_to_emphasize_break: 120,
        when_to_lock_screen: 600,
        breaks: seq![
            BreakView { prompt: "Time for a 7-minute exercise"@, after: 10800, last_done: 0 },
            BreakView { prompt: "Switch to standing desk"@, after: 14460, last_done: 0 },
        ],
    }
}

/// A copy of the rules `breaks`.
pub fn clone_breaks(breaks: &Vec<Break>) -> (copy: Vec<Break>)
    ensures
        views(copy@) == views(breaks@),
{
    let mut copy: Vec<Break> = Vec::new();
    let mut i: usize = 0;
    while i < breaks.len()
        invariant
            i <= breaks.len(),
            copy.len() == i,
            forall|j: int| 0 <= j < i ==> copy@[j]@ == breaks@[j]@,
        decreases breaks.len() - i,
    {
        copy.push(breaks[i].clone());
        i += 1;
    }
    assert(views(copy@) =~= views(breaks@));
    copy
}

impl Clone for Config {
    fn clone(&self) -> (copy: Config)
        ensures
            copy@ == self@,
    {
        Config {
            max_idle_time_while_working: self.max_idle_time_while_working,
            workday: self.workday,
            day_resets_after: self.day_resets_after,
            just_started: self.just_started,
            good_chunk_of_work: self.good_chunk_of_work,
            minimum_time_between_breaks: self.minimum_time_between_breaks,
            when_to_emphasize_break: self.when_to_emphasize_break,
            when_to_lock_screen: self.when_to_lock_screen,
            breaks: clone_breaks(&self.breaks),
        }
    }
}

impl Default for Config {
    fn default() -> (c: Config)
        ensures
            c@ == default_config(),
    {
        let mut breaks: Vec<Break> = Vec::new();
        breaks.push(Break::new("Time for a 7-minute exercise", Duration::from_secs(60 * 60 * 3)));
        breaks.push(Break::new("Switch to standing desk", Duration::from_secs(60 * 60 * 4 + 60)));
        let c = Config {
            breaks,
            max_idle_time_while_working: Duration::from_secs(60 * 10),
            workday: Duration::from_secs(60 * 60 * 8),
            day_resets_after: Duration::from_secs(60 * 60 * 7),
            just_started: Duration::from_secs(60 * 6),
            good_chunk_of_work: Duration::from_secs(60 * 30),
            minimum_time_between_breaks: Duration::from_secs(60 * 5),
            when_to_emphasize_break: Duration::from_secs(60 * 2),
            when_to_lock_screen: Duration::from_secs(60 * 10),
        };
        assert(c@.breaks =~= default_config().breaks);
        c
    }
}

} // verus!
