//! The scheduler: a state machine that is fed one idle-time sample per tick
//! and decides whether the user works or is away, how much work has
//! accumulated, and which prompt, if any, is due.

use vstd::prelude::*;
use vstd::string::*;
use crate::hours::{format_seconds, format_spec, tostring};
use crate::rules::{clone_breaks, views, Break, BreakView, Config, ConfigView};
use crate::time::{span, Duration, Instant};

verus! {

/// Whether the user works or is away, and since when.
#[derive(Clone, Copy, Debug, PartialEq, Eq, Structural)]
pub enum Status {
    IdleSince(Instant),
    WorkingSince(Instant),
}

/// A status as plain values.
pub enum StatusView {
    IdleSince(nat),
    WorkingSince(nat),
}

impl View for Status {
    type V = StatusView;

    open spec fn view(&self) -> StatusView {
        match *self {
            Status::IdleSince(start) => StatusView::IdleSince(start@),
            Status::WorkingSince(start) => StatusView::WorkingSince(start@),
        }
    }
}

/// The state of the scheduler.
#[derive(Debug)]
pub struct State {
    /// The thresholds, fixed when the scheduler is made.
    pub config: Config,
    /// The prompt that waits for the user, if one does.
    pub am_prompting: Option<String>,
    /// The last event, in words.
    pub status_report: String,
    /// The running status line.
    pub latest_update: String,
    /// Working or idle, and since when.
    pub status: Status,
    /// The rules, with the work time at which each was last taken.
    pub breaks: Vec<Break>,
    /// The work done in the stretches of work that have ended.
    pub screen_time: Duration,
    /// When a prompt was last issued.
    pub last_prompt: Instant,
    /// Whether the waiting prompt is to be said aloud again and again.
    pub am_emphasizing: bool,
}

/// The state of the scheduler as plain values.
pub struct StateView {
    pub config: ConfigView,
    pub am_prompting: Option<Seq<char>>,
    pub status_report: Seq<char>,
    pub latest_update: Seq<char>,
    pub status: StatusView,
    pub breaks: Seq<BreakView>,
    pub screen_time: nat,
    pub last_prompt: nat,
    pub am_emphasizing: bool,
}

/// The text in `o`, if there is one.
pub open spec fn option_text(o: Option<String>) -> Option<Seq<char>> {
    match o {
        Some(text) => Some(text@),
        None => None,
    }
}

impl View for State {
    type V = StateView;

    open spec fn view(&self) -> StateView {
        StateView {
            config: self.config@,
            am_prompting: option_text(self.am_prompting),
            status_report: self.status_report@,
            latest_update: self.latest_update@,
            status: self.status@,
            breaks: views(self.breaks@),
            screen_time: self.screen_time@,
            last_prompt: self.last_prompt@,
            am_emphasizing: self.am_emphasizing,
        }
    }
}

impl Clone for State {
    fn clone(&self) -> (copy: State)
        ensures
            copy@ == self@,
    {
        State {
            config: self.config.clone(),
            am_prompting: match &self.am_prompting {
                Some(prompt) => Some(prompt.clone()),
                None => None,
            },
            status_report: self.status_report.clone(),
            latest_update: self.latest_update.clone(),
            status: self.status,
            breaks: clone_breaks(&self.breaks),
            screen_time: self.screen_time,
            last_prompt: self.last_prompt,
            am_emphasizing: self.am_emphasizing,
        }
    }
}

/// What a tick does.
pub enum Step {
    /// The user has stopped working.
    GoIdle,
    /// The workday is over, and it is time to say so.
    EndOfDay,
    /// The rules are evaluated.
    Breaks,
    /// The user keeps working, and nothing else happens.
    Work,
    /// The user has come back.
    Resume,
    /// The user was away for so long that a new day starts.
    NewDay,
    /// The user stays away.
    Idle,
}

/// What is known while the rules are evaluated.
pub struct Moment {
    /// The work accumulated up to now.
    pub total: nat,
    /// The current time.
    pub now: nat,
    /// Whether a prompt waits for the user.
    pub pending: bool,
    /// Whether the user is in a meeting.
    pub in_meeting: bool,
    /// The least time between two prompts for a break.
    pub min_gap: nat,
}

/// What a pass over the rules has come to.
pub struct Pass {
    /// The rules, those that were taken marked as done.
    pub breaks: Seq<BreakView>,
    /// The prompt of the last rule that was taken.
    pub prompt: Option<Seq<char>>,
    /// When a prompt was last issued.
    pub last_prompt: nat,
    /// The last event, in words.
    pub status_report: Seq<char>,
}

/// The report on a rule put off because a prompt waits already.
pub open spec fn postponed_pending(prompt: Seq<char>) -> Seq<char> {
    "Postponing "@ + prompt + ", see above."@
}

/// The report on a rule put off because of a meeting.
pub open spec fn postponed_meeting(prompt: Seq<char>) -> Seq<char> {
    "Postponing "@ + prompt + " while you meet."@
}

/// The report on a rule put off for `wait` because the last prompt is too
/// recent.
pub open spec fn postponed_cooldown(prompt: Seq<char>, wait: nat) -> Seq<char> {
    "Postponing "@ + prompt + " for "@ + format_spec(wait) + "."@
}

/// The pass `p` after the rule at `i` was looked at. A rule that does not
/// fire changes nothing. One that fires is put off, with a report that says
/// why, while a prompt waits, during a meeting, or sooner than `min_gap`
/// after the last prompt; it then stays armed. Else it is taken: its prompt
/// becomes the one to show, and it is marked done at the current work time.
pub open spec fn consider(p: Pass, i: int, m: Moment) -> Pass {
    let b = p.breaks[i];
    let gap = span(m.now, p.last_prompt);
    if !b.fires(m.total) {
        p
    } else if m.pending {
        Pass { status_report: postponed_pending(b.prompt), ..p }
    } else if m.in_meeting {
        Pass { status_report: postponed_meeting(b.prompt), ..p }
    } else if gap < m.min_gap {
        Pass { status_report: postponed_cooldown(b.prompt, (m.min_gap - gap) as nat), ..p }
    } else {
        Pass {
            breaks: p.breaks.update(i, b.done_at(m.total)),
            prompt: Some(b.prompt),
            last_prompt: m.now,
            status_report: p.status_report,
        }
    }
}

/// The pass `p` after the first `n` rules were looked at, in their order.
pub open spec fn pass(p: Pass, n: nat, m: Moment) -> Pass
    decreases n,
{
    if n == 0 {
        p
    } else {
        consider(pass(p, (n - 1) as nat, m), n - 1, m)
    }
}

/// The prompt for the end of the day after `total` of work.
pub open spec fn end_of_day_text(total: nat) -> Seq<char> {
    "End of day after "@ + format_spec(total)
}

/// The status line after `total` of work.
pub open spec fn working_text(total: nat) -> Seq<char> {
    "You've been working for "@ + format_spec(total)
}

impl StateView {
    /// Since when the current status holds.
    pub open spec fn since(self) -> nat {
        match self.status {
            StatusView::IdleSince(start) => start,
            StatusView::WorkingSince(start) => start,
        }
    }

    /// The length at `now` of the stretch of work that is under way, zero
    /// while the user is away.
    pub open spec fn this_work(self, now: nat) -> nat {
        match self.status {
            StatusView::IdleSince(_) => 0,
            StatusView::WorkingSince(start) => span(now, start),
        }
    }

    /// All work up to `now`: the stretches that have ended and the one under
    /// way.
    pub open spec fn total_work(self, now: nat) -> nat {
        self.this_work(now) + self.screen_time
    }

    /// Whether the prompt for the end of the day is due at `now`: the work
    /// exceeds the workday, and the last prompt is more than `just_started`
    /// ago.
    pub open spec fn end_of_day_due(self, now: nat) -> bool {
        self.total_work(now) > self.config.workday && span(now, self.last_prompt)
            > self.config.just_started
    }

    /// Whether a stretch of work of this length may be interrupted by a
    /// break: it has only just started, or it is a good chunk of work.
    pub open spec fn may_interrupt(self, now: nat) -> bool {
        self.this_work(now) < self.config.just_started || self.this_work(now)
            > self.config.good_chunk_of_work
    }

    /// What the tick does that samples an idle time `t` at the time `now`.
    pub open spec fn step(self, t: nat, in_meeting: bool, now: nat) -> Step {
        match self.status {
            StatusView::WorkingSince(_) => {
                if t > self.config.max_idle_time_while_working && !in_meeting {
                    Step::GoIdle
                } else if self.end_of_day_due(now) {
                    Step::EndOfDay
                } else if self.may_interrupt(now) && self.am_prompting is None && !in_meeting {
                    Step::Breaks
                } else {
                    Step::Work
                }
            },
            StatusView::IdleSince(start) => {
                if span(span(now, t), start) > self.config.max_idle_time_while_working {
                    Step::Resume
                } else if t > self.config.day_resets_after && self.screen_time > 0 {
                    Step::NewDay
                } else {
                    Step::Idle
                }
            },
        }
    }

    /// What holds while the rules are evaluated at `now`.
    pub open spec fn moment(self, total: nat, in_meeting: bool, now: nat) -> Moment {
        Moment {
            total,
            now,
            pending: self.am_prompting is Some,
            in_meeting,
            min_gap: self.config.minimum_time_between_breaks,
        }
    }

    /// The pass over all rules at the work time `total`.
    pub open spec fn break_pass(self, total: nat, in_meeting: bool, now: nat) -> Pass {
        pass(
            Pass {
                breaks: self.breaks,
                prompt: None,
                last_prompt: self.last_prompt,
                status_report: self.status_report,
            },
            self.breaks.len(),
            self.moment(total, in_meeting, now),
        )
    }

    /// The state after the rules were evaluated. The waiting prompt is not
    /// touched.
    pub open spec fn evaluated(self, total: nat, in_meeting: bool, now: nat) -> StateView {
        let p = self.break_pass(total, in_meeting, now);
        StateView {
            breaks: p.breaks,
            last_prompt: p.last_prompt,
            status_report: p.status_report,
            ..self
        }
    }

    /// The state with `msg` as the waiting prompt.
    pub open spec fn prompting(self, msg: Seq<char>) -> StateView {
        StateView { am_prompting: Some(msg), ..self }
    }

    /// The prompt that the tick issues, if it issues one.
    pub open spec fn spoken(self, t: nat, in_meeting: bool, now: nat) -> Option<Seq<char>> {
        match self.step(t, in_meeting, now) {
            Step::EndOfDay => Some(end_of_day_text(self.total_work(now))),
            Step::Breaks => self.break_pass(self.total_work(now), in_meeting, now).prompt,
            _ => None,
        }
    }

    /// The state after the tick that samples an idle time `t` at `now`.
    pub open spec fn tick(self, t: nat, in_meeting: bool, now: nat) -> StateView {
        let total = self.total_work(now);
        let idle_start = span(now, t);
        match self.step(t, in_meeting, now) {
            Step::GoIdle => {
                let screen_time = self.screen_time + span(idle_start, self.since());
                StateView {
                    screen_time,
                    status: StatusView::IdleSince(idle_start),
                    status_report: "After working "@ + format_spec(screen_time)
                        + " you are now AFK!"@,
                    ..self
                }
            },
            Step::EndOfDay => StateView {
                am_prompting: Some(end_of_day_text(total)),
                last_prompt: now,
                latest_update: working_text(total),
                ..self
            },
            Step::Breaks => {
                let s = self.evaluated(total, in_meeting, now);
                let p = self.break_pass(total, in_meeting, now);
                StateView {
                    am_prompting: if p.prompt is Some {
                        p.prompt
                    } else {
                        s.am_prompting
                    },
                    latest_update: working_text(total),
                    ..s
                }
            },
            Step::Work => StateView { latest_update: working_text(total), ..self },
            Step::Resume => StateView {
                status: StatusView::WorkingSince(idle_start),
                status_report: "You resumed working after a "@ + format_spec(
                    span(idle_start, self.since()),
                ) + " break."@,
                ..self
            },
            Step::NewDay => StateView {
                status_report: "I think it is a new day.  Resetting."@,
                screen_time: 0,
                breaks: self.breaks.map_values(|b: BreakView| b.reset()),
                ..self
            },
            Step::Idle => StateView {
                latest_update: "You've been idle for "@ + format_spec(t),
                ..self
            },
        }
    }

    /// Whether a tick can be taken with the machine's integers: what it
    /// stores has to fit. That is the screen time after a stretch of work has
    /// ended, and the work up to `now` where the rules are evaluated, since a
    /// rule that is taken keeps it. No other tick stores a sum.
    pub open spec fn fits(self, t: nat, in_meeting: bool, now: nat) -> bool {
        match self.step(t, in_meeting, now) {
            Step::GoIdle => self.screen_time + span(span(now, t), self.since()) <= u64::MAX,
            Step::Breaks => self.total_work(now) <= u64::MAX,
            _ => true,
        }
    }

    /// The state after the user has dismissed the waiting prompt.
    pub open spec fn acknowledged(self) -> StateView {
        match self.am_prompting {
            Some(prompt) => StateView {
                am_emphasizing: false,
                am_prompting: None,
                status_report: "Well done with the "@ + prompt + "!"@,
                ..self
            },
            None => StateView { am_emphasizing: false, ..self },
        }
    }

    /// Whether the waiting prompt has stood long enough at `now` to be
    /// shown with emphasis.
    pub open spec fn emphasis_due(self, now: nat) -> bool {
        self.am_prompting is Some && span(now, self.last_prompt)
            > self.config.when_to_emphasize_break
    }
}

/// A pass changes no rule but by taking it: after any number of rules was
/// looked at there are as many rules as before, and each is as it was, or
/// it fired and is now marked done at the current work time.
pub proof fn lemma_pass_keeps_rules(p: Pass, n: nat, m: Moment)
    requires
        n <= p.breaks.len(),
    ensures
        pass(p, n, m).breaks.len() == p.breaks.len(),
        forall|j: int|
            0 <= j < p.breaks.len() ==> {
                ||| (#[trigger] pass(p, n, m).breaks[j]) == p.breaks[j]
                ||| p.breaks[j].fires(m.total) && j < n && pass(p, n, m).breaks[j]
                    == p.breaks[j].done_at(m.total)
            },
        forall|j: int| n <= j < p.breaks.len() ==> (#[trigger] pass(p, n, m).breaks[j]) == p.breaks[j],
    decreases n,
{
    if n > 0 {
        lemma_pass_keeps_rules(p, (n - 1) as nat, m);
    }
}

/// A stretch of work ends when the idle time exceeds the threshold outside
/// a meeting: the user is idle since the idle time began, the stretch up to
/// that moment is added to the screen time, the event is reported, and
/// nothing else changes. No prompt is issued.
pub proof fn lemma_work_ends(s: StateView, t: nat, now: nat)
    requires
        s.status is WorkingSince,
        t > s.config.max_idle_time_while_working,
    ensures
        s.step(t, false, now) is GoIdle,
        s.tick(t, false, now) == (StateView {
            status: StatusView::IdleSince(span(now, t)),
            screen_time: s.screen_time + span(span(now, t), s.since()),
            status_report: "After working "@ + format_spec(
                s.screen_time + span(span(now, t), s.since()),
            ) + " you are now AFK!"@,
            ..s
        }),
        now - t >= s.since() ==> s.tick(t, false, now).status == StatusView::IdleSince(
            (now - t) as nat,
        ) && s.tick(t, false, now).screen_time == s.screen_time + ((now - t) - s.since()),
        s.spoken(t, false, now) is None,
{
}

/// A new day starts when the user, away and not yet back, has been idle for
/// longer than `day_resets_after` with work on the clock: the screen time
/// is zero again and every rule is as if never taken.
pub proof fn lemma_new_day(s: StateView, t: nat, in_meeting: bool, now: nat)
    requires
        s.status is IdleSince,
        span(span(now, t), s.since()) <= s.config.max_idle_time_while_working,
        t > s.config.day_resets_after,
        s.screen_time > 0,
    ensures
        s.tick(t, in_meeting, now).screen_time == 0,
        s.tick(t, in_meeting, now).status == s.status,
        s.tick(t, in_meeting, now).breaks.len() == s.breaks.len(),
        forall|i: int|
            0 <= i < s.breaks.len() ==> (#[trigger] s.tick(t, in_meeting, now).breaks[i])
                == s.breaks[i].reset(),
        forall|i: int|
            0 <= i < s.breaks.len() ==> (#[trigger] s.tick(t, in_meeting, now).breaks[i]).last_done
                == 0,
{
}

/// The prompt for the end of the day: while the user is at work beyond
/// the workday and the last prompt is more than `just_started` ago, the tick
/// issues it, whether a prompt waits or not. It names the work done and
/// counts as the last prompt; the rules, the status and the screen time stay.
pub proof fn lemma_end_of_day(s: StateView, t: nat, in_meeting: bool, now: nat)
    requires
        s.status is WorkingSince,
        !(t > s.config.max_idle_time_while_working && !in_meeting),
        s.total_work(now) > s.config.workday,
        span(now, s.last_prompt) > s.config.just_started,
    ensures
        s.step(t, in_meeting, now) is EndOfDay,
        s.spoken(t, in_meeting, now) == Some(end_of_day_text(s.total_work(now))),
        s.tick(t, in_meeting, now) == (StateView {
            am_prompting: Some(end_of_day_text(s.total_work(now))),
            last_prompt: now,
            latest_update: working_text(s.total_work(now)),
            ..s
        }),
{
}

/// Within the cooldown the prompt for the end of the day does not come
/// back: while a prompt waits and the last one is not more than
/// `just_started` ago, a tick at work refreshes the status line and changes
/// nothing else, however far the work exceeds the workday.
pub proof fn lemma_end_of_day_waits(s: StateView, t: nat, in_meeting: bool, now: nat)
    requires
        s.status is WorkingSince,
        !(t > s.config.max_idle_time_while_working && !in_meeting),
        span(now, s.last_prompt) <= s.config.just_started,
        s.am_prompting is Some,
    ensures
        s.step(t, in_meeting, now) is Work,
        s.spoken(t, in_meeting, now) is None,
        s.tick(t, in_meeting, now) == (StateView {
            latest_update: working_text(s.total_work(now)),
            ..s
        }),
{
}

/// The prompt for the end of the day comes back only after the cooldown.
/// Once a tick at `now1` has issued it, a later tick at `now2` issues it
/// again only if more than `just_started` has passed since `now1`; and if
/// the user is still at work beyond the workday, it does so as soon as that
/// time has passed.
pub proof fn lemma_end_of_day_cooldown(
    s: StateView,
    t1: nat,
    meeting1: bool,
    now1: nat,
    t2: nat,
    meeting2: bool,
    now2: nat,
)
    requires
        s.step(t1, meeting1, now1) is EndOfDay,
    ensures
        s.spoken(t1, meeting1, now1) == Some(end_of_day_text(s.total_work(now1))),
        s.tick(t1, meeting1, now1).last_prompt == now1,
        s.tick(t1, meeting1, now1).step(t2, meeting2, now2) is EndOfDay ==> span(now2, now1)
            > s.config.just_started,
        span(now2, now1) > s.config.just_started && s.tick(t1, meeting1, now1).total_work(now2)
            > s.config.workday && !(t2 > s.config.max_idle_time_while_working && !meeting2)
            ==> s.tick(t1, meeting1, now1).step(t2, meeting2, now2) is EndOfDay,
{
}

/// Why a tick was not taken.
#[derive(Clone, Copy, Debug, PartialEq, Eq, Structural)]
pub enum TickError {
    /// The idle time could not be had. No value is guessed in its place.
    NoSample,
    /// What the tick adds up does not fit the machine's integers.
    TooLong,
}

/// What the presentation is to do after a tick.
#[derive(Clone, Copy, Debug, PartialEq, Eq, Structural)]
pub struct Presentation {
    /// Bring the window to the front: a prompt waits.
    pub show_window: bool,
    /// Hide everything else: the prompt has waited long enough.
    pub hide_others: bool,
    /// Say the prompt aloud again.
    pub announce: bool,
}

/// Marks the rule at `i` as taken at the work time `at`.
fn mark_done(breaks: &mut Vec<Break>, i: usize, at: Duration)
    requires
        i < old(breaks).len(),
    ensures
        final(breaks).len() == old(breaks).len(),
        views(final(breaks)@) == views(old(breaks)@).update(
            i as int,
            old(breaks)@[i as int]@.done_at(at@),
        ),
{
    let taken = Break { prompt: breaks[i].prompt.clone(), after: breaks[i].after, last_done: at };
    breaks.set(i, taken);
    assert(views(breaks@) =~= views(old(breaks)@).update(
        i as int,
        old(breaks)@[i as int]@.done_at(at@),
    ));
}

/// Marks every rule as never taken.
fn reset_all(breaks: &mut Vec<Break>)
    ensures
        final(breaks).len() == old(breaks).len(),
        views(final(breaks)@) == views(old(breaks)@).map_values(|b: BreakView| b.reset()),
{
    let mut i: usize = 0;
    while i < breaks.len()
        invariant
            i <= breaks.len(),
            breaks.len() == old(breaks).len(),
            forall|j: int| 0 <= j < i ==> breaks@[j]@ == (#[trigger] old(breaks)@[j])@.reset(),
            forall|j: int| i <= j < breaks.len() ==> breaks@[j] == old(breaks)@[j],
        decreases breaks.len() - i,
    {
        let fresh = Break {
            prompt: breaks[i].prompt.clone(),
            after: breaks[i].after,
            last_done: Duration::from_secs(0),
        };
        breaks.set(i, fresh);
        i += 1;
    }
    assert(views(breaks@) =~= views(old(breaks)@).map_values(|b: BreakView| b.reset()));
}

impl State {
    /// A scheduler that starts at `now`, with the user at work, no work
    /// done yet and the rules of `config`.
    pub fn new(config: Config, now: Instant) -> (state: State)
        ensures
            state@ == (StateView {
                config: config@,
                am_prompting: None,
                status_report: Seq::empty(),
                latest_update: Seq::empty(),
                status: StatusView::WorkingSince(now@),
                breaks: config@.breaks,
                screen_time: 0,
                last_prompt: now@,
                am_emphasizing: false,
            }),
    {
        State {
            status: Status::WorkingSince(now),
            screen_time: Duration::from_secs(0),
            last_prompt: now,
            breaks: clone_breaks(&config.breaks),
            am_prompting: None,
            status_report: String::new(),
            latest_update: String::new(),
            am_emphasizing: false,
            config,
        }
    }

    /// Whether the tick that samples the idle time `t` at `now` can be taken
    /// with the machine's integers.
    pub fn can_tick(&self, t: Duration, in_meeting: bool, now: Instant) -> (fits: bool)
        ensures
            fits == self@.fits(t@, in_meeting, now@),
    {
        match self.status {
            Status::IdleSince(_) => true,
            Status::WorkingSince(start) => {
                if t.secs > self.config.max_idle_time_while_working.secs && !in_meeting {
                    now.minus(t).duration_since(start).secs <= u64::MAX - self.screen_time.secs
                } else {
                    let this_work = now.duration_since(start);
                    let total: u128 = this_work.secs as u128 + self.screen_time.secs as u128;
                    if total > self.config.workday.secs as u128 && now.duration_since(
                        self.last_prompt,
                    ).secs > self.config.just_started.secs {
                        true
                    } else if (this_work.secs < self.config.just_started.secs || this_work.secs
                        > self.config.good_chunk_of_work.secs) && self.am_prompting.is_none()
                        && !in_meeting {
                        total <= u64::MAX as u128
                    } else {
                        true
                    }
                }
            },
        }
    }

    /// Makes `msg` the waiting prompt. Saying it aloud is left to the
    /// caller.
    pub fn prompt(&mut self, msg: String)
        ensures
            final(self)@ == old(self)@.prompting(msg@),
    {
        self.am_prompting = Some(msg);
    }

    /// The text to say aloud for the waiting prompt, if one waits.
    pub fn announce(&self) -> (text: Option<String>)
        ensures
            option_text(text) == self@.am_prompting,
    {
        match &self.am_prompting {
            Some(prompt) => Some(prompt.clone()),
            None => None,
        }
    }

    /// Evaluates every rule, in order, at the accumulated work time `total`.
    /// Returns the prompt of the last rule that was taken, if any was.
    pub fn evaluate_breaks(&mut self, total: Duration, in_meeting: bool, now: Instant) -> (prompt:
        Option<String>)
        ensures
            final(self)@ == old(self)@.evaluated(total@, in_meeting, now@),
            option_text(prompt) == old(self)@.break_pass(total@, in_meeting, now@).prompt,
    {
        let ghost start = Pass {
            breaks: self@.breaks,
            prompt: None,
            last_prompt: self@.last_prompt,
            status_report: self@.status_report,
        };
        let ghost m = self@.moment(total@, in_meeting, now@);
        let pending = self.am_prompting.is_some();
        let min_gap = self.config.minimum_time_between_breaks;
        let mut prompt: Option<String> = None;
        let mut i: usize = 0;
        while i < self.breaks.len()
            invariant
                i <= self.breaks.len(),
                self.breaks.len() == old(self).breaks.len(),
                self.config == old(self).config,
                self.am_prompting == old(self).am_prompting,
                self.latest_update == old(self).latest_update,
                self.status == old(self).status,
                self.screen_time == old(self).screen_time,
                self.am_emphasizing == old(self).am_emphasizing,
                m == old(self)@.moment(total@, in_meeting, now@),
                pending == m.pending,
                min_gap@ == m.min_gap,
                start.breaks == old(self)@.breaks,
                pass(start, i as nat, m) == (Pass {
                    breaks: views(self.breaks@),
                    prompt: option_text(prompt),
                    last_prompt: self.last_prompt@,
                    status_report: self.status_report@,
                }),
            decreases self.breaks.len() - i,
        {
            let ghost before = pass(start, i as nat, m);
            assert(before.breaks[i as int] == self.breaks@[i as int]@);
            let ghost rules = self.breaks@;
            let fires = self.breaks[i].check(total);
            assert(self.breaks@ =~= rules);
            if fires {
                let gap = now.duration_since(self.last_prompt);
                if pending {
                    let mut report = String::from_str("Postponing ");
                    report.append(self.breaks[i].prompt.as_str());
                    report.append(", see above.");
                    self.status_report = report;
                } else if in_meeting {
                    let mut report = String::from_str("Postponing ");
                    report.append(self.breaks[i].prompt.as_str());
                    report.append(" while you meet.");
                    self.status_report = report;
                } else if gap.secs < min_gap.secs {
                    let wait = tostring(min_gap.saturating_sub(gap));
                    let mut report = String::from_str("Postponing ");
                    report.append(self.breaks[i].prompt.as_str());
                    report.append(" for ");
                    report.append(wait.as_str());
                    report.append(".");
                    self.status_report = report;
                } else {
                    prompt = Some(self.breaks[i].prompt.clone());
                    self.last_prompt = now;
                    mark_done(&mut self.breaks, i, total);
                }
            }
            i += 1;
        }
        prompt
    }

    /// One tick of the scheduler: takes the idle time `t` sampled at `now`
    /// and whether the user is in a meeting, and moves the state on.
    /// Returns the prompt that this tick issues, for the caller to say
    /// aloud, if it issues one.
    ///
    /// What the tick adds up must fit the machine's integers: see `fits`.
    pub fn update(&mut self, t: Duration, in_meeting: bool, now: Instant) -> (spoken: Option<
        String,
    >)
        requires
            old(self)@.fits(t@, in_meeting, now@),
        ensures
            final(self)@ == old(self)@.tick(t@, in_meeting, now@),
            option_text(spoken) == old(self)@.spoken(t@, in_meeting, now@),
    {
        match self.status {
            Status::WorkingSince(start) => {
                if t.secs > self.config.max_idle_time_while_working.secs && !in_meeting {
                    let start_idle = now.minus(t);
                    let segment = start_idle.duration_since(start);
                    self.screen_time = Duration::from_secs(self.screen_time.secs + segment.secs);
                    self.status = Status::IdleSince(start_idle);
                    let mut report = String::from_str("After working ");
                    report.append(tostring(self.screen_time).as_str());
                    report.append(" you are now AFK!");
                    self.status_report = report;
                    None
                } else {
                    let this_work = now.duration_since(start);
                    let total: u128 = this_work.secs as u128 + self.screen_time.secs as u128;
                    let mut spoken: Option<String> = None;
                    if total > self.config.workday.secs as u128 && now.duration_since(
                        self.last_prompt,
                    ).secs > self.config.just_started.secs {
                        let mut msg = String::from_str("End of day after ");
                        msg.append(format_seconds(total).as_str());
                        spoken = Some(msg.clone());
                        self.prompt(msg);
                        self.last_prompt = now;
                    } else if (this_work.secs < self.config.just_started.secs || this_work.secs
                        > self.config.good_chunk_of_work.secs) && self.am_prompting.is_none()
                        && !in_meeting {
                        let taken = self.evaluate_breaks(
                            Duration::from_secs(total as u64),
                            in_meeting,
                            now,
                        );
                        if let Some(p) = taken {
                            spoken = Some(p.clone());
                            self.prompt(p);
                        }
                    }
                    let mut line = String::from_str("You've been working for ");
                    line.append(format_seconds(total).as_str());
                    self.latest_update = line;
                    spoken
                }
            },
            Status::IdleSince(start) => {
                let start_idle = now.minus(t);
                let away = start_idle.duration_since(start);
                if away.secs > self.config.max_idle_time_while_working.secs {
                    self.status = Status::WorkingSince(start_idle);
                    let mut report = String::from_str("You resumed working after a ");
                    report.append(tostring(away).as_str());
                    report.append(" break.");
                    self.status_report = report;
                } else if t.secs > self.config.day_resets_after.secs && self.screen_time.secs > 0 {
                    self.status_report = String::from_str("I think it is a new day.  Resetting.");
                    self.screen_time = Duration::from_secs(0);
                    reset_all(&mut self.breaks);
                } else {
                    let mut line = String::from_str("You've been idle for ");
                    line.append(tostring(t).as_str());
                    self.latest_update = line;
                }
                None
            },
        }
    }

    /// One tick of the scheduler on whatever the caller could find out: the
    /// idle time `sample`, if the query for it succeeded. Without a sample,
    /// or where the tick would not fit the machine's integers, nothing
    /// changes and the reason is returned; else the tick is taken as by
    /// `update`.
    pub fn tick(&mut self, sample: Option<Duration>, in_meeting: bool, now: Instant) -> (r: Result<
        Option<String>,
        TickError,
    >)
        ensures
            match r {
                Ok(spoken) => sample matches Some(t) && old(self)@.fits(t@, in_meeting, now@)
                    && final(self)@ == old(self)@.tick(t@, in_meeting, now@) && option_text(spoken)
                    == old(self)@.spoken(t@, in_meeting, now@),
                Err(TickError::NoSample) => sample is None && final(self)@ == old(self)@,
                Err(TickError::TooLong) => sample matches Some(t) && !old(self)@.fits(
                    t@,
                    in_meeting,
                    now@,
                ) && final(self)@ == old(self)@,
            },
    {
        match sample {
            None => Err(TickError::NoSample),
            Some(t) => {
                if self.can_tick(t, in_meeting, now) {
                    Ok(self.update(t, in_meeting, now))
                } else {
                    Err(TickError::TooLong)
                }
            },
        }
    }

    /// The user has dismissed the waiting prompt. Returns whether there was
    /// one, in which case the caller brings back what it had hidden.
    pub fn acknowledge(&mut self) -> (restore: bool)
        ensures
            final(self)@ == old(self)@.acknowledged(),
            restore == old(self)@.am_prompting is Some,
    {
        self.am_emphasizing = false;
        match self.am_prompting.take() {
            Some(prompt) => {
                let mut report = String::from_str("Well done with the ");
                report.append(prompt.as_str());
                report.append("!");
                self.status_report = report;
                true
            },
            None => false,
        }
    }

    /// What to show after a tick at `now`. While a prompt waits the window
    /// is shown; once the last prompt is more than `when_to_emphasize_break`
    /// ago everything else is hidden, and that moment counts as a prompt.
    pub fn present(&mut self, now: Instant) -> (p: Presentation)
        ensures
            p.show_window == old(self)@.am_prompting is Some,
            p.hide_others == old(self)@.emphasis_due(now@),
            p.announce == (old(self)@.am_prompting is Some && old(self)@.am_emphasizing),
            final(self)@ == (StateView {
                last_prompt: if old(self)@.emphasis_due(now@) {
                    now@
                } else {
                    old(self)@.last_prompt
                },
                ..old(self)@
            }),
    {
        if self.am_prompting.is_some() {
            let hide_others = now.duration_since(self.last_prompt).secs
                > self.config.when_to_emphasize_break.secs;
            if hide_others {
                self.last_prompt = now;
            }
            Presentation { show_window: true, hide_others, announce: self.am_emphasizing }
        } else {
            Presentation { show_window: false, hide_others: false, announce: false }
        }
    }
}

} // verus!
