//! The window throttle: a state machine that, for each arriving line and the
//! time it arrived, decides whether the line passes, and reports how many
//! lines each closed window dropped.
//!
//! Windows expire lazily: a window is closed by the first event at or after
//! its end, never by a timer. A clock that steps backwards is read as "no time
//! has passed": such an event falls in the current window.

use vstd::prelude::*;
use crate::rate::Rate;

verus! {

/// Whether a line passes downstream or is skipped.
#[derive(PartialEq, Eq, Structural, Clone, Copy, Debug)]
pub enum Verdict {
    Admit,
    Drop,
}

/// The outcome of one event.
#[derive(Clone, Copy, Debug)]
pub struct Decision {
    /// What happens to the line itself.
    pub verdict: Verdict,
    /// The number of lines skipped in the window that this event closed, when
    /// that number is positive and warnings are shown; the caller prints it
    /// before the line.
    pub skipped: Option<u128>,
}

/// The mathematical content of a [`Decision`].
pub struct DecisionView {
    pub admitted: bool,
    pub skipped: Option<nat>,
}

impl View for Decision {
    type V = DecisionView;

    open spec fn view(&self) -> DecisionView {
        DecisionView {
            admitted: self.verdict == Verdict::Admit,
            skipped: match self.skipped {
                Some(n) => Some(n as nat),
                None => None,
            },
        }
    }
}

/// The state of a throttle, with unbounded numbers.
pub struct ThrottleView {
    /// Events admitted per window.
    pub quota: nat,
    /// Length of a window in milliseconds.
    pub window_ms: nat,
    /// Whether skip counts are reported.
    pub display_warning: bool,
    /// Whether the first event has been seen and a window opened.
    pub started: bool,
    /// When the current window closes, in milliseconds.
    pub window_end: nat,
    /// Events admitted in the current window.
    pub admitted: nat,
    /// Events dropped in the current window.
    pub dropped: nat,
}

impl ThrottleView {
    /// A throttle that has seen no event yet.
    pub open spec fn fresh(quota: nat, window_ms: nat, display_warning: bool) -> ThrottleView {
        ThrottleView {
            quota,
            window_ms,
            display_warning,
            started: false,
            window_end: 0,
            admitted: 0,
            dropped: 0,
        }
    }

    pub open spec fn wf(self) -> bool {
        &&& self.window_ms > 0
        &&& self.admitted <= self.quota
        &&& !self.started ==> self.admitted == 0 && self.dropped == 0
    }

    /// Whether an event at `now` opens a new window: the first event does,
    /// and so does any event at or after the end of the current window.
    pub open spec fn rolls_over(self, now: nat) -> bool {
        !self.started || now >= self.window_end
    }

    /// The state in which the event at `now` is judged: a new window from
    /// `now` when it rolls over, else the current one.
    pub open spec fn opened(self, now: nat) -> ThrottleView {
        if self.rolls_over(now) {
            ThrottleView {
                started: true,
                window_end: now + self.window_ms,
                admitted: 0,
                dropped: 0,
                ..self
            }
        } else {
            self
        }
    }

    /// The notice that the event at `now` brings: the drop count of the
    /// window it closes, if positive and warnings are shown.
    pub open spec fn notice(self, now: nat) -> Option<nat> {
        if self.started && now >= self.window_end && self.dropped > 0 && self.display_warning {
            Some(self.dropped)
        } else {
            None
        }
    }

    /// Whether the event at `now` is admitted.
    pub open spec fn admits(self, now: nat) -> bool {
        let w = self.opened(now);
        w.admitted < w.quota && now <= w.window_end
    }

    pub open spec fn decision(self, now: nat) -> DecisionView {
        DecisionView { admitted: self.admits(now), skipped: self.notice(now) }
    }

    /// The state after the event at `now`.
    pub open spec fn after(self, now: nat) -> ThrottleView {
        let w = self.opened(now);
        if self.admits(now) {
            ThrottleView { admitted: w.admitted + 1, ..w }
        } else {
            ThrottleView { dropped: w.dropped + 1, ..w }
        }
    }

    /// The notice due when the stream ends in this state.
    pub open spec fn final_notice(self) -> Option<nat> {
        if self.display_warning && self.dropped > 0 {
            Some(self.dropped)
        } else {
            None
        }
    }

    /// Whether the counters and the next window end of an event at `now` fit
    /// in 128 bits.
    pub open spec fn fits(self, now: nat) -> bool {
        now + self.window_ms <= u128::MAX && self.dropped < u128::MAX
    }
}

/// Admission control over a stream of timestamped line arrivals.
pub struct Throttle {
    quota: u128,
    window_ms: u128,
    display_warning: bool,
    started: bool,
    window_end: u128,
    admitted: u128,
    dropped: u128,
}

impl View for Throttle {
    type V = ThrottleView;

    closed spec fn view(&self) -> ThrottleView {
        ThrottleView {
            quota: self.quota as nat,
            window_ms: self.window_ms as nat,
            display_warning: self.display_warning,
            started: self.started,
            window_end: self.window_end as nat,
            admitted: self.admitted as nat,
            dropped: self.dropped as nat,
        }
    }
}

impl Throttle {
    /// A throttle for `rate` that has seen no event; `display_warning` says
    /// whether skip counts are reported.
    pub fn new(rate: &Rate, display_warning: bool) -> (t: Throttle)
        ensures
            t@ == ThrottleView::fresh(
                rate.quota() as nat,
                rate.window_ms() as nat,
                display_warning,
            ),
            t@.wf(),
    {
        Throttle {
            quota: rate.value(),
            window_ms: rate.to_millis(),
            display_warning,
            started: false,
            window_end: 0,
            admitted: 0,
            dropped: 0,
        }
    }

    /// Whether an event at `now` (milliseconds) can be decided without the
    /// counters or the window end leaving 128 bits.
    pub fn can_decide(&self, now: u128) -> (r: bool)
        ensures
            r == self@.fits(now as nat),
    {
        now <= u128::MAX - self.window_ms && self.dropped < u128::MAX
    }

    /// Decides the line that arrives at `now` (milliseconds): rolls the
    /// window over if it has ended, then admits the line if the window's
    /// quota is not used up, else drops it.
    pub fn decide(&mut self, now: u128) -> (d: Decision)
        requires
            old(self)@.wf(),
            old(self)@.fits(now as nat),
        ensures
            d@ == old(self)@.decision(now as nat),
            final(self)@ == old(self)@.after(now as nat),
            final(self)@.wf(),
    {
        let mut skipped: Option<u128> = None;
        if !self.started || now >= self.window_end {
            if self.started && self.dropped > 0 && self.display_warning {
                skipped = Some(self.dropped);
            }
            self.started = true;
            self.window_end = now + self.window_ms;
            self.admitted = 0;
            self.dropped = 0;
        }
        if self.admitted < self.quota && now <= self.window_end {
            self.admitted = self.admitted + 1;
            Decision { verdict: Verdict::Admit, skipped }
        } else {
            self.dropped = self.dropped + 1;
            Decision { verdict: Verdict::Drop, skipped }
        }
    }

    /// The notice due at the end of the stream: the current window's drop
    /// count, if positive and warnings are shown.
    pub fn finish(&self) -> (r: Option<u128>)
        ensures
            match r {
                Some(n) => self@.final_notice() == Some(n as nat),
                None => self@.final_notice() == None::<nat>,
            },
    {
        if self.display_warning && self.dropped > 0 {
            Some(self.dropped)
        } else {
            None
        }
    }
}

impl ThrottleView {
    /// The same state with warnings shown.
    pub open spec fn with_warnings(self) -> ThrottleView {
        ThrottleView { display_warning: true, ..self }
    }

    /// The state after events at each of `times`, in order.
    pub open spec fn run(self, times: Seq<nat>) -> ThrottleView
        decreases times.len(),
    {
        if times.len() == 0 {
            self
        } else {
            self.after(times[0]).run(times.drop_first())
        }
    }

    /// The decisions for events at each of `times`, in order.
    pub open spec fn decisions(self, times: Seq<nat>) -> Seq<DecisionView>
        decreases times.len(),
    {
        if times.len() == 0 {
            Seq::empty()
        } else {
            seq![self.decision(times[0])] + self.after(times[0]).decisions(times.drop_first())
        }
    }
}

/// There is one decision per event.
pub proof fn lemma_decisions_len(s: ThrottleView, times: Seq<nat>)
    ensures
        s.decisions(times).len() == times.len(),
    decreases times.len(),
{
    if times.len() > 0 {
        lemma_decisions_len(s.after(times[0]), times.drop_first());
    }
}

/// How many of `ds` admit their line.
pub open spec fn admitted_count(ds: Seq<DecisionView>) -> nat
    decreases ds.len(),
{
    if ds.len() == 0 {
        0
    } else {
        (if ds[0].admitted {
            1nat
        } else {
            0nat
        }) + admitted_count(ds.drop_first())
    }
}

pub open spec fn min(a: nat, b: nat) -> nat {
    if a <= b {
        a
    } else {
        b
    }
}

/// Events that all fall before the end of an open window fill what is left
/// of its quota and drop the rest, with no notice and no new window.
pub proof fn lemma_within_window(s: ThrottleView, times: Seq<nat>)
    requires
        s.wf(),
        s.started,
        forall|i: int| 0 <= i < times.len() ==> #[trigger] times[i] < s.window_end,
    ensures
        ({
            let c = min(times.len(), (s.quota - s.admitted) as nat);
            let r = s.run(times);
            &&& admitted_count(s.decisions(times)) == c
            &&& r.admitted == s.admitted + c
            &&& r.dropped == s.dropped + times.len() - c
            &&& r == ThrottleView { admitted: r.admitted, dropped: r.dropped, ..s }
        }),
        s.decisions(times).len() == times.len(),
        forall|i: int| 0 <= i < times.len() ==> (#[trigger] s.decisions(times)[i]).skipped == None::<nat>,
    decreases times.len(),
{
    if times.len() > 0 {
        let t = times[0];
        let rest = times.drop_first();
        let s1 = s.after(t);
        assert(forall|i: int| 0 <= i < rest.len() ==> rest[i] == times[i + 1]);
        lemma_within_window(s1, rest);
        let ds = s.decisions(times);
        assert(ds.drop_first() =~= s1.decisions(rest));
        assert forall|i: int| 0 <= i < times.len() implies (#[trigger] ds[i]).skipped == None::<nat> by {
            if i > 0 {
                assert(ds[i] == s1.decisions(rest)[i - 1]);
            }
        }
    }
}

/// Quota enforcement: a new throttle whose events all fall in the window
/// that the first of them opens, `[t0, t0 + window)`, admits exactly `quota`
/// of `quota + k` events and drops the other `k`.
pub proof fn lemma_quota_enforced(s: ThrottleView, times: Seq<nat>, k: nat)
    requires
        s.wf(),
        !s.started,
        times.len() == s.quota + k,
        forall|i: int|
            0 <= i < times.len() ==> times[0] <= #[trigger] times[i] < times[0] + s.window_ms,
    ensures
        admitted_count(s.decisions(times)) == s.quota,
        s.decisions(times).len() - admitted_count(s.decisions(times)) == k,
        s.run(times).admitted == s.quota,
        s.run(times).dropped == k,
{
    if times.len() > 0 {
        let t = times[0];
        let rest = times.drop_first();
        let s1 = s.after(t);
        assert(forall|i: int| 0 <= i < rest.len() ==> rest[i] == times[i + 1]);
        assert(forall|i: int| 0 <= i < rest.len() ==> #[trigger] rest[i] < s1.window_end);
        lemma_within_window(s1, rest);
        let ds = s.decisions(times);
        assert(ds.drop_first() =~= s1.decisions(rest));
    }
}

/// Window rollover: an event at or after the end of the current window is
/// judged in a fresh window that ends one window length after it; it is
/// admitted whenever the quota is positive, and it brings exactly one notice,
/// holding the closed window's drop count, when that count is positive and
/// warnings are shown.
pub proof fn lemma_rollover(s: ThrottleView, t1: nat)
    requires
        s.wf(),
        s.started,
        t1 >= s.window_end,
    ensures
        s.decision(t1).admitted == (s.quota > 0),
        s.decision(t1).skipped == (if s.display_warning && s.dropped > 0 {
            Some(s.dropped)
        } else {
            None
        }),
        s.after(t1).window_end == t1 + s.window_ms,
        s.after(t1).admitted == (if s.quota > 0 {
            1nat
        } else {
            0nat
        }),
        s.after(t1).dropped == (if s.quota > 0 {
            0nat
        } else {
            1nat
        }),
{
}

/// Warning suppression: with warnings off, no event brings a notice and the
/// end of the stream brings none, while every event gets the verdict it would
/// get with warnings on.
pub proof fn lemma_suppression(s: ThrottleView, times: Seq<nat>)
    requires
        !s.display_warning,
    ensures
        s.decisions(times).len() == times.len(),
        forall|i: int| 0 <= i < times.len() ==> (#[trigger] s.decisions(times)[i]).skipped == None::<nat>,
        s.run(times).final_notice() == None::<nat>,
        forall|i: int|
            0 <= i < times.len() ==> (#[trigger] s.decisions(times)[i]).admitted
                == s.with_warnings().decisions(times)[i].admitted,
    decreases times.len(),
{
    let w = s.with_warnings();
    if times.len() > 0 {
        let t = times[0];
        let rest = times.drop_first();
        let s1 = s.after(t);
        assert(w.after(t) == s1.with_warnings());
        lemma_suppression(s1, rest);
        lemma_decisions_len(w, times);
        lemma_decisions_len(w.after(t), rest);
        let ds = s.decisions(times);
        let dw = w.decisions(times);
        assert(ds.drop_first() =~= s1.decisions(rest));
        assert(dw.drop_first() =~= w.after(t).decisions(rest));
        assert forall|i: int| 0 <= i < times.len() implies (#[trigger] ds[i]).skipped == None::<nat>
            && ds[i].admitted == dw[i].admitted by {
            if i > 0 {
                assert(ds[i] == s1.decisions(rest)[i - 1]);
                assert(dw[i] == w.after(t).decisions(rest)[i - 1]);
            }
        }
    }
}

/// The times of a sequence of timestamped lines.
pub open spec fn times_of<T>(events: Seq<(nat, T)>) -> Seq<nat> {
    events.map_values(|e: (nat, T)| e.0)
}

impl ThrottleView {
    /// The lines passed downstream for a sequence of timestamped lines, in
    /// the order they are written.
    pub open spec fn emitted<T>(self, events: Seq<(nat, T)>) -> Seq<T>
        decreases events.len(),
    {
        if events.len() == 0 {
            Seq::empty()
        } else {
            let rest = self.after(events[0].0).emitted(events.drop_first());
            if self.admits(events[0].0) {
                seq![events[0].1] + rest
            } else {
                rest
            }
        }
    }

    /// The positions, in increasing order, of the admitted events among
    /// events at `times`.
    pub open spec fn admitted_positions(self, times: Seq<nat>) -> Seq<int>
        decreases times.len(),
    {
        if times.len() == 0 {
            Seq::empty()
        } else {
            let rest = self.after(times[0]).admitted_positions(times.drop_first()).map_values(
                |j: int| j + 1,
            );
            if self.admits(times[0]) {
                seq![0int] + rest
            } else {
                rest
            }
        }
    }
}

/// Ordering: the lines passed downstream are the admitted events' lines, in
/// the order the events arrived: the `j`-th line written is the line of the
/// `j`-th admitted event, positions strictly increase (no reordering, no
/// line twice), and every admitted event is among them.
pub proof fn lemma_emitted_in_order<T>(s: ThrottleView, events: Seq<(nat, T)>)
    ensures
        s.emitted(events).len() == s.admitted_positions(times_of(events)).len(),
        forall|j: int|
            0 <= j < s.emitted(events).len() ==> {
                let p = #[trigger] s.admitted_positions(times_of(events))[j];
                &&& 0 <= p < events.len()
                &&& s.emitted(events)[j] == events[p].1
                &&& s.decisions(times_of(events))[p].admitted
            },
        forall|j: int, k: int|
            0 <= j < k < s.emitted(events).len() ==> #[trigger] s.admitted_positions(
                times_of(events),
            )[j] < #[trigger] s.admitted_positions(times_of(events))[k],
        forall|i: int|
            0 <= i < events.len() && (#[trigger] s.decisions(times_of(events))[i]).admitted
                ==> exists|j: int|
                0 <= j < s.emitted(events).len() && s.admitted_positions(times_of(events))[j]
                    == i,
    decreases events.len(),
{
    let times = times_of(events);
    lemma_decisions_len(s, times);
    if events.len() > 0 {
        let t = events[0].0;
        let rest = events.drop_first();
        let s1 = s.after(t);
        let rt = times_of(rest);
        assert(rt =~= times.drop_first());
        lemma_emitted_in_order(s1, rest);
        lemma_decisions_len(s1, rt);
        let ds = s.decisions(times);
        assert(ds.drop_first() =~= s1.decisions(rt));
        let idx = s.admitted_positions(times);
        let idx1 = s1.admitted_positions(rt);
        let out = s.emitted(events);
        let out1 = s1.emitted(rest);
        let off: int = if s.admits(t) {
            1
        } else {
            0
        };
        assert forall|j: int| 0 <= j < idx1.len() implies idx[j + off] == idx1[j] + 1
            && out[j + off] == out1[j] by {}
        assert forall|i: int| 0 <= i < ds.len() && (#[trigger] ds[i]).admitted implies exists|
            j: int,
        | 0 <= j < out.len() && idx[j] == i by {
            if i == 0 {
                assert(idx[0] == 0);
            } else {
                assert(ds[i] == s1.decisions(rt)[i - 1]);
                let j1 = choose|j1: int| 0 <= j1 < out1.len() && idx1[j1] == i - 1;
                assert(idx[j1 + off] == i);
            }
        }
        assert forall|j: int| 0 <= j < out.len() implies {
            let p = #[trigger] idx[j];
            &&& 0 <= p < events.len()
            &&& out[j] == events[p].1
            &&& ds[p].admitted
        } by {
            if j >= off {
                let p1 = idx1[j - off];
                assert(idx[j] == p1 + 1);
                assert(ds[p1 + 1] == s1.decisions(rt)[p1]);
            }
        }
        assert forall|j: int, k: int| 0 <= j < k < out.len() implies #[trigger] idx[j]
            < #[trigger] idx[k] by {
            if j >= off {
                assert(idx1[j - off] < idx1[k - off]);
            } else {
                assert(idx1[k - off] >= 0);
            }
        }
    }
}

} // verus!
