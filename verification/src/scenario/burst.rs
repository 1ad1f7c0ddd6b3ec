//! How a phase's frames are dealt out over bursts.

use vstd::prelude::*;
use crate::config::Campaign;
use crate::ledger::{DeviceRecord, Session};
use crate::scenario::action::{Action, ActionModel};
use crate::scenario::engine::ScenarioEngine;
use crate::scenario::playbook::Event;
use crate::vuln::VulnDb;

verus! {

/// What a burst has sent, and where it stands in the phase: the event at
/// `cursor` has sent `offset` frames of what it rendered to with `pinned`.
pub ghost struct Burst {
    pub cursor: int,
    pub offset: int,
    pub pinned: Option<u64>,
    pub frames: Seq<Seq<u8>>,
}

/// The contents of a list of frames.
pub open spec fn frame_views(v: Seq<Vec<u8>>) -> Seq<Seq<u8>> {
    v.map_values(|f: Vec<u8>| f@)
}

/// The nonce that the event at the cursor renders with: the pinned one, else a
/// fresh one for its place.
pub open spec fn event_nonce(nonce: u64, b: Burst) -> u64 {
    match b.pinned {
        Some(n) => n,
        None => nonce.wrapping_add(b.cursor as u64),
    }
}

/// What the event at the cursor has yet to send.
pub open spec fn left_of(
    rendered: spec_fn(int, u64) -> Seq<Seq<u8>>,
    nonce: u64,
    b: Burst,
) -> Seq<Seq<u8>> {
    let all = rendered(b.cursor, event_nonce(nonce, b));
    if b.offset <= all.len() {
        all.skip(b.offset)
    } else {
        Seq::empty()
    }
}

/// The burst with the event at the cursor drained.
pub open spec fn drained(
    rendered: spec_fn(int, u64) -> Seq<Seq<u8>>,
    nonce: u64,
    b: Burst,
) -> Burst {
    Burst {
        cursor: b.cursor + 1,
        offset: 0,
        pinned: None,
        frames: b.frames + left_of(rendered, nonce, b),
    }
}

/// The burst with its room filled from the event at the cursor.
pub open spec fn spilled(
    rendered: spec_fn(int, u64) -> Seq<Seq<u8>>,
    cap: int,
    nonce: u64,
    b: Burst,
) -> Burst {
    let room = cap - b.frames.len();
    Burst {
        cursor: b.cursor,
        offset: b.offset + room,
        pinned: Some(event_nonce(nonce, b)),
        frames: b.frames + left_of(rendered, nonce, b).take(room),
    }
}

/// A burst carried on to its end: events are sent in turn, and the event that the
/// cap cuts carries its offset and its nonce into the next burst.
pub open spec fn filled(
    rendered: spec_fn(int, u64) -> Seq<Seq<u8>>,
    n: int,
    cap: int,
    nonce: u64,
    b: Burst,
) -> Burst
    decreases n - b.cursor,
{
    if b.cursor >= n || b.frames.len() >= cap {
        b
    } else if left_of(rendered, nonce, b).len() <= cap - b.frames.len() {
        filled(rendered, n, cap, nonce, drained(rendered, nonce, b))
    } else {
        spilled(rendered, cap, nonce, b)
    }
}

/// A renderer gives the frames that `g` says, for every action.
pub open spec fn renders<F: Fn(&Action) -> Vec<Vec<u8>>>(
    f: F,
    g: spec_fn(ActionModel) -> Seq<Seq<u8>>,
) -> bool {
    forall|a: Action, out: Vec<Vec<u8>>| #[trigger]
        f.ensures((&a,), out) ==> frame_views(out@) == g(a@)
}

/// Where the timeline stands.
pub ghost struct Stand {
    pub phase: int,
    pub cursor: int,
    pub bursts: int,
    pub offset: int,
    pub pinned: Option<u64>,
}

/// Append a run of frames.
fn append_frames(frames: &mut Vec<Vec<u8>>, src: &Vec<Vec<u8>>, lo: usize, hi: usize)
    requires
        lo <= hi <= src@.len(),
    ensures
        frame_views(final(frames)@) == frame_views(old(frames)@) + frame_views(src@).subrange(
            lo as int,
            hi as int,
        ),
{
    let mut k: usize = lo;
    proof {
        assert(frame_views(frames@) =~= frame_views(old(frames)@) + frame_views(src@).subrange(
            lo as int,
            lo as int,
        ));
    }
    while k < hi
        invariant
            lo <= k <= hi <= src@.len(),
            frame_views(frames@) == frame_views(old(frames)@) + frame_views(src@).subrange(
                lo as int,
                k as int,
            ),
        decreases hi - k,
    {
        let ghost before = frames@;
        frames.push(vstd::slice::slice_to_vec(src[k].as_slice()));
        proof {
            assert(frame_views(frames@) =~= frame_views(before).push(src@[k as int]@));
            assert(frame_views(src@).subrange(lo as int, k as int + 1) =~= frame_views(
                src@,
            ).subrange(lo as int, k as int).push(src@[k as int]@));
            assert(frame_views(frames@) =~= frame_views(old(frames)@) + frame_views(
                src@,
            ).subrange(lo as int, k as int + 1));
        }
        k += 1;
    }
}

impl ScenarioEngine {
    /// Where the engine stands.
    pub open spec fn stand(self) -> Stand {
        Stand {
            phase: self.phase_idx as int,
            cursor: self.event_cursor as int,
            bursts: self.bursts_in_phase as int,
            offset: self.event_frame_offset as int,
            pinned: self.spill_nonce,
        }
    }

    /// Apart from where they stand, two engines are the same.
    pub open spec fn same_scenario(self, other: ScenarioEngine) -> bool {
        self == ScenarioEngine {
            phase_idx: self.phase_idx,
            event_cursor: self.event_cursor,
            bursts_in_phase: self.bursts_in_phase,
            event_frame_offset: self.event_frame_offset,
            spill_nonce: self.spill_nonce,
            ..other
        }
    }

    /// What an event renders to.
    #[verifier::opaque]
    pub open spec fn event_frames(
        self,
        ev: Event,
        ds: Seq<DeviceRecord>,
        vuln: VulnDb,
        nonce: u64,
        g: spec_fn(ActionModel) -> Seq<Seq<u8>>,
    ) -> Seq<Seq<u8>> {
        match self.action_of(ev, ds, vuln, nonce) {
            Some(a) => g(a),
            None => Seq::empty(),
        }
    }

    /// What the events of the current phase render to, by place and nonce.
    pub open spec fn rendered(
        self,
        ds: Seq<DeviceRecord>,
        vuln: VulnDb,
        g: spec_fn(ActionModel) -> Seq<Seq<u8>>,
    ) -> spec_fn(int, u64) -> Seq<Seq<u8>> {
        |i: int, nonce: u64| self.event_frames(self.current().events@[i], ds, vuln, nonce, g)
    }

    /// The burst that the engine is about to send.
    pub open spec fn burst(
        self,
        ds: Seq<DeviceRecord>,
        vuln: VulnDb,
        nonce: u64,
        g: spec_fn(ActionModel) -> Seq<Seq<u8>>,
    ) -> Burst {
        filled(
            self.rendered(ds, vuln, g),
            self.current().events@.len() as int,
            self.max_frames_per_burst as int,
            nonce,
            Burst {
                cursor: self.event_cursor as int,
                offset: self.event_frame_offset as int,
                pinned: self.spill_nonce,
                frames: Seq::empty(),
            },
        )
    }

    /// The phase behind the current one. A one-shot campaign holds the last.
    pub open spec fn next_phase(self) -> int {
        if self.phase_idx + 1 < self.playbook.phases@.len() {
            self.phase_idx + 1
        } else if self.campaign == Campaign::Loop {
            0
        } else {
            self.phase_idx as int
        }
    }

    /// A burst ends the phase: its events are spent, none is cut, and it has dwelt
    /// its number of bursts.
    pub open spec fn ends_phase(self, b: Burst) -> bool {
        &&& b.cursor >= self.current().events@.len()
        &&& b.offset == 0
        &&& self.bursts_in_phase + 1 >= self.current().dwell_runs
    }

    /// Where a burst leaves the timeline.
    pub open spec fn stand_after(self, b: Burst) -> Stand {
        if self.ends_phase(b) {
            Stand { phase: self.next_phase(), cursor: 0, bursts: 0, offset: 0, pinned: None }
        } else {
            Stand {
                phase: self.phase_idx as int,
                cursor: b.cursor,
                bursts: self.bursts_in_phase + 1,
                offset: b.offset,
                pinned: b.pinned,
            }
        }
    }

    /// The frames of one event, by way of what it asks for.
    pub fn render_event<F: Fn(&Action) -> Vec<Vec<u8>>>(
        &self,
        ev: &Event,
        ledger: &Session,
        vuln: &VulnDb,
        nonce: u64,
        render: &F,
    ) -> (r: Vec<Vec<u8>>)
        requires
            forall|a: Action| #[trigger] render.requires((&a,)),
        ensures
            forall|g: spec_fn(ActionModel) -> Seq<Seq<u8>>| #[trigger]
                renders(*render, g) ==> frame_views(r@) == self.event_frames(
                    *ev,
                    ledger.devices@,
                    *vuln,
                    nonce,
                    g,
                ),
    {
        proof {
            reveal(ScenarioEngine::event_frames);
        }
        match self.event_action(ev, ledger, vuln, nonce) {
            Some(a) => render(&a),
            None => {
                let none: Vec<Vec<u8>> = Vec::new();
                proof {
                    assert(frame_views(none@) =~= Seq::empty());
                }
                none
            },
        }
    }

    fn advance(&mut self)
        requires
            old(self).wf(),
        ensures
            final(self).wf(),
            final(self).same_scenario(*old(self)),
            final(self).stand() == (Stand {
                phase: old(self).next_phase(),
                cursor: 0,
                bursts: 0,
                offset: 0,
                pinned: None,
            }),
    {
        self.event_cursor = 0;
        self.bursts_in_phase = 0;
        self.event_frame_offset = 0;
        self.spill_nonce = None;
        let last: usize = self.playbook.phases.len() - 1;
        if self.phase_idx < last {
            self.phase_idx = self.phase_idx + 1;
        } else if self.campaign == Campaign::Loop {
            self.phase_idx = 0;
        }
    }

    /// Send this burst's frames and advance the timeline. Called once per
    /// identity-announce burst, so dwell and pacing are measured in bursts. What a
    /// renderer that always answers alike renders, the burst and the timeline are
    /// fixed by.
    pub fn phase_frames<F: Fn(&Action) -> Vec<Vec<u8>>>(
        &mut self,
        ledger: &Session,
        vuln: &VulnDb,
        nonce: u64,
        render: &F,
    ) -> (r: Vec<Vec<u8>>)
        requires
            old(self).wf(),
            old(self).bursts_in_phase < u64::MAX,
            forall|a: Action| #[trigger] render.requires((&a,)),
        ensures
            final(self).wf(),
            final(self).same_scenario(*old(self)),
            r@.len() <= old(self).max_frames_per_burst,
            forall|g: spec_fn(ActionModel) -> Seq<Seq<u8>>| #[trigger]
                renders(*render, g) ==> {
                    let b = old(self).burst(ledger.devices@, *vuln, nonce, g);
                    &&& frame_views(r@) == b.frames
                    &&& final(self).stand() == old(self).stand_after(b)
                },
    {
        let n: usize = self.current_phase().events.len();
        let dwell: u64 = self.current_phase().dwell_runs;
        let cap: usize = self.max_frames_per_burst;
        let ghost me = *self;
        let ghost ds = ledger.devices@;
        let mut frames: Vec<Vec<u8>> = Vec::new();
        let mut cursor: usize = self.event_cursor;
        let mut offset: usize = self.event_frame_offset;
        let mut pinned: Option<u64> = self.spill_nonce;
        proof {
            assert(frame_views(frames@) =~= Seq::empty());
        }
        while cursor < n && frames.len() < cap
            invariant
                me == *self,
                me.wf(),
                ds == ledger.devices@,
                n == me.current().events@.len(),
                cap == me.max_frames_per_burst,
                frames@.len() <= cap,
                forall|a: Action| #[trigger] render.requires((&a,)),
                forall|g: spec_fn(ActionModel) -> Seq<Seq<u8>>| #[trigger]
                    renders(*render, g) ==> me.burst(ds, *vuln, nonce, g) == filled(
                        me.rendered(ds, *vuln, g),
                        n as int,
                        cap as int,
                        nonce,
                        Burst {
                            cursor: cursor as int,
                            offset: offset as int,
                            pinned,
                            frames: frame_views(frames@),
                        },
                    ),
            decreases (n - cursor) + (cap - frames@.len()),
        {
            let room: usize = cap - frames.len();
            let ev_nonce: u64 = match pinned {
                Some(p) => p,
                None => nonce.wrapping_add(cursor as u64),
            };
            let ghost here = Burst {
                cursor: cursor as int,
                offset: offset as int,
                pinned,
                frames: frame_views(frames@),
            };
            let ev_frames = self.render_event(
                &self.playbook.phases[self.phase_idx].events[cursor],
                ledger,
                vuln,
                ev_nonce,
                render,
            );
            let total: usize = ev_frames.len();
            let start: usize = if offset <= total {
                offset
            } else {
                total
            };
            let remaining: usize = total - start;
            let take: usize = if remaining <= room {
                remaining
            } else {
                room
            };
            append_frames(&mut frames, &ev_frames, start, start + take);
            proof {
                let sent = frame_views(frames@);
                assert(sent.len() == frames@.len());
                assert forall|g: spec_fn(ActionModel) -> Seq<Seq<u8>>| #[trigger]
                    renders(*render, g) implies {
                    let rendered = me.rendered(ds, *vuln, g);
                    if take == remaining {
                        me.burst(ds, *vuln, nonce, g) == filled(
                            rendered,
                            n as int,
                            cap as int,
                            nonce,
                            Burst {
                                cursor: cursor + 1,
                                offset: 0,
                                pinned: None,
                                frames: sent,
                            },
                        )
                    } else {
                        me.burst(ds, *vuln, nonce, g) == Burst {
                            cursor: cursor as int,
                            offset: offset + take,
                            pinned: Some(ev_nonce),
                            frames: sent,
                        }
                    }
                } by {
                    let rendered = me.rendered(ds, *vuln, g);
                    let all = rendered(cursor as int, ev_nonce);
                    assert(event_nonce(nonce, here) == ev_nonce);
                    assert(frame_views(ev_frames@) == all);
                    let left = left_of(rendered, nonce, here);
                    if offset <= total {
                        assert(left =~= all.skip(offset as int));
                    }
                    assert(left.len() == remaining);
                    assert(all.subrange(start as int, start + take) =~= left.take(take as int));
                    if take == remaining {
                        assert(left.take(take as int) =~= left);
                        assert(drained(rendered, nonce, here).frames =~= sent);
                    } else {
                        assert(spilled(rendered, cap as int, nonce, here).frames =~= sent);
                    }
                }
            }
            if take == remaining {
                offset = 0;
                pinned = None;
                cursor = cursor + 1;
            } else {
                offset = offset + take;
                pinned = Some(ev_nonce);
            }
        }
        self.event_cursor = cursor;
        self.event_frame_offset = offset;
        self.spill_nonce = pinned;
        self.bursts_in_phase = self.bursts_in_phase + 1;
        if cursor >= n && offset == 0 && self.bursts_in_phase >= dwell {
            self.advance();
        }
        frames
    }
}

/// A burst that starts within the cap ends within it.
pub proof fn law_burst_within_cap(
    rendered: spec_fn(int, u64) -> Seq<Seq<u8>>,
    n: int,
    cap: int,
    nonce: u64,
    b: Burst,
)
    requires
        b.frames.len() <= cap,
    ensures
        filled(rendered, n, cap, nonce, b).frames.len() <= cap,
    decreases n - b.cursor,
{
    if b.cursor < n && b.frames.len() < cap {
        if left_of(rendered, nonce, b).len() <= cap - b.frames.len() {
            law_burst_within_cap(rendered, n, cap, nonce, drained(rendered, nonce, b));
        }
    }
}

/// The carried state is sound: an event is part-sent exactly where a nonce is
/// pinned, and has frames left.
pub open spec fn sound(rendered: spec_fn(int, u64) -> Seq<Seq<u8>>, b: Burst) -> bool {
    match b.pinned {
        Some(p) => 0 < b.offset < rendered(b.cursor, p).len(),
        None => b.offset == 0,
    }
}

/// All frames of the first events, each rendered with its nonce.
pub open spec fn whole(
    rendered: spec_fn(int, u64) -> Seq<Seq<u8>>,
    nonces: Seq<u64>,
) -> Seq<Seq<u8>>
    decreases nonces.len(),
{
    if nonces.len() == 0 {
        Seq::empty()
    } else {
        whole(rendered, nonces.drop_last()) + rendered(nonces.len() - 1, nonces.last())
    }
}

/// Everything that a phase has sent when it stands at `b`: the events before the
/// cursor, whole, and the part of the event at it that is sent.
pub open spec fn sent_by(
    rendered: spec_fn(int, u64) -> Seq<Seq<u8>>,
    nonces: Seq<u64>,
    b: Burst,
) -> Seq<Seq<u8>> {
    match b.pinned {
        Some(p) => whole(rendered, nonces) + rendered(b.cursor, p).take(b.offset),
        None => whole(rendered, nonces),
    }
}

/// The nonces of the events that a burst drains from `b` on.
pub open spec fn nonces_on(
    rendered: spec_fn(int, u64) -> Seq<Seq<u8>>,
    n: int,
    cap: int,
    nonce: u64,
    b: Burst,
    before: Seq<u64>,
) -> Seq<u64>
    decreases n - b.cursor,
{
    if b.cursor >= n || b.frames.len() >= cap {
        before
    } else if left_of(rendered, nonce, b).len() <= cap - b.frames.len() {
        nonces_on(
            rendered,
            n,
            cap,
            nonce,
            drained(rendered, nonce, b),
            before.push(event_nonce(nonce, b)),
        )
    } else {
        before
    }
}

/// Spilled frames reassemble the events, in order and with none dropped: what a
/// phase has sent after a burst is what it had sent before and the burst's frames
/// behind that, each event whole in the frames of the one nonce that it was first
/// rendered with.
pub proof fn law_bursts_reassemble(
    rendered: spec_fn(int, u64) -> Seq<Seq<u8>>,
    n: int,
    cap: int,
    nonce: u64,
    b: Burst,
    nonces: Seq<u64>,
)
    requires
        sound(rendered, b),
        0 <= b.cursor,
        nonces.len() == b.cursor,
        b.frames.len() <= cap,
    ensures
        ({
            let e = filled(rendered, n, cap, nonce, b);
            let after = nonces_on(rendered, n, cap, nonce, b, nonces);
            &&& sound(rendered, e)
            &&& after.len() == e.cursor
            &&& e.frames.len() >= b.frames.len()
            &&& e.frames.take(b.frames.len() as int) == b.frames
            &&& sent_by(rendered, after, e) == sent_by(rendered, nonces, b) + e.frames.skip(
                b.frames.len() as int,
            )
        }),
    decreases n - b.cursor,
{
    let e = filled(rendered, n, cap, nonce, b);
    let sent = sent_by(rendered, nonces, b);
    let left = left_of(rendered, nonce, b);
    let ev = event_nonce(nonce, b);
    let all = rendered(b.cursor, ev);
    if b.cursor >= n || b.frames.len() >= cap {
        assert(e.frames.take(b.frames.len() as int) =~= b.frames);
        assert(sent + e.frames.skip(b.frames.len() as int) =~= sent);
    } else if left.len() <= cap - b.frames.len() {
        let d = drained(rendered, nonce, b);
        let more = nonces.push(ev);
        assert(more.drop_last() =~= nonces);
        assert(left == all.skip(b.offset));
        assert(all.take(b.offset) + all.skip(b.offset) =~= all);
        assert(whole(rendered, nonces) + all =~= sent + left);
        assert(sent_by(rendered, more, d) == sent + left);
        law_bursts_reassemble(rendered, n, cap, nonce, d, more);
        assert(e.frames.take(b.frames.len() as int) =~= e.frames.take(
            d.frames.len() as int,
        ).take(b.frames.len() as int));
        assert(d.frames.take(b.frames.len() as int) =~= b.frames);
        assert(left + e.frames.skip(d.frames.len() as int) =~= e.frames.skip(
            b.frames.len() as int,
        )) by {
            assert forall|i: int| 0 <= i < left.len() implies #[trigger] left[i] == e.frames[b.frames.len()
                + i] by {
                assert(e.frames.take(d.frames.len() as int)[b.frames.len() + i] == d.frames[b.frames.len()
                    + i]);
            }
        }
        assert(sent + left + e.frames.skip(d.frames.len() as int) =~= sent + (left
            + e.frames.skip(d.frames.len() as int)));
    } else {
        let room = cap - b.frames.len();
        assert(left == all.skip(b.offset));
        assert(e.frames.take(b.frames.len() as int) =~= b.frames);
        assert(e.frames.skip(b.frames.len() as int) =~= left.take(room));
        assert(all.take(b.offset + room) =~= all.take(b.offset) + left.take(room));
        assert(sent_by(rendered, nonces, e) =~= sent + left.take(room));
    }
}

/// A burst with room and events to send makes headway: it drains an event, or
/// fills the burst.
pub proof fn law_burst_makes_headway(
    rendered: spec_fn(int, u64) -> Seq<Seq<u8>>,
    n: int,
    cap: int,
    nonce: u64,
    b: Burst,
)
    requires
        b.cursor < n,
        b.frames.len() < cap,
    ensures
        ({
            let e = filled(rendered, n, cap, nonce, b);
            e.cursor > b.cursor || e.frames.len() == cap
        }),
    decreases n - b.cursor,
{
    let d = drained(rendered, nonce, b);
    if left_of(rendered, nonce, b).len() <= cap - b.frames.len() {
        lemma_cursor_only_grows(rendered, n, cap, nonce, d);
    }
}

proof fn lemma_cursor_only_grows(
    rendered: spec_fn(int, u64) -> Seq<Seq<u8>>,
    n: int,
    cap: int,
    nonce: u64,
    b: Burst,
)
    ensures
        filled(rendered, n, cap, nonce, b).cursor >= b.cursor,
    decreases n - b.cursor,
{
    if b.cursor < n && b.frames.len() < cap && left_of(rendered, nonce, b).len() <= cap
        - b.frames.len() {
        lemma_cursor_only_grows(rendered, n, cap, nonce, drained(rendered, nonce, b));
    }
}

/// The timeline does not leave a phase while events of it are unsent or part-sent,
/// so an oversized action lands whole before the timeline moves; nor before the
/// phase has dwelt its bursts.
pub proof fn law_phase_holds_until_drained(e: ScenarioEngine, b: Burst)
    requires
        b.cursor < e.current().events@.len() || b.offset > 0 || e.bursts_in_phase + 1
            < e.current().dwell_runs,
    ensures
        e.stand_after(b).phase == e.phase_idx,
        e.stand_after(b).cursor == b.cursor,
        e.stand_after(b).offset == b.offset,
        e.stand_after(b).pinned == b.pinned,
{
}

/// The timeline moves one phase at a time; past the last a one-shot campaign
/// stays there, and a loop starts over. It always stands at a phase.
pub proof fn law_timeline(e: ScenarioEngine, b: Burst)
    requires
        e.wf(),
    ensures
        ({
            let s = e.stand_after(b);
            let last = e.playbook.phases@.len() - 1;
            &&& 0 <= s.phase <= last
            &&& e.ends_phase(b) && e.phase_idx < last ==> s.phase == e.phase_idx + 1
            &&& e.ends_phase(b) && e.phase_idx == last && e.campaign == Campaign::Oneshot
                ==> s.phase == last
            &&& e.ends_phase(b) && e.phase_idx == last && e.campaign == Campaign::Loop ==> s.phase
                == 0
        }),
{
}

/// One engine is another after a burst.
pub open spec fn bursts_to(
    e: ScenarioEngine,
    f: ScenarioEngine,
    ds: Seq<DeviceRecord>,
    vuln: VulnDb,
    nonce: u64,
    g: spec_fn(ActionModel) -> Seq<Seq<u8>>,
) -> bool {
    &&& f.wf()
    &&& f.same_scenario(e)
    &&& f.stand() == e.stand_after(e.burst(ds, vuln, nonce, g))
}

/// What an engine sends over bursts of the given nonces, standing at each of `es` in
/// turn.
pub open spec fn sent_over(
    es: Seq<ScenarioEngine>,
    ds: Seq<DeviceRecord>,
    vuln: VulnDb,
    nonces: Seq<u64>,
    g: spec_fn(ActionModel) -> Seq<Seq<u8>>,
) -> Seq<Seq<u8>>
    decreases nonces.len(),
{
    if nonces.len() == 0 {
        Seq::empty()
    } else {
        sent_over(es, ds, vuln, nonces.drop_last(), g) + es[nonces.len() - 1].burst(
            ds,
            vuln,
            nonces.last(),
            g,
        ).frames
    }
}

/// Engines that differ in where they stand render an event alike.
proof fn lemma_renders_alike(
    e: ScenarioEngine,
    f: ScenarioEngine,
    ds: Seq<DeviceRecord>,
    vuln: VulnDb,
    g: spec_fn(ActionModel) -> Seq<Seq<u8>>,
)
    requires
        f.same_scenario(e),
        f.phase_idx == e.phase_idx,
    ensures
        f.rendered(ds, vuln, g) == e.rendered(ds, vuln, g),
        f.current() == e.current(),
{
    assert forall|i: int, n: u64| #[trigger]
        f.rendered(ds, vuln, g)(i, n) == e.rendered(ds, vuln, g)(i, n) by {
        reveal(ScenarioEngine::event_frames);
    }
    assert(f.rendered(ds, vuln, g) =~= e.rendered(ds, vuln, g));
}

/// How far a phase of one event has come: part of the event is sent, and the phase
/// holds; or all of it is.
spec fn event_progress(
    first: ScenarioEngine,
    now: ScenarioEngine,
    full: Seq<Seq<u8>>,
    nonce: u64,
    bursts: nat,
    sent: Seq<Seq<u8>>,
) -> bool {
    ||| {
        &&& sent.len() < full.len()
        &&& sent == full.take(sent.len() as int)
        &&& sent.len() == bursts * first.max_frames_per_burst
        &&& now.phase_idx == first.phase_idx
        &&& now.event_cursor == 0
        &&& now.event_frame_offset == sent.len()
        &&& now.spill_nonce == if bursts == 0 {
            None
        } else {
            Some(nonce)
        }
    }
    ||| sent.len() >= full.len() && sent.take(full.len() as int) == full
}

proof fn lemma_event_progress(
    first: ScenarioEngine,
    now: ScenarioEngine,
    next: ScenarioEngine,
    ds: Seq<DeviceRecord>,
    vuln: VulnDb,
    n0: u64,
    nonce: u64,
    g: spec_fn(ActionModel) -> Seq<Seq<u8>>,
    bursts: nat,
    sent: Seq<Seq<u8>>,
)
    requires
        first.wf(),
        now.same_scenario(first),
        bursts == 0 ==> nonce == n0,
        first.current().events@.len() == 1,
        event_progress(
            first,
            now,
            first.event_frames(first.current().events@[0], ds, vuln, n0, g),
            n0,
            bursts,
            sent,
        ),
        bursts_to(now, next, ds, vuln, nonce, g),
    ensures
        now.burst(ds, vuln, nonce, g).frames.len() <= first.max_frames_per_burst,
        event_progress(
            first,
            next,
            first.event_frames(first.current().events@[0], ds, vuln, n0, g),
            n0,
            bursts + 1,
            sent + now.burst(ds, vuln, nonce, g).frames,
        ),
{
    let full = first.event_frames(first.current().events@[0], ds, vuln, n0, g);
    let cap = first.max_frames_per_burst as int;
    let b0 = Burst {
        cursor: now.event_cursor as int,
        offset: now.event_frame_offset as int,
        pinned: now.spill_nonce,
        frames: Seq::empty(),
    };
    let rendered = now.rendered(ds, vuln, g);
    let b = now.burst(ds, vuln, nonce, g);
    law_burst_within_cap(rendered, now.current().events@.len() as int, cap, nonce, b0);
    let after = sent + b.frames;
    if sent.len() >= full.len() {
        assert(after.take(full.len() as int) =~= full);
    } else {
        lemma_renders_alike(first, now, ds, vuln, g);
        assert(rendered(0, n0) == full);
        assert(event_nonce(nonce, b0) == n0);
        let left = left_of(rendered, nonce, b0);
        assert(left =~= full.skip(sent.len() as int));
        if left.len() <= cap {
            let d = drained(rendered, nonce, b0);
            assert(b == filled(rendered, 1, cap, nonce, d));
            assert(b == d);
            assert(b.frames =~= left);
            assert(after =~= full);
            assert(after.take(full.len() as int) =~= full);
        } else {
            assert(b == spilled(rendered, cap, nonce, b0));
            assert(b.frames =~= left.take(cap));
            assert(after =~= full.take(sent.len() + cap));
            assert(bursts * cap + cap == (bursts + 1) * cap) by (nonlinear_arith);
        }
    }
}

/// An event lands whole: where a phase has one event, every burst stays within the
/// cap, and what the bursts send, one after the other, begins with the frames of the
/// event as rendered with the nonce of the first burst, in order, with nothing lost
/// or sent twice. The phase does not change before all of them are sent, and each
/// burst before that is full.
pub proof fn law_event_lands_whole(
    es: Seq<ScenarioEngine>,
    ds: Seq<DeviceRecord>,
    vuln: VulnDb,
    nonces: Seq<u64>,
    g: spec_fn(ActionModel) -> Seq<Seq<u8>>,
)
    requires
        nonces.len() > 0,
        es.len() == nonces.len() + 1,
        es[0].wf(),
        es[0].event_cursor == 0,
        es[0].event_frame_offset == 0,
        es[0].spill_nonce is None,
        es[0].current().events@.len() == 1,
        forall|i: int|
            0 <= i < nonces.len() ==> bursts_to(
                #[trigger] es[i],
                es[i + 1],
                ds,
                vuln,
                nonces[i],
                g,
            ),
    ensures
        ({
            let full = es[0].event_frames(es[0].current().events@[0], ds, vuln, nonces[0], g);
            let sent = sent_over(es, ds, vuln, nonces, g);
            &&& forall|i: int|
                0 <= i < nonces.len() ==> (#[trigger] es[i]).burst(
                    ds,
                    vuln,
                    nonces[i],
                    g,
                ).frames.len() <= es[0].max_frames_per_burst
            &&& sent.len() >= full.len() ==> sent.take(full.len() as int) == full
            &&& sent.len() < full.len() ==> {
                &&& sent == full.take(sent.len() as int)
                &&& sent.len() == nonces.len() * es[0].max_frames_per_burst
                &&& es.last().phase_idx == es[0].phase_idx
            }
        }),
{
    let full = es[0].event_frames(es[0].current().events@[0], ds, vuln, nonces[0], g);
    lemma_event_lands(es, ds, vuln, nonces, g, nonces.len() as int);
    assert(nonces.take(nonces.len() as int) =~= nonces);
}

proof fn lemma_event_lands(
    es: Seq<ScenarioEngine>,
    ds: Seq<DeviceRecord>,
    vuln: VulnDb,
    nonces: Seq<u64>,
    g: spec_fn(ActionModel) -> Seq<Seq<u8>>,
    k: int,
)
    requires
        0 <= k <= nonces.len(),
        nonces.len() > 0,
        es.len() == nonces.len() + 1,
        es[0].wf(),
        es[0].event_cursor == 0,
        es[0].event_frame_offset == 0,
        es[0].spill_nonce is None,
        es[0].current().events@.len() == 1,
        forall|i: int|
            0 <= i < nonces.len() ==> bursts_to(
                #[trigger] es[i],
                es[i + 1],
                ds,
                vuln,
                nonces[i],
                g,
            ),
    ensures
        es[k].same_scenario(es[0]),
        event_progress(
            es[0],
            es[k],
            es[0].event_frames(es[0].current().events@[0], ds, vuln, nonces[0], g),
            nonces[0],
            k as nat,
            sent_over(es, ds, vuln, nonces.take(k), g),
        ),
        forall|i: int|
            0 <= i < k ==> (#[trigger] es[i]).burst(ds, vuln, nonces[i], g).frames.len()
                <= es[0].max_frames_per_burst,
    decreases k,
{
    let full = es[0].event_frames(es[0].current().events@[0], ds, vuln, nonces[0], g);
    if k == 0 {
        let sent = sent_over(es, ds, vuln, nonces.take(0), g);
        assert(sent =~= Seq::empty());
        assert(full.take(0) =~= sent);
        assert(full.len() == 0 ==> sent.take(0) =~= full);
        assert(0nat * es[0].max_frames_per_burst == 0);
    } else {
        lemma_event_lands(es, ds, vuln, nonces, g, k - 1);
        let sent = sent_over(es, ds, vuln, nonces.take(k - 1), g);
        assert(nonces.take(k).drop_last() =~= nonces.take(k - 1));
        assert(nonces.take(k).last() == nonces[k - 1]);
        assert(nonces.take(k).len() == k);
        assert(sent_over(es, ds, vuln, nonces.take(k), g) == sent + es[k - 1].burst(
            ds,
            vuln,
            nonces[k - 1],
            g,
        ).frames);
        assert(bursts_to(es[k - 1], es[k], ds, vuln, nonces[k - 1], g));
        lemma_event_progress(
            es[0],
            es[k - 1],
            es[k],
            ds,
            vuln,
            nonces[0],
            nonces[k - 1],
            g,
            (k - 1) as nat,
            sent,
        );
    }
}

} // verus!
