//! What holds of the cache and of the controller whatever is done to them.
//!
//! The emulator is deterministic: the state it is in after a frame is a
//! function of the state before and of the frame's input record. The laws on
//! the controller take that function as a parameter, so they hold of every
//! emulator.

use super::greenzone::{
    floor_of,
    is_floor,
    lemma_floor,
    lemma_floor_unique,
    lemma_zone_invalidate,
    lemma_zone_save,
    zone_invalidate,
    zone_ok,
    zone_save,
};
use super::model::{RecordModeView, TasView};
use super::movie::lemma_chunks_one;
use vstd::prelude::*;

verus! {

/// One operation on the snapshot cache.
pub enum ZoneOp {
    Save { frame: u32, state: Seq<u8> },
    Invalidate { after: u32 },
}

/// The cache after `op`.
pub open spec fn zone_apply(zone: Map<u32, Seq<u8>>, capacity: nat, recent: u32, op: ZoneOp) -> Map<
    u32,
    Seq<u8>,
> {
    match op {
        ZoneOp::Save { frame, state } => zone_save(zone, capacity, recent, frame, state),
        ZoneOp::Invalidate { after } => zone_invalidate(zone, after),
    }
}

/// The cache after `ops`, one after the other.
pub open spec fn zone_run(
    zone: Map<u32, Seq<u8>>,
    capacity: nat,
    recent: u32,
    ops: Seq<ZoneOp>,
) -> Map<u32, Seq<u8>>
    decreases ops.len(),
{
    if ops.len() == 0 {
        zone
    } else {
        zone_apply(zone_run(zone, capacity, recent, ops.drop_last()), capacity, recent, ops.last())
    }
}

/// After any sequence of saves and invalidations the cache still holds a
/// snapshot for frame 0, and a lookup of frame 0 finds it.
pub proof fn law_frame_zero_stays(
    zone: Map<u32, Seq<u8>>,
    capacity: nat,
    recent: u32,
    ops: Seq<ZoneOp>,
)
    requires
        zone_ok(zone, capacity, recent),
    ensures
        zone_ok(zone_run(zone, capacity, recent, ops), capacity, recent),
        zone_run(zone, capacity, recent, ops).dom().contains(0),
        floor_of(zone_run(zone, capacity, recent, ops).dom(), 0) == 0,
    decreases ops.len(),
{
    if ops.len() > 0 {
        let prior = zone_run(zone, capacity, recent, ops.drop_last());
        law_frame_zero_stays(zone, capacity, recent, ops.drop_last());
        match ops.last() {
            ZoneOp::Save { frame, state } => {
                lemma_zone_save(prior, capacity, recent, frame, state);
            },
            ZoneOp::Invalidate { after } => {
                lemma_zone_invalidate(prior, capacity, recent, after);
            },
        }
    }
    lemma_floor(zone_run(zone, capacity, recent, ops), 0);
}

/// A lookup never finds a snapshot for a frame after the one asked for, and
/// finds the one asked for where it is stored.
pub proof fn law_lookup_not_after(zone: Map<u32, Seq<u8>>, capacity: nat, recent: u32, frame: u32)
    requires
        zone_ok(zone, capacity, recent),
    ensures
        floor_of(zone.dom(), frame) <= frame,
        zone.dom().contains(floor_of(zone.dom(), frame)),
        zone.dom().contains(frame) ==> floor_of(zone.dom(), frame) == frame,
{
    lemma_floor(zone, frame);
    if zone.dom().contains(frame) {
        assert(is_floor(zone.dom(), frame, frame));
        lemma_floor_unique(zone.dom(), frame, frame);
    }
}

/// After an invalidation no frame after the one given is covered, and the
/// emulator is not past it.
pub proof fn law_invalidate_uncovers(v: TasView, after: u32)
    requires
        v.wf(),
    ensures
        v.invalidate(after).wf(),
        forall|j: u32| j > after ==> !v.invalidate(after).zone.dom().contains(j),
        v.invalidate(after).next_emulator_frame <= after || v.invalidate(after).next_emulator_frame
            == v.next_emulator_frame,
{
    v.lemma_invalidate(after);
}

/// After an overwrite or an insertion at frame `idx` no frame after `idx` is
/// covered.
pub proof fn law_edit_uncovers(v: TasView, idx: u32, bytes: Seq<u8>)
    requires
        v.wf(),
    ensures
        forall|j: u32| j > idx ==> !v.overwrite(idx, bytes).zone.dom().contains(j),
        forall|j: u32| j > idx ==> !v.insert(idx, bytes).zone.dom().contains(j),
{
    v.lemma_invalidate(idx);
}

/// Seeking to a frame twice is seeking to it once: the second call changes
/// neither the cursors nor the state that the emulator is restored to.
pub proof fn law_seek_twice(v: TasView, frame: u32)
    requires
        v.wf(),
    ensures
        v.seek(frame).seek(frame) == v.seek(frame),
        v.seek(frame).seek(frame).engine_state() == v.seek(frame).engine_state(),
{
}

/// The input log never shrinks: whatever the controller does, the log has at
/// least as many records afterwards.
pub proof fn law_log_never_shrinks(v: TasView, frame: u32, bytes: Seq<u8>, elapsed: u64)
    requires
        v.wf(),
    ensures
        v.invalidate(frame).log == v.log,
        v.seek(frame).log == v.log,
        v.step(bytes).log == v.log,
        v.select_next(frame).log == v.log,
        v.select_prev(frame).log == v.log,
        v.toggle_playback().log == v.log,
        v.accrue(elapsed).log == v.log,
        v.consume().log == v.log,
        frame < v.log.len() ==> v.overwrite(frame, bytes).log.len() == v.log.len(),
        frame <= v.log.len() ==> v.insert(frame, bytes).log.len() >= v.log.len(),
        v.decide().log.len() >= v.log.len(),
{
    v.lemma_decide();
    if v.step_owed() && !v.catching_up() && v.plays() {
        let at = (v.playback_cursor + 1) as u32;
        match v.recording() {
            RecordModeView::ReadOnly => {},
            RecordModeView::Overwrite(record) => {},
            RecordModeView::Insert(record) => {
                lemma_chunks_one(record, v.frame_size());
                v.lemma_insert(at, record);
            },
        }
    }
}

/// The state of an emulator that started in `start` and ran the first
/// `frames` frames of `log`.
pub open spec fn replay(
    engine: spec_fn(Seq<u8>, Seq<u8>) -> Seq<u8>,
    start: Seq<u8>,
    log: Seq<Seq<u8>>,
    frames: nat,
) -> Seq<u8>
    decreases frames,
{
    if frames == 0 {
        start
    } else {
        engine(replay(engine, start, log, (frames - 1) as nat), log[frames - 1])
    }
}

/// Every snapshot in the cache is the state the emulator gets to from the
/// snapshot of frame 0 by running the log, as it is now, up to the
/// snapshot's frame.
pub open spec fn coherent(v: TasView, engine: spec_fn(Seq<u8>, Seq<u8>) -> Seq<u8>) -> bool {
    forall|k: u32| #[trigger]
        v.zone.dom().contains(k) ==> v.zone[k] == replay(engine, v.zone[0], v.log, k as nat)
}

/// The controller after the emulator ran `frames` frames, each reported with
/// the state the emulator was in afterwards.
pub open spec fn run(v: TasView, engine: spec_fn(Seq<u8>, Seq<u8>) -> Seq<u8>, frames: nat) -> TasView
    decreases frames,
{
    if frames == 0 {
        v
    } else {
        let prior = run(v, engine, (frames - 1) as nat);
        prior.step(engine(prior.engine_state(), prior.next_input()))
    }
}

/// The controller once the emulator has run the frames that the view waits
/// for.
pub open spec fn caught_up(v: TasView, engine: spec_fn(Seq<u8>, Seq<u8>) -> Seq<u8>) -> TasView {
    run(v, engine, (v.playback_cursor + 1 - v.next_emulator_frame) as nat)
}

/// Replaying a number of frames reads no record from that frame on.
pub proof fn lemma_replay_prefix(
    engine: spec_fn(Seq<u8>, Seq<u8>) -> Seq<u8>,
    start: Seq<u8>,
    log: Seq<Seq<u8>>,
    other: Seq<Seq<u8>>,
    frames: nat,
)
    requires
        forall|i: int| 0 <= i < frames ==> log[i] == other[i],
    ensures
        replay(engine, start, log, frames) == replay(engine, start, other, frames),
    decreases frames,
{
    if frames > 0 {
        lemma_replay_prefix(engine, start, log, other, (frames - 1) as nat);
    }
}

/// In a coherent controller the emulator is in the state that running the
/// log from frame 0 leads to.
pub proof fn law_engine_state(v: TasView, engine: spec_fn(Seq<u8>, Seq<u8>) -> Seq<u8>)
    requires
        v.wf(),
        coherent(v, engine),
    ensures
        v.engine_state() == replay(engine, v.zone[0], v.log, v.next_emulator_frame as nat),
{
}

/// A new controller is coherent.
pub proof fn law_initial_coherent(v: TasView, engine: spec_fn(Seq<u8>, Seq<u8>) -> Seq<u8>)
    requires
        v.zone.dom() == set![0u32],
    ensures
        coherent(v, engine),
{
}

/// A frame reported with the emulator's true state keeps the controller
/// coherent.
pub proof fn law_step_coherent(v: TasView, engine: spec_fn(Seq<u8>, Seq<u8>) -> Seq<u8>)
    requires
        v.wf(),
        coherent(v, engine),
        v.can_step(),
    ensures
        coherent(v.step(engine(v.engine_state(), v.next_input())), engine),
        v.step(engine(v.engine_state(), v.next_input())).zone[0] == v.zone[0],
{
    let state = engine(v.engine_state(), v.next_input());
    let next = (v.next_emulator_frame + 1) as u32;
    lemma_zone_save(v.zone, v.capacity, v.recent, next, state);
    let after = v.step(state);
    assert(after.zone.dom().contains(0));
    assert forall|k: u32| #[trigger] after.zone.dom().contains(k) implies after.zone[k] == replay(
        engine,
        after.zone[0],
        after.log,
        k as nat,
    ) by {
        if k == next {
            assert(v.zone.dom().contains(v.next_emulator_frame));
        } else {
            assert(v.zone.dom().contains(k));
        }
    }
}

/// Seeking and moving the selection keep the controller coherent.
pub proof fn law_seek_coherent(
    v: TasView,
    engine: spec_fn(Seq<u8>, Seq<u8>) -> Seq<u8>,
    frame: u32,
)
    requires
        v.wf(),
        coherent(v, engine),
    ensures
        coherent(v.seek(frame), engine),
        coherent(v.select_next(frame), engine),
        coherent(v.select_prev(frame), engine),
{
}

/// An invalidation keeps the controller coherent.
pub proof fn law_invalidate_coherent(
    v: TasView,
    engine: spec_fn(Seq<u8>, Seq<u8>) -> Seq<u8>,
    after: u32,
)
    requires
        v.wf(),
        coherent(v, engine),
    ensures
        coherent(v.invalidate(after), engine),
        v.invalidate(after).zone[0] == v.zone[0],
{
    lemma_zone_invalidate(v.zone, v.capacity, v.recent, after);
    let dropped = v.invalidate(after);
    assert forall|k: u32| #[trigger] dropped.zone.dom().contains(k) implies dropped.zone[k]
        == replay(engine, dropped.zone[0], dropped.log, k as nat) by {
        assert(v.zone.dom().contains(k));
    }
}

/// An overwrite keeps the controller coherent: the snapshots that it leaves
/// are those that the new record has no part in.
pub proof fn law_overwrite_coherent(
    v: TasView,
    engine: spec_fn(Seq<u8>, Seq<u8>) -> Seq<u8>,
    idx: u32,
    record: Seq<u8>,
)
    requires
        v.wf(),
        coherent(v, engine),
        idx < v.log.len(),
    ensures
        coherent(v.overwrite(idx, record), engine),
        v.overwrite(idx, record).zone[0] == v.zone[0],
{
    law_invalidate_coherent(v, engine, idx);
    lemma_zone_invalidate(v.zone, v.capacity, v.recent, idx);
    let dropped = v.invalidate(idx);
    let after = v.overwrite(idx, record);
    assert forall|k: u32| #[trigger] after.zone.dom().contains(k) implies after.zone[k] == replay(
        engine,
        after.zone[0],
        after.log,
        k as nat,
    ) by {
        assert(dropped.zone.dom().contains(k));
        assert(k <= idx);
        lemma_replay_prefix(engine, after.zone[0], dropped.log, after.log, k as nat);
    }
}

/// An insertion keeps the controller coherent: the snapshots that it leaves
/// are those that the new records have no part in.
pub proof fn law_insert_coherent(
    v: TasView,
    engine: spec_fn(Seq<u8>, Seq<u8>) -> Seq<u8>,
    idx: u32,
    records: Seq<u8>,
)
    requires
        v.wf(),
        coherent(v, engine),
        idx <= v.log.len(),
    ensures
        coherent(v.insert(idx, records), engine),
        v.insert(idx, records).zone[0] == v.zone[0],
{
    law_invalidate_coherent(v, engine, idx);
    lemma_zone_invalidate(v.zone, v.capacity, v.recent, idx);
    let dropped = v.invalidate(idx);
    let after = v.insert(idx, records);
    assert forall|k: u32| #[trigger] after.zone.dom().contains(k) implies after.zone[k] == replay(
        engine,
        after.zone[0],
        after.log,
        k as nat,
    ) by {
        assert(dropped.zone.dom().contains(k));
        assert(k <= idx);
        lemma_replay_prefix(engine, after.zone[0], dropped.log, after.log, k as nat);
    }
}

/// What the controller decides keeps it coherent, and so does the time it
/// counts.
pub proof fn law_decide_coherent(v: TasView, engine: spec_fn(Seq<u8>, Seq<u8>) -> Seq<u8>, elapsed: u64)
    requires
        v.wf(),
        coherent(v, engine),
    ensures
        coherent(v.decide(), engine),
        coherent(v.accrue(elapsed), engine),
        coherent(v.consume(), engine),
        coherent(v.toggle_playback(), engine),
{
    v.lemma_decide();
    if v.step_owed() && !v.catching_up() && v.plays() {
        let at = (v.playback_cursor + 1) as u32;
        match v.recording() {
            RecordModeView::ReadOnly => {},
            RecordModeView::Overwrite(record) => {
                law_overwrite_coherent(v, engine, at, record);
            },
            RecordModeView::Insert(record) => {
                law_insert_coherent(v, engine, at, record);
            },
        }
    }
}

/// Running `frames` frames that the log has records for takes a coherent
/// controller to a coherent one, `frames` frames on, with the emulator in
/// the state that running the log from frame 0 leads to. The log stays as
/// it is, and the view is at the last frame run unless it was further on.
pub proof fn law_run(v: TasView, engine: spec_fn(Seq<u8>, Seq<u8>) -> Seq<u8>, frames: nat)
    requires
        v.wf(),
        coherent(v, engine),
        v.next_emulator_frame + frames <= v.log.len(),
    ensures
        run(v, engine, frames).wf(),
        coherent(run(v, engine, frames), engine),
        run(v, engine, frames).next_emulator_frame == v.next_emulator_frame + frames,
        run(v, engine, frames).log == v.log,
        run(v, engine, frames).zone[0] == v.zone[0],
        run(v, engine, frames).engine_state() == replay(
            engine,
            v.zone[0],
            v.log,
            (v.next_emulator_frame + frames) as nat,
        ),
        run(v, engine, frames).playback_cursor == if v.playback_cursor + 1 >= v.next_emulator_frame
            + frames {
            v.playback_cursor as int
        } else {
            v.next_emulator_frame + frames - 1
        },
    decreases frames,
{
    if frames > 0 {
        let prior = run(v, engine, (frames - 1) as nat);
        law_run(v, engine, (frames - 1) as nat);
        let state = engine(prior.engine_state(), prior.next_input());
        prior.lemma_step(state);
        law_step_coherent(prior, engine);
    }
}

/// Round trip. From frame 0 the emulator runs `frames` frames; then the
/// controller seeks back to frame 0 and the emulator runs the same frames
/// again. It ends at the same frame and in the same state as the first time,
/// which is the state that one run of the log from frame 0 gives.
pub proof fn law_round_trip(v: TasView, engine: spec_fn(Seq<u8>, Seq<u8>) -> Seq<u8>, frames: nat)
    requires
        v.wf(),
        coherent(v, engine),
        v.next_emulator_frame == 0,
        frames <= v.log.len(),
    ensures
        run(run(v, engine, frames).seek(0), engine, frames).next_emulator_frame == run(
            v,
            engine,
            frames,
        ).next_emulator_frame,
        run(run(v, engine, frames).seek(0), engine, frames).engine_state() == run(
            v,
            engine,
            frames,
        ).engine_state(),
        run(v, engine, frames).engine_state() == replay(engine, v.zone[0], v.log, frames),
{
    law_run(v, engine, frames);
    let first = run(v, engine, frames);
    first.lemma_seek(0);
    law_seek_coherent(first, engine, 0);
    lemma_floor(first.zone, 0);
    law_run(first.seek(0), engine, frames);
}

/// Resuming from a snapshot. The emulator runs `more` frames from where it
/// is; or the controller first seeks to the frame the emulator is at, which
/// restores its snapshot, and the emulator runs them then. Both end at the
/// same frame and in the same state.
pub proof fn law_resume(v: TasView, engine: spec_fn(Seq<u8>, Seq<u8>) -> Seq<u8>, more: nat)
    requires
        v.wf(),
        coherent(v, engine),
        v.next_emulator_frame + more <= v.log.len(),
    ensures
        run(v.seek(v.next_emulator_frame), engine, more).next_emulator_frame == run(
            v,
            engine,
            more,
        ).next_emulator_frame,
        run(v.seek(v.next_emulator_frame), engine, more).engine_state() == run(
            v,
            engine,
            more,
        ).engine_state(),
{
    let at = v.next_emulator_frame;
    v.lemma_seek(at);
    law_seek_coherent(v, engine, at);
    law_lookup_not_after(v.zone, v.capacity, v.recent, at);
    law_run(v, engine, more);
    law_run(v.seek(at), engine, more);
}

/// Seeking to a frame of the log and catching up shows that frame with the
/// emulator one frame on, in the state that running the log from frame 0
/// leads to. Doing both once more changes none of the three.
pub proof fn law_seek_settles(v: TasView, engine: spec_fn(Seq<u8>, Seq<u8>) -> Seq<u8>, frame: u32)
    requires
        v.wf(),
        coherent(v, engine),
        frame < v.log.len(),
    ensures
        caught_up(v.seek(frame), engine).playback_cursor == frame,
        caught_up(v.seek(frame), engine).next_emulator_frame == frame + 1,
        caught_up(v.seek(frame), engine).engine_state() == replay(
            engine,
            v.zone[0],
            v.log,
            (frame + 1) as nat,
        ),
        caught_up(caught_up(v.seek(frame), engine).seek(frame), engine).playback_cursor
            == caught_up(v.seek(frame), engine).playback_cursor,
        caught_up(caught_up(v.seek(frame), engine).seek(frame), engine).next_emulator_frame
            == caught_up(v.seek(frame), engine).next_emulator_frame,
        caught_up(caught_up(v.seek(frame), engine).seek(frame), engine).engine_state()
            == caught_up(v.seek(frame), engine).engine_state(),
{
    let sought = v.seek(frame);
    v.lemma_seek(frame);
    law_seek_coherent(v, engine, frame);
    let frames = (sought.playback_cursor + 1 - sought.next_emulator_frame) as nat;
    law_run(sought, engine, frames);
    let first = caught_up(sought, engine);
    let again = first.seek(frame);
    first.lemma_seek(frame);
    law_seek_coherent(first, engine, frame);
    let more = (again.playback_cursor + 1 - again.next_emulator_frame) as nat;
    law_run(again, engine, more);
}

} // verus!
