//! The replay controller as a state machine over plain values.
//!
//! [`TasView`] is what a controller is, mathematically: the cursors, the run
//! mode, the time owed, the snapshot cache as a map and the input log as a
//! sequence of records. Every operation of the controller is a function from
//! one such value to the next, and the executable code is proved against
//! these functions. The emulator does not occur here: its state is, at all
//! times, the snapshot that the cache holds for the next frame to emulate.

use super::greenzone::{
    floor_of,
    is_floor,
    lemma_floor,
    lemma_zone_invalidate,
    lemma_zone_save,
    zone_invalidate,
    zone_ok,
    zone_save,
};
use super::input::InputPort;
use super::movie::{chunks, lemma_chunk_len, lemma_chunks_one};
use vstd::prelude::*;

verus! {

/// What becomes of the input log while the controller runs.
pub enum RecordModeView {
    /// The log is played back as it is.
    ReadOnly,
    /// The record is inserted before the frame about to run.
    Insert(Seq<u8>),
    /// The record replaces the one of the frame about to run.
    Overwrite(Seq<u8>),
}

/// Whether the controller runs frames of its own accord.
pub enum RunModeView {
    Running { stop_at: Option<u32>, record_mode: RecordModeView },
    Paused,
}

impl RecordModeView {
    /// The record to be written, if there is one, is `frame_size` bytes long.
    pub open spec fn fits(self, frame_size: nat) -> bool {
        match self {
            RecordModeView::ReadOnly => true,
            RecordModeView::Insert(record) => record.len() == frame_size,
            RecordModeView::Overwrite(record) => record.len() == frame_size,
        }
    }
}

impl RunModeView {
    /// The record to be written, if there is one, is `frame_size` bytes long.
    pub open spec fn fits(self, frame_size: nat) -> bool {
        match self {
            RunModeView::Running { stop_at, record_mode } => record_mode.fits(frame_size),
            RunModeView::Paused => true,
        }
    }
}

/// `a + b`, or the greatest frame number where that is too large.
pub open spec fn frame_add(a: u32, b: u32) -> u32 {
    if a + b > u32::MAX {
        u32::MAX
    } else {
        (a + b) as u32
    }
}

/// `a - b`, or 0 where `b` is the greater.
pub open spec fn frame_sub(a: u32, b: u32) -> u32 {
    if a < b {
        0
    } else {
        (a - b) as u32
    }
}

/// The state of a replay controller.
pub struct TasView {
    /// The frame the user sees.
    pub playback_cursor: u32,
    /// The next frame the emulator will run; as many frames have been run.
    pub next_emulator_frame: u32,
    /// The frame selected for editing.
    pub selected_frame: u32,
    /// Whether the selection follows the playback cursor.
    pub selection_locked: bool,
    pub run_mode: RunModeView,
    /// Real time not yet spent on frames, in nanoseconds.
    pub owed_nanos: u64,
    /// Real time that one frame takes, in nanoseconds.
    pub frame_nanos: u64,
    /// The snapshot cache, by frame.
    pub zone: Map<u32, Seq<u8>>,
    /// Number of snapshots the cache holds at most.
    pub capacity: nat,
    /// How far behind its newest frame the cache evicts nothing.
    pub recent: u32,
    /// The input records, by frame.
    pub log: Seq<Seq<u8>>,
    pub input_port: InputPort,
}

impl TasView {
    /// Number of bytes in one input record.
    pub open spec fn frame_size(self) -> nat {
        self.input_port.spec_frame_size() as nat
    }

    /// What holds of a controller at all times.
    pub open spec fn wf(self) -> bool {
        &&& zone_ok(self.zone, self.capacity, self.recent)
        // The emulator's own state is in the cache.
        &&& self.zone.dom().contains(self.next_emulator_frame)
        // The emulator is never more than one frame ahead of the view.
        &&& self.next_emulator_frame <= self.playback_cursor + 1
        // No snapshot lies beyond the end of the log.
        &&& forall|k: u32| #[trigger] self.zone.dom().contains(k) ==> k <= self.log.len()
        &&& self.log.len() <= u32::MAX
        &&& forall|i: int|
            0 <= i < self.log.len() ==> (#[trigger] self.log[i]).len() == self.frame_size()
        &&& 0 < self.frame_nanos
        &&& 2 * self.frame_nanos <= u64::MAX
        &&& self.owed_nanos <= 2 * self.frame_nanos
        &&& self.run_mode.fits(self.frame_size())
    }

    /// The state of the emulator: the snapshot for the next frame to run.
    pub open spec fn engine_state(self) -> Seq<u8> {
        self.zone[self.next_emulator_frame]
    }

    /// The view waits for the emulator: it has yet to run the frame shown.
    pub open spec fn catching_up(self) -> bool {
        self.playback_cursor >= self.next_emulator_frame
    }

    /// The log holds a record for the next frame to run.
    pub open spec fn can_step(self) -> bool {
        self.next_emulator_frame < self.log.len()
    }

    /// The record that the next frame to run consumes.
    pub open spec fn next_input(self) -> Seq<u8> {
        self.log[self.next_emulator_frame as int]
    }

    /// A whole frame of real time is owed.
    pub open spec fn step_owed(self) -> bool {
        self.owed_nanos >= self.frame_nanos
    }

    /// A new controller: at frame 0, with one default record in the log,
    /// recording by insertion.
    pub open spec fn initial(
        input_port: InputPort,
        state: Seq<u8>,
        frame_nanos: u64,
        capacity: nat,
        recent: u32,
    ) -> TasView {
        TasView {
            playback_cursor: 0,
            next_emulator_frame: 0,
            selected_frame: 0,
            selection_locked: true,
            run_mode: RunModeView::Running {
                stop_at: None,
                record_mode: RecordModeView::Insert(input_port.spec_default_record()),
            },
            owed_nanos: 0,
            frame_nanos,
            zone: Map::<u32, Seq<u8>>::empty().insert(0, state),
            capacity,
            recent,
            log: seq![input_port.spec_default_record()],
            input_port,
        }
    }

    /// The emulator has to go back to a snapshot when the frames after
    /// `after` are invalidated.
    pub open spec fn rolls_back(self, after: u32) -> bool {
        self.next_emulator_frame > after
    }

    /// Drops the snapshots after `after`. An emulator that is past that frame
    /// goes back to the nearest snapshot that is left.
    pub open spec fn invalidate(self, after: u32) -> TasView {
        let zone = zone_invalidate(self.zone, after);
        TasView {
            zone,
            next_emulator_frame: if self.rolls_back(after) {
                floor_of(zone.dom(), after)
            } else {
                self.next_emulator_frame
            },
            ..self
        }
    }

    /// Shows `frame`, with the emulator at the nearest snapshot at or before
    /// it.
    pub open spec fn seek(self, frame: u32) -> TasView {
        TasView {
            playback_cursor: frame,
            next_emulator_frame: floor_of(self.zone.dom(), frame),
            ..self
        }
    }

    /// The emulator has run one frame and is now in `state`. A view that was
    /// behind the frame run moves up to it, and a locked selection with it.
    pub open spec fn step(self, state: Seq<u8>) -> TasView {
        let ran = self.next_emulator_frame;
        let next = (ran + 1) as u32;
        let behind = self.playback_cursor < ran;
        let by = (ran - self.playback_cursor) as u32;
        TasView {
            next_emulator_frame: next,
            zone: zone_save(self.zone, self.capacity, self.recent, next, state),
            playback_cursor: if behind {
                ran
            } else {
                self.playback_cursor
            },
            selected_frame: if behind && self.selection_locked {
                frame_add(self.selected_frame, by)
            } else {
                self.selected_frame
            },
            ..self
        }
    }

    /// Replaces record `idx`, after the snapshots that depend on it were
    /// dropped.
    pub open spec fn overwrite(self, idx: u32, record: Seq<u8>) -> TasView {
        let dropped = self.invalidate(idx);
        TasView { log: dropped.log.update(idx as int, record), ..dropped }
    }

    /// Inserts whole records before record `idx`, after the snapshots that
    /// depend on what follows were dropped.
    pub open spec fn insert(self, idx: u32, records: Seq<u8>) -> TasView {
        let dropped = self.invalidate(idx);
        TasView {
            log: dropped.log.subrange(0, idx as int) + chunks(records, self.frame_size())
                + dropped.log.subrange(idx as int, dropped.log.len() as int),
            ..dropped
        }
    }

    /// How far the selection can still go down the log.
    pub open spec fn room_below(self) -> u32 {
        if self.selected_frame + 1 < self.log.len() {
            (self.log.len() - self.selected_frame - 1) as u32
        } else {
            0
        }
    }

    /// Moves the selection `n` frames on, not past the last record, and
    /// pauses. A locked selection takes the view along.
    pub open spec fn select_next(self, n: u32) -> TasView {
        let by = if n < self.room_below() {
            n
        } else {
            self.room_below()
        };
        let moved = TasView {
            selected_frame: (self.selected_frame + by) as u32,
            run_mode: RunModeView::Paused,
            ..self
        };
        if self.selection_locked {
            moved.seek(frame_add(self.playback_cursor, by))
        } else {
            moved
        }
    }

    /// Moves the selection `n` frames back, not before frame 0, and pauses.
    /// A locked selection takes the view along.
    pub open spec fn select_prev(self, n: u32) -> TasView {
        let by = if n < self.selected_frame {
            n
        } else {
            self.selected_frame
        };
        let moved = TasView {
            selected_frame: (self.selected_frame - by) as u32,
            run_mode: RunModeView::Paused,
            ..self
        };
        if self.selection_locked {
            moved.seek(frame_sub(self.playback_cursor, by))
        } else {
            moved
        }
    }

    /// Pauses a running controller and starts a paused one, playing back
    /// without an end.
    pub open spec fn toggle_playback(self) -> TasView {
        TasView {
            run_mode: match self.run_mode {
                RunModeView::Paused => RunModeView::Running {
                    stop_at: None,
                    record_mode: RecordModeView::ReadOnly,
                },
                RunModeView::Running { stop_at, record_mode } => RunModeView::Paused,
            },
            ..self
        }
    }

    /// The controller, paused.
    pub open spec fn paused(self) -> TasView {
        TasView { run_mode: RunModeView::Paused, ..self }
    }

    /// `elapsed` more nanoseconds are owed, though never more than two
    /// frames' worth.
    pub open spec fn accrue(self, elapsed: u64) -> TasView {
        TasView {
            owed_nanos: if self.owed_nanos + elapsed > 2 * self.frame_nanos {
                (2 * self.frame_nanos) as u64
            } else {
                (self.owed_nanos + elapsed) as u64
            },
            ..self
        }
    }

    /// One frame's worth of the time owed is spent.
    pub open spec fn consume(self) -> TasView {
        TasView {
            owed_nanos: if self.owed_nanos >= self.frame_nanos {
                (self.owed_nanos - self.frame_nanos) as u64
            } else {
                0
            },
            ..self
        }
    }

    /// What a running controller does to the log; nothing when paused.
    pub open spec fn recording(self) -> RecordModeView {
        match self.run_mode {
            RunModeView::Paused => RecordModeView::ReadOnly,
            RunModeView::Running { stop_at, record_mode } => record_mode,
        }
    }

    /// The frame at which a running controller stops has been reached.
    pub open spec fn stop_reached(self) -> bool {
        self.run_mode matches RunModeView::Running { stop_at: Some(stop), .. }
            && self.playback_cursor >= stop
    }

    /// Whether the controller, a frame being owed and the view caught up,
    /// goes on to run the frame after the one shown: it is running, has not
    /// reached its stop, and the log has or takes a record for that frame.
    pub open spec fn plays(self) -> bool {
        match self.run_mode {
            RunModeView::Paused => false,
            RunModeView::Running { stop_at, record_mode } => !self.stop_reached() && match record_mode {
                RecordModeView::ReadOnly => self.can_step(),
                RecordModeView::Overwrite(record) => self.can_step(),
                RecordModeView::Insert(record) => self.log.len() < u32::MAX,
            },
        }
    }

    /// What a running controller does to the log before it runs the frame
    /// after the one shown.
    pub open spec fn record(self) -> TasView {
        let at = (self.playback_cursor + 1) as u32;
        match self.run_mode {
            RunModeView::Paused => self,
            RunModeView::Running { stop_at, record_mode } => match record_mode {
                RecordModeView::ReadOnly => self,
                RecordModeView::Overwrite(record) => self.overwrite(at, record),
                RecordModeView::Insert(record) => self.insert(at, record),
            },
        }
    }

    /// Whether the emulator is to run a frame now: a whole frame is owed, and
    /// either the view waits for a frame that the log has a record for, or
    /// the controller plays on.
    pub open spec fn runs(self) -> bool {
        self.step_owed() && if self.catching_up() {
            self.can_step()
        } else {
            self.plays()
        }
    }

    /// The controller once it has decided whether the emulator is to run a
    /// frame now. Catching up changes nothing. Playing on writes to the log
    /// what the record mode says; a running controller that cannot play on,
    /// at its stop or at the end of the log, pauses.
    pub open spec fn decide(self) -> TasView {
        if !self.step_owed() || self.catching_up() {
            self
        } else if self.plays() {
            self.record()
        } else {
            self.paused()
        }
    }

    /// One frame was run into `state` on the controller's decision: the step
    /// is taken and paid for.
    pub open spec fn frame_done(self, state: Seq<u8>) -> TasView {
        self.step(state).consume()
    }

    /// Dropping snapshots keeps the controller well formed.
    pub proof fn lemma_invalidate(self, after: u32)
        requires
            self.wf(),
        ensures
            self.invalidate(after).wf(),
            self.invalidate(after).next_emulator_frame <= self.next_emulator_frame,
            self.invalidate(after).next_emulator_frame <= after || !self.rolls_back(after),
            forall|j: u32| j > after ==> !self.invalidate(after).zone.dom().contains(j),
    {
        let zone = zone_invalidate(self.zone, after);
        lemma_zone_invalidate(self.zone, self.capacity, self.recent, after);
        lemma_floor(zone, after);
        if self.rolls_back(after) {
            let f = floor_of(zone.dom(), after);
            assert(is_floor(zone.dom(), after, f));
        } else {
            assert(zone.dom().contains(self.next_emulator_frame));
        }
    }

    /// Seeking keeps the controller well formed.
    pub proof fn lemma_seek(self, frame: u32)
        requires
            self.wf(),
        ensures
            self.seek(frame).wf(),
            self.seek(frame).next_emulator_frame <= frame,
    {
        lemma_floor(self.zone, frame);
    }

    /// A step keeps the controller well formed, and the state handed in is
    /// the emulator's state afterwards.
    pub proof fn lemma_step(self, state: Seq<u8>)
        requires
            self.wf(),
            self.can_step(),
        ensures
            self.step(state).wf(),
            self.step(state).engine_state() == state,
            self.step(state).next_emulator_frame == self.next_emulator_frame + 1,
            !self.step(state).catching_up() ==> self.step(state).next_emulator_frame
                == self.step(state).playback_cursor + 1,
    {
        let next = (self.next_emulator_frame + 1) as u32;
        lemma_zone_save(self.zone, self.capacity, self.recent, next, state);
    }

    /// An overwrite keeps the controller well formed.
    pub proof fn lemma_overwrite(self, idx: u32, record: Seq<u8>)
        requires
            self.wf(),
            idx < self.log.len(),
            record.len() == self.frame_size(),
        ensures
            self.overwrite(idx, record).wf(),
            forall|j: u32| j > idx ==> !self.overwrite(idx, record).zone.dom().contains(j),
    {
        self.lemma_invalidate(idx);
    }

    /// An insertion keeps the controller well formed.
    pub proof fn lemma_insert(self, idx: u32, records: Seq<u8>)
        requires
            self.wf(),
            idx <= self.log.len(),
            records.len() % self.frame_size() == 0,
            self.log.len() + records.len() / self.frame_size() <= u32::MAX,
        ensures
            self.insert(idx, records).wf(),
            self.insert(idx, records).log.len() == self.log.len() + records.len()
                / self.frame_size(),
            forall|j: u32| j > idx ==> !self.insert(idx, records).zone.dom().contains(j),
    {
        self.lemma_invalidate(idx);
        let after = self.insert(idx, records);
        let more = chunks(records, self.frame_size());
        assert forall|i: int| 0 <= i < after.log.len() implies (#[trigger] after.log[i]).len()
            == self.frame_size() by {
            if idx <= i < idx + more.len() {
                let r = i - idx;
                assert(after.log[i] == more[r]);
                lemma_chunk_len(records, self.frame_size(), r);
            } else if i < idx {
                assert(after.log[i] == self.log[i]);
            } else {
                assert(after.log[i] == self.log[i - more.len()]);
            }
        }
    }

    /// Moving the selection keeps the controller well formed.
    pub proof fn lemma_select(self, n: u32)
        requires
            self.wf(),
        ensures
            self.select_next(n).wf(),
            self.select_prev(n).wf(),
    {
        let by = if n < self.room_below() {
            n
        } else {
            self.room_below()
        };
        lemma_floor(self.zone, frame_add(self.playback_cursor, by));
        let back = if n < self.selected_frame {
            n
        } else {
            self.selected_frame
        };
        lemma_floor(self.zone, frame_sub(self.playback_cursor, back));
    }

    /// Deciding keeps the controller well formed, and where the emulator is
    /// to run a frame the log has the record for it.
    pub proof fn lemma_decide(self)
        requires
            self.wf(),
        ensures
            self.decide().wf(),
            self.runs() ==> self.decide().can_step() && self.decide().step_owed(),
            self.runs() ==> self.decide().next_emulator_frame == self.next_emulator_frame,
            self.runs() && !self.catching_up() ==> self.next_emulator_frame
                == self.playback_cursor + 1,
    {
        if self.step_owed() && !self.catching_up() && self.plays() {
            let at = (self.playback_cursor + 1) as u32;
            assert(at == self.next_emulator_frame);
            match self.run_mode {
                RunModeView::Paused => {},
                RunModeView::Running { stop_at, record_mode } => match record_mode {
                    RecordModeView::ReadOnly => {},
                    RecordModeView::Overwrite(record) => {
                        self.lemma_overwrite(at, record);
                    },
                    RecordModeView::Insert(record) => {
                        lemma_chunks_one(record, self.frame_size());
                        self.lemma_insert(at, record);
                    },
                },
            }
        }
    }
}

} // verus!
