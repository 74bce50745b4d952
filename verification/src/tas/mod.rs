//! The replay controller and the parts it is made of.
//!
//! [`Tas`] owns the input log and the snapshot cache and keeps the cursors.
//! It does not own the emulator. Whoever drives it runs the emulator on the
//! controller's word and reports each frame back:
//!
//! * an operation that moves the emulator back in time hands out the snapshot
//!   that the emulator has to be restored from;
//! * [`Tas::run_host_frame`] says whether the emulator is to run a frame now,
//!   and on which input; the state it is in afterwards comes back as
//!   [`HostEvent::FrameDone`].
//!
//! At all times the emulator is meant to be in the state
//! [`Tas::engine_state`].

pub mod greenzone;
pub mod input;
pub mod laws;
pub mod model;
pub mod movie;

use self::greenzone::{Greenzone, DEFAULT_CAPACITY, DEFAULT_RECENT, limits_ok};
use self::input::InputPort;
use self::model::{RecordModeView, RunModeView, TasView};
use self::movie::{InputLog, lemma_chunks_one};
use vstd::prelude::*;

verus! {

/// One frame of the timeline.
pub struct Frame {}

/// What becomes of the input log while the controller runs.
#[derive(Clone, Debug)]
pub enum RecordMode {
    /// The log is played back as it is.
    ReadOnly,
    /// The record is inserted before each frame about to run.
    Insert(Vec<u8>),
    /// The record replaces the one of each frame about to run.
    Overwrite(Vec<u8>),
}

/// Whether the controller runs frames of its own accord.
#[derive(Clone, Debug)]
pub enum RunMode {
    Running { stop_at: Option<u32>, record_mode: RecordMode },
    Paused,
}

impl View for RecordMode {
    type V = RecordModeView;

    open spec fn view(&self) -> RecordModeView {
        match *self {
            RecordMode::ReadOnly => RecordModeView::ReadOnly,
            RecordMode::Insert(record) => RecordModeView::Insert(record@),
            RecordMode::Overwrite(record) => RecordModeView::Overwrite(record@),
        }
    }
}

impl View for RunMode {
    type V = RunModeView;

    open spec fn view(&self) -> RunModeView {
        match *self {
            RunMode::Running { stop_at, record_mode } => RunModeView::Running {
                stop_at,
                record_mode: record_mode@,
            },
            RunMode::Paused => RunModeView::Paused,
        }
    }
}

/// What the driver reports to the controller.
pub enum HostEvent {
    /// A new host frame begins, so many nanoseconds after the last one began.
    Tick(u64),
    /// The emulator has run the frame it was asked to run; these bytes are
    /// its state afterwards.
    FrameDone(Vec<u8>),
}

/// What the controller asks of the driver.
pub enum HostAction<'a> {
    /// Run the emulator for one frame on this input record, then report
    /// [`HostEvent::FrameDone`].
    RunFrame(&'a [u8]),
    /// Nothing more to run in this host frame: show what the emulator last
    /// drew.
    Present,
}

/// The controller after `event`, before it decides what to do next.
pub open spec fn after_event(view: TasView, event: HostEvent) -> TasView {
    match event {
        HostEvent::Tick(elapsed) => view.accrue(elapsed),
        HostEvent::FrameDone(state) => view.frame_done(state@),
    }
}

/// What the caught-up controller is about to do.
enum Verdict {
    Rest,
    Pause,
    Play,
    Overwrite(Vec<u8>),
    Insert(Vec<u8>),
}

/// The replay controller.
pub struct Tas {
    playback_cursor: u32,
    next_emulator_frame: u32,
    run_mode: RunMode,
    owed_nanos: u64,
    frame_nanos: u64,
    greenzone: Greenzone,
    selected_frame: u32,
    selection_locked: bool,
    input_port: InputPort,
    log: InputLog,
}

impl View for Tas {
    type V = TasView;

    closed spec fn view(&self) -> TasView {
        TasView {
            playback_cursor: self.playback_cursor,
            next_emulator_frame: self.next_emulator_frame,
            selected_frame: self.selected_frame,
            selection_locked: self.selection_locked,
            run_mode: self.run_mode@,
            owed_nanos: self.owed_nanos,
            frame_nanos: self.frame_nanos,
            zone: self.greenzone@,
            capacity: self.greenzone.capacity(),
            recent: self.greenzone.recent(),
            log: self.log@,
            input_port: self.input_port,
        }
    }
}

impl Tas {
    /// The invariant of the controller.
    pub closed spec fn wf(&self) -> bool {
        &&& self.greenzone.wf()
        &&& self.log.wf()
        &&& self.log.spec_frame_size() == self.input_port.spec_frame_size()
        &&& self@.wf()
    }

    /// A well-formed controller has a well-formed state.
    pub proof fn lemma_wf(&self)
        requires
            self.wf(),
        ensures
            self@.wf(),
    {
    }

    /// A controller at frame 0 of a log of one default record, recording by
    /// insertion, with the emulator in `initial_state`. One emulated frame
    /// takes `frame_nanos` nanoseconds of real time.
    pub fn new(input_port: InputPort, initial_state: Vec<u8>, frame_nanos: u64) -> (tas: Tas)
        requires
            0 < frame_nanos <= u64::MAX / 2,
        ensures
            tas.wf(),
            tas@ == TasView::initial(
                input_port,
                initial_state@,
                frame_nanos,
                DEFAULT_CAPACITY as nat,
                DEFAULT_RECENT,
            ),
    {
        Tas::with_limits(input_port, initial_state, frame_nanos, DEFAULT_CAPACITY, DEFAULT_RECENT)
    }

    /// As [`Tas::new`], with a snapshot cache of at most `capacity` snapshots
    /// that evicts none fewer than `recent` frames behind its newest.
    pub fn with_limits(
        input_port: InputPort,
        initial_state: Vec<u8>,
        frame_nanos: u64,
        capacity: usize,
        recent: u32,
    ) -> (tas: Tas)
        requires
            0 < frame_nanos <= u64::MAX / 2,
            limits_ok(capacity as nat, recent),
        ensures
            tas.wf(),
            tas@ == TasView::initial(
                input_port,
                initial_state@,
                frame_nanos,
                capacity as nat,
                recent,
            ),
    {
        let record = input_port.default_record();
        let mut log = InputLog::new(input_port.frame_size());
        proof {
            lemma_chunks_one(record@, input_port.spec_frame_size() as nat);
        }
        log.insert(0, record.as_slice());
        let greenzone = Greenzone::with_limits(initial_state, capacity, recent);
        let tas = Tas {
            playback_cursor: 0,
            next_emulator_frame: 0,
            run_mode: RunMode::Running { stop_at: None, record_mode: RecordMode::Insert(record) },
            owed_nanos: 0,
            frame_nanos,
            greenzone,
            selected_frame: 0,
            selection_locked: true,
            input_port,
            log,
        };
        proof {
            assert(tas.log@ =~= seq![input_port.spec_default_record()]);
            tas.greenzone.lemma_wf();
            assert(tas@.zone.dom() =~= set![0u32]);
        }
        tas
    }

    /// The frame selected for editing.
    pub fn selected_frame(&self) -> (frame: u32)
        ensures
            frame == self@.selected_frame,
    {
        self.selected_frame
    }

    /// The frame the user sees.
    pub fn playback_frame(&self) -> (frame: u32)
        ensures
            frame == self@.playback_cursor,
    {
        self.playback_cursor
    }

    /// The next frame the emulator will run.
    pub fn next_emulator_frame(&self) -> (frame: u32)
        ensures
            frame == self@.next_emulator_frame,
    {
        self.next_emulator_frame
    }

    /// Whether the selection follows the playback cursor.
    pub fn selection_locked(&self) -> (locked: bool)
        ensures
            locked == self@.selection_locked,
    {
        self.selection_locked
    }

    /// Ties the selection to the playback cursor, or frees it.
    pub fn set_selection_locked(&mut self, locked: bool)
        requires
            old(self).wf(),
        ensures
            final(self).wf(),
            final(self)@ == (TasView { selection_locked: locked, ..old(self)@ }),
    {
        self.selection_locked = locked;
    }

    /// The snapshot cache.
    pub fn greenzone(&self) -> (zone: &Greenzone)
        requires
            self.wf(),
        ensures
            zone.wf(),
            zone@ == self@.zone,
            zone.capacity() == self@.capacity,
            zone.recent() == self@.recent,
    {
        &self.greenzone
    }

    /// The run mode.
    pub fn run_mode(&self) -> (mode: &RunMode)
        ensures
            mode@ == self@.run_mode,
    {
        &self.run_mode
    }

    /// Sets the run mode. A record that the mode carries has the length of
    /// the port's records.
    pub fn set_run_mode(&mut self, mode: RunMode)
        requires
            old(self).wf(),
            mode@.fits(old(self)@.frame_size()),
        ensures
            final(self).wf(),
            final(self)@ == (TasView { run_mode: mode@, ..old(self)@ }),
    {
        self.run_mode = mode;
    }

    /// The input port.
    pub fn input_port(&self) -> (port: &InputPort)
        ensures
            *port == self@.input_port,
    {
        &self.input_port
    }

    /// Number of frames in the input log.
    pub fn movie_len(&self) -> (frames: u32)
        requires
            self.wf(),
        ensures
            frames == self@.log.len(),
    {
        self.log.len()
    }

    /// The input record of frame `idx`.
    pub fn frame(&self, idx: u32) -> (record: &[u8])
        requires
            self.wf(),
            idx < self@.log.len(),
        ensures
            record@ == self@.log[idx as int],
    {
        self.log.frame(idx)
    }

    /// The state that the emulator is in, or is to be put in: the snapshot
    /// for the next frame to run.
    pub fn engine_state(&self) -> (state: &[u8])
        requires
            self.wf(),
        ensures
            state@ == self@.engine_state(),
    {
        let (frame, state) = self.greenzone.restore(self.next_emulator_frame);
        state
    }

    /// Whether the view waits for the emulator to run the frame shown.
    pub fn catching_up(&self) -> (waiting: bool)
        ensures
            waiting == self@.catching_up(),
    {
        self.playback_cursor >= self.next_emulator_frame
    }

    /// Drops the snapshots after `after`; says whether the emulator is past
    /// that frame and was put back to a snapshot.
    fn drop_after(&mut self, after: u32) -> (rolled: bool)
        requires
            old(self).wf(),
        ensures
            final(self).wf(),
            final(self)@ == old(self)@.invalidate(after),
            rolled == old(self)@.rolls_back(after),
    {
        proof {
            self@.lemma_invalidate(after);
        }
        self.greenzone.invalidate(after);
        if self.next_emulator_frame > after {
            let (frame, state) = self.greenzone.restore(after);
            self.next_emulator_frame = frame;
            true
        } else {
            false
        }
    }

    /// Invalidates the greenzone after frame `after`: the snapshot at the
    /// beginning of that frame stays valid, but its input may have changed.
    /// Where the emulator is past that frame, it goes back to the nearest
    /// snapshot left, which is handed out for the emulator to be restored
    /// from; the way forward again is left to the next frames run.
    pub fn invalidate(&mut self, after: u32) -> (restore: Option<&[u8]>)
        requires
            old(self).wf(),
        ensures
            final(self).wf(),
            final(self)@ == old(self)@.invalidate(after),
            match restore {
                Some(state) => old(self)@.rolls_back(after) && state@ == final(self)@.engine_state(),
                None => !old(self)@.rolls_back(after),
            },
            forall|j: u32| j > after ==> !final(self)@.zone.dom().contains(j),
            final(self)@.next_emulator_frame <= old(self)@.next_emulator_frame,
    {
        proof {
            self@.lemma_invalidate(after);
        }
        if self.drop_after(after) {
            Some(self.engine_state())
        } else {
            None
        }
    }

    /// Overwrites the record of frame `idx`, after invalidating the
    /// greenzone after that frame. The result is as for
    /// [`Tas::invalidate`].
    pub fn frame_mut(&mut self, idx: u32, record: &[u8]) -> (restore: Option<&[u8]>)
        requires
            old(self).wf(),
            idx < old(self)@.log.len(),
            record@.len() == old(self)@.frame_size(),
        ensures
            final(self).wf(),
            final(self)@ == old(self)@.overwrite(idx, record@),
            match restore {
                Some(state) => old(self)@.rolls_back(idx) && state@ == final(self)@.engine_state(),
                None => !old(self)@.rolls_back(idx),
            },
            forall|j: u32| j > idx ==> !final(self)@.zone.dom().contains(j),
    {
        if self.write_over(idx, record) {
            Some(self.engine_state())
        } else {
            None
        }
    }

    fn write_over(&mut self, idx: u32, record: &[u8]) -> (rolled: bool)
        requires
            old(self).wf(),
            idx < old(self)@.log.len(),
            record@.len() == old(self)@.frame_size(),
        ensures
            final(self).wf(),
            final(self)@ == old(self)@.overwrite(idx, record@),
            rolled == old(self)@.rolls_back(idx),
            forall|j: u32| j > idx ==> !final(self)@.zone.dom().contains(j),
    {
        proof {
            self@.lemma_overwrite(idx, record@);
        }
        let rolled = self.drop_after(idx);
        self.log.overwrite(idx, record);
        rolled
    }

    /// Inserts the whole records that `buf` is made of before frame `idx`,
    /// after invalidating the greenzone after that frame. The result is as
    /// for [`Tas::invalidate`].
    pub fn insert(&mut self, idx: u32, buf: &[u8]) -> (restore: Option<&[u8]>)
        requires
            old(self).wf(),
            idx <= old(self)@.log.len(),
            buf@.len() % old(self)@.frame_size() == 0,
            old(self)@.log.len() + buf@.len() / old(self)@.frame_size() <= u32::MAX,
        ensures
            final(self).wf(),
            final(self)@ == old(self)@.insert(idx, buf@),
            match restore {
                Some(state) => old(self)@.rolls_back(idx) && state@ == final(self)@.engine_state(),
                None => !old(self)@.rolls_back(idx),
            },
            forall|j: u32| j > idx ==> !final(self)@.zone.dom().contains(j),
    {
        if self.write_in(idx, buf) {
            Some(self.engine_state())
        } else {
            None
        }
    }

    fn write_in(&mut self, idx: u32, buf: &[u8]) -> (rolled: bool)
        requires
            old(self).wf(),
            idx <= old(self)@.log.len(),
            buf@.len() % old(self)@.frame_size() == 0,
            old(self)@.log.len() + buf@.len() / old(self)@.frame_size() <= u32::MAX,
        ensures
            final(self).wf(),
            final(self)@ == old(self)@.insert(idx, buf@),
            rolled == old(self)@.rolls_back(idx),
            forall|j: u32| j > idx ==> !final(self)@.zone.dom().contains(j),
    {
        proof {
            self@.lemma_insert(idx, buf@);
        }
        let rolled = self.drop_after(idx);
        self.log.insert(idx, buf);
        rolled
    }

    fn seek(&mut self, frame: u32)
        requires
            old(self).wf(),
        ensures
            final(self).wf(),
            final(self)@ == old(self)@.seek(frame),
    {
        proof {
            self@.lemma_seek(frame);
        }
        self.playback_cursor = frame;
        let (found, state) = self.greenzone.restore(frame);
        self.next_emulator_frame = found;
    }

    /// Shows frame `frame`. The emulator goes to the nearest snapshot at or
    /// before it, which is handed out for the emulator to be restored from;
    /// the way from there to `frame` is left to the next frames run.
    pub fn seek_to(&mut self, frame: u32) -> (restore: &[u8])
        requires
            old(self).wf(),
        ensures
            final(self).wf(),
            final(self)@ == old(self)@.seek(frame),
            restore@ == final(self)@.engine_state(),
            final(self)@.next_emulator_frame <= frame,
    {
        proof {
            self@.lemma_seek(frame);
        }
        self.seek(frame);
        self.engine_state()
    }

    /// Pauses a running controller; starts a paused one on plain playback.
    pub fn toggle_playback(&mut self)
        requires
            old(self).wf(),
        ensures
            final(self).wf(),
            final(self)@ == old(self)@.toggle_playback(),
    {
        let running = match &self.run_mode {
            RunMode::Paused => false,
            RunMode::Running { stop_at, record_mode } => true,
        };
        if running {
            self.run_mode = RunMode::Paused;
        } else {
            self.run_mode = RunMode::Running { stop_at: None, record_mode: RecordMode::ReadOnly };
        }
    }

    /// Moves the selection up to `n` frames on, not past the last frame of
    /// the log, and pauses. A locked selection takes the view along by as
    /// many frames, as by [`Tas::seek_to`]: the snapshot handed out is the
    /// one to restore the emulator from.
    pub fn select_next(&mut self, n: u32) -> (restore: Option<&[u8]>)
        requires
            old(self).wf(),
        ensures
            final(self).wf(),
            final(self)@ == old(self)@.select_next(n),
            match restore {
                Some(state) => old(self)@.selection_locked && state@ == final(self)@.engine_state(),
                None => !old(self)@.selection_locked,
            },
    {
        proof {
            self@.lemma_select(n);
        }
        let room = self.log.len().saturating_sub(self.selected_frame).saturating_sub(1);
        let by = if n < room {
            n
        } else {
            room
        };
        self.selected_frame = self.selected_frame + by;
        self.run_mode = RunMode::Paused;
        if self.selection_locked {
            let target = self.playback_cursor.saturating_add(by);
            self.seek(target);
            Some(self.engine_state())
        } else {
            None
        }
    }

    /// Moves the selection up to `n` frames back, not before frame 0, and
    /// pauses. A locked selection takes the view along, as in
    /// [`Tas::select_next`].
    pub fn select_prev(&mut self, n: u32) -> (restore: Option<&[u8]>)
        requires
            old(self).wf(),
        ensures
            final(self).wf(),
            final(self)@ == old(self)@.select_prev(n),
            match restore {
                Some(state) => old(self)@.selection_locked && state@ == final(self)@.engine_state(),
                None => !old(self)@.selection_locked,
            },
    {
        proof {
            self@.lemma_select(n);
        }
        let by = if n < self.selected_frame {
            n
        } else {
            self.selected_frame
        };
        self.selected_frame = self.selected_frame - by;
        self.run_mode = RunMode::Paused;
        if self.selection_locked {
            let target = self.playback_cursor.saturating_sub(by);
            self.seek(target);
            Some(self.engine_state())
        } else {
            None
        }
    }

    /// Records that the emulator has run the next frame, on the record that
    /// the log holds for it, and is now in `state`. The state is saved as
    /// the snapshot for the frame after. A view that was behind the frame
    /// run moves up to it, and a locked selection by as much.
    pub fn run_guest_frame(&mut self, state: Vec<u8>)
        requires
            old(self).wf(),
            old(self)@.can_step(),
        ensures
            final(self).wf(),
            final(self)@ == old(self)@.step(state@),
            final(self)@.engine_state() == state@,
    {
        proof {
            self@.lemma_step(state@);
            self.log.lemma_wf();
        }
        let ran = self.next_emulator_frame;
        self.next_emulator_frame = ran + 1;
        self.greenzone.save(self.next_emulator_frame, state);
        if self.playback_cursor < ran {
            let by = ran - self.playback_cursor;
            self.playback_cursor = ran;
            if self.selection_locked {
                self.selected_frame = self.selected_frame.saturating_add(by);
            }
        }
    }

    fn accrue(&mut self, elapsed: u64)
        requires
            old(self).wf(),
        ensures
            final(self).wf(),
            final(self)@ == old(self)@.accrue(elapsed),
    {
        let most = self.frame_nanos + self.frame_nanos;
        let room = most - self.owed_nanos;
        if elapsed > room {
            self.owed_nanos = most;
        } else {
            self.owed_nanos = self.owed_nanos + elapsed;
        }
    }

    fn consume(&mut self)
        requires
            old(self).wf(),
        ensures
            final(self).wf(),
            final(self)@ == old(self)@.consume(),
    {
        self.owed_nanos = self.owed_nanos.saturating_sub(self.frame_nanos);
    }

    /// What a controller that owes a frame and has caught up is about to do.
    fn verdict(&self) -> (verdict: Verdict)
        requires
            self.wf(),
            !self@.catching_up(),
        ensures
            match verdict {
                Verdict::Rest => self@.run_mode is Paused,
                Verdict::Pause => self@.run_mode is Running && !self@.plays(),
                Verdict::Play => self@.plays() && self@.recording() == RecordModeView::ReadOnly,
                Verdict::Overwrite(record) => self@.plays() && self@.recording()
                    == RecordModeView::Overwrite(record@),
                Verdict::Insert(record) => self@.plays() && self@.recording()
                    == RecordModeView::Insert(record@),
            },
    {
        let frames = self.log.len();
        let has_next = self.next_emulator_frame < frames;
        match &self.run_mode {
            RunMode::Paused => Verdict::Rest,
            RunMode::Running { stop_at, record_mode } => {
                let stopped = match stop_at {
                    Some(stop) => self.playback_cursor >= *stop,
                    None => false,
                };
                if stopped {
                    Verdict::Pause
                } else {
                    match record_mode {
                        RecordMode::ReadOnly => if has_next {
                            Verdict::Play
                        } else {
                            Verdict::Pause
                        },
                        RecordMode::Overwrite(record) => if has_next {
                            Verdict::Overwrite(record.clone())
                        } else {
                            Verdict::Pause
                        },
                        RecordMode::Insert(record) => if frames < u32::MAX {
                            Verdict::Insert(record.clone())
                        } else {
                            Verdict::Pause
                        },
                    }
                }
            },
        }
    }

    /// Decides whether the emulator is to run a frame now, and prepares the
    /// log for it.
    fn decide(&mut self) -> (action: HostAction<'_>)
        requires
            old(self).wf(),
        ensures
            final(self).wf(),
            final(self)@ == old(self)@.decide(),
            match action {
                HostAction::RunFrame(input) => old(self)@.runs() && input@ == final(self)@.next_input(),
                HostAction::Present => !old(self)@.runs(),
            },
    {
        proof {
            self@.lemma_decide();
        }
        if self.owed_nanos < self.frame_nanos {
            return HostAction::Present;
        }
        if self.playback_cursor >= self.next_emulator_frame {
            if self.next_emulator_frame < self.log.len() {
                return HostAction::RunFrame(self.log.frame(self.next_emulator_frame));
            } else {
                return HostAction::Present;
            }
        }
        let at = self.playback_cursor + 1;
        match self.verdict() {
            Verdict::Rest => HostAction::Present,
            Verdict::Pause => {
                self.run_mode = RunMode::Paused;
                HostAction::Present
            },
            Verdict::Play => HostAction::RunFrame(self.log.frame(self.next_emulator_frame)),
            Verdict::Overwrite(record) => {
                self.write_over(at, record.as_slice());
                HostAction::RunFrame(self.log.frame(self.next_emulator_frame))
            },
            Verdict::Insert(record) => {
                proof {
                    lemma_chunks_one(record@, self@.frame_size());
                }
                self.write_in(at, record.as_slice());
                HostAction::RunFrame(self.log.frame(self.next_emulator_frame))
            },
        }
    }

    /// The controller's part in a host frame. The driver calls this with
    /// [`HostEvent::Tick`] when the host frame begins, and then with
    /// [`HostEvent::FrameDone`] after each frame it was asked to run, until
    /// the answer is [`HostAction::Present`].
    ///
    /// Time owed is counted in nanoseconds and never exceeds two frames'
    /// worth. While a whole frame is owed, the emulator first runs the frames
    /// that the view waits for, as far as the log has records for them. Once
    /// it has caught up, a running controller goes on frame by frame,
    /// writing to the log what its record mode says, until it reaches its
    /// stop or the end of the log; there it pauses.
    pub fn run_host_frame(&mut self, event: HostEvent) -> (action: HostAction<'_>)
        requires
            old(self).wf(),
            event is FrameDone ==> old(self)@.can_step(),
        ensures
            final(self).wf(),
            final(self)@ == after_event(old(self)@, event).decide(),
            match action {
                HostAction::RunFrame(input) => after_event(old(self)@, event).runs() && input@
                    == final(self)@.next_input() && final(self)@.can_step(),
                HostAction::Present => !after_event(old(self)@, event).runs(),
            },
    {
        match event {
            HostEvent::Tick(elapsed) => {
                self.accrue(elapsed);
            },
            HostEvent::FrameDone(state) => {
                self.run_guest_frame(state);
                self.consume();
            },
        }
        proof {
            self@.lemma_decide();
        }
        self.decide()
    }
}

} // verus!
