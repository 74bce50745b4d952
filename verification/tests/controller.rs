use tas_replay::tas::input::{InputPort, Joypad};
use tas_replay::tas::{HostAction, HostEvent, RecordMode, RunMode, Tas};

/// Real time that one emulated frame takes in these tests.
const FRAME: u64 = 1_000;

/// A small deterministic machine that stands for the emulator.
struct Engine {
    state: u64,
    fed: Vec<Vec<u8>>,
}

impl Engine {
    fn new() -> Engine {
        Engine { state: 0xcbf2_9ce4_8422_2325, fed: Vec::new() }
    }

    fn run(&mut self, input: &[u8]) {
        for byte in input {
            self.state = (self.state ^ u64::from(*byte)).wrapping_mul(0x0000_0100_0000_01b3);
        }
        self.state = self.state.rotate_left(7) ^ 0x9e37_79b9;
        self.fed.push(input.to_vec());
    }

    fn save(&self) -> Vec<u8> {
        self.state.to_le_bytes().to_vec()
    }

    fn restore(&mut self, snapshot: &[u8]) {
        let mut bytes = [0u8; 8];
        bytes.copy_from_slice(snapshot);
        self.state = u64::from_le_bytes(bytes);
    }
}

/// The state of a fresh engine after the given inputs.
fn replay(inputs: &[Vec<u8>]) -> Vec<u8> {
    let mut engine = Engine::new();
    for input in inputs {
        engine.run(input);
    }
    engine.save()
}

fn log_of(tas: &Tas) -> Vec<Vec<u8>> {
    (0..tas.movie_len()).map(|i| tas.frame(i).to_vec()).collect()
}

/// A paused controller on a log of `frames` records, record `i` being `[i, i + 100]`.
fn paused(frames: u32, engine: &Engine) -> Tas {
    let mut tas = Tas::new(InputPort::Joypad(Joypad::Snes), engine.save(), FRAME);
    tas.set_run_mode(RunMode::Paused);
    let mut rest = Vec::new();
    for i in 1..frames {
        rest.push(i as u8);
        rest.push(i as u8 + 100);
    }
    tas.insert(1, &rest);
    tas.frame_mut(0, &[0, 100]);
    tas
}

/// One host frame: what the driver of the controller does.
fn tick(tas: &mut Tas, engine: &mut Engine, elapsed: u64) -> u32 {
    let mut ran = 0;
    let mut event = HostEvent::Tick(elapsed);
    loop {
        let input = match tas.run_host_frame(event) {
            HostAction::RunFrame(input) => input.to_vec(),
            HostAction::Present => return ran,
        };
        engine.run(&input);
        ran += 1;
        event = HostEvent::FrameDone(engine.save());
    }
}

/// Runs the frames that the view waits for, without any pacing.
fn catch_up(tas: &mut Tas, engine: &mut Engine) -> u32 {
    let mut ran = 0;
    while tas.catching_up() && tas.next_emulator_frame() < tas.movie_len() {
        let input = tas.frame(tas.next_emulator_frame()).to_vec();
        engine.run(&input);
        tas.run_guest_frame(engine.save());
        ran += 1;
    }
    ran
}

fn seek(tas: &mut Tas, engine: &mut Engine, frame: u32) {
    let snapshot = tas.seek_to(frame).to_vec();
    engine.restore(&snapshot);
}

fn is_paused(tas: &Tas) -> bool {
    matches!(tas.run_mode(), RunMode::Paused)
}

#[test]
fn new_controller_records_by_insertion_from_frame_zero() {
    let tas = Tas::new(InputPort::Joypad(Joypad::Snes), vec![9, 9], FRAME);
    assert_eq!(tas.playback_frame(), 0);
    assert_eq!(tas.selected_frame(), 0);
    assert_eq!(tas.next_emulator_frame(), 0);
    assert!(tas.selection_locked());
    assert!(tas.catching_up());
    assert_eq!(tas.movie_len(), 1);
    assert_eq!(tas.frame(0), &[0, 0]);
    assert_eq!(tas.engine_state(), &[9, 9]);
    assert_eq!(*tas.input_port(), InputPort::Joypad(Joypad::Snes));
    assert!(tas.greenzone().covers(0));
    assert_eq!(tas.greenzone().len(), 1);
    match tas.run_mode() {
        RunMode::Running { stop_at: None, record_mode: RecordMode::Insert(record) } => {
            assert_eq!(record, &vec![0u8, 0]);
        }
        other => panic!("unexpected run mode {:?}", other),
    }
}

#[test]
fn seek_then_catch_up_shows_the_frame_with_the_emulator_one_ahead() {
    let mut engine = Engine::new();
    let mut tas = Tas::new(InputPort::Joypad(Joypad::Snes), engine.save(), FRAME);
    tas.set_run_mode(RunMode::Paused);
    tas.insert(1, &[0u8; 18]);
    assert_eq!(tas.movie_len(), 10);
    assert_eq!(log_of(&tas), vec![vec![0u8, 0]; 10]);

    let initial = engine.save();
    assert_eq!(tas.seek_to(7), &initial[..]);
    assert_eq!(tas.playback_frame(), 7);
    assert_eq!(tas.next_emulator_frame(), 0);

    assert_eq!(catch_up(&mut tas, &mut engine), 8);
    assert_eq!(tas.playback_frame(), 7);
    assert_eq!(tas.next_emulator_frame(), 8);
    assert!(!tas.catching_up());
    assert_eq!(tas.engine_state(), &replay(&vec![vec![0u8, 0]; 8])[..]);
}

#[test]
fn catch_up_by_ticks_runs_two_frames_a_tick_at_most() {
    let mut engine = Engine::new();
    let mut tas = paused(10, &engine);
    seek(&mut tas, &mut engine, 7);
    let mut ran = Vec::new();
    for _ in 0..6 {
        ran.push(tick(&mut tas, &mut engine, 100 * FRAME));
    }
    assert_eq!(ran, vec![2, 2, 2, 2, 0, 0]);
    assert_eq!(tas.playback_frame(), 7);
    assert_eq!(tas.next_emulator_frame(), 8);
    assert!(is_paused(&tas));
    assert_eq!(engine.fed, log_of(&tas)[..8].to_vec());
}

#[test]
fn time_owed_adds_up_across_ticks() {
    let mut engine = Engine::new();
    let mut tas = paused(10, &engine);
    seek(&mut tas, &mut engine, 9);
    assert_eq!(tick(&mut tas, &mut engine, 600), 0);
    assert_eq!(tick(&mut tas, &mut engine, 600), 1);
    assert_eq!(tick(&mut tas, &mut engine, 700), 0);
    assert_eq!(tick(&mut tas, &mut engine, 100), 1);
    assert_eq!(tick(&mut tas, &mut engine, 999), 0);
    assert_eq!(tick(&mut tas, &mut engine, 1), 1);
    assert_eq!(tick(&mut tas, &mut engine, 0), 0);
    assert_eq!(tick(&mut tas, &mut engine, 2 * FRAME), 2);
    assert_eq!(tick(&mut tas, &mut engine, u64::MAX), 2);
    assert_eq!(tas.next_emulator_frame(), 7);
}

#[test]
fn a_paused_controller_that_has_caught_up_runs_nothing() {
    let mut engine = Engine::new();
    let mut tas = paused(4, &engine);
    assert_eq!(tick(&mut tas, &mut engine, FRAME), 1);
    assert_eq!(tick(&mut tas, &mut engine, FRAME), 0);
    assert_eq!(tick(&mut tas, &mut engine, 5 * FRAME), 0);
    assert_eq!(tas.playback_frame(), 0);
    assert_eq!(tas.next_emulator_frame(), 1);
    // The two frames owed are run as soon as playback starts.
    tas.toggle_playback();
    assert_eq!(tick(&mut tas, &mut engine, 0), 2);
    assert_eq!(tas.playback_frame(), 2);
}

#[test]
fn catch_up_waits_at_the_end_of_the_log() {
    let mut engine = Engine::new();
    let mut tas = paused(3, &engine);
    seek(&mut tas, &mut engine, 50);
    assert_eq!(tick(&mut tas, &mut engine, 2 * FRAME), 2);
    assert_eq!(tick(&mut tas, &mut engine, 2 * FRAME), 1);
    assert_eq!(tick(&mut tas, &mut engine, 2 * FRAME), 0);
    assert_eq!(tas.playback_frame(), 50);
    assert_eq!(tas.next_emulator_frame(), 3);
    assert!(tas.catching_up());
    // More records let it go on.
    tas.insert(3, &[1, 1]);
    assert_eq!(tick(&mut tas, &mut engine, 0), 1);
    assert_eq!(tas.next_emulator_frame(), 4);
}

#[test]
fn overwrite_uncovers_later_frames_and_seek_runs_them_again() {
    let mut engine = Engine::new();
    let mut tas = paused(10, &engine);
    seek(&mut tas, &mut engine, 8);
    assert_eq!(catch_up(&mut tas, &mut engine), 9);
    assert_eq!(tas.next_emulator_frame(), 9);
    for frame in 0..=9 {
        assert!(tas.greenzone().covers(frame));
    }

    let at_three = replay(&log_of(&tas)[..3]);
    let restore = tas.frame_mut(3, &[0xFF, 0x01]).map(|s| s.to_vec());
    assert_eq!(restore, Some(at_three.clone()));
    engine.restore(&at_three);
    for frame in 4..=9 {
        assert!(!tas.greenzone().covers(frame));
    }
    assert!(tas.greenzone().covers(3));
    assert_eq!(tas.next_emulator_frame(), 3);
    assert_eq!(tas.playback_frame(), 8);
    assert_eq!(tas.frame(3), &[0xFF, 0x01]);
    assert_eq!(tas.movie_len(), 10);

    engine.fed.clear();
    seek(&mut tas, &mut engine, 9);
    assert_eq!(tas.next_emulator_frame(), 3);
    assert_eq!(catch_up(&mut tas, &mut engine), 7);
    assert_eq!(tas.next_emulator_frame(), 10);
    assert_eq!(tas.playback_frame(), 9);
    assert_eq!(engine.fed[0], vec![0xFF, 0x01]);
    assert_eq!(engine.fed, log_of(&tas)[3..].to_vec());
    assert_eq!(tas.engine_state(), &replay(&log_of(&tas))[..]);
}

#[test]
fn inserting_stops_at_the_frame_asked_for() {
    let mut engine = Engine::new();
    let mut tas = Tas::new(InputPort::Joypad(Joypad::Snes), engine.save(), FRAME);
    tas.set_run_mode(RunMode::Running {
        stop_at: Some(5),
        record_mode: RecordMode::Insert(vec![3, 4]),
    });
    let mut ran = Vec::new();
    for _ in 0..9 {
        ran.push(tick(&mut tas, &mut engine, FRAME));
    }
    assert_eq!(ran, vec![1, 1, 1, 1, 1, 1, 0, 0, 0]);
    assert_eq!(tas.playback_frame(), 5);
    assert_eq!(tas.selected_frame(), 5);
    assert_eq!(tas.next_emulator_frame(), 6);
    assert!(is_paused(&tas));
    assert_eq!(tas.movie_len(), 1 + 5);
    assert_eq!(
        log_of(&tas),
        vec![vec![0, 0], vec![3, 4], vec![3, 4], vec![3, 4], vec![3, 4], vec![3, 4]]
    );
    assert_eq!(engine.fed, log_of(&tas));
    assert_eq!(tas.engine_state(), &engine.save()[..]);
}

#[test]
fn inserting_in_the_middle_pushes_the_rest_down() {
    let mut engine = Engine::new();
    let mut tas = paused(4, &engine);
    seek(&mut tas, &mut engine, 1);
    catch_up(&mut tas, &mut engine);
    tas.set_run_mode(RunMode::Running {
        stop_at: Some(3),
        record_mode: RecordMode::Insert(vec![7, 7]),
    });
    assert_eq!(tick(&mut tas, &mut engine, 2 * FRAME), 2);
    assert_eq!(tick(&mut tas, &mut engine, 2 * FRAME), 0);
    assert!(is_paused(&tas));
    assert_eq!(tas.playback_frame(), 3);
    assert_eq!(
        log_of(&tas),
        vec![vec![0, 100], vec![1, 101], vec![7, 7], vec![7, 7], vec![2, 102], vec![3, 103]]
    );
}

#[test]
fn overwriting_rewrites_the_frames_it_runs() {
    let mut engine = Engine::new();
    let mut tas = paused(4, &engine);
    tas.set_run_mode(RunMode::Running {
        stop_at: Some(2),
        record_mode: RecordMode::Overwrite(vec![1, 2]),
    });
    let mut ran = Vec::new();
    for _ in 0..5 {
        ran.push(tick(&mut tas, &mut engine, FRAME));
    }
    assert_eq!(ran, vec![1, 1, 1, 0, 0]);
    assert!(is_paused(&tas));
    assert_eq!(tas.playback_frame(), 2);
    assert_eq!(tas.next_emulator_frame(), 3);
    assert_eq!(log_of(&tas), vec![vec![0, 100], vec![1, 2], vec![1, 2], vec![3, 103]]);
    assert_eq!(engine.fed, log_of(&tas)[..3].to_vec());
}

#[test]
fn overwriting_pauses_at_the_end_of_the_log() {
    let mut engine = Engine::new();
    let mut tas = paused(3, &engine);
    tas.set_run_mode(RunMode::Running {
        stop_at: None,
        record_mode: RecordMode::Overwrite(vec![5, 5]),
    });
    let mut total = 0;
    for _ in 0..10 {
        total += tick(&mut tas, &mut engine, 2 * FRAME);
    }
    assert_eq!(total, 3);
    assert!(is_paused(&tas));
    assert_eq!(tas.movie_len(), 3);
    assert_eq!(log_of(&tas), vec![vec![0, 100], vec![5, 5], vec![5, 5]]);
}

#[test]
fn playback_pauses_at_the_end_of_the_log() {
    let mut engine = Engine::new();
    let mut tas = paused(3, &engine);
    tas.toggle_playback();
    assert!(matches!(
        tas.run_mode(),
        RunMode::Running { stop_at: None, record_mode: RecordMode::ReadOnly }
    ));
    assert_eq!(tick(&mut tas, &mut engine, 2 * FRAME), 2);
    assert!(!is_paused(&tas));
    assert_eq!(tick(&mut tas, &mut engine, 2 * FRAME), 1);
    assert!(is_paused(&tas));
    assert_eq!(tas.playback_frame(), 2);
    assert_eq!(tas.next_emulator_frame(), 3);
    assert_eq!(tas.movie_len(), 3);
    assert_eq!(engine.fed, log_of(&tas));
}

#[test]
fn playback_stops_at_the_frame_asked_for() {
    let mut engine = Engine::new();
    let mut tas = paused(8, &engine);
    tas.set_run_mode(RunMode::Running { stop_at: Some(4), record_mode: RecordMode::ReadOnly });
    let mut total = 0;
    for _ in 0..10 {
        total += tick(&mut tas, &mut engine, FRAME);
    }
    assert_eq!(total, 5);
    assert!(is_paused(&tas));
    assert_eq!(tas.playback_frame(), 4);
    assert_eq!(tas.next_emulator_frame(), 5);
}

#[test]
fn a_stop_behind_the_view_pauses_at_once() {
    let mut engine = Engine::new();
    let mut tas = paused(8, &engine);
    seek(&mut tas, &mut engine, 3);
    catch_up(&mut tas, &mut engine);
    tas.set_run_mode(RunMode::Running { stop_at: Some(3), record_mode: RecordMode::ReadOnly });
    assert_eq!(tick(&mut tas, &mut engine, 2 * FRAME), 0);
    assert!(is_paused(&tas));
    assert_eq!(tas.playback_frame(), 3);
}

#[test]
fn toggle_playback_flips_between_paused_and_playing() {
    let mut tas = Tas::new(InputPort::Joypad(Joypad::Snes), vec![0], FRAME);
    assert!(!is_paused(&tas));
    tas.toggle_playback();
    assert!(is_paused(&tas));
    tas.toggle_playback();
    assert!(matches!(
        tas.run_mode(),
        RunMode::Running { stop_at: None, record_mode: RecordMode::ReadOnly }
    ));
    tas.toggle_playback();
    assert!(is_paused(&tas));
}

#[test]
fn a_step_moves_a_view_that_is_behind_and_the_locked_selection() {
    let engine = Engine::new();
    let mut tas = paused(6, &engine);
    // The view waits at frame 0: the first step leaves it there.
    tas.run_guest_frame(vec![1]);
    assert_eq!((tas.playback_frame(), tas.selected_frame(), tas.next_emulator_frame()), (0, 0, 1));
    assert!(!tas.catching_up());
    // Now it is behind the frame about to run, and moves with it.
    tas.run_guest_frame(vec![2]);
    assert_eq!((tas.playback_frame(), tas.selected_frame(), tas.next_emulator_frame()), (1, 1, 2));
    assert_eq!(tas.engine_state(), &[2]);
    tas.set_selection_locked(false);
    tas.run_guest_frame(vec![3]);
    assert_eq!((tas.playback_frame(), tas.selected_frame(), tas.next_emulator_frame()), (2, 1, 3));
    assert!(tas.greenzone().covers(3));
    assert_eq!(tas.greenzone().restore(3), (3, &[3][..]));
}

#[test]
fn invalidate_rolls_the_emulator_back_only_when_it_is_ahead() {
    let mut engine = Engine::new();
    let mut tas = paused(10, &engine);
    seek(&mut tas, &mut engine, 5);
    catch_up(&mut tas, &mut engine);
    assert_eq!(tas.next_emulator_frame(), 6);

    assert_eq!(tas.invalidate(6), None);
    assert_eq!(tas.next_emulator_frame(), 6);
    assert_eq!(tas.invalidate(9), None);
    assert!(tas.greenzone().covers(6));

    let at_four = replay(&log_of(&tas)[..4]);
    assert_eq!(tas.invalidate(4).map(|s| s.to_vec()), Some(at_four));
    assert_eq!(tas.next_emulator_frame(), 4);
    assert_eq!(tas.playback_frame(), 5);
    for frame in 5..=9 {
        assert!(!tas.greenzone().covers(frame));
    }
    for frame in 0..=4 {
        assert!(tas.greenzone().covers(frame));
    }
}

#[test]
fn invalidate_falls_back_to_the_nearest_snapshot_left() {
    let mut engine = Engine::new();
    let mut tas = paused(10, &engine);
    seek(&mut tas, &mut engine, 7);
    catch_up(&mut tas, &mut engine);
    // Leave snapshots 0..=2 only, then run on from a later one.
    tas.invalidate(2);
    tas.run_guest_frame(vec![42]);
    assert_eq!(tas.next_emulator_frame(), 3);
    tas.run_guest_frame(vec![43]);
    tas.run_guest_frame(vec![44]);
    assert_eq!(tas.next_emulator_frame(), 5);
    assert_eq!(tas.invalidate(3).map(|s| s.to_vec()), Some(vec![42]));
    assert_eq!(tas.next_emulator_frame(), 3);
}

#[test]
fn insert_uncovers_later_frames() {
    let mut engine = Engine::new();
    let mut tas = paused(6, &engine);
    seek(&mut tas, &mut engine, 5);
    catch_up(&mut tas, &mut engine);
    assert_eq!(tas.next_emulator_frame(), 6);
    let at_two = replay(&log_of(&tas)[..2]);
    let restore = tas.insert(2, &[9, 9, 8, 8]).map(|s| s.to_vec());
    assert_eq!(restore, Some(at_two));
    assert_eq!(tas.movie_len(), 8);
    assert_eq!(tas.next_emulator_frame(), 2);
    for frame in 3..=8 {
        assert!(!tas.greenzone().covers(frame));
    }
    assert_eq!(
        log_of(&tas),
        vec![
            vec![0, 100],
            vec![1, 101],
            vec![9, 9],
            vec![8, 8],
            vec![2, 102],
            vec![3, 103],
            vec![4, 104],
            vec![5, 105]
        ]
    );
}

#[test]
fn an_edit_ahead_of_the_emulator_restores_nothing() {
    let engine = Engine::new();
    let mut tas = paused(6, &engine);
    tas.run_guest_frame(vec![1]);
    assert_eq!(tas.frame_mut(3, &[5, 5]), None);
    assert_eq!(tas.insert(6, &[6, 6]), None);
    assert_eq!(tas.frame_mut(1, &[4, 4]), None);
    assert_eq!(tas.next_emulator_frame(), 1);
    assert_eq!(tas.frame_mut(0, &[4, 4]).map(|s| s.len()), Some(8));
    assert_eq!(tas.next_emulator_frame(), 0);
}

#[test]
fn seeking_twice_is_seeking_once() {
    let mut engine = Engine::new();
    let mut tas = paused(10, &engine);
    seek(&mut tas, &mut engine, 6);
    catch_up(&mut tas, &mut engine);
    tas.invalidate(3);

    let first = tas.seek_to(5).to_vec();
    let after_first = (tas.playback_frame(), tas.next_emulator_frame(), tas.selected_frame());
    let second = tas.seek_to(5).to_vec();
    let after_second = (tas.playback_frame(), tas.next_emulator_frame(), tas.selected_frame());
    assert_eq!(after_first, (5, 3, 0));
    assert_eq!(after_first, after_second);
    assert_eq!(first, second);

    // And so after catching up.
    engine.restore(&second);
    catch_up(&mut tas, &mut engine);
    let settled = (tas.playback_frame(), tas.next_emulator_frame(), tas.engine_state().to_vec());
    seek(&mut tas, &mut engine, 5);
    catch_up(&mut tas, &mut engine);
    let again = (tas.playback_frame(), tas.next_emulator_frame(), tas.engine_state().to_vec());
    assert_eq!(settled.0, 5);
    assert_eq!(settled.1, 6);
    assert_eq!(settled, again);
    assert_eq!(engine.save(), settled.2);
}

#[test]
fn running_the_same_frames_again_gives_the_same_state() {
    let mut engine = Engine::new();
    let mut tas = paused(12, &engine);
    seek(&mut tas, &mut engine, 11);
    assert_eq!(catch_up(&mut tas, &mut engine), 12);
    let first = (tas.next_emulator_frame(), tas.engine_state().to_vec());
    assert_eq!(first.1, replay(&log_of(&tas)));

    // Back to frame 0, with nothing cached, and over the same frames again.
    let restore = tas.invalidate(0).map(|s| s.to_vec());
    engine.restore(&restore.unwrap());
    assert_eq!(tas.next_emulator_frame(), 0);
    assert_eq!(catch_up(&mut tas, &mut engine), 12);
    assert_eq!((tas.next_emulator_frame(), tas.engine_state().to_vec()), first);

    // From a snapshot in the middle: the rest of the way gives the same state too.
    seek(&mut tas, &mut engine, 5);
    tas.invalidate(5);
    seek(&mut tas, &mut engine, 11);
    assert_eq!(tas.next_emulator_frame(), 5);
    assert_eq!(catch_up(&mut tas, &mut engine), 7);
    assert_eq!((tas.next_emulator_frame(), tas.engine_state().to_vec()), first);
}

#[test]
fn select_next_stops_at_the_last_frame() {
    let engine = Engine::new();
    let mut tas = paused(10, &engine);
    tas.toggle_playback();
    assert!(tas.select_next(3).is_some());
    assert!(is_paused(&tas));
    assert_eq!((tas.selected_frame(), tas.playback_frame()), (3, 3));
    assert_eq!(tas.next_emulator_frame(), 0);
    tas.select_next(100);
    assert_eq!((tas.selected_frame(), tas.playback_frame()), (9, 9));
    tas.select_next(1);
    assert_eq!((tas.selected_frame(), tas.playback_frame()), (9, 9));
    tas.select_next(0);
    assert_eq!((tas.selected_frame(), tas.playback_frame()), (9, 9));
}

#[test]
fn select_prev_stops_at_frame_zero() {
    let engine = Engine::new();
    let mut tas = paused(10, &engine);
    tas.select_next(7);
    tas.toggle_playback();
    assert_eq!(tas.select_prev(4).map(|s| s.to_vec()), Some(engine.save()));
    assert!(is_paused(&tas));
    assert_eq!((tas.selected_frame(), tas.playback_frame()), (3, 3));
    tas.select_prev(100);
    assert_eq!((tas.selected_frame(), tas.playback_frame()), (0, 0));
    tas.select_prev(1);
    assert_eq!((tas.selected_frame(), tas.playback_frame()), (0, 0));
}

#[test]
fn a_free_selection_leaves_the_view_alone() {
    let mut engine = Engine::new();
    let mut tas = paused(10, &engine);
    seek(&mut tas, &mut engine, 2);
    catch_up(&mut tas, &mut engine);
    tas.set_selection_locked(false);
    assert!(!tas.selection_locked());
    tas.toggle_playback();
    assert_eq!(tas.select_next(5), None);
    assert!(is_paused(&tas));
    assert_eq!((tas.selected_frame(), tas.playback_frame(), tas.next_emulator_frame()), (5, 2, 3));
    assert_eq!(tas.select_prev(1), None);
    assert_eq!((tas.selected_frame(), tas.playback_frame(), tas.next_emulator_frame()), (4, 2, 3));
}

#[test]
fn a_locked_selection_moves_the_view_by_as_much_as_it_moves() {
    let mut engine = Engine::new();
    let mut tas = paused(10, &engine);
    tas.set_selection_locked(false);
    tas.select_next(8);
    tas.set_selection_locked(true);
    seek(&mut tas, &mut engine, 2);
    // The selection has one frame to go; the view goes one frame with it.
    tas.select_next(5);
    assert_eq!((tas.selected_frame(), tas.playback_frame()), (9, 3));
    // Going back, the view stops at frame 0 before the selection does.
    tas.select_prev(5);
    assert_eq!((tas.selected_frame(), tas.playback_frame()), (4, 0));
}

#[test]
fn select_next_on_a_selection_past_the_log_moves_nothing() {
    let mut engine = Engine::new();
    let mut tas = paused(3, &engine);
    tas.select_next(2);
    seek(&mut tas, &mut engine, 0);
    tas.toggle_playback();
    for _ in 0..5 {
        tick(&mut tas, &mut engine, 2 * FRAME);
    }
    // Playing from frame 0 took the selection along, past the last frame.
    assert_eq!((tas.selected_frame(), tas.playback_frame()), (4, 2));
    tas.select_next(3);
    assert_eq!((tas.selected_frame(), tas.playback_frame()), (4, 2));
}

#[test]
fn the_emulator_state_survives_eviction() {
    let mut engine = Engine::new();
    let mut tas =
        Tas::with_limits(InputPort::Joypad(Joypad::Snes), engine.save(), FRAME, 4, 1);
    tas.set_run_mode(RunMode::Paused);
    let mut rest = Vec::new();
    for i in 1..40u8 {
        rest.push(i);
        rest.push(i ^ 0x55);
    }
    tas.insert(1, &rest);
    seek(&mut tas, &mut engine, 39);
    assert_eq!(catch_up(&mut tas, &mut engine), 40);
    assert_eq!(tas.next_emulator_frame(), 40);
    assert_eq!(tas.greenzone().len(), 4);
    assert!(tas.greenzone().covers(0));
    assert!(tas.greenzone().covers(40));
    assert_eq!(tas.engine_state(), &engine.save()[..]);

    // Going back costs at most the way from the nearest snapshot left.
    seek(&mut tas, &mut engine, 20);
    let from = tas.next_emulator_frame();
    assert!(from <= 20);
    assert!(tas.greenzone().covers(from));
    assert_eq!(catch_up(&mut tas, &mut engine), 21 - from);
    assert_eq!(tas.engine_state(), &replay(&log_of(&tas)[..21])[..]);
}

#[test]
fn set_run_mode_takes_the_mode_as_given() {
    let mut tas = Tas::new(InputPort::Joypad(Joypad::Snes), vec![0], FRAME);
    tas.set_run_mode(RunMode::Running {
        stop_at: Some(12),
        record_mode: RecordMode::Overwrite(vec![1, 2]),
    });
    match tas.run_mode() {
        RunMode::Running { stop_at: Some(12), record_mode: RecordMode::Overwrite(record) } => {
            assert_eq!(record, &vec![1u8, 2]);
        }
        other => panic!("unexpected run mode {:?}", other),
    }
}
