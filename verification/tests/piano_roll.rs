use tas_replay::tas::input::{InputPort, Joypad};
use tas_replay::tas::{RunMode, Tas};
use tas_replay::ui::piano_roll::{Highlight, PianoRoll, ScrollEvent, INITIAL_SCREEN_SIZE};

fn paused_tas(frames: u32) -> Tas {
    let mut tas = Tas::new(InputPort::Joypad(Joypad::Snes), vec![0], 1_000);
    tas.set_run_mode(RunMode::Paused);
    if frames > 1 {
        tas.insert(1, &vec![0u8; 2 * (frames as usize - 1)]);
    }
    tas
}

#[test]
fn new_piano_roll_shows_thirty_rows() {
    let roll = PianoRoll::new();
    assert_eq!(roll.screen_size(), 30);
    assert_eq!(INITIAL_SCREEN_SIZE, 30);
}

#[test]
fn push_scroll_event_takes_any_event() {
    let mut roll = PianoRoll::new();
    roll.push_scroll_event(ScrollEvent::Up(3));
    roll.push_scroll_event(ScrollEvent::Down(1));
    roll.push_scroll_event(ScrollEvent::Top);
    roll.push_scroll_event(ScrollEvent::Center);
    roll.push_scroll_event(ScrollEvent::Bottom);
    assert_eq!(roll.screen_size(), 30);
}

#[test]
fn the_list_scrolls_only_when_the_selection_moved() {
    let mut tas = paused_tas(10);
    let mut roll = PianoRoll::new();
    assert_eq!(roll.scroll_target(&tas), None);
    roll.draw(&tas, Some(25));
    assert_eq!(roll.screen_size(), 25);
    tas.select_next(4);
    assert_eq!(roll.scroll_target(&tas), Some(4));
    assert_eq!(roll.scroll_target(&tas), Some(4));
    roll.draw(&tas, Some(25));
    assert_eq!(roll.scroll_target(&tas), None);
    tas.select_prev(1);
    assert_eq!(roll.scroll_target(&tas), Some(3));
}

#[test]
fn a_drawing_with_the_window_closed_keeps_the_screen_size() {
    let mut tas = paused_tas(10);
    let mut roll = PianoRoll::new();
    roll.draw(&tas, Some(40));
    tas.select_next(2);
    roll.draw(&tas, None);
    assert_eq!(roll.screen_size(), 40);
    assert_eq!(roll.scroll_target(&tas), None);
}

#[test]
fn number_column_is_as_wide_as_the_last_frame_number() {
    assert_eq!(PianoRoll::number_column_width(2), 3);
    assert_eq!(PianoRoll::number_column_width(10), 3);
    assert_eq!(PianoRoll::number_column_width(1000), 3);
    assert_eq!(PianoRoll::number_column_width(1001), 4);
    assert_eq!(PianoRoll::number_column_width(10_000), 4);
    assert_eq!(PianoRoll::number_column_width(10_001), 5);
    assert_eq!(PianoRoll::number_column_width(u32::MAX), 10);
}

#[test]
fn rows_are_highlighted_by_selection_then_coverage() {
    let mut tas = paused_tas(10);
    tas.run_guest_frame(vec![1]);
    tas.run_guest_frame(vec![2]);
    // The second frame run took the view and the selection to frame 1.
    assert_eq!(tas.selected_frame(), 1);
    assert_eq!(PianoRoll::row_highlight(&tas, 0), Highlight::Greenzone);
    assert_eq!(PianoRoll::row_highlight(&tas, 1), Highlight::Selected);
    assert_eq!(PianoRoll::row_highlight(&tas, 2), Highlight::Greenzone);
    assert_eq!(PianoRoll::row_highlight(&tas, 3), Highlight::Plain);
    tas.set_selection_locked(false);
    tas.select_next(2);
    assert_eq!(PianoRoll::row_highlight(&tas, 1), Highlight::Greenzone);
    assert_eq!(PianoRoll::row_highlight(&tas, 3), Highlight::Selected);
    assert_eq!(PianoRoll::row_highlight(&tas, 4), Highlight::Plain);
}

#[test]
fn the_frame_shown_is_marked() {
    let mut tas = paused_tas(10);
    tas.seek_to(4);
    assert_eq!(PianoRoll::row_marker(&tas, 4), '>');
    assert_eq!(PianoRoll::row_marker(&tas, 3), ' ');
    assert_eq!(PianoRoll::row_marker(&tas, 5), ' ');
}
