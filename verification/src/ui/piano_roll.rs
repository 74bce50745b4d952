//! The piano roll: the input log as a scrolling list, one row per frame.
//!
//! Here is what the widget remembers and what it decides about a row. Putting
//! rows on the screen is left to whoever owns the window.

use crate::tas::Tas;
use std::collections::VecDeque;
use vstd::prelude::*;

verus! {

/// A request to scroll the list.
#[derive(Clone, Copy, Debug, PartialEq, Eq, Structural)]
pub enum ScrollEvent {
    Up(u32),
    Down(u32),
    Top,
    Center,
    Bottom,
}

/// How the background of a row is drawn.
#[derive(Clone, Copy, Debug, PartialEq, Eq, Structural)]
pub enum Highlight {
    /// The row of the selected frame.
    Selected,
    /// A row whose frame has a snapshot in the greenzone.
    Greenzone,
    /// Any other row.
    Plain,
}

/// Number of rows that fit on the screen before the window was first drawn.
pub const INITIAL_SCREEN_SIZE: u32 = 30;

/// Narrowest the column of frame numbers gets, in characters.
pub const MIN_NUMBER_COLUMN_WIDTH: usize = 3;

/// Number of decimal digits of `n`.
pub open spec fn digits(n: nat) -> nat
    decreases n,
{
    if n < 10 {
        1
    } else {
        1 + digits(n / 10)
    }
}

/// Width of the column of frame numbers for a list of `rows` rows.
pub open spec fn column_width(rows: u32) -> nat {
    if digits((rows - 1) as nat) < MIN_NUMBER_COLUMN_WIDTH {
        MIN_NUMBER_COLUMN_WIDTH as nat
    } else {
        digits((rows - 1) as nat)
    }
}

/// How the background of row `row` is drawn: the selected row stands out,
/// and so do, less, the rows covered by the greenzone.
pub open spec fn highlight_of(selected: u32, covered: Set<u32>, row: u32) -> Highlight {
    if row == selected {
        Highlight::Selected
    } else if covered.contains(row) {
        Highlight::Greenzone
    } else {
        Highlight::Plain
    }
}

/// What the piano roll is.
pub struct PianoRollView {
    /// The selection when the list was last drawn.
    pub last_selection: u32,
    /// Number of rows that fit on the screen.
    pub screen_size: u32,
    /// The scroll requests not yet served, oldest first.
    pub pending_scroll_events: Seq<ScrollEvent>,
}

/// The piano roll widget.
pub struct PianoRoll {
    last_selection: u32,
    screen_size: u32,
    pending_scroll_events: VecDeque<ScrollEvent>,
}

impl View for PianoRoll {
    type V = PianoRollView;

    closed spec fn view(&self) -> PianoRollView {
        PianoRollView {
            last_selection: self.last_selection,
            screen_size: self.screen_size,
            pending_scroll_events: self.pending_scroll_events@,
        }
    }
}

impl PianoRoll {
    /// A piano roll that has not been drawn yet.
    pub fn new() -> (roll: PianoRoll)
        ensures
            roll@ == (PianoRollView {
                last_selection: 0,
                screen_size: INITIAL_SCREEN_SIZE,
                pending_scroll_events: Seq::empty(),
            }),
    {
        PianoRoll {
            last_selection: 0,
            screen_size: INITIAL_SCREEN_SIZE,
            pending_scroll_events: VecDeque::new(),
        }
    }

    /// Number of rows that fit on the screen.
    pub fn screen_size(&self) -> (rows: u32)
        ensures
            rows == self@.screen_size,
    {
        self.screen_size
    }

    /// Queues a scroll request behind those already waiting.
    pub fn push_scroll_event(&mut self, event: ScrollEvent)
        ensures
            final(self)@ == (PianoRollView {
                pending_scroll_events: old(self)@.pending_scroll_events.push(event),
                ..old(self)@
            }),
    {
        self.pending_scroll_events.push_back(event);
    }

    /// The frame that the list has to scroll to when it is drawn next: the
    /// selected one where the selection has moved since the list was last
    /// drawn, none otherwise.
    pub fn scroll_target(&self, tas: &Tas) -> (target: Option<u32>)
        ensures
            target == if tas@.selected_frame != self@.last_selection {
                Some(tas@.selected_frame)
            } else {
                None
            },
    {
        let selected = tas.selected_frame();
        if selected != self.last_selection {
            Some(selected)
        } else {
            None
        }
    }

    /// Takes note of one drawing of the list for `tas`. Where the window was
    /// open to draw in, `visible_rows` is the number of rows that fit in it.
    pub fn draw(&mut self, tas: &Tas, visible_rows: Option<u32>)
        ensures
            final(self)@ == (PianoRollView {
                last_selection: tas@.selected_frame,
                screen_size: match visible_rows {
                    Some(rows) => rows,
                    None => old(self)@.screen_size,
                },
                ..old(self)@
            }),
    {
        if let Some(rows) = visible_rows {
            self.screen_size = rows;
        }
        self.last_selection = tas.selected_frame();
    }

    /// Width, in characters, of the column of frame numbers for a list of
    /// `rows` rows: as wide as the last frame number, and never under three.
    pub fn number_column_width(rows: u32) -> (width: usize)
        requires
            rows >= 2,
        ensures
            width == column_width(rows),
    {
        let mut rest: u32 = rows - 1;
        let mut count: usize = 1;
        while rest >= 10
            invariant
                digits((rows - 1) as nat) == count - 1 + digits(rest as nat),
                count + rest <= rows,
            decreases rest,
        {
            rest = rest / 10;
            count = count + 1;
        }
        if count < MIN_NUMBER_COLUMN_WIDTH {
            MIN_NUMBER_COLUMN_WIDTH
        } else {
            count
        }
    }

    /// How the background of row `row` is drawn.
    pub fn row_highlight(tas: &Tas, row: u32) -> (highlight: Highlight)
        requires
            tas.wf(),
        ensures
            highlight == highlight_of(tas@.selected_frame, tas@.zone.dom(), row),
    {
        if row == tas.selected_frame() {
            Highlight::Selected
        } else if tas.greenzone().covers(row) {
            Highlight::Greenzone
        } else {
            Highlight::Plain
        }
    }

    /// The mark in front of row `row`: an arrow at the frame shown, a blank
    /// elsewhere.
    pub fn row_marker(tas: &Tas, row: u32) -> (marker: char)
        ensures
            marker == if row == tas@.playback_cursor {
                '>'
            } else {
                ' '
            },
    {
        if row == tas.playback_frame() {
            '>'
        } else {
            ' '
        }
    }
}

} // verus!
