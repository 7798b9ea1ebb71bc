//! The panes of the screen.

use vstd::prelude::*;
use crate::editor::cursor;
use crate::editor::state;
use crate::editor::state::{Editor, EdV, Options};

verus! {

impl EdV {
    /// Width of the text in reading mode, when it leaves a margin.
    pub open spec fn reading_cols(self) -> Option<int> {
        let w = self.options.reading_width % 0x10000;
        if self.options.reading && self.options.reading_width > 0 && w < self.cols {
            Some(w as int)
        } else {
            None
        }
    }

    /// The text pane fitted to the terminal: below the header and above the
    /// footer, and in the middle in reading mode.
    pub open spec fn relayout(self) -> EdV {
        let (x, w) = match self.reading_cols() {
            Some(w) => (state::max((self.cols - w) / 2, 1), w),
            None => (1, self.cols as int),
        };
        EdV {
            pane_x: x as u16,
            pane_w: w as u16,
            pane_h: state::minus(self.rows as int, 2) as u16,
            ..self
        }
    }

    /// The terminal has another size. The cursor's line goes to the middle.
    pub open spec fn resized(self, cols: u16, rows: u16) -> EdV {
        let s = EdV { cols, rows, ..self }.relayout();
        EdV { scroll: state::minus(s.line, (s.pane_h / 2) as int), ..s }
    }

    #[verifier::opaque]
    pub open spec fn toggle_reading(self) -> EdV {
        let on = !self.options.reading;
        EdV { options: Options { reading: on, ..self.options }, ..self }.relayout().say(
            if on {
                " reading mode"@
            } else {
                " reading mode off"@
            },
            244,
        )
    }
}

impl Editor {
    /// Fits the text pane to the terminal.
    pub fn apply_layout(&mut self)
        requires
            old(self).wf(),
        ensures
            final(self)@ == old(self)@.relayout(),
            final(self).wf(),
    {
        let w: u16 = (self.options.reading_width % 0x10000) as u16;
        if self.options.reading && self.options.reading_width > 0 && w < self.cols {
            let x: u16 = (self.cols - w) / 2;
            self.pane_x = if x > 1 {
                x
            } else {
                1
            };
            self.pane_w = w;
        } else {
            self.pane_x = 1;
            self.pane_w = self.cols;
        }
        self.pane_h = if self.rows > 2 {
            self.rows - 2
        } else {
            0
        };
    }

    /// Takes the new size of the terminal.
    pub fn handle_resize(&mut self, cols: u16, rows: u16)
        requires
            old(self).wf(),
        ensures
            final(self)@ == old(self)@.resized(cols, rows),
            final(self).wf(),
    {
        self.cols = cols;
        self.rows = rows;
        self.apply_layout();
        let half: usize = (self.pane_h / 2) as usize;
        self.scroll = if self.cur_line > half {
            self.cur_line - half
        } else {
            0
        };
    }

    /// Turns reading mode on or off.
    pub fn toggle_reading(&mut self)
        requires
            old(self).wf(),
        ensures
            final(self)@ == old(self)@.toggle_reading(),
            final(self).wf(),
    {
        proof {
            reveal(EdV::toggle_reading);
        }
        let on: bool = !self.options.reading;
        self.set_options(Options { reading: on, ..self.options });
        self.apply_layout();
        self.set_status(
            if on {
                " reading mode"
            } else {
                " reading mode off"
            },
            244,
        );
    }
}

} // verus!
