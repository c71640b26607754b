//! Model of the text-mode diagnostic screen: colour codes, character
//! cells, and a writer with cursor movement and scrolling.
//!
//! On hardware the cells live in the memory-mapped buffer at
//! `VGA_BUFFER_START`; the model keeps them in an owned grid so the
//! layout logic — cursor advance, line wrap, scrolling — is verified.
//! The unverified shell that owns the real buffer replays the same
//! writes through volatile stores.

use vstd::prelude::*;

verus! {

/// Physical base address of the memory-mapped text buffer.
pub const VGA_BUFFER_START: u64 = 0xB8000;

/// Rows on the screen.
pub const VGA_NUM_ROWS: usize = 25;

/// Columns on the screen.
pub const VGA_NUM_COLS: usize = 80;

/// The sixteen hardware colour codes, in their numeric order.
#[derive(Debug, Clone, Copy, PartialEq, Eq, Structural)]
pub enum VGAColor {
    Black,
    Blue,
    Green,
    Cyan,
    Red,
    Magenta,
    Brown,
    LightGray,
    DarkGray,
    LightBlue,
    LightGreen,
    LightCyan,
    LightRed,
    Pink,
    Yellow,
    White,
}

/// The numeric value of a colour.
pub open spec fn color_value(c: VGAColor) -> u8 {
    match c {
        VGAColor::Black => 0x0,
        VGAColor::Blue => 0x1,
        VGAColor::Green => 0x2,
        VGAColor::Cyan => 0x3,
        VGAColor::Red => 0x4,
        VGAColor::Magenta => 0x5,
        VGAColor::Brown => 0x6,
        VGAColor::LightGray => 0x7,
        VGAColor::DarkGray => 0x8,
        VGAColor::LightBlue => 0x9,
        VGAColor::LightGreen => 0xA,
        VGAColor::LightCyan => 0xB,
        VGAColor::LightRed => 0xC,
        VGAColor::Pink => 0xD,
        VGAColor::Yellow => 0xE,
        VGAColor::White => 0xF,
    }
}

impl VGAColor {
    /// The numeric value of this colour.
    pub fn value(self) -> (v: u8)
        ensures
            v == color_value(self),
    {
        match self {
            VGAColor::Black => 0x0,
            VGAColor::Blue => 0x1,
            VGAColor::Green => 0x2,
            VGAColor::Cyan => 0x3,
            VGAColor::Red => 0x4,
            VGAColor::Magenta => 0x5,
            VGAColor::Brown => 0x6,
            VGAColor::LightGray => 0x7,
            VGAColor::DarkGray => 0x8,
            VGAColor::LightBlue => 0x9,
            VGAColor::LightGreen => 0xA,
            VGAColor::LightCyan => 0xB,
            VGAColor::LightRed => 0xC,
            VGAColor::Pink => 0xD,
            VGAColor::Yellow => 0xE,
            VGAColor::White => 0xF,
        }
    }
}

/// One byte of colour formatting: background colour in the high four
/// bits, foreground colour in the low four.
#[derive(Debug, Clone, Copy, PartialEq, Eq, Structural)]
pub struct ColorCode(pub u8);

impl ColorCode {
    /// Pack a foreground and a background colour.
    pub fn new(fg_color: VGAColor, bg_color: VGAColor) -> (r: ColorCode)
        ensures
            r.0 == (color_value(bg_color) << 4u8) | color_value(fg_color),
    {
        ColorCode((bg_color.value() << 4u8) | fg_color.value())
    }
}

/// One screen cell: a character and its colour formatting.
#[derive(Debug, Clone, Copy, PartialEq, Eq, Structural)]
pub struct VGAChar {
    pub character: u8,
    pub color: ColorCode,
}

impl VGAChar {
    /// Pack a character with its formatting.
    pub fn new(c: u8, color: ColorCode) -> (r: VGAChar)
        ensures
            r.character == c,
            r.color == color,
    {
        VGAChar { character: c, color }
    }
}

/// Index of the cell at `row`, `col` in the row-major screen grid.
pub open spec fn cell_index(row: int, col: int) -> int {
    row * VGA_NUM_COLS + col
}

/// The grid after scrolling one line: every row moves up one, and the
/// bottom row is blanked in the given colours.
pub open spec fn scrolled(buf: Seq<VGAChar>, color: ColorCode) -> Seq<VGAChar> {
    Seq::new((VGA_NUM_ROWS * VGA_NUM_COLS) as nat, |i: int|
        if i < (VGA_NUM_ROWS - 1) * VGA_NUM_COLS {
            buf[i + VGA_NUM_COLS]
        } else {
            VGAChar { character: 0x20u8, color }
        })
}

/// The cursor row after a line feed: one further down, or unchanged on
/// the last line, where the screen scrolls instead.
pub open spec fn new_line_row(row: int) -> int {
    if row < VGA_NUM_ROWS - 1 {
        row + 1
    } else {
        row
    }
}

/// The grid after a line feed: unchanged, or scrolled on the last line.
pub open spec fn new_line_buffer(buf: Seq<VGAChar>, row: int, color: ColorCode) -> Seq<VGAChar> {
    if row < VGA_NUM_ROWS - 1 {
        buf
    } else {
        scrolled(buf, color)
    }
}

/// The line-oriented diagnostic writer: a cursor over the screen grid,
/// wrapping at the last column and scrolling at the last row.
pub struct Writer {
    pub col_position: usize,
    pub row_position: usize,
    pub color_fmt: ColorCode,
    pub buffer: Vec<VGAChar>,
}

impl Writer {
    /// The cursor is on the screen and the grid is fully allocated.
    pub open spec fn wf(self) -> bool {
        &&& self.buffer@.len() == VGA_NUM_ROWS * VGA_NUM_COLS
        &&& self.col_position <= VGA_NUM_COLS
        &&& self.row_position < VGA_NUM_ROWS
    }

    /// A fresh writer: a blank screen in the given colours, cursor at
    /// the top left.
    pub fn new(color_fmt: ColorCode) -> (r: Writer)
        ensures
            r.wf(),
            r.col_position == 0,
            r.row_position == 0,
            r.color_fmt == color_fmt,
            forall|i: int|
                0 <= i < VGA_NUM_ROWS * VGA_NUM_COLS ==> #[trigger] r.buffer@[i] == (VGAChar {
                    character: 0x20u8,
                    color: color_fmt,
                }),
    {
        let blank = VGAChar { character: 0x20, color: color_fmt };
        let mut buffer: Vec<VGAChar> = Vec::new();
        let mut k: usize = 0;
        while k < VGA_NUM_ROWS * VGA_NUM_COLS
            invariant
                k == buffer@.len(),
                k <= VGA_NUM_ROWS * VGA_NUM_COLS,
                forall|i: int| 0 <= i < k ==> #[trigger] buffer@[i] == blank,
            decreases VGA_NUM_ROWS * VGA_NUM_COLS - k,
        {
            buffer.push(blank);
            k = k + 1;
        }
        Writer { col_position: 0, row_position: 0, color_fmt, buffer }
    }

    /// Move to the start of the next line; on the last line, scroll
    /// everything up one row and blank the bottom line instead.
    fn new_line(&mut self)
        requires
            old(self).wf(),
        ensures
            final(self).wf(),
            final(self).col_position == 0,
            final(self).color_fmt == old(self).color_fmt,
            final(self).row_position as int == new_line_row(old(self).row_position as int),
            final(self).buffer@ == new_line_buffer(old(self).buffer@, old(
                self).row_position as int, old(self).color_fmt),
    {
        if self.row_position == VGA_NUM_ROWS - 1 {
            let color = self.color_fmt;
            let mut r: usize = 1;
            while r < VGA_NUM_ROWS
                invariant
                    self.wf(),
                    1 <= r <= VGA_NUM_ROWS,
                    self.color_fmt == old(self).color_fmt,
                    self.row_position == old(self).row_position,
                    color == old(self).color_fmt,
                    forall|rr: int, c: int|
                        0 <= rr < r - 1 && 0 <= c < VGA_NUM_COLS
                            ==> #[trigger] self.buffer@[cell_index(rr, c)]
                            == old(self).buffer@[cell_index(rr + 1, c)],
                    forall|i: int|
                        (r - 1) * VGA_NUM_COLS <= i < VGA_NUM_ROWS * VGA_NUM_COLS
                            ==> #[trigger] self.buffer@[i] == old(self).buffer@[i],
                decreases VGA_NUM_ROWS - r,
            {
                let mut c: usize = 0;
                while c < VGA_NUM_COLS
                    invariant
                        self.wf(),
                        1 <= r < VGA_NUM_ROWS,
                        c <= VGA_NUM_COLS,
                        self.color_fmt == old(self).color_fmt,
                        self.row_position == old(self).row_position,
                        forall|rr: int, cc: int|
                            0 <= rr < r - 1 && 0 <= cc < VGA_NUM_COLS
                                ==> #[trigger] self.buffer@[cell_index(rr, cc)]
                                == old(self).buffer@[cell_index(rr + 1, cc)],
                        forall|cc: int|
                            0 <= cc < c ==> #[trigger] self.buffer@[cell_index(r - 1, cc)]
                                == old(self).buffer@[cell_index(r as int, cc)],
                        forall|i: int|
                            (r - 1) * VGA_NUM_COLS + c <= i < VGA_NUM_ROWS * VGA_NUM_COLS
                                ==> #[trigger] self.buffer@[i] == old(self).buffer@[i],
                    decreases VGA_NUM_COLS - c,
                {
                    let character = self.buffer[r * VGA_NUM_COLS + c];
                    self.buffer[(r - 1) * VGA_NUM_COLS + c] = character;
                    proof {
                        assert((r - 1) * VGA_NUM_COLS == r * VGA_NUM_COLS - VGA_NUM_COLS);
                    }
                    c = c + 1;
                }
                proof {
                    assert forall|rr: int, cc: int|
                        0 <= rr < r && 0 <= cc < VGA_NUM_COLS implies #[trigger] self.buffer@[
                        cell_index(rr, cc)] == old(self).buffer@[cell_index(rr + 1, cc)] by {
                        if rr < r - 1 {
                            assert(cell_index(rr, cc) < (r - 1) * VGA_NUM_COLS) by (nonlinear_arith)
                                requires 0 <= rr < r - 1, 0 <= cc < VGA_NUM_COLS;
                        }
                    }
                }
                r = r + 1;
            }
            let mut c: usize = 0;
            while c < VGA_NUM_COLS
                invariant
                    self.wf(),
                    c <= VGA_NUM_COLS,
                    self.color_fmt == old(self).color_fmt,
                    self.row_position == old(self).row_position,
                    color == old(self).color_fmt,
                    forall|rr: int, cc: int|
                        0 <= rr < VGA_NUM_ROWS - 1 && 0 <= cc < VGA_NUM_COLS
                            ==> #[trigger] self.buffer@[cell_index(rr, cc)]
                            == old(self).buffer@[cell_index(rr + 1, cc)],
                    forall|cc: int|
                        0 <= cc < c ==> #[trigger] self.buffer@[cell_index(VGA_NUM_ROWS - 1, cc)]
                            == (VGAChar { character: 0x20u8, color: old(self).color_fmt }),
                decreases VGA_NUM_COLS - c,
            {
                self.buffer[(VGA_NUM_ROWS - 1) * VGA_NUM_COLS + c] = VGAChar::new(0x20, color);
                proof {
                    assert forall|rr: int, cc: int|
                        0 <= rr < VGA_NUM_ROWS - 1 && 0 <= cc < VGA_NUM_COLS implies #[trigger]
                        self.buffer@[cell_index(rr, cc)] == old(self).buffer@[cell_index(rr + 1,
                        cc)] by {
                        assert(cell_index(rr, cc) < (VGA_NUM_ROWS - 1) * VGA_NUM_COLS)
                            by (nonlinear_arith)
                            requires 0 <= rr < VGA_NUM_ROWS - 1, 0 <= cc < VGA_NUM_COLS;
                    }
                }
                c = c + 1;
            }
            proof {
                let cols = VGA_NUM_COLS as int;
                assert forall|i: int| 0 <= i < VGA_NUM_ROWS * VGA_NUM_COLS implies #[trigger]
                    self.buffer@[i] == scrolled(old(self).buffer@, old(self).color_fmt)[i] by {
                    let r = i / cols;
                    let cc = i % cols;
                    vstd::arithmetic::div_mod::lemma_fundamental_div_mod(i, cols);
                    vstd::arithmetic::div_mod::lemma_mod_bound(i, cols);
                    vstd::arithmetic::div_mod::lemma_div_is_ordered(0, i, cols);
                    vstd::arithmetic::div_mod::lemma_div_is_ordered(i,
                        VGA_NUM_ROWS * VGA_NUM_COLS - 1, cols);
                    vstd::arithmetic::div_mod::lemma_div_multiples_vanish_fancy(
                        VGA_NUM_ROWS - 1, cols - 1, cols);
                    assert((VGA_NUM_ROWS * VGA_NUM_COLS - 1) as int / cols == VGA_NUM_ROWS - 1);
                    assert(cell_index(r, cc) == i);
                    if i < (VGA_NUM_ROWS - 1) * VGA_NUM_COLS {
                        assert(r < VGA_NUM_ROWS - 1) by {
                            vstd::arithmetic::div_mod::lemma_div_is_ordered(i, (VGA_NUM_ROWS - 1)
                                * VGA_NUM_COLS - 1, cols);
                            vstd::arithmetic::div_mod::lemma_div_multiples_vanish_fancy(
                                VGA_NUM_ROWS - 2, cols - 1, cols);
                            assert(((VGA_NUM_ROWS - 1) * VGA_NUM_COLS - 1) as int / cols
                                == VGA_NUM_ROWS - 2);
                        }
                        assert(self.buffer@[cell_index(r, cc)]
                            == old(self).buffer@[cell_index(r + 1, cc)]);
                        assert(cell_index(r + 1, cc) == i + cols);
                    } else {
                        assert(r >= VGA_NUM_ROWS - 1) by {
                            vstd::arithmetic::div_mod::lemma_div_is_ordered((VGA_NUM_ROWS - 1)
                                * VGA_NUM_COLS, i, cols);
                            vstd::arithmetic::div_mod::lemma_div_multiples_vanish_fancy(
                                VGA_NUM_ROWS - 1, 0, cols);
                        }
                        assert(r == VGA_NUM_ROWS - 1);
                        assert(self.buffer@[cell_index(VGA_NUM_ROWS - 1, cc)] == (VGAChar {
                            character: 0x20u8,
                            color: old(self).color_fmt,
                        }));
                    }
                }
                assert(self.buffer@ =~= scrolled(old(self).buffer@, old(self).color_fmt));
            }
        } else {
            self.row_position = self.row_position + 1;
        }
        self.col_position = 0;
    }

    /// Write one character at the cursor in the current colours,
    /// advancing the cursor; a newline byte, or running past the last
    /// column, moves to the next line first.
    pub fn write_byte(&mut self, byte: u8)
        requires
            old(self).wf(),
        ensures
            final(self).wf(),
            final(self).color_fmt == old(self).color_fmt,
            byte != 0x0A && old(self).col_position < VGA_NUM_COLS ==> {
                &&& final(self).row_position == old(self).row_position
                &&& final(self).col_position == old(self).col_position + 1
                &&& final(self).buffer@ == old(self).buffer@.update(cell_index(old(
                    self).row_position as int, old(self).col_position as int), (VGAChar {
                    character: byte,
                    color: old(self).color_fmt,
                }))
            },
            byte != 0x0A && old(self).col_position == VGA_NUM_COLS ==> {
                &&& final(self).row_position as int == new_line_row(old(self).row_position
                    as int)
                &&& final(self).col_position == 1
                &&& final(self).buffer@ == new_line_buffer(old(self).buffer@, old(
                    self).row_position as int, old(self).color_fmt).update(cell_index(
                    new_line_row(old(self).row_position as int), 0), (VGAChar {
                    character: byte,
                    color: old(self).color_fmt,
                }))
            },
            byte == 0x0A ==> {
                &&& final(self).col_position == 0
                &&& final(self).row_position as int == new_line_row(old(self).row_position
                    as int)
                &&& final(self).buffer@ == new_line_buffer(old(self).buffer@, old(
                    self).row_position as int, old(self).color_fmt)
            },
    {
        if byte == 0x0A {
            self.new_line();
        } else {
            if self.col_position >= VGA_NUM_COLS {
                self.new_line();
            }
            let col = self.col_position;
            let row = self.row_position;
            let color = self.color_fmt;
            proof {
                assert(cell_index(row as int, col as int) < VGA_NUM_ROWS * VGA_NUM_COLS)
                    by (nonlinear_arith)
                    requires row < VGA_NUM_ROWS, col < VGA_NUM_COLS;
            }
            self.buffer[row * VGA_NUM_COLS + col] = VGAChar { character: byte, color };
            self.col_position = self.col_position + 1;
        }
    }

    /// Blank the whole screen in the current background colour and put
    /// the cursor back at the top left.
    pub fn clear_screen(&mut self)
        requires
            old(self).wf(),
        ensures
            final(self).wf(),
            final(self).color_fmt == old(self).color_fmt,
            final(self).row_position == 0,
            final(self).col_position == 0,
            forall|i: int|
                0 <= i < VGA_NUM_ROWS * VGA_NUM_COLS ==> #[trigger] final(self).buffer@[i]
                    == (VGAChar { character: 0x20u8, color: old(self).color_fmt }),
    {
        let color = self.color_fmt;
        let space: u8 = 0x20;
        let mut k: usize = 0;
        while k < VGA_NUM_ROWS * VGA_NUM_COLS
            invariant
                self.wf(),
                k <= VGA_NUM_ROWS * VGA_NUM_COLS,
                self.color_fmt == old(self).color_fmt,
                color == old(self).color_fmt,
                space == 0x20u8,
                forall|i: int|
                    0 <= i < k ==> #[trigger] self.buffer@[i] == (VGAChar {
                        character: 0x20u8,
                        color: old(self).color_fmt,
                    }),
            decreases VGA_NUM_ROWS * VGA_NUM_COLS - k,
        {
            let ghost prev = self.buffer@;
            self.buffer[k] = VGAChar { character: space, color };
            proof {
                assert forall|i: int| 0 <= i < k + 1 implies #[trigger] self.buffer@[i]
                    == (VGAChar { character: 0x20u8, color: old(self).color_fmt }) by {
                    if i < k {
                        assert(self.buffer@[i] == prev[i]);
                    }
                }
            }
            k = k + 1;
        }
        self.row_position = 0;
        self.col_position = 0;
    }
}

/// Blank the given diagnostic screen.
pub fn clear_screen(writer: &mut Writer)
    requires
        old(writer).wf(),
    ensures
        final(writer).wf(),
        final(writer).color_fmt == old(writer).color_fmt,
        final(writer).row_position == 0,
        final(writer).col_position == 0,
        forall|i: int|
            0 <= i < VGA_NUM_ROWS * VGA_NUM_COLS ==> #[trigger] final(writer).buffer@[i]
                == (VGAChar { character: 0x20u8, color: old(writer).color_fmt }),
{
    writer.clear_screen();
}

} // verus!
