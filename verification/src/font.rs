//! A bitmap font for the labels drawn on renders: glyphs of one size, each
//! a grid of cells with or without ink, and the space the pen advances by.

use vstd::prelude::*;

verus! {

/// One character's cells, row by row from the top, `true` where there is ink.
pub struct Glyph {
    pub ch: char,
    pub rows: Vec<Vec<bool>>,
}

/// Glyphs of one size: `width` by `height` cells, with `tracking` blank
/// columns between one character and the next.
pub struct Font {
    pub width: u32,
    pub height: u32,
    pub tracking: u32,
    pub glyphs: Vec<Glyph>,
}

/// Where the first glyph for `ch`, from `i` on, stands.
pub open spec fn glyph_at(glyphs: Seq<Glyph>, ch: char, i: int) -> Option<int>
    decreases glyphs.len() - i,
{
    if i < 0 || i >= glyphs.len() {
        None
    } else if glyphs[i].ch == ch {
        Some(i)
    } else {
        glyph_at(glyphs, ch, i + 1)
    }
}

impl Font {
    /// Whether cell (`col`, `row`) of `ch` has ink: inside the glyph box, and
    /// set in the first glyph the font has for `ch`. A character the font
    /// has no glyph for draws nothing.
    pub open spec fn ink(&self, ch: char, col: int, row: int) -> bool {
        &&& 0 <= col < self.width
        &&& 0 <= row < self.height
        &&& match glyph_at(self.glyphs@, ch, 0) {
            Some(g) => {
                let rows = self.glyphs@[g].rows@;
                row < rows.len() && col < rows[row]@.len() && rows[row]@[col]
            },
            None => false,
        }
    }

    /// How far the pen moves for one character, in cells.
    pub open spec fn advance(&self) -> int {
        self.width + self.tracking
    }

    /// Whether cell (`col`, `row`) of `ch` has ink.
    pub fn pixel(&self, ch: char, col: u32, row: u32) -> (b: bool)
        ensures
            b == self.ink(ch, col as int, row as int),
    {
        if col >= self.width || row >= self.height {
            return false;
        }
        let mut i: usize = 0;
        while i < self.glyphs.len()
            invariant
                i <= self.glyphs@.len(),
                col < self.width,
                row < self.height,
                glyph_at(self.glyphs@, ch, 0) == glyph_at(self.glyphs@, ch, i as int),
            decreases self.glyphs@.len() - i,
        {
            if self.glyphs[i].ch == ch {
                assert(glyph_at(self.glyphs@, ch, i as int) == Some(i as int));
                let rows = &self.glyphs[i].rows;
                let r = row as usize;
                let c = col as usize;
                if r < rows.len() && c < rows[r].len() {
                    let b = rows[r][c];
                    assert(b == self.glyphs@[i as int].rows@[r as int]@[c as int]);
                    return b;
                }
                return false;
            }
            i = i + 1;
        }
        false
    }

    /// The width of `n` characters at `scale`: the distance the pen travels.
    pub open spec fn text_width_spec(&self, n: nat, scale: nat) -> int {
        n * (self.advance() * scale)
    }

    /// The height of a line at `scale`.
    pub open spec fn text_height_spec(&self, scale: nat) -> int {
        self.height * scale
    }
}

} // verus!
