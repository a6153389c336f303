//! Drawing trees as text: box characters, node sizes in character cells and the canvas.
use vstd::prelude::*;
use vstd::string::StringSliceAdditionalSpecFns;
use crate::tree::{Node, NodeId, TreeData};

verus! {

/// The characters used to draw node frames and the edges between nodes.
#[derive(Clone, Copy)]
pub struct CharSet {
    pub vertical: char,
    pub horizontal: char,
    pub join_bottom: char,
    pub join_top: char,
    pub top_left: char,
    pub top_right: char,
    pub bottom_right: char,
    pub bottom_left: char,
    pub join_left: char,
    pub join_right: char,
    pub cross: char,
}

impl CharSet {
    /// Box drawing characters with square corners.
    pub fn square() -> (r: Self)
        ensures
            r.vertical == '│' && r.horizontal == '─',
            r.top_left == '┌' && r.top_right == '┐',
            r.bottom_left == '└' && r.bottom_right == '┘',
            r.join_bottom == '┴' && r.join_top == '┬',
            r.join_left == '├' && r.join_right == '┤',
            r.cross == '┼',
    {
        Self {
            vertical: '│',
            horizontal: '─',
            top_left: '┌',
            top_right: '┐',
            bottom_left: '└',
            bottom_right: '┘',
            join_bottom: '┴',
            join_top: '┬',
            join_left: '├',
            join_right: '┤',
            cross: '┼',
        }
    }

    /// Box drawing characters with rounded corners.
    pub fn rounded() -> (r: Self)
        ensures
            r.vertical == '│' && r.horizontal == '─',
            r.top_left == '╭' && r.top_right == '╮',
            r.bottom_left == '╰' && r.bottom_right == '╯',
            r.join_bottom == '┴' && r.join_top == '┬',
            r.join_left == '├' && r.join_right == '┤',
            r.cross == '┼',
    {
        Self {
            vertical: '│',
            horizontal: '─',
            top_left: '╭',
            top_right: '╮',
            bottom_right: '╯',
            bottom_left: '╰',
            join_bottom: '┴',
            join_top: '┬',
            join_left: '├',
            join_right: '┤',
            cross: '┼',
        }
    }
}

} // verus!

verus! {

/// The byte of a line feed.
pub open spec fn lf() -> u8 {
    10u8
}

/// The byte of a carriage return.
pub open spec fn cr() -> u8 {
    13u8
}

/// The pieces of a text between its line feeds; there is always one more piece than there
/// are line feeds.
pub open spec fn segments(bs: Seq<u8>) -> Seq<Seq<u8>>
    decreases bs.len(),
{
    if bs.len() == 0 {
        seq![Seq::empty()]
    } else {
        let s = segments(bs.drop_last());
        if bs.last() == lf() {
            s.push(Seq::empty())
        } else {
            s.update(s.len() - 1, s.last().push(bs.last()))
        }
    }
}

/// A line that a line feed ends loses the carriage return right before that line feed.
pub open spec fn strip_cr(line: Seq<u8>) -> Seq<u8> {
    if line.len() > 0 && line.last() == cr() {
        line.drop_last()
    } else {
        line
    }
}

/// The lines of a text, as `str::lines` yields them: the pieces between line feeds, each
/// piece that a line feed ends without the carriage return before it, and no last line when
/// the text is empty or ends with a line feed.
pub open spec fn text_lines(bs: Seq<u8>) -> Seq<Seq<u8>> {
    let s = segments(bs);
    let ended = s.drop_last().map_values(|l: Seq<u8>| strip_cr(l));
    if s.last().len() > 0 {
        ended.push(s.last())
    } else {
        ended
    }
}

/// The length of the longest line, or 0 for no line.
pub open spec fn max_len(ls: Seq<Seq<u8>>) -> nat
    decreases ls.len(),
{
    if ls.len() == 0 {
        0
    } else {
        let m = max_len(ls.drop_last());
        if ls.last().len() > m {
            ls.last().len()
        } else {
            m
        }
    }
}

/// Number of line feeds in a text.
pub open spec fn count_lf(bs: Seq<u8>) -> nat
    decreases bs.len(),
{
    if bs.len() == 0 {
        0
    } else {
        count_lf(bs.drop_last()) + if bs.last() == lf() {
            1nat
        } else {
            0nat
        }
    }
}

/// Width of a text in bytes: its longest line, and at least 1.
pub open spec fn text_width(bs: Seq<u8>) -> nat {
    let ls = text_lines(bs);
    if ls.len() == 0 || max_len(ls) == 0 {
        1
    } else {
        max_len(ls)
    }
}

/// Height of a text in lines: one more than it has line feeds, and 0 for the empty text.
pub open spec fn text_height(bs: Seq<u8>) -> nat {
    if bs.len() == 0 {
        0
    } else {
        count_lf(bs) + 1
    }
}

/// The columns and rows spanned by the frame of a node holding the bytes `bs`: its text width
/// plus one and its text height plus one.
pub open spec fn frame_extent(bs: Seq<u8>) -> (nat, nat) {
    (text_width(bs) + 1, text_height(bs) + 1)
}

/// The frame of a node holding the text `s` spans its text width plus one columns and its
/// text height plus one rows, counting from the frame's first column and first row.
pub fn node_size(s: &str) -> (r: (usize, usize))
    requires
        s.spec_bytes().len() + 2 <= usize::MAX,
    ensures
        (r.0 as nat, r.1 as nat) == frame_extent(s.spec_bytes()),
        r.0 == text_width(s.spec_bytes()) + 1,
        r.1 == text_height(s.spec_bytes()) + 1,
        r.0 <= s.spec_bytes().len() + 1 || r.0 == 2,
{
    let bs = s.as_bytes();
    let ghost b = bs@;
    let mut maxw: usize = 0;
    let mut cur: usize = 0;
    let mut prev_cr = false;
    let mut nl: usize = 0;
    let mut k: usize = 0;
    while k < bs.len()
        invariant
            b == bs@,
            b.len() + 2 <= usize::MAX,
            k <= b.len(),
            maxw <= k,
            cur <= k,
            nl <= k,
            maxw == max_len(
                segments(b.take(k as int)).drop_last().map_values(|l: Seq<u8>| strip_cr(l)),
            ),
            cur == segments(b.take(k as int)).last().len(),
            prev_cr == (cur > 0 && segments(b.take(k as int)).last().last() == cr()),
            nl == count_lf(b.take(k as int)),
            segments(b.take(k as int)).len() == nl + 1,
        decreases b.len() - k,
    {
        let c = bs[k];
        let ghost s0 = segments(b.take(k as int));
        proof {
            assert(b.take(k + 1).drop_last() =~= b.take(k as int));
            assert(b.take(k + 1).last() == c);
        }
        if c == 10u8 {
            let line_len = if cur > 0 && prev_cr {
                cur - 1
            } else {
                cur
            };
            if line_len > maxw {
                maxw = line_len;
            }
            cur = 0;
            prev_cr = false;
            nl = nl + 1;
            proof {
                let s1 = segments(b.take(k + 1));
                assert(s1 == s0.push(Seq::<u8>::empty()));
                let before = s0.drop_last().map_values(|l: Seq<u8>| strip_cr(l));
                let after = s1.drop_last().map_values(|l: Seq<u8>| strip_cr(l));
                assert(after =~= before.push(strip_cr(s0.last())));
                assert(after.drop_last() =~= before);
            }
        } else {
            cur = cur + 1;
            prev_cr = c == 13u8;
            proof {
                let s1 = segments(b.take(k + 1));
                assert(s1.drop_last() =~= s0.drop_last());
            }
        }
        k = k + 1;
    }
    proof {
        assert(b.take(b.len() as int) =~= b);
    }
    let has_lines = nl > 0 || cur > 0;
    if cur > maxw {
        maxw = cur;
    }
    let width = if !has_lines || maxw == 0 {
        1
    } else {
        maxw
    };
    let height = if bs.len() == 0 {
        0
    } else {
        nl + 1
    };
    proof {
        let s = segments(b);
        let ended = s.drop_last().map_values(|l: Seq<u8>| strip_cr(l));
        if s.last().len() > 0 {
            assert(text_lines(b).drop_last() =~= ended);
        }
    }
    (width + 1, height + 1)
}

} // verus!

verus! {

/// The grid `g` with the character at row `r`, column `c` replaced by `ch`.
pub open spec fn put(g: Seq<Seq<char>>, r: int, c: int, ch: char) -> Seq<Seq<char>> {
    g.update(r, g[r].update(c, ch))
}

/// A grid of `height` rows of `width` spaces.
pub open spec fn blank(width: nat, height: nat) -> Seq<Seq<char>> {
    Seq::new(height, |r: int| Seq::new(width, |c: int| ' '))
}

/// Every row of the grid has `width` cells.
pub open spec fn rows_have_width(g: Seq<Seq<char>>, width: nat) -> bool {
    forall|r: int| 0 <= r < g.len() ==> #[trigger] g[r].len() == width
}

/// What a frame with top left corner `(x, y)`, `w` columns and `h` rows further to the bottom
/// right corner leaves in cell `(r, c)` that held `old`: horizontal lines along the top and
/// bottom rows, vertical lines along the outer columns, the four corners, and `old` elsewhere.
pub open spec fn frame_cell(cs: CharSet, x: int, y: int, w: int, h: int, r: int, c: int, old: char) -> char {
    if (r == y || r == y + h) && x < c < x + w {
        cs.horizontal
    } else if (c == x || c == x + w) && y < r < y + h {
        cs.vertical
    } else if r == y + h && c == x + w {
        cs.bottom_right
    } else if r == y + h && c == x {
        cs.bottom_left
    } else if r == y && c == x + w {
        cs.top_right
    } else if r == y && c == x {
        cs.top_left
    } else {
        old
    }
}

/// The grid with a frame drawn on it.
pub open spec fn draw_frame(g: Seq<Seq<char>>, cs: CharSet, x: int, y: int, w: int, h: int) -> Seq<
    Seq<char>,
> {
    Seq::new(
        g.len(),
        |r: int| Seq::new(g[r].len(), |c: int| frame_cell(cs, x, y, w, h, r, c, g[r][c])),
    )
}

/// A character canvas, drawn on cell by cell.
pub struct TextOut {
    dst: Vec<Vec<char>>,
    char_set: CharSet,
}

impl View for TextOut {
    type V = Seq<Seq<char>>;

    closed spec fn view(&self) -> Seq<Seq<char>> {
        self.dst@.map_values(|row: Vec<char>| row@)
    }
}

impl TextOut {
    /// The characters the canvas draws with.
    pub closed spec fn chars(&self) -> CharSet {
        self.char_set
    }

    /// A canvas of `height` rows of `width` spaces.
    pub fn new(width: usize, height: usize, char_set: CharSet) -> (r: Self)
        ensures
            r@ == blank(width as nat, height as nat),
            r.chars() == char_set,
    {
        let mut dst: Vec<Vec<char>> = Vec::with_capacity(height);
        for i in 0..height
            invariant
                dst@.len() == i,
                forall|r: int| 0 <= r < i ==> #[trigger] dst@[r]@ == Seq::new(width as nat, |c: int| ' '),
        {
            let mut row: Vec<char> = Vec::with_capacity(width);
            for j in 0..width
                invariant
                    row@ == Seq::new(j as nat, |c: int| ' '),
            {
                row.push(' ');
                proof {
                    assert(row@ =~= Seq::new((j + 1) as nat, |c: int| ' '));
                }
            }
            dst.push(row);
        }
        let r = TextOut { dst, char_set };
        proof {
            assert(r@ =~= blank(width as nat, height as nat));
        }
        r
    }

    /// No row is longer than a vector can be, nor are there more rows.
    pub proof fn lemma_rows_bounded(&self)
        ensures
            self@.len() <= usize::MAX,
            forall|r: int| 0 <= r < self@.len() ==> #[trigger] self@[r].len() <= usize::MAX,
    {
        self.lemma_bounded();
    }

    proof fn lemma_bounded(&self)
        ensures
            self@.len() <= usize::MAX,
            forall|r: int| 0 <= r < self@.len() ==> #[trigger] self@[r].len() <= usize::MAX,
    {
        assert(self.dst@.len() == self.dst.len());
        assert forall|r: int| 0 <= r < self@.len() implies #[trigger] self@[r].len() <= usize::MAX by {
            assert(self@[r] == self.dst@[r]@);
            assert(self.dst@[r]@.len() == self.dst@[r].len());
        }
    }

    /// Writes one character.
    fn put(&mut self, r: usize, c: usize, ch: char)
        requires
            r < old(self)@.len(),
            c < old(self)@[r as int].len(),
        ensures
            final(self)@ == put(old(self)@, r as int, c as int, ch),
            final(self).chars() == old(self).chars(),
    {
        let ghost g = self@;
        let mut row: Vec<char> = Vec::new();
        std::mem::swap(&mut row, &mut self.dst[r]);
        proof {
            assert(row@ == g[r as int]);
        }
        row.set(c, ch);
        std::mem::swap(&mut row, &mut self.dst[r]);
        proof {
            assert(self@ =~= put(g, r as int, c as int, ch));
        }
    }

    /// The rows of the canvas, consuming it.
    pub fn into_rows(self) -> (r: Vec<Vec<char>>)
        ensures
            r@.map_values(|row: Vec<char>| row@) == self@,
    {
        self.dst
    }
}

} // verus!

verus! {

/// The part of a frame already drawn once the corners, the horizontal lines up to column
/// `hx` and the vertical lines down to row `vy` are in place.
pub open spec fn partial_frame_cell(
    cs: CharSet,
    x: int,
    y: int,
    w: int,
    h: int,
    hx: int,
    vy: int,
    r: int,
    c: int,
    old: char,
) -> char {
    if (r == y || r == y + h) && x < c < hx {
        cs.horizontal
    } else if (c == x || c == x + w) && y < r < vy {
        cs.vertical
    } else if r == y + h && c == x + w {
        cs.bottom_right
    } else if r == y + h && c == x {
        cs.bottom_left
    } else if r == y && c == x + w {
        cs.top_right
    } else if r == y && c == x {
        cs.top_left
    } else {
        old
    }
}

impl TextOut {
    /// Draws the frame of a node whose top left corner is at column `x`, row `y`, with the
    /// bottom right corner `w` columns right and `h` rows down.
    pub fn write_frame(&mut self, x: usize, y: usize, w: usize, h: usize)
        requires
            y + h < old(self)@.len(),
            forall|r: int| y <= r <= y + h ==> x + w < #[trigger] old(self)@[r].len(),
        ensures
            final(self)@ == draw_frame(old(self)@, old(self).chars(), x as int, y as int, w as int, h as int),
            final(self).chars() == old(self).chars(),
            same_shape(final(self)@, old(self)@),
    {
        let ghost g = self@;
        let ghost cs = self.chars();
        proof {
            self.lemma_bounded();
            assert(x + w < g[y as int].len());
        }
        let cs_top_left = self.char_set.top_left;
        let cs_top_right = self.char_set.top_right;
        let cs_bottom_left = self.char_set.bottom_left;
        let cs_bottom_right = self.char_set.bottom_right;
        let cs_horizontal = self.char_set.horizontal;
        let cs_vertical = self.char_set.vertical;
        self.put(y, x, cs_top_left);
        self.put(y, x + w, cs_top_right);
        self.put(y + h, x, cs_bottom_left);
        self.put(y + h, x + w, cs_bottom_right);
        proof {
            assert forall|r: int, c: int| 0 <= r < g.len() && 0 <= c < g[r].len() implies #[trigger] self@[r][c]
                == partial_frame_cell(cs, x as int, y as int, w as int, h as int, x + 1, y + 1, r, c, g[r][c]) by {}
        }
        let xe = x + w;
        let mut xi = x + 1;
        while xi < xe
            invariant
                y + h < g.len(),
                g.len() <= usize::MAX,
                forall|r: int| 0 <= r < g.len() ==> #[trigger] g[r].len() <= usize::MAX,
                forall|r: int| y <= r <= y + h ==> x + w < #[trigger] g[r].len(),
                xe == x + w,
                x + 1 <= xi <= x + w || (w == 0 && xi == x + 1),
                self.chars() == cs,
                cs_horizontal == cs.horizontal,
                cs_vertical == cs.vertical,
                self@.len() == g.len(),
                forall|r: int| 0 <= r < g.len() ==> #[trigger] self@[r].len() == g[r].len(),
                forall|r: int, c: int|
                    0 <= r < g.len() && 0 <= c < g[r].len() ==> #[trigger] self@[r][c]
                        == partial_frame_cell(cs, x as int, y as int, w as int, h as int, xi as int, y + 1, r, c, g[r][c]),
            decreases x + w - xi,
        {
            let ghost before = self@;
            proof {
                assert(x + w < g[y as int].len());
            }
            self.put(y, xi, cs_horizontal);
            self.put(y + h, xi, cs_horizontal);
            proof {
                assert forall|r: int, c: int|
                    0 <= r < g.len() && 0 <= c < g[r].len() implies #[trigger] self@[r][c]
                    == partial_frame_cell(cs, x as int, y as int, w as int, h as int, xi + 1, y + 1, r, c, g[r][c]) by {
                    if !((r == y || r == y + h) && c == xi) {
                        assert(self@[r][c] == before[r][c]);
                    } else {
                        assert(self@[r][c] == cs.horizontal);
                    }
                }
            }
            xi = xi + 1;
        }
        let ye = y + h;
        let mut yi = y + 1;
        while yi < ye
            invariant
                y + h < g.len(),
                g.len() <= usize::MAX,
                forall|r: int| 0 <= r < g.len() ==> #[trigger] g[r].len() <= usize::MAX,
                forall|r: int| y <= r <= y + h ==> x + w < #[trigger] g[r].len(),
                ye == y + h,
                y + 1 <= yi <= y + h || (h == 0 && yi == y + 1),
                self.chars() == cs,
                cs_horizontal == cs.horizontal,
                cs_vertical == cs.vertical,
                self@.len() == g.len(),
                forall|r: int| 0 <= r < g.len() ==> #[trigger] self@[r].len() == g[r].len(),
                forall|r: int, c: int|
                    0 <= r < g.len() && 0 <= c < g[r].len() ==> #[trigger] self@[r][c]
                        == partial_frame_cell(cs, x as int, y as int, w as int, h as int, (x + w) as int, yi as int, r, c, g[r][c]),
            decreases y + h - yi,
        {
            let ghost before = self@;
            proof {
                assert(x + w < g[yi as int].len());
            }
            self.put(yi, x, cs_vertical);
            self.put(yi, x + w, cs_vertical);
            proof {
                assert forall|r: int, c: int|
                    0 <= r < g.len() && 0 <= c < g[r].len() implies #[trigger] self@[r][c]
                    == partial_frame_cell(cs, x as int, y as int, w as int, h as int, (x + w) as int, yi + 1, r, c, g[r][c]) by {
                    if !(r == yi && (c == x || c == x + w)) {
                        assert(self@[r][c] == before[r][c]);
                    } else {
                        assert(self@[r][c] == cs.vertical);
                    }
                }
            }
            yi = yi + 1;
        }
        proof {
            let d = draw_frame(g, cs, x as int, y as int, w as int, h as int);
            assert forall|r: int| 0 <= r < g.len() implies #[trigger] self@[r] =~= d[r] by {
                assert forall|c: int| 0 <= c < g[r].len() implies self@[r][c] == d[r][c] by {
                    assert(self@[r][c] == partial_frame_cell(cs, x as int, y as int, w as int, h as int, (x + w) as int, yi as int, r, c, g[r][c]));
                }
            }
            assert(self@ =~= d);
        }
    }
}

} // verus!

verus! {

/// How many rows down text `s` has moved: the number of its line feeds.
pub open spec fn text_row(s: Seq<char>) -> nat
    decreases s.len(),
{
    if s.len() == 0 {
        0
    } else {
        text_row(s.drop_last()) + if s.last() == '\n' {
            1nat
        } else {
            0nat
        }
    }
}

/// How many columns right text `s` has moved: the characters after its last line feed,
/// carriage returns not counted.
pub open spec fn text_col(s: Seq<char>) -> nat
    decreases s.len(),
{
    if s.len() == 0 {
        0
    } else if s.last() == '\n' {
        0
    } else if s.last() == '\r' {
        text_col(s.drop_last())
    } else {
        text_col(s.drop_last()) + 1
    }
}

/// Whether a character is written as it is: all but line feeds and carriage returns.
pub open spec fn printable(ch: char) -> bool {
    ch != '\n' && ch != '\r'
}

/// The grid with text `s` written from column `x`, row `y` on: each character that is written
/// goes to the row of its line and the column after the characters before it on that line.
pub open spec fn draw_text(g: Seq<Seq<char>>, x: int, y: int, s: Seq<char>) -> Seq<Seq<char>>
    decreases s.len(),
{
    if s.len() == 0 {
        g
    } else {
        let g1 = draw_text(g, x, y, s.drop_last());
        let p = s.drop_last();
        if printable(s.last()) {
            put(g1, y + text_row(p), x + text_col(p), s.last())
        } else {
            g1
        }
    }
}

/// Every character of `s` that is written lands inside the grid.
pub open spec fn text_fits(g: Seq<Seq<char>>, x: int, y: int, s: Seq<char>) -> bool {
    forall|k: int|
        0 <= k < s.len() && printable(#[trigger] s[k]) ==> {
            let r = y + text_row(s.take(k));
            &&& 0 <= r < g.len()
            &&& 0 <= x + text_col(s.take(k)) < g[r].len()
        }
}

impl TextOut {
    /// Writes text from column `x`, row `y` on, moving to the next row at each line feed and
    /// skipping carriage returns.
    pub fn write_text(&mut self, x: usize, y: usize, s: &str)
        requires
            s@.len() < usize::MAX,
            text_fits(old(self)@, x as int, y as int, s@),
        ensures
            final(self)@ == draw_text(old(self)@, x as int, y as int, s@),
            final(self).chars() == old(self).chars(),
            same_shape(final(self)@, old(self)@),
    {
        let ghost g = self@;
        let ghost t = s@;
        let mut off_x: usize = 0;
        let mut off_y: usize = 0;
        proof {
            self.lemma_bounded();
        }
        for c in it: s.chars()
            invariant
                it.seq() == t,
                t.len() < usize::MAX,
                g.len() <= usize::MAX,
                forall|r: int| 0 <= r < g.len() ==> #[trigger] g[r].len() <= usize::MAX,
                text_fits(g, x as int, y as int, t),
                off_x == text_col(t.take(it.index() as int)),
                off_y == text_row(t.take(it.index() as int)),
                off_x <= it.index(),
                off_y <= it.index(),
                self@ == draw_text(g, x as int, y as int, t.take(it.index() as int)),
                self.chars() == old(self).chars(),
        {
            let ghost k = it.index();
            proof {
                assert(t.take(k + 1).drop_last() =~= t.take(k as int));
                assert(t.take(k + 1).last() == c);
                lemma_text_fits_prefix(g, x as int, y as int, t, k as int);
                lemma_draw_text_shape(g, x as int, y as int, t.take(k as int));
            }
            if c == '\r' {
            } else if c == '\n' {
                off_x = 0;
                off_y = off_y + 1;
            } else {
                proof {
                    assert(printable(t[k as int]));
                }
                self.put(y + off_y, x + off_x, c);
                off_x = off_x + 1;
            }
        }
        proof {
            assert(t.take(t.len() as int) =~= t);
            lemma_draw_text_shape(g, x as int, y as int, t);
        }
    }
}

/// If a text fits, so does each of its prefixes.
proof fn lemma_text_fits_prefix(g: Seq<Seq<char>>, x: int, y: int, s: Seq<char>, n: int)
    requires
        text_fits(g, x, y, s),
        0 <= n <= s.len(),
    ensures
        text_fits(g, x, y, s.take(n)),
{
    let p = s.take(n);
    assert forall|k: int| 0 <= k < p.len() && printable(#[trigger] p[k]) implies {
        let r = y + text_row(p.take(k));
        &&& 0 <= r < g.len()
        &&& 0 <= x + text_col(p.take(k)) < g[r].len()
    } by {
        assert(p.take(k) =~= s.take(k));
        assert(s[k] == p[k]);
    }
}

/// Writing text keeps the grid's shape.
proof fn lemma_draw_text_shape(g: Seq<Seq<char>>, x: int, y: int, s: Seq<char>)
    requires
        text_fits(g, x, y, s),
    ensures
        draw_text(g, x, y, s).len() == g.len(),
        forall|r: int| 0 <= r < g.len() ==> #[trigger] draw_text(g, x, y, s)[r].len() == g[r].len(),
    decreases s.len(),
{
    if s.len() > 0 {
        let p = s.drop_last();
        assert forall|k: int| 0 <= k < p.len() && printable(#[trigger] p[k]) implies {
            let r = y + text_row(p.take(k));
            &&& 0 <= r < g.len()
            &&& 0 <= x + text_col(p.take(k)) < g[r].len()
        } by {
            assert(p.take(k) =~= s.take(k));
            assert(s[k] == p[k]);
        }
        lemma_draw_text_shape(g, x, y, p);
        if printable(s.last()) {
            assert(s.take(s.len() - 1) =~= p);
            assert(s[s.len() - 1] == s.last());
        }
    }
}

} // verus!

verus! {

/// Where the frame of a node lies on the canvas, in whole cells: its leftmost column, top row,
/// the columns and rows from there to the opposite corner, the column of its center and the
/// row of its bottom edge.
#[derive(Clone, Copy)]
pub struct CellBox {
    pub left: usize,
    pub top: usize,
    pub width: usize,
    pub height: usize,
    pub center: usize,
    pub bottom: usize,
}

/// Two grids have the same number of rows, row for row of the same length.
pub open spec fn same_shape(a: Seq<Seq<char>>, b: Seq<Seq<char>>) -> bool {
    &&& a.len() == b.len()
    &&& forall|r: int| 0 <= r < a.len() ==> #[trigger] a[r].len() == b[r].len()
}

/// The width of a grid: that of its first row.
pub open spec fn grid_width(g: Seq<Seq<char>>) -> nat {
    if g.len() > 0 {
        g[0].len()
    } else {
        0
    }
}

/// The character that joins the horizontal edge above a child to the child's own edge: a
/// corner at the outer children, a side join or a cross where the child sits right under its
/// parent, and a plain join elsewhere.
pub open spec fn connector(cs: CharSet, cc: int, pc: int, i: int, last: int) -> char {
    if cc < pc && i == 0 {
        cs.top_left
    } else if cc > pc && i == last {
        cs.top_right
    } else if cc == pc && i == 0 {
        cs.join_left
    } else if cc == pc && i == last {
        cs.join_right
    } else if cc == pc {
        cs.cross
    } else {
        cs.join_top
    }
}

/// Row `row` with the cells from column `from` up to, not including, column `to` set to a
/// horizontal line, or to a bottom join in the parent's column `pc`.
pub open spec fn hrun(g: Seq<Seq<char>>, cs: CharSet, row: int, from: int, to: int, pc: int) -> Seq<
    Seq<char>,
> {
    g.update(
        row,
        Seq::new(
            g[row].len(),
            |c: int|
                if from <= c < to {
                    if c == pc {
                        cs.join_bottom
                    } else {
                        cs.horizontal
                    }
                } else {
                    g[row][c]
                },
        ),
    )
}

/// The edge drawn for the `i`-th child, given the column and top row of every child: a bottom
/// join on the child's top edge; for an only child, nothing more when drawing compactly and a
/// vertical line above it otherwise; for one of several children, the connector above it and
/// the horizontal line from there to the next child.
pub open spec fn edge_child(
    g: Seq<Seq<char>>,
    cs: CharSet,
    compact: bool,
    pc: int,
    kids: Seq<(int, int)>,
    i: int,
) -> Seq<Seq<char>> {
    let cc = kids[i].0;
    let ct = kids[i].1;
    let g1 = put(g, ct, cc, cs.join_bottom);
    if kids.len() == 1 {
        if compact {
            g1
        } else {
            put(g1, ct - 1, cc, cs.vertical)
        }
    } else {
        let last = kids.len() - 1;
        let g2 = put(g1, ct - 1, cc, connector(cs, cc, pc, i, last));
        if i != last {
            hrun(g2, cs, ct - 1, cc + 1, kids[i + 1].0, pc)
        } else {
            g2
        }
    }
}

/// The edges of the first `n` children, drawn in order.
pub open spec fn edge_children(
    g: Seq<Seq<char>>,
    cs: CharSet,
    compact: bool,
    pc: int,
    kids: Seq<(int, int)>,
    n: nat,
) -> Seq<Seq<char>>
    decreases n,
{
    if n == 0 {
        g
    } else {
        edge_child(edge_children(g, cs, compact, pc, kids, (n - 1) as nat), cs, compact, pc, kids, n - 1)
    }
}

/// The edges from a parent whose center column is `pc` and bottom row `pb` down to children at
/// the given columns and top rows: a top join under the parent, if it has children, then the
/// edge of each child in order.
pub open spec fn draw_edges(
    g: Seq<Seq<char>>,
    cs: CharSet,
    compact: bool,
    pc: int,
    pb: int,
    kids: Seq<(int, int)>,
) -> Seq<Seq<char>> {
    let g0 = if kids.len() > 0 {
        put(g, pb, pc, cs.join_top)
    } else {
        g
    };
    edge_children(g0, cs, compact, pc, kids, kids.len())
}

/// Every cell the edges are drawn on lies inside a grid whose rows all have the same width.
pub open spec fn edges_fit(g: Seq<Seq<char>>, compact: bool, pc: int, pb: int, kids: Seq<(int, int)>) -> bool {
    let w = grid_width(g);
    &&& rows_have_width(g, w)
    &&& kids.len() > 0 ==> 0 <= pb < g.len() && 0 <= pc < w
    &&& forall|i: int|
        0 <= i < kids.len() ==> 0 <= (#[trigger] kids[i]).1 < g.len() && 0 <= kids[i].0 < w
    &&& (kids.len() > 1 || !compact) ==> forall|i: int|
        0 <= i < kids.len() ==> (#[trigger] kids[i]).1 >= 1
}

/// Anchors given as machine integers, read as mathematical ones.
pub open spec fn anchors_int(kids: Seq<(usize, usize)>) -> Seq<(int, int)> {
    kids.map_values(|k: (usize, usize)| (k.0 as int, k.1 as int))
}

/// The column and top row of each child of `n`, read from the boxes.
pub open spec fn child_anchors(boxes: Seq<CellBox>, n: Node) -> Seq<(int, int)> {
    n.children@.map_values(
        |id: NodeId| (boxes[id.index() as int].center as int, boxes[id.index() as int].top as int),
    )
}

} // verus!

verus! {

/// Drawing keeps every row at the grid's width.
pub(crate) proof fn lemma_put_shape(g: Seq<Seq<char>>, r: int, c: int, ch: char)
    requires
        rows_have_width(g, grid_width(g)),
        0 <= r < g.len(),
        0 <= c < g[r].len(),
    ensures
        put(g, r, c, ch).len() == g.len(),
        grid_width(put(g, r, c, ch)) == grid_width(g),
        rows_have_width(put(g, r, c, ch), grid_width(g)),
{
    let p = put(g, r, c, ch);
    assert forall|i: int| 0 <= i < p.len() implies #[trigger] p[i].len() == grid_width(g) by {
        assert(g[i].len() == grid_width(g));
    }
    assert(g[0].len() == grid_width(g));
}

impl TextOut {
    /// Draws the edges from a parent whose center column is `pc` and bottom row is `pb` down to
    /// children whose center columns and top rows are given in order; `compact` leaves out the
    /// vertical line above an only child.
    pub fn write_child_edges(&mut self, pc: usize, pb: usize, kids: &[(usize, usize)], compact: bool)
        requires
            edges_fit(old(self)@, compact, pc as int, pb as int, anchors_int(kids@)),
        ensures
            final(self)@ == draw_edges(old(self)@, old(self).chars(), compact, pc as int, pb as int, anchors_int(kids@)),
            final(self).chars() == old(self).chars(),
            same_shape(final(self)@, old(self)@),
    {
        let ghost g = self@;
        let ghost cs = self.chars();
        let ghost ks = anchors_int(kids@);
        let ghost w = grid_width(g);
        let nk = kids.len();
        proof {
            self.lemma_bounded();
        }
        if nk > 0 {
            let jt = self.char_set.join_top;
            proof {
                assert(g[pb as int].len() == w);
                lemma_put_shape(g, pb as int, pc as int, jt);
            }
            self.put(pb, pc, jt);
        }
        let ghost g0 = self@;
        proof {
            assert(g0 == if ks.len() > 0 { put(g, pb as int, pc as int, cs.join_top) } else { g });
        }
        for i in 0..nk
            invariant
                nk == kids@.len(),
                ks == anchors_int(kids@),
                ks.len() == nk,
                edges_fit(g, compact, pc as int, pb as int, ks),
                w == grid_width(g),
                w <= usize::MAX,
                self.chars() == cs,
                self@.len() == g.len(),
                grid_width(self@) == w,
                rows_have_width(self@, w),
                self@ == edge_children(g0, cs, compact, pc as int, ks, i as nat),
        {
            let (cc, ct) = kids[i];
            let ghost before = self@;
            proof {
                assert(ks[i as int] == (cc as int, ct as int));
                assert(self@[ct as int].len() == w);
            }
            let jb = self.char_set.join_bottom;
            proof {
                lemma_put_shape(self@, ct as int, cc as int, jb);
            }
            self.put(ct, cc, jb);
            if nk == 1 {
                if !compact {
                    let v = self.char_set.vertical;
                    proof {
                        assert(ct >= 1);
                        assert(self@[ct - 1].len() == w);
                        lemma_put_shape(self@, ct - 1, cc as int, v);
                    }
                    self.put(ct - 1, cc, v);
                }
            } else {
                let last_i = nk - 1;
                let ch = if cc < pc && i == 0 {
                    self.char_set.top_left
                } else if cc > pc && i == last_i {
                    self.char_set.top_right
                } else if cc == pc && i == 0 {
                    self.char_set.join_left
                } else if cc == pc && i == last_i {
                    self.char_set.join_right
                } else if cc == pc {
                    self.char_set.cross
                } else {
                    self.char_set.join_top
                };
                proof {
                    assert(ch == connector(cs, cc as int, pc as int, i as int, last_i as int));
                    assert(ct >= 1);
                    assert(self@[ct - 1].len() == w);
                    lemma_put_shape(self@, ct - 1, cc as int, ch);
                }
                self.put(ct - 1, cc, ch);
                if i != last_i {
                    let next = kids[i + 1].0;
                    proof {
                        assert(ks[i + 1] == (next as int, ks[i + 1].1));
                    }
                    let ghost g2 = self@;
                    let jb2 = self.char_set.join_bottom;
                    let hz = self.char_set.horizontal;
                    let mut x = cc + 1;
                    proof {
                        let h0 = hrun(g2, cs, ct - 1, cc + 1, x as int, pc as int);
                        assert(h0[ct - 1] =~= g2[ct - 1]);
                        assert(h0 =~= g2);
                    }
                    while x < next
                        invariant
                            cc < w,
                            next < w,
                            w <= usize::MAX,
                            cc + 1 <= x,
                            x == cc + 1 || x <= next,
                            ct >= 1,
                            ct < g.len(),
                            jb2 == cs.join_bottom,
                            hz == cs.horizontal,
                            self.chars() == cs,
                            g2.len() == g.len(),
                            rows_have_width(g2, w),
                            grid_width(g2) == w,
                            self@ == hrun(g2, cs, ct - 1, cc + 1, x as int, pc as int),
                        decreases next - x,
                    {
                        let ghost prev = self@;
                        let ch2 = if x == pc {
                            jb2
                        } else {
                            hz
                        };
                        proof {
                            assert(prev[ct - 1].len() == w);
                        }
                        self.put(ct - 1, x, ch2);
                        proof {
                            assert(self@[ct - 1] =~= hrun(g2, cs, ct - 1, cc + 1, x + 1, pc as int)[ct - 1]);
                            assert(self@ =~= hrun(g2, cs, ct - 1, cc + 1, x + 1, pc as int));
                        }
                        x = x + 1;
                    }
                    proof {
                        if x != next {
                            let ha = hrun(g2, cs, ct - 1, cc + 1, x as int, pc as int);
                            let hb = hrun(g2, cs, ct - 1, cc + 1, next as int, pc as int);
                            assert(ha[ct - 1] =~= hb[ct - 1]);
                            assert(ha =~= hb);
                        }
                        let h = hrun(g2, cs, ct - 1, cc + 1, next as int, pc as int);
                        assert forall|r: int| 0 <= r < h.len() implies #[trigger] h[r].len() == w by {
                            assert(g2[r].len() == w);
                        }
                        assert(h[0].len() == w);
                    }
                }
            }
            proof {
                assert(self@ == edge_child(before, cs, compact, pc as int, ks, i as int));
            }
        }
        proof {
            assert forall|r: int| 0 <= r < self@.len() implies #[trigger] self@[r].len() == g[r].len() by {
                assert(self@[r].len() == w);
                assert(g[r].len() == w);
            }
        }
    }

    /// Draws the edges from node `n` down to its children, reading positions from `boxes`; an
    /// only child gets no vertical line above it.
    pub fn write_edges<'t>(&mut self, boxes: &TreeData<'t, CellBox>, n: &Node)
        requires
            n.id.index() < boxes.values().len(),
            forall|j: int|
                0 <= j < n.children@.len() ==> (#[trigger] n.children@[j]).index()
                    < boxes.values().len(),
            edges_fit(
                old(self)@,
                true,
                boxes.values()[n.id.index() as int].center as int,
                boxes.values()[n.id.index() as int].bottom as int,
                child_anchors(boxes.values(), *n),
            ),
        ensures
            final(self)@ == draw_edges(
                old(self)@,
                old(self).chars(),
                true,
                boxes.values()[n.id.index() as int].center as int,
                boxes.values()[n.id.index() as int].bottom as int,
                child_anchors(boxes.values(), *n),
            ),
            final(self).chars() == old(self).chars(),
            same_shape(final(self)@, old(self)@),
    {
        let d = boxes.get(n.id);
        let nk = n.children.len();
        let mut kids: Vec<(usize, usize)> = Vec::with_capacity(nk);
        for i in 0..nk
            invariant
                nk == n.children@.len(),
                forall|j: int|
                    0 <= j < n.children@.len() ==> (#[trigger] n.children@[j]).index()
                        < boxes.values().len(),
                kids@.len() == i,
                forall|j: int| 0 <= j < i ==> #[trigger] anchors_int(kids@)[j] == child_anchors(boxes.values(), *n)[j],
        {
            let cd = boxes.get(n.children[i]);
            let ghost prev = kids@;
            kids.push((cd.center, cd.top));
            proof {
                assert forall|j: int| 0 <= j < i + 1 implies #[trigger] anchors_int(kids@)[j]
                    == child_anchors(boxes.values(), *n)[j] by {
                    if j < i {
                        assert(kids@[j] == prev[j]);
                        assert(anchors_int(prev)[j] == child_anchors(boxes.values(), *n)[j]);
                    }
                }
            }
        }
        proof {
            assert(anchors_int(kids@) =~= child_anchors(boxes.values(), *n));
        }
        self.write_child_edges(d.center, d.bottom, kids.as_slice(), true);
    }
}

} // verus!

verus! {

/// The frames of the first `n` nodes, drawn in preorder.
pub open spec fn render_frames(g: Seq<Seq<char>>, cs: CharSet, boxes: Seq<CellBox>, n: nat) -> Seq<
    Seq<char>,
>
    decreases n,
{
    if n == 0 {
        g
    } else {
        let b = boxes[n - 1];
        draw_frame(
            render_frames(g, cs, boxes, (n - 1) as nat),
            cs,
            b.left as int,
            b.top as int,
            b.width as int,
            b.height as int,
        )
    }
}

/// The text of node `i` inside its frame, then the edges down to its children.
pub open spec fn render_node(
    g: Seq<Seq<char>>,
    cs: CharSet,
    boxes: Seq<CellBox>,
    texts: Seq<Seq<char>>,
    nodes: Seq<Node>,
    i: int,
) -> Seq<Seq<char>> {
    let b = boxes[i];
    let g1 = draw_text(g, b.left + 1, b.top + 1, texts[i]);
    draw_edges(g1, cs, true, b.center as int, b.bottom as int, child_anchors(boxes, nodes[i]))
}

/// Texts and edges of the first `n` nodes, drawn in preorder.
pub open spec fn render_nodes(
    g: Seq<Seq<char>>,
    cs: CharSet,
    boxes: Seq<CellBox>,
    texts: Seq<Seq<char>>,
    nodes: Seq<Node>,
    n: nat,
) -> Seq<Seq<char>>
    decreases n,
{
    if n == 0 {
        g
    } else {
        render_node(render_nodes(g, cs, boxes, texts, nodes, (n - 1) as nat), cs, boxes, texts, nodes, n - 1)
    }
}

/// A printed tree: a blank canvas, all node frames in preorder, then in preorder the text of
/// each node and the edges to its children, drawn with rounded corners.
pub open spec fn rendered(
    width: nat,
    height: nat,
    boxes: Seq<CellBox>,
    texts: Seq<Seq<char>>,
    nodes: Seq<Node>,
) -> Seq<Seq<char>> {
    let cs = rounded_chars();
    let framed = render_frames(blank(width, height), cs, boxes, boxes.len());
    render_nodes(framed, cs, boxes, texts, nodes, nodes.len())
}

/// The rounded character set.
pub open spec fn rounded_chars() -> CharSet {
    CharSet {
        vertical: '│',
        horizontal: '─',
        top_left: '╭',
        top_right: '╮',
        bottom_right: '╯',
        bottom_left: '╰',
        join_bottom: '┴',
        join_top: '┬',
        join_left: '├',
        join_right: '┤',
        cross: '┼',
    }
}

/// Every frame, text and edge of the tree lies inside a canvas of `width` by `height` cells.
pub open spec fn render_fits(
    width: nat,
    height: nat,
    boxes: Seq<CellBox>,
    texts: Seq<Seq<char>>,
    nodes: Seq<Node>,
) -> bool {
    let g = blank(width, height);
    forall|i: int|
        0 <= i < boxes.len() ==> {
            let b = #[trigger] boxes[i];
            &&& b.top + b.height < height
            &&& b.left + b.width < width
            &&& text_fits(g, b.left + 1, b.top + 1, texts[i])
            &&& edges_fit(g, true, b.center as int, b.bottom as int, child_anchors(boxes, nodes[i]))
        }
}

/// Whether a text fits depends on the grid's shape alone.
proof fn lemma_text_fits_shape(a: Seq<Seq<char>>, b: Seq<Seq<char>>, x: int, y: int, s: Seq<char>)
    requires
        same_shape(a, b),
        text_fits(a, x, y, s),
    ensures
        text_fits(b, x, y, s),
{
    assert forall|k: int| 0 <= k < s.len() && printable(#[trigger] s[k]) implies {
        let r = y + text_row(s.take(k));
        &&& 0 <= r < b.len()
        &&& 0 <= x + text_col(s.take(k)) < b[r].len()
    } by {
        let r = y + text_row(s.take(k));
        assert(a[r].len() == b[r].len());
    }
}

/// Whether edges fit depends on the grid's shape alone.
pub proof fn lemma_edges_fit_shape(
    a: Seq<Seq<char>>,
    b: Seq<Seq<char>>,
    compact: bool,
    pc: int,
    pb: int,
    kids: Seq<(int, int)>,
)
    requires
        same_shape(a, b),
        edges_fit(a, compact, pc, pb, kids),
    ensures
        edges_fit(b, compact, pc, pb, kids),
{
    if a.len() > 0 {
        assert(a[0].len() == b[0].len());
    }
    assert forall|r: int| 0 <= r < b.len() implies #[trigger] b[r].len() == grid_width(b) by {
        assert(a[r].len() == grid_width(a));
        assert(a[0].len() == b[0].len());
    }
}

/// Prints a tree on a canvas of `width` by `height` cells, given the text of each node and
/// where its frame lies; the rows of the canvas come back.
pub fn render_tree<'t>(
    texts: &TreeData<'t, String>,
    boxes: &TreeData<'t, CellBox>,
    width: usize,
    height: usize,
) -> (r: Vec<Vec<char>>)
    requires
        texts.wf(),
        boxes.wf(),
        texts.structure() == boxes.structure(),
        forall|i: int| 0 <= i < texts.values().len() ==> (#[trigger] texts.values()[i])@.len() < usize::MAX,
        render_fits(
            width as nat,
            height as nat,
            boxes.values(),
            texts.values().map_values(|s: String| s@),
            boxes.structure()@,
        ),
    ensures
        r@.map_values(|row: Vec<char>| row@) == rendered(
            width as nat,
            height as nat,
            boxes.values(),
            texts.values().map_values(|s: String| s@),
            boxes.structure()@,
        ),
{
    let ghost bx = boxes.values();
    let ghost tx = texts.values().map_values(|s: String| s@);
    let ghost ns = boxes.structure()@;
    let ghost g0 = blank(width as nat, height as nat);
    let ghost cs = rounded_chars();
    let mut to = TextOut::new(width, height, CharSet::rounded());
    let pairs = boxes.iter_preorder();
    let n = pairs.len();
    proof {
        assert(to.chars() == cs);
        assert forall|r: int| 0 <= r < g0.len() implies #[trigger] g0[r].len() == width by {}
    }
    for i in 0..n
        invariant
            n == bx.len(),
            n == pairs@.len(),
            forall|j: int| 0 <= j < n ==> *(#[trigger] pairs@[j]).1 == bx[j],
            render_fits(width as nat, height as nat, bx, tx, ns),
            g0 == blank(width as nat, height as nat),
            cs == rounded_chars(),
            to.chars() == cs,
            to@ == render_frames(g0, cs, bx, i as nat),
            same_shape(to@, g0),
    {
        let b = pairs[i].1;
        proof {
            assert(*b == bx[i as int]);
            let bb = bx[i as int];
            assert(bb.top + bb.height < height);
            assert forall|r: int| bb.top <= r <= bb.top + bb.height implies bb.left + bb.width < #[trigger] to@[r].len() by {
                assert(g0[r].len() == width);
            }
        }
        to.write_frame(b.left, b.top, b.width, b.height);
    }
    let ghost framed = to@;
    let nodes = boxes.iter_nodes_preorder();
    proof {
        assert(texts.values().len() == n);
        assert(nodes@ == ns);
        assert(ns.len() == n);
    }
    for i in 0..n
        invariant
            n == bx.len(),
            n == ns.len(),
            n == pairs@.len(),
            nodes@ == ns,
            ns == boxes.structure()@,
            boxes.wf(),
            texts.wf(),
            texts.structure() == boxes.structure(),
            bx == boxes.values(),
            tx == texts.values().map_values(|s: String| s@),
            forall|j: int| 0 <= j < texts.values().len() ==> (#[trigger] texts.values()[j])@.len() < usize::MAX,
            forall|j: int| 0 <= j < n ==> *(#[trigger] pairs@[j]).1 == bx[j],
            render_fits(width as nat, height as nat, bx, tx, ns),
            framed == render_frames(g0, cs, bx, n as nat),
            g0 == blank(width as nat, height as nat),
            cs == rounded_chars(),
            to.chars() == cs,
            to@ == render_nodes(framed, cs, bx, tx, ns, i as nat),
            same_shape(to@, g0),
    {
        let node = &nodes[i];
        let b = pairs[i].1;
        proof {
            assert(node.id.index() == i) by {
                assert(crate::tree::node_models(ns)[i as int].id == i);
            }
            assert(*b == bx[i as int]);
            let bb = bx[i as int];
            assert(text_fits(g0, bb.left + 1, bb.top + 1, tx[i as int]));
            assert(same_shape(g0, to@));
            lemma_text_fits_shape(g0, to@, (bx[i as int].left + 1) as int, (bx[i as int].top + 1) as int, tx[i as int]);
        }
        let s = texts.get(node.id);
        proof {
            assert(s@ == tx[i as int]);
        }
        let ghost before_text = to@;
        to.write_text(b.left + 1, b.top + 1, s.as_str());
        proof {
            assert(same_shape(g0, to@));
            lemma_edges_fit_shape(g0, to@, true, bx[i as int].center as int, bx[i as int].bottom as int, child_anchors(bx, ns[i as int]));
            assert forall|j: int| 0 <= j < node.children@.len() implies (#[trigger] node.children@[j]).index() < bx.len() by {
                let m = crate::tree::node_models(ns);
                assert(m[i as int].children[j] == node.children@[j].index());
            }
        }
        to.write_edges(boxes, node);
    }
    to.into_rows()
}

} // verus!

verus! {

/// Drawing the edges of the first `n` children keeps the grid's shape.
proof fn lemma_edge_children_shape(
    g: Seq<Seq<char>>,
    cs: CharSet,
    compact: bool,
    pc: int,
    pb: int,
    kids: Seq<(int, int)>,
    n: nat,
)
    requires
        edges_fit(g, compact, pc, pb, kids),
        n <= kids.len(),
    ensures
        same_shape(edge_children(g, cs, compact, pc, kids, n), g),
    decreases n,
{
    let w = grid_width(g);
    if n > 0 {
        lemma_edge_children_shape(g, cs, compact, pc, pb, kids, (n - 1) as nat);
        let e = edge_children(g, cs, compact, pc, kids, (n - 1) as nat);
        let i = n - 1;
        let cc = kids[i].0;
        let ct = kids[i].1;
        assert(rows_have_width(e, w)) by {
            assert forall|r: int| 0 <= r < e.len() implies #[trigger] e[r].len() == w by {
                assert(g[r].len() == w);
            }
        }
        if g.len() > 0 {
            assert(e[0].len() == g[0].len());
        }
        assert(e[ct].len() == w);
        lemma_put_shape(e, ct, cc, cs.join_bottom);
        let g1 = put(e, ct, cc, cs.join_bottom);
        if kids.len() != 1 {
            let last = kids.len() - 1;
            assert(g1[ct - 1].len() == w);
            lemma_put_shape(g1, ct - 1, cc, connector(cs, cc, pc, i, last));
            let g2 = put(g1, ct - 1, cc, connector(cs, cc, pc, i, last));
            if i != last {
                let h = hrun(g2, cs, ct - 1, cc + 1, kids[i + 1].0, pc);
                assert forall|r: int| 0 <= r < h.len() implies #[trigger] h[r].len() == g[r].len() by {
                    assert(g2[r].len() == w);
                    assert(g[r].len() == w);
                }
            } else {
                assert forall|r: int| 0 <= r < g2.len() implies #[trigger] g2[r].len() == g[r].len() by {
                    assert(g[r].len() == w);
                }
            }
        } else if compact {
            assert forall|r: int| 0 <= r < g1.len() implies #[trigger] g1[r].len() == g[r].len() by {
                assert(g[r].len() == w);
            }
        } else {
            assert(g1[ct - 1].len() == w);
            lemma_put_shape(g1, ct - 1, cc, cs.vertical);
            let g2 = put(g1, ct - 1, cc, cs.vertical);
            assert forall|r: int| 0 <= r < g2.len() implies #[trigger] g2[r].len() == g[r].len() by {
                assert(g[r].len() == w);
            }
        }
    }
}

/// Drawing edges that fit keeps the grid's shape.
pub(crate) proof fn lemma_draw_edges_shape(
    g: Seq<Seq<char>>,
    cs: CharSet,
    compact: bool,
    pc: int,
    pb: int,
    kids: Seq<(int, int)>,
)
    requires
        edges_fit(g, compact, pc, pb, kids),
    ensures
        same_shape(draw_edges(g, cs, compact, pc, pb, kids), g),
{
    let w = grid_width(g);
    if kids.len() > 0 {
        assert(g[pb].len() == w);
        lemma_put_shape(g, pb, pc, cs.join_top);
        let g0 = put(g, pb, pc, cs.join_top);
        assert(same_shape(g0, g)) by {
            assert forall|r: int| 0 <= r < g0.len() implies #[trigger] g0[r].len() == g[r].len() by {
                assert(g[r].len() == w);
            }
        }
        lemma_edges_fit_shape(g, g0, compact, pc, pb, kids);
        lemma_edge_children_shape(g0, cs, compact, pc, pb, kids, kids.len());
    } else {
        lemma_edge_children_shape(g, cs, compact, pc, pb, kids, kids.len());
    }
}

/// Drawing the first `n` frames keeps the grid's shape.
proof fn lemma_render_frames_shape(g: Seq<Seq<char>>, cs: CharSet, boxes: Seq<CellBox>, n: nat)
    requires
        n <= boxes.len(),
    ensures
        same_shape(render_frames(g, cs, boxes, n), g),
    decreases n,
{
    if n > 0 {
        lemma_render_frames_shape(g, cs, boxes, (n - 1) as nat);
    }
}

/// Drawing the texts and edges of the first `n` nodes keeps the canvas's shape.
proof fn lemma_render_nodes_shape(
    width: nat,
    height: nat,
    g: Seq<Seq<char>>,
    cs: CharSet,
    boxes: Seq<CellBox>,
    texts: Seq<Seq<char>>,
    nodes: Seq<Node>,
    n: nat,
)
    requires
        same_shape(g, blank(width, height)),
        render_fits(width, height, boxes, texts, nodes),
        n <= boxes.len(),
    ensures
        same_shape(render_nodes(g, cs, boxes, texts, nodes, n), blank(width, height)),
    decreases n,
{
    if n > 0 {
        let b0 = blank(width, height);
        lemma_render_nodes_shape(width, height, g, cs, boxes, texts, nodes, (n - 1) as nat);
        let e = render_nodes(g, cs, boxes, texts, nodes, (n - 1) as nat);
        let i = n - 1;
        let b = boxes[i];
        assert(same_shape(b0, e)) by {
            assert forall|r: int| 0 <= r < b0.len() implies #[trigger] b0[r].len() == e[r].len() by {}
        }
        lemma_text_fits_shape(b0, e, b.left + 1, b.top + 1, texts[i]);
        lemma_draw_text_shape(e, b.left + 1, b.top + 1, texts[i]);
        let g1 = draw_text(e, b.left + 1, b.top + 1, texts[i]);
        assert(same_shape(b0, g1)) by {
            assert forall|r: int| 0 <= r < b0.len() implies #[trigger] b0[r].len() == g1[r].len() by {
                assert(e[r].len() == g1[r].len());
            }
        }
        let kids = child_anchors(boxes, nodes[i]);
        lemma_edges_fit_shape(b0, g1, true, b.center as int, b.bottom as int, kids);
        lemma_draw_edges_shape(g1, cs, true, b.center as int, b.bottom as int, kids);
        let g2 = draw_edges(g1, cs, true, b.center as int, b.bottom as int, kids);
        assert forall|r: int| 0 <= r < g2.len() implies #[trigger] g2[r].len() == b0[r].len() by {
            assert(g1[r].len() == g2[r].len());
        }
    }
}

/// A printed tree whose parts all fit has `height` rows of `width` characters each.
pub proof fn lemma_rendered_shape(
    width: nat,
    height: nat,
    boxes: Seq<CellBox>,
    texts: Seq<Seq<char>>,
    nodes: Seq<Node>,
)
    requires
        render_fits(width, height, boxes, texts, nodes),
        nodes.len() == boxes.len(),
    ensures
        rendered(width, height, boxes, texts, nodes).len() == height,
        forall|r: int|
            0 <= r < height ==> #[trigger] rendered(width, height, boxes, texts, nodes)[r].len() == width,
{
    let b0 = blank(width, height);
    let cs = rounded_chars();
    lemma_render_frames_shape(b0, cs, boxes, boxes.len());
    let framed = render_frames(b0, cs, boxes, boxes.len());
    lemma_render_nodes_shape(width, height, framed, cs, boxes, texts, nodes, nodes.len());
}

} // verus!

verus! {

/// What a box with corners at columns `x0`, `x1` and rows `y0`, `y1` leaves in cell `(r, c)`
/// that held `old`: its corners, drawn last and the bottom left one over the others, the
/// horizontal lines between the corners and the vertical lines between them, and `old`
/// elsewhere.
pub open spec fn box_cell(cs: CharSet, x0: int, y0: int, x1: int, y1: int, r: int, c: int, old: char) -> char {
    if r == y1 && c == x0 {
        cs.bottom_left
    } else if r == y1 && c == x1 {
        cs.bottom_right
    } else if r == y0 && c == x1 {
        cs.top_right
    } else if r == y0 && c == x0 {
        cs.top_left
    } else if (r == y0 || r == y1) && x0 < c < x1 {
        cs.horizontal
    } else if (c == x0 || c == x1) && y0 < r < y1 {
        cs.vertical
    } else {
        old
    }
}

/// The grid with a box drawn on it.
pub open spec fn draw_box_frame(g: Seq<Seq<char>>, cs: CharSet, x0: int, y0: int, x1: int, y1: int) -> Seq<
    Seq<char>,
> {
    Seq::new(
        g.len(),
        |r: int| Seq::new(g[r].len(), |c: int| box_cell(cs, x0, y0, x1, y1, r, c, g[r][c])),
    )
}

/// The lines of a box drawn so far: the horizontal lines up to column `hx` and the vertical
/// lines down to row `vy`.
pub open spec fn box_lines_cell(x0: int, y0: int, x1: int, y1: int, hx: int, vy: int, cs: CharSet, r: int, c: int, old: char) -> char {
    if (r == y0 || r == y1) && x0 < c < hx {
        cs.horizontal
    } else if (c == x0 || c == x1) && y0 < r < vy {
        cs.vertical
    } else {
        old
    }
}

/// How many columns right text `s` has moved when every character but the line feed counts.
pub open spec fn raw_col(s: Seq<char>) -> nat
    decreases s.len(),
{
    if s.len() == 0 {
        0
    } else if s.last() == '\n' {
        0
    } else {
        raw_col(s.drop_last()) + 1
    }
}

/// The grid with text `s` written from column `x`, row `y` on, every character but the line
/// feed written as it is.
pub open spec fn draw_raw_text(g: Seq<Seq<char>>, x: int, y: int, s: Seq<char>) -> Seq<Seq<char>>
    decreases s.len(),
{
    if s.len() == 0 {
        g
    } else {
        let g1 = draw_raw_text(g, x, y, s.drop_last());
        let p = s.drop_last();
        if s.last() != '\n' {
            put(g1, y + text_row(p), x + raw_col(p), s.last())
        } else {
            g1
        }
    }
}

/// Every character of `s` but the line feeds lands inside the grid.
pub open spec fn raw_text_fits(g: Seq<Seq<char>>, x: int, y: int, s: Seq<char>) -> bool {
    forall|k: int|
        0 <= k < s.len() && #[trigger] s[k] != '\n' ==> {
            let r = y + text_row(s.take(k));
            &&& 0 <= r < g.len()
            &&& 0 <= x + raw_col(s.take(k)) < g[r].len()
        }
}

/// If a text fits, so does each of its prefixes.
pub(crate) proof fn lemma_raw_text_fits_prefix(g: Seq<Seq<char>>, x: int, y: int, s: Seq<char>, n: int)
    requires
        raw_text_fits(g, x, y, s),
        0 <= n <= s.len(),
    ensures
        raw_text_fits(g, x, y, s.take(n)),
{
    let p = s.take(n);
    assert forall|k: int| 0 <= k < p.len() && #[trigger] p[k] != '\n' implies {
        let r = y + text_row(p.take(k));
        &&& 0 <= r < g.len()
        &&& 0 <= x + raw_col(p.take(k)) < g[r].len()
    } by {
        assert(p.take(k) =~= s.take(k));
        assert(s[k] == p[k]);
    }
}

/// Writing text that fits keeps the grid's shape.
pub(crate) proof fn lemma_draw_raw_text_shape(g: Seq<Seq<char>>, x: int, y: int, s: Seq<char>)
    requires
        raw_text_fits(g, x, y, s),
    ensures
        same_shape(draw_raw_text(g, x, y, s), g),
    decreases s.len(),
{
    if s.len() > 0 {
        let p = s.drop_last();
        assert(s.take(s.len() - 1) =~= p);
        lemma_raw_text_fits_prefix(g, x, y, s, s.len() - 1);
        lemma_draw_raw_text_shape(g, x, y, p);
        if s.last() != '\n' {
            assert(s[s.len() - 1] == s.last());
        }
    }
}

impl TextOut {
    /// Draws a box with its top left corner at column `x0`, row `y0` and its bottom right
    /// corner at column `x1`, row `y1`: first the lines, then the corners.
    pub fn write_box_frame(&mut self, x0: usize, y0: usize, x1: usize, y1: usize)
        requires
            x0 <= x1,
            y0 <= y1,
            y1 < old(self)@.len(),
            forall|r: int| y0 <= r <= y1 ==> x1 < #[trigger] old(self)@[r].len(),
        ensures
            final(self)@ == draw_box_frame(old(self)@, old(self).chars(), x0 as int, y0 as int, x1 as int, y1 as int),
            final(self).chars() == old(self).chars(),
            same_shape(final(self)@, old(self)@),
    {
        let ghost g = self@;
        let ghost cs = self.chars();
        proof {
            self.lemma_bounded();
            assert(x1 < g[y0 as int].len());
        }
        let hz = self.char_set.horizontal;
        let vt = self.char_set.vertical;
        let mut i = x0 + 1;
        proof {
            assert forall|r: int, c: int| 0 <= r < g.len() && 0 <= c < g[r].len() implies #[trigger] self@[r][c]
                == box_lines_cell(x0 as int, y0 as int, x1 as int, y1 as int, i as int, y0 + 1, cs, r, c, g[r][c]) by {}
        }
        while i < x1
            invariant
                x0 < i,
                x0 <= x1,
                y0 <= y1,
                i <= x1 || i == x0 + 1,
                y1 < g.len(),
                g.len() <= usize::MAX,
                forall|r: int| y0 <= r <= y1 ==> x1 < #[trigger] g[r].len(),
                self.chars() == cs,
                hz == cs.horizontal,
                self@.len() == g.len(),
                forall|r: int| 0 <= r < g.len() ==> #[trigger] self@[r].len() == g[r].len(),
                forall|r: int, c: int|
                    0 <= r < g.len() && 0 <= c < g[r].len() ==> #[trigger] self@[r][c]
                        == box_lines_cell(x0 as int, y0 as int, x1 as int, y1 as int, i as int, y0 + 1, cs, r, c, g[r][c]),
            decreases x1 - i,
        {
            let ghost before = self@;
            proof {
                assert(x1 < g[y0 as int].len());
                assert(x1 < g[y1 as int].len());
            }
            self.put(y0, i, hz);
            self.put(y1, i, hz);
            proof {
                assert forall|r: int, c: int|
                    0 <= r < g.len() && 0 <= c < g[r].len() implies #[trigger] self@[r][c]
                    == box_lines_cell(x0 as int, y0 as int, x1 as int, y1 as int, i + 1, y0 + 1, cs, r, c, g[r][c]) by {
                    if !((r == y0 || r == y1) && c == i) {
                        assert(self@[r][c] == before[r][c]);
                    } else {
                        assert(self@[r][c] == cs.horizontal);
                    }
                }
            }
            i = i + 1;
        }
        let mut j = y0 + 1;
        proof {
            assert forall|r: int, c: int| 0 <= r < g.len() && 0 <= c < g[r].len() implies #[trigger] self@[r][c]
                == box_lines_cell(x0 as int, y0 as int, x1 as int, y1 as int, x1 as int, j as int, cs, r, c, g[r][c]) by {
                assert(self@[r][c] == box_lines_cell(x0 as int, y0 as int, x1 as int, y1 as int, i as int, y0 + 1, cs, r, c, g[r][c]));
            }
        }
        while j < y1
            invariant
                y0 < j,
                x0 <= x1,
                y0 <= y1,
                j <= y1 || j == y0 + 1,
                y1 < g.len(),
                g.len() <= usize::MAX,
                forall|r: int| y0 <= r <= y1 ==> x1 < #[trigger] g[r].len(),
                self.chars() == cs,
                vt == cs.vertical,
                self@.len() == g.len(),
                forall|r: int| 0 <= r < g.len() ==> #[trigger] self@[r].len() == g[r].len(),
                forall|r: int, c: int|
                    0 <= r < g.len() && 0 <= c < g[r].len() ==> #[trigger] self@[r][c]
                        == box_lines_cell(x0 as int, y0 as int, x1 as int, y1 as int, x1 as int, j as int, cs, r, c, g[r][c]),
            decreases y1 - j,
        {
            let ghost before = self@;
            proof {
                assert(x1 < g[j as int].len());
            }
            self.put(j, x0, vt);
            self.put(j, x1, vt);
            proof {
                assert forall|r: int, c: int|
                    0 <= r < g.len() && 0 <= c < g[r].len() implies #[trigger] self@[r][c]
                    == box_lines_cell(x0 as int, y0 as int, x1 as int, y1 as int, x1 as int, j + 1, cs, r, c, g[r][c]) by {
                    if !(r == j && (c == x0 || c == x1)) {
                        assert(self@[r][c] == before[r][c]);
                    } else {
                        assert(self@[r][c] == cs.vertical);
                    }
                }
            }
            j = j + 1;
        }
        let ghost lines = self@;
        proof {
            assert(x1 < g[y0 as int].len());
            assert(x1 < g[y1 as int].len());
        }
        let tl = self.char_set.top_left;
        let tr = self.char_set.top_right;
        let br = self.char_set.bottom_right;
        let bl = self.char_set.bottom_left;
        self.put(y0, x0, tl);
        self.put(y0, x1, tr);
        self.put(y1, x1, br);
        self.put(y1, x0, bl);
        proof {
            let d = draw_box_frame(g, cs, x0 as int, y0 as int, x1 as int, y1 as int);
            assert forall|r: int| 0 <= r < g.len() implies #[trigger] self@[r] =~= d[r] by {
                assert forall|c: int| 0 <= c < g[r].len() implies self@[r][c] == d[r][c] by {
                    assert(lines[r][c] == box_lines_cell(x0 as int, y0 as int, x1 as int, y1 as int, x1 as int, j as int, cs, r, c, g[r][c]));
                }
            }
            assert(self@ =~= d);
        }
    }

    /// Writes text from column `x`, row `y` on, moving to the next row at each line feed; every
    /// other character, carriage returns too, is written as it is.
    pub fn write_raw_text(&mut self, x: usize, y: usize, s: &str)
        requires
            s@.len() < usize::MAX,
            raw_text_fits(old(self)@, x as int, y as int, s@),
        ensures
            final(self)@ == draw_raw_text(old(self)@, x as int, y as int, s@),
            final(self).chars() == old(self).chars(),
            same_shape(final(self)@, old(self)@),
    {
        let ghost g = self@;
        let ghost t = s@;
        let mut off_x: usize = 0;
        let mut off_y: usize = 0;
        proof {
            self.lemma_bounded();
        }
        for c in it: s.chars()
            invariant
                it.seq() == t,
                t.len() < usize::MAX,
                g.len() <= usize::MAX,
                forall|r: int| 0 <= r < g.len() ==> #[trigger] g[r].len() <= usize::MAX,
                raw_text_fits(g, x as int, y as int, t),
                off_x == raw_col(t.take(it.index() as int)),
                off_y == text_row(t.take(it.index() as int)),
                off_x <= it.index(),
                off_y <= it.index(),
                self@ == draw_raw_text(g, x as int, y as int, t.take(it.index() as int)),
                self.chars() == old(self).chars(),
        {
            let ghost k = it.index();
            proof {
                assert(t.take(k + 1).drop_last() =~= t.take(k as int));
                assert(t.take(k + 1).last() == c);
                lemma_raw_text_fits_prefix(g, x as int, y as int, t, k as int);
                lemma_draw_raw_text_shape(g, x as int, y as int, t.take(k as int));
            }
            if c == '\n' {
                off_x = 0;
                off_y = off_y + 1;
            } else {
                proof {
                    assert(t[k as int] != '\n');
                }
                self.put(y + off_y, x + off_x, c);
                off_x = off_x + 1;
            }
        }
        proof {
            assert(t.take(t.len() as int) =~= t);
            lemma_draw_raw_text_shape(g, x as int, y as int, t);
        }
    }
}

} // verus!

verus! {

/// Whether text `s` written from column `x`, row `y` on stays inside a canvas of `width` by
/// `height` cells.
pub fn text_fits_canvas(width: usize, height: usize, x: usize, y: usize, s: &str) -> (r: bool)
    requires
        s@.len() < usize::MAX,
    ensures
        r == text_fits(blank(width as nat, height as nat), x as int, y as int, s@),
{
    let ghost g = blank(width as nat, height as nat);
    let ghost t = s@;
    let mut off_x: usize = 0;
    let mut off_y: usize = 0;
    for c in it: s.chars()
        invariant
            it.seq() == t,
            t == s@,
            t.len() < usize::MAX,
            g == blank(width as nat, height as nat),
            off_x == text_col(t.take(it.index() as int)),
            off_y == text_row(t.take(it.index() as int)),
            off_x <= it.index(),
            off_y <= it.index(),
            text_fits(g, x as int, y as int, t.take(it.index() as int)),
    {
        let ghost k = it.index();
        proof {
            assert(t.take(k + 1).drop_last() =~= t.take(k as int));
            assert(t.take(k + 1).last() == c);
            assert(t[k as int] == c);
        }
        if c == '\r' {
        } else if c == '\n' {
            off_x = 0;
            off_y = off_y + 1;
        } else {
            let row_ok = match y.checked_add(off_y) {
                Some(r) => r < height,
                None => false,
            };
            let col_ok = match x.checked_add(off_x) {
                Some(col) => col < width,
                None => false,
            };
            if !(row_ok && col_ok) {
                proof {
                    assert(printable(t[k as int]));
                    if text_fits(g, x as int, y as int, t) {
                        let rr = y + text_row(t.take(k as int));
                        assert(0 <= rr < g.len());
                        assert(g[rr].len() == width);
                        assert(0 <= x + text_col(t.take(k as int)) < g[rr].len());
                        assert(false);
                    }
                }
                return false;
            }
            off_x = off_x + 1;
        }
        proof {
            let p = t.take(k + 1);
            assert forall|j: int| 0 <= j < p.len() && printable(#[trigger] p[j]) implies {
                let r = y + text_row(p.take(j));
                &&& 0 <= r < g.len()
                &&& 0 <= x + text_col(p.take(j)) < g[r].len()
            } by {
                if j < k {
                    assert(p.take(j) =~= t.take(k as int).take(j));
                    assert(p[j] == t.take(k as int)[j]);
                } else {
                    assert(p.take(j) =~= t.take(k as int));
                }
            }
        }
    }
    proof {
        assert(t.take(t.len() as int) =~= t);
    }
    true
}

/// Whether edges from a parent at column `pc`, bottom row `pb` down to children at the given
/// columns and top rows stay inside a canvas of `width` by `height` cells.
pub fn edges_fit_canvas(
    width: usize,
    height: usize,
    compact: bool,
    pc: usize,
    pb: usize,
    kids: &[(usize, usize)],
) -> (r: bool)
    ensures
        r == edges_fit(blank(width as nat, height as nat), compact, pc as int, pb as int, anchors_int(kids@)),
{
    let ghost g = blank(width as nat, height as nat);
    let ghost ks = anchors_int(kids@);
    let w = if height > 0 {
        width
    } else {
        0
    };
    proof {
        assert(grid_width(g) == w);
        assert(rows_have_width(g, grid_width(g)));
    }
    let nk = kids.len();
    if nk > 0 && !(pb < height && pc < w) {
        return false;
    }
    let need_above = nk > 1 || !compact;
    for i in 0..nk
        invariant
            nk == kids@.len(),
            ks == anchors_int(kids@),
            g == blank(width as nat, height as nat),
            w == grid_width(g),
            need_above == (nk > 1 || !compact),
            forall|j: int| 0 <= j < i ==> 0 <= (#[trigger] ks[j]).1 < g.len() && 0 <= ks[j].0 < w,
            need_above ==> forall|j: int| 0 <= j < i ==> (#[trigger] ks[j]).1 >= 1,
    {
        let (cc, ct) = kids[i];
        proof {
            assert(ks[i as int] == (cc as int, ct as int));
        }
        if !(ct < height && cc < w) {
            return false;
        }
        if need_above && ct < 1 {
            return false;
        }
    }
    true
}

/// Whether every frame, text and edge of a printed tree stays inside a canvas of `width` by
/// `height` cells, as `render_tree` asks.
pub fn render_fits_canvas<'t>(
    texts: &TreeData<'t, String>,
    boxes: &TreeData<'t, CellBox>,
    width: usize,
    height: usize,
) -> (r: bool)
    requires
        texts.wf(),
        boxes.wf(),
        texts.structure() == boxes.structure(),
        forall|i: int| 0 <= i < texts.values().len() ==> (#[trigger] texts.values()[i])@.len() < usize::MAX,
    ensures
        r == render_fits(
            width as nat,
            height as nat,
            boxes.values(),
            texts.values().map_values(|s: String| s@),
            boxes.structure()@,
        ),
{
    let ghost bx = boxes.values();
    let ghost tx = texts.values().map_values(|s: String| s@);
    let ghost ns = boxes.structure()@;
    let ghost g = blank(width as nat, height as nat);
    let pairs = boxes.iter_preorder();
    let nodes = boxes.iter_nodes_preorder();
    let n = pairs.len();
    for i in 0..n
        invariant
            n == bx.len(),
            n == pairs@.len(),
            n == ns.len(),
            nodes@ == ns,
            ns == boxes.structure()@,
            boxes.wf(),
            texts.wf(),
            texts.structure() == boxes.structure(),
            bx == boxes.values(),
            tx == texts.values().map_values(|s: String| s@),
            g == blank(width as nat, height as nat),
            forall|j: int| 0 <= j < texts.values().len() ==> (#[trigger] texts.values()[j])@.len() < usize::MAX,
            forall|j: int| 0 <= j < n ==> *(#[trigger] pairs@[j]).1 == bx[j],
            forall|j: int|
                0 <= j < i ==> {
                    let b = #[trigger] bx[j];
                    &&& b.top + b.height < height
                    &&& b.left + b.width < width
                    &&& text_fits(g, b.left + 1, b.top + 1, tx[j])
                    &&& edges_fit(g, true, b.center as int, b.bottom as int, child_anchors(bx, ns[j]))
                },
    {
        let b = pairs[i].1;
        let node = &nodes[i];
        proof {
            assert(*b == bx[i as int]);
            assert(node.id.index() == i) by {
                assert(crate::tree::node_models(ns)[i as int].id == i);
            }
        }
        let frame_ok = match b.top.checked_add(b.height) {
            Some(v) => v < height,
            None => false,
        } && match b.left.checked_add(b.width) {
            Some(v) => v < width,
            None => false,
        };
        if !frame_ok {
            return false;
        }
        let s = texts.get(node.id);
        proof {
            assert(s@ == tx[i as int]);
        }
        if !text_fits_canvas(width, height, b.left + 1, b.top + 1, s.as_str()) {
            return false;
        }
        let nk = node.children.len();
        let mut kids: Vec<(usize, usize)> = Vec::with_capacity(nk);
        for j in 0..nk
            invariant
                nk == node.children@.len(),
                *node == ns[i as int],
                boxes.wf(),
                bx == boxes.values(),
                ns == boxes.structure()@,
                i < ns.len(),
                kids@.len() == j,
                forall|m: int| 0 <= m < j ==> #[trigger] anchors_int(kids@)[m] == child_anchors(bx, *node)[m],
        {
            proof {
                let mm = crate::tree::node_models(ns);
                assert(mm[i as int].children[j as int] == node.children@[j as int].index());
            }
            let cd = boxes.get(node.children[j]);
            let ghost prev = kids@;
            kids.push((cd.center, cd.top));
            proof {
                assert forall|m: int| 0 <= m < j + 1 implies #[trigger] anchors_int(kids@)[m]
                    == child_anchors(bx, *node)[m] by {
                    if m < j {
                        assert(kids@[m] == prev[m]);
                        assert(anchors_int(prev)[m] == child_anchors(bx, *node)[m]);
                    }
                }
            }
        }
        proof {
            assert(anchors_int(kids@) =~= child_anchors(bx, ns[i as int]));
        }
        if !edges_fit_canvas(width, height, true, b.center, b.bottom, kids.as_slice()) {
            return false;
        }
    }
    true
}

} // verus!

verus! {

/// Whether text `s`, every character but the line feed written, stays inside a canvas of
/// `width` by `height` cells when written from column `x`, row `y` on.
pub fn raw_text_fits_canvas(width: usize, height: usize, x: usize, y: usize, s: &str) -> (r: bool)
    requires
        s@.len() < usize::MAX,
    ensures
        r == raw_text_fits(blank(width as nat, height as nat), x as int, y as int, s@),
{
    let ghost g = blank(width as nat, height as nat);
    let ghost t = s@;
    let mut off_x: usize = 0;
    let mut off_y: usize = 0;
    for c in it: s.chars()
        invariant
            it.seq() == t,
            t == s@,
            t.len() < usize::MAX,
            g == blank(width as nat, height as nat),
            off_x == raw_col(t.take(it.index() as int)),
            off_y == text_row(t.take(it.index() as int)),
            off_x <= it.index(),
            off_y <= it.index(),
            raw_text_fits(g, x as int, y as int, t.take(it.index() as int)),
    {
        let ghost k = it.index();
        proof {
            assert(t.take(k + 1).drop_last() =~= t.take(k as int));
            assert(t.take(k + 1).last() == c);
            assert(t[k as int] == c);
        }
        if c == '\n' {
            off_x = 0;
            off_y = off_y + 1;
        } else {
            let row_ok = match y.checked_add(off_y) {
                Some(r) => r < height,
                None => false,
            };
            let col_ok = match x.checked_add(off_x) {
                Some(col) => col < width,
                None => false,
            };
            if !(row_ok && col_ok) {
                proof {
                    if raw_text_fits(g, x as int, y as int, t) {
                        let rr = y + text_row(t.take(k as int));
                        assert(0 <= rr < g.len());
                        assert(g[rr].len() == width);
                        assert(0 <= x + raw_col(t.take(k as int)) < g[rr].len());
                        assert(false);
                    }
                }
                return false;
            }
            off_x = off_x + 1;
        }
        proof {
            let p = t.take(k + 1);
            assert forall|j: int| 0 <= j < p.len() && #[trigger] p[j] != '\n' implies {
                let r = y + text_row(p.take(j));
                &&& 0 <= r < g.len()
                &&& 0 <= x + raw_col(p.take(j)) < g[r].len()
            } by {
                if j < k {
                    assert(p.take(j) =~= t.take(k as int).take(j));
                    assert(p[j] == t.take(k as int)[j]);
                } else {
                    assert(p.take(j) =~= t.take(k as int));
                }
            }
        }
    }
    proof {
        assert(t.take(t.len() as int) =~= t);
    }
    true
}

/// Whether a raw text fits depends on the grid's shape alone.
pub proof fn lemma_raw_text_fits_shape(a: Seq<Seq<char>>, b: Seq<Seq<char>>, x: int, y: int, s: Seq<char>)
    requires
        same_shape(a, b),
    ensures
        raw_text_fits(a, x, y, s) == raw_text_fits(b, x, y, s),
{
    if raw_text_fits(a, x, y, s) {
        assert forall|k: int| 0 <= k < s.len() && #[trigger] s[k] != '\n' implies {
            let r = y + text_row(s.take(k));
            &&& 0 <= r < b.len()
            &&& 0 <= x + raw_col(s.take(k)) < b[r].len()
        } by {
            let r = y + text_row(s.take(k));
            assert(a[r].len() == b[r].len());
        }
    }
    if raw_text_fits(b, x, y, s) {
        assert forall|k: int| 0 <= k < s.len() && #[trigger] s[k] != '\n' implies {
            let r = y + text_row(s.take(k));
            &&& 0 <= r < a.len()
            &&& 0 <= x + raw_col(s.take(k)) < a[r].len()
        } by {
            let r = y + text_row(s.take(k));
            assert(a[r].len() == b[r].len());
        }
    }
}

impl TextOut {
    /// The number of rows.
    pub fn height(&self) -> (r: usize)
        ensures
            r == self@.len(),
    {
        self.dst.len()
    }

    /// The length of the first row, or 0 for a canvas without rows.
    pub fn width(&self) -> (r: usize)
        ensures
            r == grid_width(self@),
    {
        if self.dst.len() > 0 {
            self.dst[0].len()
        } else {
            0
        }
    }
}

} // verus!

