//! Drawing nodes as boxes with their text and the edges to their children, one node at a
//! time, on a character canvas.
use vstd::prelude::*;
pub use crate::pretty_print::CharSet;
use crate::pretty_print as pp;
use crate::pretty_print::{CellBox, TextOut};

verus! {

/// Box drawing characters with square corners.
pub fn square() -> (r: CharSet)
    ensures
        r.vertical == '│' && r.horizontal == '─',
        r.top_left == '┌' && r.top_right == '┐',
        r.bottom_left == '└' && r.bottom_right == '┘',
        r.join_bottom == '┴' && r.join_top == '┬',
        r.join_left == '├' && r.join_right == '┤',
        r.cross == '┼',
{
    CharSet::square()
}

/// Box drawing characters with rounded corners.
pub fn rounded() -> (r: CharSet)
    ensures
        r == pp::rounded_chars(),
{
    CharSet::rounded()
}

/// The text of a node with the size of its box: its text width plus two columns, one of them
/// padding, and its text height plus one rows, counting from the box's first column and row.
/// Against [`crate::pretty_print::node_size`] on the same text, the box is one column wider and
/// exactly as high.
pub fn node_size(val: String) -> (r: (String, usize, usize))
    requires
        vstd::utf8::encode_utf8(val@).len() + 2 <= usize::MAX,
    ensures
        r.0 == val,
        r.1 == pp::frame_extent(vstd::utf8::encode_utf8(val@)).0 + 1,
        r.2 == pp::frame_extent(vstd::utf8::encode_utf8(val@)).1,
        r.1 == pp::text_width(vstd::utf8::encode_utf8(val@)) + 2,
        r.2 == pp::text_height(vstd::utf8::encode_utf8(val@)) + 1,
{
    let (w, h) = crate::pretty_print::node_size(val.as_str());
    (val, w + 1, h)
}

/// How boxes and edges are drawn: `compact` puts an only child right below its parent, with
/// no vertical line between them.
#[derive(Clone, Copy)]
pub struct DrawOptions {
    pub compact: bool,
    pub char_set: CharSet,
}

impl Default for DrawOptions {
    fn default() -> (r: Self)
        ensures
            r.compact,
            r.char_set == pp::rounded_chars(),
    {
        Self { compact: true, char_set: rounded() }
    }
}


/// The box of a node on the canvas: corners at its first and last column and row.
pub open spec fn box_frame_of(g: Seq<Seq<char>>, cs: CharSet, b: CellBox) -> Seq<Seq<char>> {
    pp::draw_box_frame(
        g,
        cs,
        b.left as int,
        b.top as int,
        b.left + b.width,
        b.top + b.height,
    )
}

/// The box of a node and its text inside, starting one cell in from the top left corner.
pub open spec fn draw_node_box(g: Seq<Seq<char>>, cs: CharSet, b: CellBox, s: Seq<char>) -> Seq<Seq<char>> {
    pp::draw_raw_text(box_frame_of(g, cs, b), b.left + 1, b.top + 1, s)
}

/// The box and its text fit on a canvas whose rows all have the same width.
pub open spec fn node_box_fits(g: Seq<Seq<char>>, b: CellBox, s: Seq<char>) -> bool {
    &&& pp::rows_have_width(g, pp::grid_width(g))
    &&& b.top + b.height < g.len()
    &&& b.left + b.width < pp::grid_width(g)
    &&& pp::raw_text_fits(g, b.left + 1, b.top + 1, s)
}

/// A canvas that nodes are drawn on one by one, as boxes with their text and the edges down
/// to their children.
pub struct AsciiDrawEdges {
    canvas: TextOut,
    opt: DrawOptions,
}

impl View for AsciiDrawEdges {
    type V = Seq<Seq<char>>;

    closed spec fn view(&self) -> Seq<Seq<char>> {
        self.canvas@
    }
}

impl AsciiDrawEdges {
    /// The canvas draws with the characters of the options and all its rows have one width.
    pub closed spec fn wf(&self) -> bool {
        &&& self.canvas.chars() == self.opt.char_set
        &&& pp::rows_have_width(self.canvas@, pp::grid_width(self.canvas@))
    }

    /// The options the canvas draws with.
    pub closed spec fn options(&self) -> DrawOptions {
        self.opt
    }

    /// A canvas of `height` rows of `width` spaces.
    pub fn new(width: usize, height: usize, opt: DrawOptions) -> (r: Self)
        ensures
            r@ == pp::blank(width as nat, height as nat),
            r.options() == opt,
            r.wf(),
    {
        let r = AsciiDrawEdges { canvas: TextOut::new(width, height, opt.char_set), opt };
        proof {
            let g = r.canvas@;
            if g.len() > 0 {
                assert(g[0].len() == width);
            }
            assert forall|i: int| 0 <= i < g.len() implies #[trigger] g[i].len() == pp::grid_width(g) by {
                assert(g[0].len() == width);
            }
        }
        r
    }

    /// Draws the box of a node and its text.
    pub fn draw_box(&mut self, b: &CellBox, content: &str)
        requires
            old(self).wf(),
            content@.len() < usize::MAX,
            node_box_fits(old(self)@, *b, content@),
        ensures
            final(self).wf(),
            final(self)@ == draw_node_box(old(self)@, old(self).options().char_set, *b, content@),
            final(self).options() == old(self).options(),
            pp::same_shape(final(self)@, old(self)@),
    {
        let ghost g = self@;
        proof {
            assert(g[b.top as int].len() == pp::grid_width(g));
            assert forall|r: int| b.top <= r <= b.top + b.height implies b.left + b.width < #[trigger] g[r].len() by {
                assert(g[r].len() == pp::grid_width(g));
            }
            self.canvas.lemma_rows_bounded();
        }
        let x1 = b.left + b.width;
        let y1 = b.top + b.height;
        self.canvas.write_box_frame(b.left, b.top, x1, y1);
        proof {
            lemma_raw_text_fits_same_shape(g, self@, b.left + 1, b.top + 1, content@);
        }
        self.canvas.write_raw_text(b.left + 1, b.top + 1, content);
        proof {
            lemma_same_shape_uniform(g, self@);
        }
    }

    /// Draws the box of a node, its text, and the edges down to its children, given the center
    /// column and top row of each child in order.
    pub fn draw_edges(&mut self, b: &CellBox, content: &str, kids: &[(usize, usize)])
        requires
            old(self).wf(),
            content@.len() < usize::MAX,
            node_box_fits(old(self)@, *b, content@),
            pp::edges_fit(old(self)@, old(self).options().compact, b.center as int, b.bottom as int, pp::anchors_int(kids@)),
        ensures
            final(self)@ == pp::draw_edges(
                draw_node_box(old(self)@, old(self).options().char_set, *b, content@),
                old(self).options().char_set,
                old(self).options().compact,
                b.center as int,
                b.bottom as int,
                pp::anchors_int(kids@),
            ),
            final(self).options() == old(self).options(),
            final(self).wf(),
            pp::same_shape(final(self)@, old(self)@),
    {
        let ghost g = self@;
        self.draw_box(b, content);
        proof {
            pp::lemma_edges_fit_shape(g, self@, self.opt.compact, b.center as int, b.bottom as int, pp::anchors_int(kids@));
        }
        let compact = self.opt.compact;
        let ghost mid = self@;
        self.canvas.write_child_edges(b.center, b.bottom, kids, compact);
        proof {
            lemma_same_shape_uniform(mid, self@);
            assert forall|r: int| 0 <= r < self@.len() implies #[trigger] self@[r].len() == g[r].len() by {
                assert(self@[r].len() == mid[r].len());
            }
        }
    }

    /// Whether a node's box, its text and its edges all fit on the canvas, as `draw_edges`
    /// asks.
    pub fn can_draw(&self, b: &CellBox, content: &str, kids: &[(usize, usize)]) -> (r: bool)
        requires
            self.wf(),
            content@.len() < usize::MAX,
        ensures
            r == (node_box_fits(self@, *b, content@) && pp::edges_fit(
                self@,
                self.options().compact,
                b.center as int,
                b.bottom as int,
                pp::anchors_int(kids@),
            )),
    {
        let h = self.canvas.height();
        let w = self.canvas.width();
        let ghost g = self@;
        let ghost bl = pp::blank(w as nat, h as nat);
        proof {
            assert(pp::same_shape(g, bl)) by {
                assert forall|r: int| 0 <= r < g.len() implies #[trigger] g[r].len() == bl[r].len() by {}
            }
            pp::lemma_raw_text_fits_shape(g, bl, b.left + 1, b.top + 1, content@);
            if pp::edges_fit(g, self.opt.compact, b.center as int, b.bottom as int, pp::anchors_int(kids@)) {
                pp::lemma_edges_fit_shape(g, bl, self.opt.compact, b.center as int, b.bottom as int, pp::anchors_int(kids@));
            }
            if pp::edges_fit(bl, self.opt.compact, b.center as int, b.bottom as int, pp::anchors_int(kids@)) {
                lemma_same_shape_sym(g, bl);
                pp::lemma_edges_fit_shape(bl, g, self.opt.compact, b.center as int, b.bottom as int, pp::anchors_int(kids@));
            }
        }
        let frame_ok = match b.top.checked_add(b.height) {
            Some(v) => v < h,
            None => false,
        } && match b.left.checked_add(b.width) {
            Some(v) => v < w,
            None => false,
        };
        if !frame_ok {
            return false;
        }
        let text_ok = pp::raw_text_fits_canvas(w, h, b.left + 1, b.top + 1, content);
        let edges_ok = pp::edges_fit_canvas(w, h, self.opt.compact, b.center, b.bottom, kids);
        text_ok && edges_ok
    }

    /// The rows of the canvas, consuming it.
    pub fn into_rows(self) -> (r: Vec<Vec<char>>)
        ensures
            r@.map_values(|row: Vec<char>| row@) == self@,
    {
        self.canvas.into_rows()
    }
}

/// Grids of the same shape are so either way round.
proof fn lemma_same_shape_sym(a: Seq<Seq<char>>, b: Seq<Seq<char>>)
    requires
        pp::same_shape(a, b),
    ensures
        pp::same_shape(b, a),
{
    assert forall|r: int| 0 <= r < b.len() implies #[trigger] b[r].len() == a[r].len() by {}
}

/// A grid of the same shape as one whose rows all have one width has all its rows of that
/// width too.
proof fn lemma_same_shape_uniform(a: Seq<Seq<char>>, b: Seq<Seq<char>>)
    requires
        pp::same_shape(b, a),
        pp::rows_have_width(a, pp::grid_width(a)),
    ensures
        pp::rows_have_width(b, pp::grid_width(b)),
        pp::grid_width(b) == pp::grid_width(a),
{
    if a.len() > 0 {
        assert(b[0].len() == a[0].len());
    }
    assert forall|r: int| 0 <= r < b.len() implies #[trigger] b[r].len() == pp::grid_width(b) by {
        assert(b[r].len() == a[r].len());
        assert(a[r].len() == pp::grid_width(a));
    }
}

/// Whether a text fits depends on the grid's shape alone.
proof fn lemma_raw_text_fits_same_shape(a: Seq<Seq<char>>, b: Seq<Seq<char>>, x: int, y: int, s: Seq<char>)
    requires
        pp::same_shape(b, a),
        pp::raw_text_fits(a, x, y, s),
    ensures
        pp::raw_text_fits(b, x, y, s),
{
    assert forall|k: int| 0 <= k < s.len() && #[trigger] s[k] != '\n' implies {
        let r = y + pp::text_row(s.take(k));
        &&& 0 <= r < b.len()
        &&& 0 <= x + pp::raw_col(s.take(k)) < b[r].len()
    } by {
        let r = y + pp::text_row(s.take(k));
        assert(a[r].len() == b[r].len());
    }
}

} // verus!
