//! Laws of the drawing: how the edges between a node and its children branch, and where the
//! lines of a node's text land.
use vstd::prelude::*;
use crate::pretty_print as pp;

verus! {

/// Whether `ch` is one of the characters through which a horizontal edge branches down into a
/// child: a corner, a top join, a side join or a cross.
pub open spec fn branches_down(cs: pp::CharSet, ch: char) -> bool {
    ||| ch == cs.top_left
    ||| ch == cs.top_right
    ||| ch == cs.join_top
    ||| ch == cs.join_left
    ||| ch == cs.join_right
    ||| ch == cs.cross
}

/// The character on the horizontal edge between two children, in column `c`: a bottom join
/// under the parent's column `pc`, a plain horizontal line elsewhere.
spec fn run_char(cs: pp::CharSet, pc: int, c: int) -> char {
    if c == pc {
        cs.join_bottom
    } else {
        cs.horizontal
    }
}

/// What the edge of the `i`-th of several children leaves in cell `(r, c)` that held `old`.
spec fn edge_child_cell(cs: pp::CharSet, pc: int, kids: Seq<(int, int)>, i: int, r: int, c: int, old: char) -> char {
    let cc = kids[i].0;
    let t = kids[i].1;
    let last = kids.len() - 1;
    if r == t && c == cc {
        cs.join_bottom
    } else if r == t - 1 && c == cc {
        pp::connector(cs, cc, pc, i, last)
    } else if r == t - 1 && i < last && cc < c < kids[i + 1].0 {
        run_char(cs, pc, c)
    } else {
        old
    }
}

/// The edge of one of several children, cell by cell.
proof fn lemma_edge_child_cells(
    g: Seq<Seq<char>>,
    cs: pp::CharSet,
    compact: bool,
    pc: int,
    kids: Seq<(int, int)>,
    i: int,
    w: nat,
)
    requires
        kids.len() >= 2,
        0 <= i < kids.len(),
        pp::rows_have_width(g, w),
        1 <= kids[i].1 < g.len(),
        0 <= kids[i].0 < w,
    ensures
        pp::edge_child(g, cs, compact, pc, kids, i).len() == g.len(),
        pp::rows_have_width(pp::edge_child(g, cs, compact, pc, kids, i), w),
        forall|r: int, c: int|
            0 <= r < g.len() && 0 <= c < w ==> #[trigger] pp::edge_child(g, cs, compact, pc, kids, i)[r][c]
                == edge_child_cell(cs, pc, kids, i, r, c, g[r][c]),
{
    let cc = kids[i].0;
    let t = kids[i].1;
    let last = kids.len() - 1;
    let g1 = pp::put(g, t, cc, cs.join_bottom);
    let g2 = pp::put(g1, t - 1, cc, pp::connector(cs, cc, pc, i, last));
    let e = pp::edge_child(g, cs, compact, pc, kids, i);
    assert(g[t].len() == w);
    assert(g[t - 1].len() == w);
    assert forall|r: int| 0 <= r < g2.len() implies #[trigger] g2[r].len() == w by {
        assert(g[r].len() == w);
    }
    assert forall|r: int, c: int| 0 <= r < g.len() && 0 <= c < w implies g2[r][c] == (if r == t
        && c == cc {
        cs.join_bottom
    } else if r == t - 1 && c == cc {
        pp::connector(cs, cc, pc, i, last)
    } else {
        g[r][c]
    }) by {
        assert(g[r].len() == w);
    }
    if i != last {
        let h = pp::hrun(g2, cs, t - 1, cc + 1, kids[i + 1].0, pc);
        assert(e == h);
        assert forall|r: int| 0 <= r < h.len() implies #[trigger] h[r].len() == w by {
            assert(g2[r].len() == w);
        }
        assert forall|r: int, c: int| 0 <= r < g.len() && 0 <= c < w implies #[trigger] e[r][c]
            == edge_child_cell(cs, pc, kids, i, r, c, g[r][c]) by {
            assert(g2[r].len() == w);
        }
    } else {
        assert(e == g2);
        assert forall|r: int, c: int| 0 <= r < g.len() && 0 <= c < w implies #[trigger] e[r][c]
            == edge_child_cell(cs, pc, kids, i, r, c, g[r][c]) by {}
    }
}

/// What the edges of the first `n` of several children, whose columns increase and whose
/// top rows are all `t`, leave in the grid `e` drawn over `g0`: the cells each child's edge
/// sets hold what it set, and every cell that no child so far reaches is as it was.
#[verifier::opaque]
spec fn cells_after(
    e: Seq<Seq<char>>,
    g0: Seq<Seq<char>>,
    cs: pp::CharSet,
    pc: int,
    kids: Seq<(int, int)>,
    t: int,
    w: nat,
    n: nat,
) -> bool {
    &&& forall|i: int| 0 <= i < n ==> e[t][(#[trigger] kids[i]).0] == cs.join_bottom
    &&& forall|i: int|
        0 <= i < n ==> e[t - 1][(#[trigger] kids[i]).0] == pp::connector(
            cs,
            kids[i].0,
            pc,
            i,
            kids.len() - 1,
        )
    &&& forall|i: int, c: int|
        #![trigger kids[i], e[t - 1][c]]
        0 <= i < n && i < kids.len() - 1 && kids[i].0 < c < kids[i + 1].0 && c < w ==> e[t
            - 1][c] == run_char(cs, pc, c)
    &&& forall|r: int, c: int|
        0 <= r < g0.len() && 0 <= c < w && ((r != t && r != t - 1) || (n < kids.len() && c
            >= kids[n as int].0)) ==> #[trigger] e[r][c] == g0[r][c]
}

/// The children's columns increase, their top rows are all `t`, and they stand inside a
/// grid of `w` columns.
spec fn kids_in_line(kids: Seq<(int, int)>, t: int, w: nat) -> bool {
    &&& forall|i: int| 0 <= i < kids.len() ==> (#[trigger] kids[i]).1 == t && 0 <= kids[i].0 < w
    &&& forall|i: int, j: int| 0 <= i < j < kids.len() ==> #[trigger] kids[i].0 < #[trigger] kids[j].0
}

/// Drawing the edge of child `n - 1` over the edges of the children before it.
proof fn lemma_edge_children_step(
    e: Seq<Seq<char>>,
    e2: Seq<Seq<char>>,
    g0: Seq<Seq<char>>,
    cs: pp::CharSet,
    compact: bool,
    pc: int,
    kids: Seq<(int, int)>,
    t: int,
    w: nat,
    n: nat,
)
    requires
        kids.len() >= 2,
        0 < n <= kids.len(),
        1 <= t < g0.len(),
        kids_in_line(kids, t, w),
        e.len() == g0.len(),
        pp::rows_have_width(e, w),
        cells_after(e, g0, cs, pc, kids, t, w, (n - 1) as nat),
        e2 == pp::edge_child(e, cs, compact, pc, kids, n - 1),
    ensures
        e2.len() == g0.len(),
        pp::rows_have_width(e2, w),
        cells_after(e2, g0, cs, pc, kids, t, w, n),
{
    reveal(cells_after);
    let m = n - 1;
    assert(kids[m].1 == t);
    lemma_edge_child_cells(e, cs, compact, pc, kids, m, w);
    let last = kids.len() - 1;
    assert forall|i: int| 0 <= i < n implies e2[t][(#[trigger] kids[i]).0] == cs.join_bottom by {
        assert(0 <= kids[i].0 < w);
        if i < m {
            assert(kids[i].0 < kids[m].0);
        }
    }
    assert forall|i: int| 0 <= i < n implies e2[t - 1][(#[trigger] kids[i]).0] == pp::connector(
        cs,
        kids[i].0,
        pc,
        i,
        last,
    ) by {
        assert(0 <= kids[i].0 < w);
        if i < m {
            assert(kids[i].0 < kids[m].0);
        }
    }
    assert forall|i: int, c: int|
        #![trigger kids[i], e2[t - 1][c]]
        0 <= i < n && i < last && kids[i].0 < c < kids[i + 1].0 && c < w implies e2[t
        - 1][c] == run_char(cs, pc, c) by {
        assert(0 <= kids[i].0 < w);
        if i < m {
            assert(kids[i + 1].0 <= kids[m].0) by {
                if i + 1 < m {
                    assert(kids[i + 1].0 < kids[m].0);
                }
            }
        }
    }
    assert forall|r: int, c: int|
        0 <= r < g0.len() && 0 <= c < w && ((r != t && r != t - 1) || (n < kids.len() && c
            >= kids[n as int].0)) implies #[trigger] e2[r][c] == g0[r][c] by {
        if n < kids.len() && (r == t || r == t - 1) {
            assert(kids[m].0 < kids[n as int].0);
        }
    }
}

/// The edges of the first `n` of several children standing in line, as [`cells_after`] says.
proof fn lemma_edge_children_cells(
    g0: Seq<Seq<char>>,
    cs: pp::CharSet,
    compact: bool,
    pc: int,
    kids: Seq<(int, int)>,
    t: int,
    w: nat,
    n: nat,
)
    requires
        kids.len() >= 2,
        n <= kids.len(),
        pp::rows_have_width(g0, w),
        1 <= t < g0.len(),
        kids_in_line(kids, t, w),
    ensures
        pp::edge_children(g0, cs, compact, pc, kids, n).len() == g0.len(),
        pp::rows_have_width(pp::edge_children(g0, cs, compact, pc, kids, n), w),
        cells_after(pp::edge_children(g0, cs, compact, pc, kids, n), g0, cs, pc, kids, t, w, n),
    decreases n,
{
    if n > 0 {
        lemma_edge_children_cells(g0, cs, compact, pc, kids, t, w, (n - 1) as nat);
        let e = pp::edge_children(g0, cs, compact, pc, kids, (n - 1) as nat);
        let e2 = pp::edge_children(g0, cs, compact, pc, kids, n);
        assert(e2 == pp::edge_child(e, cs, compact, pc, kids, n - 1));
        lemma_edge_children_step(e, e2, g0, cs, compact, pc, kids, t, w, n);
    } else {
        reveal(cells_after);
    }
}

/// The edges from a parent down to two or more children that stand side by side, in
/// increasing columns with their top edges on row `t`, branch down into every child:
/// - each child's top edge gets a bottom join in the child's column;
/// - the cell right above it always branches down; the first child left of the parent gets
///   the top left corner, the last child right of the parent the top right corner, and every
///   other child that is not in the parent's column the top join;
/// - the cells between two neighbouring children carry the horizontal line, with a bottom join
///   in the parent's column;
/// - the parent's bottom edge gets a top join in its column, unless a child row covers it;
/// - nothing else changes.
pub proof fn lemma_child_edges_branch(
    g: Seq<Seq<char>>,
    cs: pp::CharSet,
    compact: bool,
    pc: int,
    pb: int,
    kids: Seq<(int, int)>,
    t: int,
) -> (e: Seq<Seq<char>>)
    requires
        pp::edges_fit(g, compact, pc, pb, kids),
        kids.len() >= 2,
        forall|i: int| 0 <= i < kids.len() ==> (#[trigger] kids[i]).1 == t,
        forall|i: int, j: int| 0 <= i < j < kids.len() ==> #[trigger] kids[i].0 < #[trigger] kids[j].0,
    ensures
        e == pp::draw_edges(g, cs, compact, pc, pb, kids),
        pp::same_shape(e, g),
        forall|i: int| 0 <= i < kids.len() ==> e[t][(#[trigger] kids[i]).0] == cs.join_bottom,
        forall|i: int| 0 <= i < kids.len() ==> branches_down(cs, e[t - 1][(#[trigger] kids[i]).0]),
        forall|i: int|
            0 < i < kids.len() - 1 && (#[trigger] kids[i]).0 != pc ==> e[t - 1][kids[i].0]
                == cs.join_top,
        kids[0].0 < pc ==> e[t - 1][kids[0].0] == cs.top_left,
        kids[kids.len() - 1].0 > pc ==> e[t - 1][kids[kids.len() - 1].0] == cs.top_right,
        forall|i: int, c: int|
            #![trigger kids[i], e[t - 1][c]]
            0 <= i < kids.len() - 1 && kids[i].0 < c < kids[i + 1].0 ==> e[t - 1][c]
                == (if c == pc {
                cs.join_bottom
            } else {
                cs.horizontal
            }),
        pb != t && pb != t - 1 ==> e[pb][pc] == cs.join_top,
        forall|r: int, c: int|
            0 <= r < g.len() && 0 <= c < g[r].len() && r != t && r != t - 1 && (r != pb || c != pc)
                ==> #[trigger] e[r][c] == g[r][c],
{
    let w = pp::grid_width(g);
    let last = kids.len() - 1;
    assert(kids[0].1 >= 1);
    assert(kids[0].1 < g.len());
    assert(g[pb].len() == w);
    pp::lemma_put_shape(g, pb, pc, cs.join_top);
    let g0 = pp::put(g, pb, pc, cs.join_top);
    assert forall|i: int| 0 <= i < kids.len() implies (#[trigger] kids[i]).1 == t && 0 <= kids[i].0
        < w by {}
    assert(kids_in_line(kids, t, w));
    lemma_edge_children_cells(g0, cs, compact, pc, kids, t, w, kids.len());
    reveal(cells_after);
    pp::lemma_draw_edges_shape(g, cs, compact, pc, pb, kids);
    let e = pp::draw_edges(g, cs, compact, pc, pb, kids);
    assert(e == pp::edge_children(g0, cs, compact, pc, kids, kids.len()));
    assert forall|i: int| 0 <= i < kids.len() implies branches_down(
        cs,
        e[t - 1][(#[trigger] kids[i]).0],
    ) by {
        assert(e[t - 1][kids[i].0] == pp::connector(cs, kids[i].0, pc, i, last));
    }
    assert forall|i: int|
        0 < i < kids.len() - 1 && (#[trigger] kids[i]).0 != pc implies e[t - 1][kids[i].0]
        == cs.join_top by {
        assert(e[t - 1][kids[i].0] == pp::connector(cs, kids[i].0, pc, i, last));
    }
    assert(e[t - 1][kids[0].0] == pp::connector(cs, kids[0].0, pc, 0, last));
    assert(e[t - 1][kids[last].0] == pp::connector(cs, kids[last].0, pc, last, last));
    assert forall|i: int, c: int|
        #![trigger kids[i], e[t - 1][c]]
        0 <= i < kids.len() - 1 && kids[i].0 < c < kids[i + 1].0 implies e[t
        - 1][c] == (if c == pc {
        cs.join_bottom
    } else {
        cs.horizontal
    }) by {
        assert(0 <= kids[i + 1].0 < w);
        assert(run_char(cs, pc, c) == e[t - 1][c]);
    }
    if pb != t && pb != t - 1 {
        assert(e[pb][pc] == g0[pb][pc]);
    }
    assert forall|r: int, c: int|
        0 <= r < g.len() && 0 <= c < g[r].len() && r != t && r != t - 1 && (r != pb || c != pc)
        implies #[trigger] e[r][c] == g[r][c] by {
        assert(g[r].len() == w);
        assert(e[r][c] == g0[r][c]);
    }
    e
}

} // verus!

verus! {

/// The number of line feeds in `s`.
pub open spec fn line_feeds(s: Seq<char>) -> nat {
    s.filter(|ch: char| ch == '\n').len()
}

/// The rows that text moves down are its line feeds.
proof fn lemma_text_row_line_feeds(s: Seq<char>)
    ensures
        pp::text_row(s) == line_feeds(s),
    decreases s.len(),
{
    reveal_with_fuel(Seq::filter, 1);
    if s.len() > 0 {
        lemma_text_row_line_feeds(s.drop_last());
    }
}

/// Within a line that starts at `j`, the character at `k` stands `k - j` columns in.
proof fn lemma_raw_col_in_line(s: Seq<char>, j: int, k: int)
    requires
        0 <= j <= k <= s.len(),
        j == 0 || s[j - 1] == '\n',
        forall|m: int| j <= m < k ==> s[m] != '\n',
    ensures
        pp::raw_col(s.take(k)) == k - j,
    decreases k,
{
    if k > j {
        assert(s.take(k).drop_last() =~= s.take(k - 1));
        assert(s.take(k).last() == s[k - 1]);
        lemma_raw_col_in_line(s, j, k - 1);
    } else if j > 0 {
        assert(s.take(j).last() == s[j - 1]);
    } else {
        assert(s.take(0).len() == 0);
    }
}

/// Text moves down at least as far over a longer prefix, and strictly further past a line
/// feed.
proof fn lemma_text_row_grows(s: Seq<char>, k: int, n: int)
    requires
        0 <= k <= n <= s.len(),
    ensures
        pp::text_row(s.take(k)) <= pp::text_row(s.take(n)),
        forall|m: int| k <= m < n && s[m] == '\n' ==> pp::text_row(s.take(k)) < pp::text_row(
            s.take(n),
        ),
    decreases n - k,
{
    if n > k {
        lemma_text_row_grows(s, k, n - 1);
        assert(s.take(n).drop_last() =~= s.take(n - 1));
        assert(s.take(n).last() == s[n - 1]);
    }
}

/// The cell of the character at `k`, on a line that starts at `j`, holds that character once
/// the whole text is written.
proof fn lemma_raw_text_cell(g: Seq<Seq<char>>, x: int, y: int, s: Seq<char>, j: int, k: int)
    requires
        pp::raw_text_fits(g, x, y, s),
        0 <= j <= k < s.len(),
        s[k] != '\n',
        j == 0 || s[j - 1] == '\n',
        forall|m: int| j <= m < k ==> s[m] != '\n',
    ensures
        pp::draw_raw_text(g, x, y, s)[y + pp::text_row(s.take(k))][x + (k - j)] == s[k],
    decreases s.len(),
{
    let n = s.len() - 1;
    let p = s.drop_last();
    assert(s.take(n) =~= p);
    pp::lemma_raw_text_fits_prefix(g, x, y, s, n);
    pp::lemma_draw_raw_text_shape(g, x, y, p);
    let g1 = pp::draw_raw_text(g, x, y, p);
    lemma_raw_col_in_line(s, j, k);
    if k == n {
        assert(s.last() == s[k]);
        let r = y + pp::text_row(p);
        assert(0 <= r < g.len() && 0 <= x + pp::raw_col(s.take(k)) < g[r].len());
    } else {
        assert(p.take(k) =~= s.take(k));
        assert(p[k] == s[k]);
        assert forall|m: int| j <= m < k implies p[m] != '\n' by {
            assert(p[m] == s[m]);
        }
        if j > 0 {
            assert(p[j - 1] == s[j - 1]);
        }
        lemma_raw_text_cell(g, x, y, p, j, k);
        if s.last() != '\n' {
            assert(s.last() == s[n]);
            let rn = y + pp::text_row(p);
            let rk = y + pp::text_row(s.take(k));
            assert(0 <= rn < g.len() && 0 <= x + pp::raw_col(p) < g[rn].len());
            if rn == rk {
                lemma_text_row_grows(s, k, n);
                assert forall|m: int| j <= m < n implies s[m] != '\n' by {
                    if m >= k && s[m] == '\n' {
                        assert(pp::text_row(s.take(k)) < pp::text_row(s.take(n)));
                    }
                }
                lemma_raw_col_in_line(s, j, n);
            }
        }
    }
}

/// Writing a text that fits puts every character but the line feeds on the row below the
/// first as many rows as line feeds come before it, and in the column after the characters
/// before it on its own line: a character whose line starts at position `j` of the text goes
/// `k - j` columns right of the first column, whatever the earlier lines held.
pub proof fn lemma_raw_text_lines(g: Seq<Seq<char>>, x: int, y: int, s: Seq<char>, j: int, k: int)
    requires
        pp::raw_text_fits(g, x, y, s),
        0 <= j <= k < s.len(),
        s[k] != '\n',
        j == 0 || s[j - 1] == '\n',
        forall|m: int| j <= m < k ==> s[m] != '\n',
    ensures
        pp::draw_raw_text(g, x, y, s)[y + line_feeds(s.take(k))][x + (k - j)] == s[k],
{
    lemma_raw_text_cell(g, x, y, s, j, k);
    lemma_text_row_line_feeds(s.take(k));
}

} // verus!

verus! {

/// The edge from a parent down to an only child: a bottom join on the child's top edge and,
/// unless drawn compactly, a vertical line right above it; a top join under the parent,
/// unless the child's edge covers that cell; nothing else changes.
pub proof fn lemma_only_child_edge(
    g: Seq<Seq<char>>,
    cs: pp::CharSet,
    compact: bool,
    pc: int,
    pb: int,
    kids: Seq<(int, int)>,
) -> (e: Seq<Seq<char>>)
    requires
        pp::edges_fit(g, compact, pc, pb, kids),
        kids.len() == 1,
    ensures
        e == pp::draw_edges(g, cs, compact, pc, pb, kids),
        pp::same_shape(e, g),
        e[kids[0].1][kids[0].0] == cs.join_bottom,
        !compact ==> e[kids[0].1 - 1][kids[0].0] == cs.vertical,
        !((pb, pc) == (kids[0].1, kids[0].0) || (!compact && (pb, pc) == (kids[0].1 - 1, kids[0].0)))
            ==> e[pb][pc] == cs.join_top,
        forall|r: int, c: int|
            0 <= r < g.len() && 0 <= c < g[r].len() && (r, c) != (pb, pc) && (r, c) != (kids[0].1, kids[0].0)
                && (compact || (r, c) != (kids[0].1 - 1, kids[0].0)) ==> #[trigger] e[r][c] == g[r][c],
{
    let w = pp::grid_width(g);
    let cc = kids[0].0;
    let t = kids[0].1;
    assert(0 <= t < g.len() && 0 <= cc < w);
    assert(g[pb].len() == w);
    assert(g[t].len() == w);
    pp::lemma_draw_edges_shape(g, cs, compact, pc, pb, kids);
    let g0 = pp::put(g, pb, pc, cs.join_top);
    let g1 = pp::put(g0, t, cc, cs.join_bottom);
    let e = pp::draw_edges(g, cs, compact, pc, pb, kids);
    assert(pp::edge_children(g0, cs, compact, pc, kids, 0) == g0);
    assert(e == pp::edge_child(g0, cs, compact, pc, kids, 0));
    if !compact {
        assert(t >= 1);
        assert(g[t - 1].len() == w);
        assert(e == pp::put(g1, t - 1, cc, cs.vertical));
    } else {
        assert(e == g1);
    }
    assert forall|r: int, c: int|
        0 <= r < g.len() && 0 <= c < g[r].len() && (r, c) != (pb, pc) && (r, c) != (t, cc) && (
        compact || (r, c) != (t - 1, cc)) implies #[trigger] e[r][c] == g[r][c] by {
        assert(g[r].len() == w);
    }
    e
}

} // verus!
