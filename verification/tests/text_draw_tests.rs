use tidy_trees::pretty_print::{edges_fit_canvas, render_fits_canvas, text_fits_canvas, CellBox};
use tidy_trees::text_draw::{node_size, rounded, square, AsciiDrawEdges, DrawOptions};
use tidy_trees::tree::{Tree, TreeStructure};

fn rows(v: Vec<Vec<char>>) -> Vec<String> {
    v.into_iter().map(|r| r.into_iter().collect()).collect()
}

#[test]
fn free_char_sets() {
    assert_eq!(square().top_left, '┌');
    assert_eq!(rounded().top_left, '╭');
    assert_eq!(rounded().bottom_left, '╰');
}

#[test]
fn options_default_to_compact_rounded() {
    let o = DrawOptions::default();
    assert!(o.compact);
    assert_eq!(o.char_set.top_right, '╮');
}

#[test]
fn box_size_adds_padding_column() {
    let (s, w, h) = node_size("hello".to_string());
    assert_eq!((s.as_str(), w, h), ("hello", 7, 2));
    let (_, w, h) = node_size(String::new());
    assert_eq!((w, h), (3, 1));
    let (_, w, h) = node_size("a\nbc\n".to_string());
    assert_eq!((w, h), (4, 4));
}

#[test]
fn box_corners_and_raw_text() {
    let mut d = AsciiDrawEdges::new(5, 3, DrawOptions::default());
    let b = CellBox { left: 0, top: 0, width: 4, height: 2, center: 2, bottom: 2 };
    assert!(d.can_draw(&b, "a\rb", &[]));
    d.draw_box(&b, "a\rb");
    assert_eq!(rows(d.into_rows()), vec!["╭───╮", "│a\rb│", "╰───╯"]);
}

#[test]
fn flat_box_keeps_bottom_corners() {
    let mut d = AsciiDrawEdges::new(3, 1, DrawOptions::default());
    let b = CellBox { left: 0, top: 0, width: 2, height: 0, center: 1, bottom: 0 };
    d.draw_box(&b, "");
    assert_eq!(rows(d.into_rows()), vec!["╰─╯"]);
}

#[test]
fn only_child_gets_a_vertical_line_unless_compact() {
    let opt = DrawOptions { compact: false, char_set: square() };
    let mut d = AsciiDrawEdges::new(3, 7, opt);
    let parent = CellBox { left: 0, top: 0, width: 2, height: 2, center: 1, bottom: 2 };
    let child = CellBox { left: 0, top: 4, width: 2, height: 2, center: 1, bottom: 6 };
    assert!(d.can_draw(&child, "b", &[]));
    d.draw_edges(&child, "b", &[]);
    assert!(d.can_draw(&parent, "a", &[(1, 4)]));
    d.draw_edges(&parent, "a", &[(1, 4)]);
    assert_eq!(
        rows(d.into_rows()),
        vec!["┌─┐", "│a│", "└┬┘", " │ ", "┌┴┐", "│b│", "└─┘"]
    );
}

#[test]
fn compact_only_child_has_no_vertical_line() {
    let mut d = AsciiDrawEdges::new(3, 6, DrawOptions::default());
    let parent = CellBox { left: 0, top: 0, width: 2, height: 2, center: 1, bottom: 2 };
    let child = CellBox { left: 0, top: 3, width: 2, height: 2, center: 1, bottom: 5 };
    d.draw_edges(&child, "b", &[]);
    d.draw_edges(&parent, "a", &[(1, 3)]);
    assert_eq!(rows(d.into_rows()), vec!["╭─╮", "│a│", "╰┬╯", "╭┴╮", "│b│", "╰─╯"]);
}

#[test]
fn can_draw_refuses_what_leaves_the_canvas() {
    let d = AsciiDrawEdges::new(3, 3, DrawOptions::default());
    let b = CellBox { left: 0, top: 0, width: 2, height: 2, center: 1, bottom: 2 };
    assert!(d.can_draw(&b, "a", &[]));
    assert!(!d.can_draw(&b, "abc", &[]));
    assert!(!d.can_draw(&b, "a\nb\nc", &[]));
    let wide = CellBox { left: 1, top: 0, width: 2, height: 2, center: 2, bottom: 2 };
    assert!(!d.can_draw(&wide, "", &[]));
    assert!(!d.can_draw(&b, "a", &[(1, 3)]));
}

#[test]
fn text_fit_checks() {
    assert!(text_fits_canvas(3, 2, 1, 0, "ab"));
    assert!(!text_fits_canvas(3, 2, 2, 0, "ab"));
    assert!(text_fits_canvas(3, 2, 0, 0, "abc\r\nd"));
    assert!(!text_fits_canvas(3, 2, 0, 0, "a\nb\nc"));
    assert!(text_fits_canvas(3, 2, 0, 0, "a\nb\n\n\n"));
    assert!(text_fits_canvas(0, 0, 5, 5, "\r\n"));
}

#[test]
fn edge_fit_checks() {
    assert!(edges_fit_canvas(5, 5, true, 2, 1, &[(1, 3), (3, 3)]));
    assert!(!edges_fit_canvas(5, 5, true, 2, 5, &[(1, 3)]));
    assert!(!edges_fit_canvas(5, 5, true, 2, 1, &[(1, 0), (3, 3)]));
    assert!(edges_fit_canvas(5, 5, true, 2, 1, &[(1, 0)]));
    assert!(!edges_fit_canvas(5, 5, false, 2, 1, &[(1, 0)]));
    assert!(edges_fit_canvas(5, 5, true, 9, 9, &[]));
}

#[test]
fn render_fit_check() {
    let mut ts = TreeStructure::new();
    let td = ts.load_data(Tree::new("a".to_string(), vec![Tree::new("b".to_string(), vec![])]));
    let boxes = td.derive(|_, _, s: &String| {
        let top = if s == "a" { 0 } else { 3 };
        CellBox { left: 0, top, width: 2, height: 2, center: 1, bottom: top + 2 }
    });
    assert!(render_fits_canvas(&td, &boxes, 3, 6));
    assert!(!render_fits_canvas(&td, &boxes, 3, 5));
    assert!(!render_fits_canvas(&td, &boxes, 2, 6));
}

#[test]
fn box_size_is_frame_size_plus_one_column() {
    for s in ["", "a", "hello", "a\nbc\n", "ab\r\ncd", "\n\n", "é"] {
        let (fw, fh) = tidy_trees::pretty_print::node_size(s);
        let (t, w, h) = node_size(s.to_string());
        assert_eq!(t, s);
        assert_eq!((w, h), (fw + 1, fh));
    }
    assert_eq!(node_size("a".to_string()), ("a".to_string(), 3, 2));
    assert_eq!(node_size(String::new()), (String::new(), 3, 1));
}
