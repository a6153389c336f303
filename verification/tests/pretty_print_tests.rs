use tidy_trees::pretty_print::{render_tree, CellBox, CharSet, TextOut, node_size};
use tidy_trees::tree::{Tree, TreeStructure};

fn rows(v: Vec<Vec<char>>) -> Vec<String> {
    v.into_iter().map(|r| r.into_iter().collect()).collect()
}

#[test]
fn char_sets() {
    let s = CharSet::square();
    assert_eq!((s.top_left, s.top_right, s.bottom_left, s.bottom_right), ('┌', '┐', '└', '┘'));
    let r = CharSet::rounded();
    assert_eq!((r.top_left, r.top_right, r.bottom_left, r.bottom_right), ('╭', '╮', '╰', '╯'));
    assert_eq!((r.vertical, r.horizontal, r.cross), ('│', '─', '┼'));
    assert_eq!((r.join_top, r.join_bottom, r.join_left, r.join_right), ('┬', '┴', '├', '┤'));
}

#[test]
fn node_size_of_empty_text_is_the_small_box() {
    assert_eq!(node_size(""), (2, 1));
}

#[test]
fn node_size_counts_a_trailing_line_feed_as_a_line() {
    assert_eq!(node_size("a\n"), (2, 3));
    assert_eq!(node_size("\n"), (2, 3));
}

#[test]
fn node_size_uses_the_longest_line() {
    assert_eq!(node_size("hello"), (6, 2));
    assert_eq!(node_size("two\nlines"), (6, 3));
    assert_eq!(node_size("this is a big one\n\n\n"), (18, 5));
}

#[test]
fn node_size_drops_carriage_returns_before_line_feeds_only() {
    assert_eq!(node_size("ab\r\ncd"), (3, 3));
    assert_eq!(node_size("x\r"), (3, 2));
}

#[test]
fn node_size_counts_bytes() {
    assert_eq!(node_size("é"), (3, 2));
}

#[test]
fn canvas_starts_blank() {
    let t = TextOut::new(3, 2, CharSet::rounded());
    assert_eq!(rows(t.into_rows()), vec!["   ", "   "]);
}

#[test]
fn frame_and_text() {
    let mut t = TextOut::new(5, 4, CharSet::square());
    t.write_frame(0, 0, 4, 3);
    t.write_text(1, 1, "ab\r\ncd");
    assert_eq!(rows(t.into_rows()), vec!["┌───┐", "│ab │", "│cd │", "└───┘"]);
}

#[test]
fn degenerate_frames() {
    let mut t = TextOut::new(3, 2, CharSet::square());
    t.write_frame(1, 0, 0, 1);
    assert_eq!(rows(t.into_rows()), vec![" ┐ ", " ┘ "]);
    let mut t = TextOut::new(2, 1, CharSet::square());
    t.write_frame(0, 0, 1, 0);
    assert_eq!(rows(t.into_rows()), vec!["└┘"]);
}

fn boxed(left: usize, top: usize, center: usize) -> CellBox {
    CellBox { left, top, width: 2, height: 2, center, bottom: top + 2 }
}

#[test]
fn single_node() {
    let mut ts = TreeStructure::new();
    let td = ts.load_data(Tree::new("a".to_string(), vec![]));
    let boxes = td.derive(|_, _, _| boxed(0, 0, 1));
    assert_eq!(rows(render_tree(&td, &boxes, 3, 3)), vec!["╭─╮", "│a│", "╰─╯"]);
}

#[test]
fn single_child_sits_right_below() {
    let mut ts = TreeStructure::new();
    let td = ts.load_data(Tree::new("a".to_string(), vec![Tree::new("b".to_string(), vec![])]));
    let boxes = td.derive(|_, _, s: &String| if s == "a" { boxed(0, 0, 1) } else { boxed(0, 3, 1) });
    assert_eq!(
        rows(render_tree(&td, &boxes, 3, 6)),
        vec!["╭─╮", "│a│", "╰┬╯", "╭┴╮", "│b│", "╰─╯"]
    );
}

#[test]
fn two_children_share_a_horizontal_edge() {
    let mut ts = TreeStructure::new();
    let td = ts.load_data(Tree::new(
        "a".to_string(),
        vec![Tree::new("b".to_string(), vec![]), Tree::new("c".to_string(), vec![])],
    ));
    let boxes = td.derive(|_, _, s: &String| match s.as_str() {
        "a" => boxed(1, 0, 2),
        "b" => boxed(0, 4, 1),
        _ => boxed(3, 4, 4),
    });
    assert_eq!(
        rows(render_tree(&td, &boxes, 6, 7)),
        vec![" ╭─╮  ", " │a│  ", " ╰┬╯  ", " ╭┴─╮ ", "╭┴╮╭┴╮", "│b││c│", "╰─╯╰─╯"]
    );
}

#[test]
fn child_under_the_parent_gets_a_cross_or_side_join() {
    let mut ts = TreeStructure::new();
    let td = ts.load_data(Tree::new(
        "p".to_string(),
        vec![
            Tree::new("l".to_string(), vec![]),
            Tree::new("m".to_string(), vec![]),
            Tree::new("r".to_string(), vec![]),
        ],
    ));
    let boxes = td.derive(|_, _, s: &String| match s.as_str() {
        "p" => boxed(3, 0, 4),
        "l" => boxed(0, 4, 1),
        "m" => boxed(3, 4, 4),
        _ => boxed(6, 4, 7),
    });
    assert_eq!(
        rows(render_tree(&td, &boxes, 9, 7)),
        vec![
            "   ╭─╮   ",
            "   │p│   ",
            "   ╰┬╯   ",
            " ╭──┼──╮ ",
            "╭┴╮╭┴╮╭┴╮",
            "│l││m││r│",
            "╰─╯╰─╯╰─╯",
        ]
    );
}
