# tidy_trees

Pretty-printing of trees as boxes joined by edges, drawn with box-drawing characters.

- `src/tree.rs` — owned trees (`Tree`), their flattening into a preorder node table
  (`TreeStructure`) and per-node value tables over it (`TreeData`). The flattening is proved to
  give a well-formed tree: identifiers are positions, children come after their parent and point
  back to it, child lists are increasing, and the values come out in preorder.
- `src/pretty_print.rs` — node sizes in character cells, the character canvas (`TextOut`) with
  frames, text and edges, and `render_tree`, which draws a whole tree once the positions of its
  frames are known; each drawing step is specified cell by cell.
- `src/text_draw.rs` — the box-and-edge drawing used by the example program (`AsciiDrawEdges`).
- `app/` — the command line program: JSON input, the tidy tree layout (floating point), the SVG
  drawings of the example program, and printing.

Usage: `tidy_trees <file.json>`, `tidy_trees --json '{"content": "a", "children": [...]}'`, or
`tidy_trees --demo` for the example trees.
