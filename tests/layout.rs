use gridlay::{Error, GridLay, Lines, Node, Point, Props, Ratio, Rect, Size};

fn r(num: u64, den: u64) -> Ratio {
    Ratio::new(num, den)
}

fn w(n: u64) -> Ratio {
    Ratio::whole(n)
}

fn rect(x: Ratio, y: Ratio, width: Ratio, height: Ratio) -> Rect {
    Rect { origin: Point { x, y }, size: Size { width, height } }
}

fn rows(g: &GridLay, rows: &[&[Node]]) -> Lines {
    let mut lines = Lines::new();
    for row in rows {
        for node in row.iter() {
            lines.add(g, *node).unwrap();
        }
        lines.end().unwrap();
    }
    lines
}

fn abc(g: &mut GridLay) -> (Node, Node, Node, Node) {
    let a = g.new_leaf(Props::sized(w(2), w(1)));
    let b = g.new_leaf(Props::sized(w(1), w(2)));
    let c = g.new_leaf(Props::sized(w(1), w(2)));
    let l = rows(g, &[&[a, a], &[b, c], &[b, c]]);
    let p = g.new_node(l).unwrap();
    (a, b, c, p)
}

#[test]
fn single_leaf_covers_its_size() {
    let mut g = GridLay::new();
    let a = g.new_leaf(Props::sized(r(5, 2), w(7)));
    let layout = g.compute_layout(a).unwrap();
    assert_eq!(layout.size, Size { width: r(5, 2), height: w(7) });
    assert_eq!(layout.table, vec![(a, rect(w(0), w(0), r(5, 2), w(7)))]);
}

#[test]
fn three_children_match_cell_coordinates() {
    let mut g = GridLay::new();
    let (a, b, c, p) = abc(&mut g);
    let layout = g.compute_layout(p).unwrap();
    assert_eq!(layout.size, Size { width: w(2), height: w(3) });
    assert_eq!(
        layout.table,
        vec![
            (a, rect(w(0), w(0), w(2), w(1))),
            (b, rect(w(0), w(1), w(1), w(2))),
            (c, rect(w(1), w(1), w(1), w(2))),
        ]
    );
}

#[test]
fn nested_parent_is_scaled_and_offset() {
    let mut g = GridLay::new();
    let (a, b, c, p) = abc(&mut g);
    let d = g.new_leaf(Props::sized(w(1), w(2)));
    let root = g.new_node(rows(&g, &[&[d, p]])).unwrap();
    let layout = g.compute_layout(root).unwrap();
    assert_eq!(layout.size, Size { width: w(4), height: w(3) });
    assert_eq!(
        layout.table,
        vec![
            (d, rect(w(0), w(0), w(2), w(3))),
            (a, rect(w(2), w(0), w(2), w(1))),
            (b, rect(w(2), w(1), w(1), w(2))),
            (c, rect(w(3), w(1), w(1), w(2))),
        ]
    );
}

#[test]
fn layout_is_repeatable() {
    let mut g = GridLay::new();
    let (_, _, _, p) = abc(&mut g);
    let d = g.new_leaf(Props::sized(w(1), w(2)));
    let root = g.new_node(rows(&g, &[&[d, p]])).unwrap();
    let first = g.compute_layout(root).unwrap();
    let second = g.compute_layout(root).unwrap();
    assert_eq!(first.size, second.size);
    assert_eq!(first.table, second.table);
}

#[test]
fn leaf_without_height_fails() {
    let mut g = GridLay::new();
    let a = g.new_leaf(Props::sized(w(1), w(1)));
    let b = g.new_leaf(Props { width: Some(w(1)), height: None });
    let p = g.new_node(rows(&g, &[&[a, b]])).unwrap();
    assert_eq!(g.compute_layout(p).unwrap_err(), Error::UndefinedLeafSize { node: 1 });
}

#[test]
fn leaf_with_zero_denominator_fails() {
    let mut g = GridLay::new();
    let a = g.new_leaf(Props::sized(w(1), r(1, 0)));
    assert_eq!(g.compute_layout(a).unwrap_err(), Error::UndefinedLeafSize { node: 0 });
}

#[test]
fn disjoint_label_is_invalid_shape() {
    let mut g = GridLay::new();
    let a = g.new_leaf(Props::sized(w(1), w(1)));
    let b = g.new_leaf(Props::sized(w(1), w(1)));
    let p = g.new_node(rows(&g, &[&[a, b, a]])).unwrap();
    assert_eq!(
        g.compute_layout(p).unwrap_err(),
        Error::InvalidShape { node: 2, x: 2, y: 0, expected: 0, found: 0 }
    );
}

#[test]
fn l_shaped_label_is_invalid_shape() {
    let mut g = GridLay::new();
    let a = g.new_leaf(Props::sized(w(1), w(1)));
    let b = g.new_leaf(Props::sized(w(1), w(1)));
    let p = g.new_node(rows(&g, &[&[a, a], &[a, b]])).unwrap();
    assert_eq!(
        g.compute_layout(p).unwrap_err(),
        Error::InvalidShape { node: 2, x: 1, y: 1, expected: 0, found: 1 }
    );
}

#[test]
fn rightmost_run_does_not_wrap_into_next_row() {
    let mut g = GridLay::new();
    let a = g.new_leaf(Props::sized(w(1), w(1)));
    let b = g.new_leaf(Props::sized(w(1), w(1)));
    let p = g.new_node(rows(&g, &[&[b, a], &[a, b]])).unwrap();
    assert!(matches!(g.compute_layout(p), Err(Error::InvalidShape { node: 2, .. })));
}

#[test]
fn unbalanced_rows_are_refused() {
    let mut g = GridLay::new();
    let a = g.new_leaf(Props::sized(w(1), w(1)));
    let mut lines = Lines::new();
    lines.add(&g, a).unwrap();
    lines.add(&g, a).unwrap();
    lines.end().unwrap();
    lines.add(&g, a).unwrap();
    assert_eq!(lines.end(), Err(Error::UnbalancedLine { line: 1, expected: 2, got: 1 }));
    assert_eq!(
        g.new_node(lines).unwrap_err(),
        Error::UnbalancedLine { line: 1, expected: 2, got: 1 }
    );
}

#[test]
fn empty_template_is_refused() {
    let mut g = GridLay::new();
    let mut lines = Lines::new();
    assert_eq!(lines.end(), Err(Error::EmptyTemplate));
    assert_eq!(g.new_node(lines).unwrap_err(), Error::EmptyTemplate);
}

#[test]
fn handles_do_not_survive_clear() {
    let mut g = GridLay::new();
    let a = g.new_leaf(Props::sized(w(1), w(1)));
    g.clear();
    assert_eq!(g.compute_layout(a).unwrap_err(), Error::UnknownNode);
    let mut lines = Lines::new();
    assert_eq!(lines.add(&g, a), Err(Error::UnknownNode));
    assert!(lines.cells.is_empty());
    assert_eq!(g.new_node(lines).unwrap_err(), Error::EmptyTemplate);
}

#[test]
fn handles_of_another_instance_are_unknown() {
    let mut g = GridLay::with_instance(1, 4);
    let mut h = GridLay::with_instance(2, 4);
    let a = g.new_leaf(Props::sized(w(1), w(1)));
    h.new_leaf(Props::sized(w(1), w(1)));
    assert_eq!(h.compute_layout(a).unwrap_err(), Error::UnknownNode);
}

#[test]
fn fractional_sizes_stay_exact() {
    let mut g = GridLay::new();
    let a = g.new_leaf(Props::sized(w(1), w(1)));
    let b = g.new_leaf(Props::sized(w(2), w(1)));
    let c = g.new_leaf(Props::sized(w(1), w(1)));
    let p = g.new_node(rows(&g, &[&[a, b, c]])).unwrap();
    let layout = g.compute_layout(p).unwrap();
    assert_eq!(layout.size, Size { width: w(6), height: w(1) });
    assert_eq!(layout.table[1], (b, rect(w(2), w(0), w(2), w(1))));
}

#[test]
fn default_tree_is_empty_and_usable() {
    let mut g = GridLay::default();
    let a = g.new_leaf(Props::sized(w(3), w(2)));
    let layout = g.compute_layout(a).unwrap();
    assert_eq!(layout.size, Size { width: w(3), height: w(2) });
}

#[test]
fn handles_stay_valid_after_new_node() {
    let mut g = GridLay::new();
    let a = g.new_leaf(Props::sized(w(1), w(1)));
    let l = rows(&g, &[&[a]]);
    g.new_node(l).unwrap();
    let mut again = Lines::new();
    assert_eq!(again.add(&g, a), Ok(()));
    assert_eq!(g.compute_layout(a).unwrap().size, Size { width: w(1), height: w(1) });
}
