use gridlay::forest::Forest;
use gridlay::printer::print_layout;
use gridlay::template::ShapeError;
use gridlay::{Error, GridLay, GridRect, Lines, Point, Props, Ratio, Rect, Size, Template};

fn r(num: u64, den: u64) -> Ratio {
    Ratio::new(num, den)
}

fn gr(x: usize, y: usize, width: usize, height: usize) -> GridRect {
    GridRect { x, y, width, height }
}

fn rect(x: Ratio, y: Ratio, width: Ratio, height: Ratio) -> Rect {
    Rect { origin: Point { x, y }, size: Size { width, height } }
}

#[test]
fn decompose_gives_one_rectangle_per_label() {
    let t = Template { width: 2, height: 3, cells: vec![0, 0, 1, 2, 1, 2] };
    assert_eq!(t.decompose(), Ok(vec![(0, gr(0, 0, 2, 1)), (1, gr(0, 1, 1, 2)), (2, gr(1, 1, 1, 2))]));
}

#[test]
fn decomposition_tiles_the_grid() {
    let t = Template { width: 4, height: 3, cells: vec![5, 5, 6, 7, 5, 5, 6, 7, 8, 8, 8, 7] };
    let rects = t.decompose().unwrap();
    assert_eq!(rects.len(), 4);
    for y in 0..3 {
        for x in 0..4 {
            let hits: Vec<_> = rects
                .iter()
                .filter(|(_, g)| g.x <= x && x < g.x + g.width && g.y <= y && y < g.y + g.height)
                .collect();
            assert_eq!(hits.len(), 1);
            assert_eq!(hits[0].0, t.cells[y * 4 + x]);
        }
    }
}

#[test]
fn decompose_reports_the_breaking_cell() {
    let t = Template { width: 2, height: 2, cells: vec![0, 0, 0, 1] };
    assert_eq!(t.decompose(), Err(ShapeError { x: 1, y: 1, expected: 0, found: 1 }));
    let t = Template { width: 3, height: 1, cells: vec![0, 1, 0] };
    assert_eq!(t.decompose(), Err(ShapeError { x: 2, y: 0, expected: 0, found: 0 }));
}

#[test]
fn ids_are_sorted_and_distinct() {
    let t = Template { width: 2, height: 2, cells: vec![3, 1, 3, 2] };
    assert_eq!(t.ids(), vec![1, 2, 3]);
}

#[test]
fn ratio_operations_reduce() {
    assert_eq!(r(1, 2).mul(r(2, 3)), Some(r(1, 3)));
    assert_eq!(r(1, 2).add(r(1, 3)), Some(r(5, 6)));
    assert_eq!(r(1, 2).div(r(1, 4)), Some(r(2, 1)));
    assert_eq!(r(0, 5).add(r(0, 7)), Some(r(0, 1)));
    assert_eq!(r(1, 2).div(r(0, 1)), None);
    assert_eq!(r(u64::MAX, 1).mul(r(2, 1)), None);
    assert_eq!(r(2, 3).max(r(3, 4)), r(3, 4));
    assert!(r(2, 4).le(r(1, 2)));
}

#[test]
fn relativise_divides_by_the_grid() {
    assert_eq!(gr(1, 2, 2, 1).relativise(4, 3), Some(rect(r(1, 4), r(2, 3), r(1, 2), r(1, 3))));
}

#[test]
fn compose_and_scale() {
    let outer = rect(r(1, 2), r(0, 1), r(1, 2), r(1, 1));
    let inner = rect(r(1, 2), r(1, 3), r(1, 2), r(2, 3));
    assert_eq!(outer.compose(inner), Some(rect(r(3, 4), r(1, 3), r(1, 4), r(2, 3))));
    let size = Size { width: r(4, 1), height: r(3, 1) };
    assert_eq!(
        rect(r(3, 4), r(1, 3), r(1, 4), r(2, 3)).scale(size),
        Some(rect(r(3, 1), r(1, 1), r(1, 1), r(2, 1)))
    );
}

#[test]
fn forest_rejects_missing_nodes() {
    let mut f = Forest::with_capacity(4);
    assert_eq!(f.compute_layout(3).unwrap_err(), Error::NodeNotFound { node: 3 });
    let a = f.new_leaf(Props::sized(r(1, 1), r(1, 1)));
    assert_eq!(a, 0);
    let bad = Template { width: 2, height: 1, cells: vec![0, 1] };
    assert_eq!(f.new_node(bad), Err(Error::NodeNotFound { node: 1 }));
    assert_eq!(f.len(), 1);
}

#[test]
fn forest_rejects_malformed_templates() {
    let mut f = Forest::with_capacity(4);
    f.new_leaf(Props::sized(r(1, 1), r(1, 1)));
    let empty = Template { width: 0, height: 1, cells: vec![] };
    assert_eq!(f.new_node(empty), Err(Error::EmptyTemplate));
    let short = Template { width: 2, height: 2, cells: vec![0, 0, 0] };
    assert_eq!(f.new_node(short), Err(Error::UnbalancedLine { line: 0, expected: 2, got: 3 }));
    let ok = Template { width: 1, height: 1, cells: vec![0] };
    assert_eq!(f.new_node(ok), Ok(1));
    assert_eq!(f.children[1], vec![0]);
    f.clear();
    assert_eq!(f.len(), 0);
}

#[test]
fn forest_compute_gives_fractions() {
    let mut f = Forest::with_capacity(4);
    let a = f.new_leaf(Props::sized(r(1, 1), r(1, 1)));
    let b = f.new_leaf(Props::sized(r(3, 1), r(1, 1)));
    let p = f.new_node(Template { width: 2, height: 1, cells: vec![a, b] }).unwrap();
    let (size, table) = f.compute(p).unwrap();
    assert_eq!(size, Size { width: r(6, 1), height: r(1, 1) });
    assert_eq!(
        table,
        vec![(a, rect(r(0, 1), r(0, 1), r(1, 2), r(1, 1))), (b, rect(r(1, 2), r(0, 1), r(1, 2), r(1, 1)))]
    );
    let (leaf_size, leaf_table) = f.compute(a).unwrap();
    assert_eq!(leaf_size, Size { width: r(1, 1), height: r(1, 1) });
    assert!(leaf_table.is_empty());
}

#[test]
fn huge_sizes_overflow() {
    let mut g = GridLay::new();
    let a = g.new_leaf(Props::sized(r(u64::MAX, 1), r(1, 1)));
    let b = g.new_leaf(Props::sized(r(1, 1), r(1, 1)));
    let mut lines = Lines::new();
    lines.add(&g, a).unwrap();
    lines.add(&g, b).unwrap();
    let p = g.new_node(lines).unwrap();
    assert_eq!(g.compute_layout(p).unwrap_err(), Error::Overflow);
}

#[test]
fn printed_layout_shows_names() {
    let mut g = GridLay::new();
    let a = g.new_leaf(Props::sized(Ratio::whole(2), Ratio::whole(1)));
    let b = g.new_leaf(Props::sized(Ratio::whole(1), Ratio::whole(2)));
    let c = g.new_leaf(Props::sized(Ratio::whole(1), Ratio::whole(2)));
    let mut lines = Lines::new();
    for row in [[a, a], [b, c], [b, c]] {
        for n in row {
            lines.add(&g, n).unwrap();
        }
        lines.end().unwrap();
    }
    let p = g.new_node(lines).unwrap();
    let layout = g.compute_layout(p).unwrap();
    let names = vec![(a, "a"), (b, "b"), (c, "c")];
    assert_eq!(
        print_layout(&layout, &names),
        "a      a      \nb      c      \nb      c      \n"
    );
}

#[test]
fn printed_layout_marks_unnamed_and_unset_cells() {
    let mut g = GridLay::new();
    let a = g.new_leaf(Props::sized(Ratio::whole(1), Ratio::whole(1)));
    let layout = gridlay::Layout {
        size: Size { width: Ratio::whole(2), height: Ratio::whole(1) },
        table: vec![(a, rect(r(0, 1), r(0, 1), r(1, 1), r(1, 1)))],
    };
    let names = vec![];
    assert_eq!(print_layout(&layout, &names), "<unknown> <unset>  \n");
}

#[test]
fn lines_resolve_to_node_ids() {
    let mut g = GridLay::new();
    let a = g.new_leaf(Props::sized(Ratio::whole(1), Ratio::whole(1)));
    let b = g.new_leaf(Props::sized(Ratio::whole(1), Ratio::whole(1)));
    let mut lines = Lines::new();
    lines.add(&g, b).unwrap();
    lines.add(&g, a).unwrap();
    lines.end().unwrap();
    lines.add(&g, b).unwrap();
    lines.add(&g, a).unwrap();
    let t = lines.into_template(&g).unwrap();
    assert_eq!((t.width, t.height), (2, 2));
    assert_eq!(t.cells, vec![1, 0, 1, 0]);
}
