//! The node arena and the recursive layout compositor.
use vstd::prelude::*;
use crate::error::Error;
use crate::geo::{
    composed, defined, ratio_div, ratio_max, relativised, scaled, GridRect, Point, Props, Ratio, Rect,
    Size,
};
use crate::template::{lemma_index, lemma_split_label_invalid, Template};

verus! {

/// A node: a leaf with its own size, or a parent laid out by a template
/// over its children's ids.
#[derive(Clone, Debug)]
pub enum Data {
    Leaf { props: Props },
    Parent { template: Template },
}

/// The arena of nodes, indexed by node id. `children[i]` lists the distinct
/// children of node `i` in increasing order.
pub struct Forest {
    pub nodes: Vec<Data>,
    pub children: Vec<Vec<usize>>,
}

/// A leaf id with its rectangle.
pub type Entry = (usize, Rect);

pub open spec fn zero() -> Ratio {
    Ratio { num: 0, den: 1 }
}

/// Node `i` is a parent whose template is well formed and names only nodes
/// created before it.
pub open spec fn node_wf(d: Data, i: int) -> bool {
    d matches Data::Parent { template } ==> {
        &&& template.wf()
        &&& forall|j: int| 0 <= j < template.cells@.len() ==> (#[trigger] template.cells@[j]) < i
    }
}

/// `c` lists the distinct children of `d` in increasing order: none for a
/// leaf, the labels of its template for a parent.
pub open spec fn children_ok(d: Data, c: Seq<usize>) -> bool {
    match d {
        Data::Leaf { .. } => c.len() == 0,
        Data::Parent { template } => {
            &&& forall|i: int, j: int| 0 <= i < j < c.len() ==> c[i] < c[j]
            &&& forall|x: usize| c.contains(x) <==> template.cells@.contains(x)
        },
    }
}

/// Each entry of `s` re-expressed in the frame in which its box is `outer`.
pub open spec fn composed_all(outer: Rect, s: Seq<Entry>) -> Option<Seq<Entry>>
    decreases s.len(),
{
    if s.len() == 0 {
        Some(Seq::empty())
    } else {
        match (composed_all(outer, s.drop_last()), composed(outer, s.last().1)) {
            (Some(p), Some(r)) => Some(p.push((s.last().0, r))),
            _ => None,
        }
    }
}

/// Each entry of `s` scaled by `size`.
pub open spec fn scaled_all(s: Seq<Entry>, size: Size) -> Option<Seq<Entry>>
    decreases s.len(),
{
    if s.len() == 0 {
        Some(Seq::empty())
    } else {
        match (scaled_all(s.drop_last(), size), scaled(s.last().1, size)) {
            (Some(p), Some(r)) => Some(p.push((s.last().0, r))),
            _ => None,
        }
    }
}

/// The entries that child `c`, placed at `rel` in its parent, contributes
/// to its parent's table: itself where it is a leaf, else its own leaves.
pub open spec fn placed(rel: Rect, c: usize, sub: Seq<Entry>) -> Option<Seq<Entry>> {
    if sub.len() == 0 {
        Some(seq![(c, rel)])
    } else {
        composed_all(rel, sub)
    }
}

/// The parent's size and table after one more child: `cell` is the child's
/// rectangle in the template `t`, `child` what the child computed.
#[verifier::opaque]
pub open spec fn merged(
    acc: (Size, Seq<Entry>),
    c: usize,
    cell: GridRect,
    t: Template,
    child: Result<(Size, Seq<Entry>), Error>,
) -> Result<(Size, Seq<Entry>), Error> {
    match child {
        Err(e) => Err(e),
        Ok(sub) => match relativised(cell, t.width as nat, t.height as nat) {
            None => Err(Error::Overflow),
            Some(rel) => match (
                ratio_div(sub.0.width, rel.size.width),
                ratio_div(sub.0.height, rel.size.height),
                placed(rel, c, sub.1),
            ) {
                (Some(w), Some(h), Some(entries)) => Ok(
                    (
                        Size { width: ratio_max(acc.0.width, w), height: ratio_max(acc.0.height, h) },
                        acc.1 + entries,
                    ),
                ),
                _ => Err(Error::Overflow),
            },
        },
    }
}

/// A node's intrinsic size and the rectangles of its leaf descendants as
/// fractions of its own box (empty for a leaf).
pub open spec fn node_result(nodes: Seq<Data>, id: nat) -> Result<(Size, Seq<Entry>), Error>
    decreases id, 1nat, 0nat,
{
    if id >= nodes.len() {
        Err(Error::NodeNotFound { node: id as usize })
    } else {
        match nodes[id as int] {
            Data::Leaf { props } => if defined(props.width) && defined(props.height) {
                Ok(
                    (
                        Size { width: props.width->Some_0, height: props.height->Some_0 },
                        Seq::empty(),
                    ),
                )
            } else {
                Err(Error::UndefinedLeafSize { node: id as usize })
            },
            Data::Parent { template } => if template.shape_ok() {
                children_result(nodes, id, template, template.decomposition().len())
            } else {
                Err(
                    Error::InvalidShape {
                        node: id as usize,
                        x: template.scan_error().x,
                        y: template.scan_error().y,
                        expected: template.scan_error().expected,
                        found: template.scan_error().found,
                    },
                )
            },
        }
    }
}

/// The parent `id`'s size and table after its first `k` children, in the
/// order of its template's decomposition.
pub open spec fn children_result(nodes: Seq<Data>, id: nat, t: Template, k: nat) -> Result<
    (Size, Seq<Entry>),
    Error,
>
    decreases id, 0nat, k,
{
    if k == 0 {
        Ok((Size { width: zero(), height: zero() }, Seq::empty()))
    } else {
        match children_result(nodes, id, t, (k - 1) as nat) {
            Err(e) => Err(e),
            Ok(acc) => {
                let entry = t.decomposition()[k - 1];
                if (entry.0 as nat) < id {
                    merged(acc, entry.0, entry.1, t, node_result(nodes, entry.0 as nat))
                } else {
                    Err(Error::NodeNotFound { node: entry.0 })
                }
            },
        }
    }
}

/// The layout of the tree under `root`: its size, and each leaf's rectangle
/// in absolute units.
pub open spec fn layout_result(nodes: Seq<Data>, root: nat) -> Result<(Size, Seq<Entry>), Error> {
    match node_result(nodes, root) {
        Err(e) => Err(e),
        Ok(res) => if nodes[root as int] is Leaf {
            Ok((res.0, seq![(root as usize, Rect { origin: Point { x: zero(), y: zero() }, size: res.0 })]))
        } else {
            match scaled_all(res.1, res.0) {
                Some(t) => Ok((res.0, t)),
                None => Err(Error::Overflow),
            }
        },
    }
}

/// What a shape error reports holds of the node it names: `(x, y)` is a
/// cell of its grid labelled `found`, and `expected` does not form one
/// rectangle there.
pub open spec fn describes_defect(nodes: Seq<Data>, e: Error) -> bool {
    e matches Error::InvalidShape { node, x, y, expected, found } ==> {
        &&& node < nodes.len()
        &&& nodes[node as int] matches Data::Parent { template }
        &&& template.in_grid(x as int, y as int)
        &&& template.at(x as int, y as int) == found
        &&& !template.label_ok(expected)
    }
}

/// The value of an executable result.
pub open spec fn outcome(r: Result<(Size, Vec<Entry>), Error>) -> Result<(Size, Seq<Entry>), Error> {
    match r {
        Ok(v) => Ok((v.0, v.1@)),
        Err(e) => Err(e),
    }
}

proof fn lemma_composed_none(outer: Rect, s: Seq<Entry>, j: int)
    requires
        0 <= j <= s.len(),
        composed_all(outer, s.subrange(0, j)) is None,
    ensures
        composed_all(outer, s) is None,
    decreases s.len() - j,
{
    if j == s.len() {
        assert(s.subrange(0, j) =~= s);
    } else {
        assert(s.subrange(0, j + 1).drop_last() =~= s.subrange(0, j));
        lemma_composed_none(outer, s, j + 1);
    }
}

proof fn lemma_scaled_none(s: Seq<Entry>, size: Size, j: int)
    requires
        0 <= j <= s.len(),
        scaled_all(s.subrange(0, j), size) is None,
    ensures
        scaled_all(s, size) is None,
    decreases s.len() - j,
{
    if j == s.len() {
        assert(s.subrange(0, j) =~= s);
    } else {
        assert(s.subrange(0, j + 1).drop_last() =~= s.subrange(0, j));
        lemma_scaled_none(s, size, j + 1);
    }
}

proof fn lemma_error_sticks(nodes: Seq<Data>, id: nat, t: Template, k: nat, k2: nat)
    requires
        k <= k2,
        children_result(nodes, id, t, k) is Err,
    ensures
        children_result(nodes, id, t, k2) == children_result(nodes, id, t, k),
    decreases k2 - k,
{
    if k < k2 {
        lemma_error_sticks(nodes, id, t, k, (k2 - 1) as nat);
    }
}

proof fn lemma_merged_err(
    acc: (Size, Seq<Entry>),
    c: usize,
    cell: GridRect,
    t: Template,
    child: Result<(Size, Seq<Entry>), Error>,
)
    requires
        child is Err,
    ensures
        merged(acc, c, cell, t, child) == child,
{
    reveal(merged);
}

proof fn lemma_children_step(nodes: Seq<Data>, id: nat, t: Template, k: nat, acc: (Size, Seq<Entry>))
    requires
        children_result(nodes, id, t, k) == Ok::<(Size, Seq<Entry>), Error>(acc),
        (t.decomposition()[k as int].0 as nat) < id,
    ensures
        children_result(nodes, id, t, k + 1) == merged(
            acc,
            t.decomposition()[k as int].0,
            t.decomposition()[k as int].1,
            t,
            node_result(nodes, t.decomposition()[k as int].0 as nat),
        ),
{
}

proof fn lemma_parent_result(nodes: Seq<Data>, id: nat, t: Template)
    requires
        id < nodes.len(),
        nodes[id as int] == (Data::Parent { template: t }),
    ensures
        t.shape_ok() ==> node_result(nodes, id) == children_result(nodes, id, t, t.decomposition().len()),
        !t.shape_ok() ==> node_result(nodes, id) == Err::<(Size, Seq<Entry>), Error>(
            Error::InvalidShape {
                node: id as usize,
                x: t.scan_error().x,
                y: t.scan_error().y,
                expected: t.scan_error().expected,
                found: t.scan_error().found,
            },
        ),
{
}

proof fn lemma_children_start(nodes: Seq<Data>, id: nat, t: Template)
    ensures
        children_result(nodes, id, t, 0) == Ok::<(Size, Seq<Entry>), Error>(
            (Size { width: zero(), height: zero() }, Seq::empty()),
        ),
{
}

proof fn lemma_leaf_result(nodes: Seq<Data>, id: nat)
    ensures
        id >= nodes.len() ==> node_result(nodes, id) == Err::<(Size, Seq<Entry>), Error>(
            Error::NodeNotFound { node: id as usize },
        ),
        id < nodes.len() ==> (nodes[id as int] matches Data::Leaf { props } ==> node_result(nodes, id) == if defined(props.width) && defined(props.height) {
            Ok((Size { width: props.width->Some_0, height: props.height->Some_0 }, Seq::<Entry>::empty()))
        } else {
            Err(Error::UndefinedLeafSize { node: id as usize })
        }),
{
}

proof fn lemma_children_below(t: Template, rects: Seq<(usize, GridRect)>, id: int)
    requires
        t.wf(),
        forall|j: int| 0 <= j < t.cells@.len() ==> (#[trigger] t.cells@[j]) < id,
        forall|j: int| 0 <= j < rects.len() ==> t.labels_corner(#[trigger] rects[j]),
    ensures
        forall|j: int| 0 <= j < rects.len() ==> (#[trigger] rects[j]).0 < id,
{
    assert forall|j: int| 0 <= j < rects.len() implies (#[trigger] rects[j]).0 < id by {
        let cell = rects[j].1;
        assert(t.labels_corner(rects[j]));
        lemma_index(t.width as int, t.height as int, cell.x as int, cell.y as int);
        assert(t.cells@[cell.y * t.width + cell.x] < id);
    }
}

/// Appends to `table` each entry of `sub` re-expressed in the frame in which
/// its box is `outer`.
fn compose_into(outer: Rect, sub: &Vec<Entry>, table: &mut Vec<Entry>) -> (ok: bool)
    ensures
        ok ==> (composed_all(outer, sub@) matches Some(p) && final(table)@ == old(table)@ + p),
        !ok ==> composed_all(outer, sub@) is None,
{
    let ghost base = table@;
    let mut j: usize = 0;
    while j < sub.len()
        invariant
            j <= sub@.len(),
            table@.len() >= base.len(),
            table@.subrange(0, base.len() as int) == base,
            composed_all(outer, sub@.subrange(0, j as int)) == Some(
                table@.subrange(base.len() as int, table@.len() as int),
            ),
        decreases sub@.len() - j,
    {
        proof {
            assert(sub@.subrange(0, j + 1).drop_last() =~= sub@.subrange(0, j as int));
        }
        match outer.compose(sub[j].1) {
            Some(r) => {
                let ghost prev = table@;
                table.push((sub[j].0, r));
                proof {
                    assert(table@.subrange(0, base.len() as int) =~= prev.subrange(0, base.len() as int));
                    assert(table@.subrange(base.len() as int, table@.len() as int) =~= prev.subrange(
                        base.len() as int,
                        prev.len() as int,
                    ).push((sub@[j as int].0, r)));
                }
            },
            None => {
                proof {
                    lemma_composed_none(outer, sub@, j + 1);
                }
                return false;
            },
        }
        j += 1;
    }
    proof {
        assert(sub@.subrange(0, sub@.len() as int) =~= sub@);
        assert(table@ =~= base + table@.subrange(base.len() as int, table@.len() as int));
    }
    true
}

/// Each entry of `table` scaled by `size`.
fn scale_all(table: &Vec<Entry>, size: Size) -> (r: Option<Vec<Entry>>)
    ensures
        r matches Some(v) ==> scaled_all(table@, size) == Some(v@),
        r is None ==> scaled_all(table@, size) is None,
{
    let mut out: Vec<Entry> = Vec::new();
    let mut j: usize = 0;
    while j < table.len()
        invariant
            j <= table@.len(),
            scaled_all(table@.subrange(0, j as int), size) == Some(out@),
        decreases table@.len() - j,
    {
        proof {
            assert(table@.subrange(0, j + 1).drop_last() =~= table@.subrange(0, j as int));
        }
        match table[j].1.scale(size) {
            Some(r) => {
                out.push((table[j].0, r));
            },
            None => {
                proof {
                    lemma_scaled_none(table@, size, j + 1);
                }
                return None;
            },
        }
        j += 1;
    }
    proof {
        assert(table@.subrange(0, table@.len() as int) =~= table@);
    }
    Some(out)
}

/// Adds child `c`, whose cell rectangle in `t` is `cell` and which computed
/// `sub`, to the parent's running size and table.
fn merge_child(
    size: Size,
    table: &mut Vec<Entry>,
    c: usize,
    cell: GridRect,
    t: &Template,
    sub: &(Size, Vec<Entry>),
) -> (r: Option<Size>)
    ensures
        match merged((size, old(table)@), c, cell, *t, Ok((sub.0, sub.1@))) {
            Ok(v) => r == Some(v.0) && final(table)@ == v.1,
            Err(e) => r is None && e == Error::Overflow,
        },
{
    proof {
        reveal(merged);
    }
    let rel = match cell.relativise(t.width, t.height) {
        Some(r) => r,
        None => {
            return None;
        },
    };
    let w = sub.0.width.div(rel.size.width);
    let h = sub.0.height.div(rel.size.height);
    let (w, h) = match (w, h) {
        (Some(w), Some(h)) => (w, h),
        _ => {
            return None;
        },
    };
    let ghost before = table@;
    if sub.1.len() == 0 {
        table.push((c, rel));
        proof {
            assert(table@ =~= before + seq![(c, rel)]);
        }
    } else {
        if !compose_into(rel, &sub.1, table) {
            return None;
        }
    }
    Some(Size { width: size.width.max(w), height: size.height.max(h) })
}

impl Forest {
    /// Every parent's template is well formed and names only earlier nodes,
    /// and there is one children list per node.
    pub open spec fn wf(&self) -> bool {
        &&& self.children@.len() == self.nodes@.len()
        &&& forall|i: int| 0 <= i < self.nodes@.len() ==> node_wf(#[trigger] self.nodes@[i], i)
        &&& forall|i: int|
            0 <= i < self.nodes@.len() ==> children_ok(self.nodes@[i], (#[trigger] self.children@[i])@)
    }

    /// The intrinsic size of node `id` and the rectangles of its leaves as
    /// fractions of its box; the table is empty exactly for a leaf.
    pub fn compute(&self, id: usize) -> (r: Result<(Size, Vec<Entry>), Error>)
        requires
            self.wf(),
        ensures
            outcome(r) == node_result(self.nodes@, id as nat),
            r matches Err(e) ==> describes_defect(self.nodes@, e),
        decreases id, 1nat,
    {
        proof {
            lemma_leaf_result(self.nodes@, id as nat);
        }
        if id >= self.nodes.len() {
            return Err(Error::NodeNotFound { node: id });
        }
        match &self.nodes[id] {
            Data::Leaf { props } => match (props.width, props.height) {
                (Some(w), Some(h)) => {
                    if w.den > 0 && h.den > 0 {
                        Ok((Size { width: w, height: h }, Vec::new()))
                    } else {
                        Err(Error::UndefinedLeafSize { node: id })
                    }
                },
                _ => Err(Error::UndefinedLeafSize { node: id }),
            },
            Data::Parent { template } => self.compute_children(id, template),
        }
    }

    /// The parent case of `compute`.
    fn compute_children(&self, id: usize, template: &Template) -> (r: Result<(Size, Vec<Entry>), Error>)
        requires
            self.wf(),
            id < self.nodes@.len(),
            self.nodes@[id as int] == (Data::Parent { template: *template }),
        ensures
            outcome(r) == node_result(self.nodes@, id as nat),
            r matches Err(e) ==> describes_defect(self.nodes@, e),
        decreases id, 0nat,
    {
        proof {
            assert(node_wf(self.nodes@[id as int], id as int));
            lemma_parent_result(self.nodes@, id as nat, *template);
        }
        let rects = match template.decompose() {
            Ok(v) => v,
            Err(e) => {
                return Err(
                    Error::InvalidShape {
                        node: id,
                        x: e.x,
                        y: e.y,
                        expected: e.expected,
                        found: e.found,
                    },
                );
            },
        };
        let ghost nodes = self.nodes@;
        let ghost t = *template;
        proof {
            lemma_children_below(t, rects@, id as int);
            lemma_children_start(nodes, id as nat, t);
        }
        let mut size = Size { width: Ratio { num: 0, den: 1 }, height: Ratio { num: 0, den: 1 } };
        let mut table: Vec<Entry> = Vec::new();
        let mut k: usize = 0;
        while k < rects.len()
            invariant
                self.wf(),
                nodes == self.nodes@,
                id < nodes.len(),
                t == *template,
                node_result(nodes, id as nat) == children_result(nodes, id as nat, t, rects@.len()),
                rects@ == t.decomposition(),
                forall|j: int| 0 <= j < rects@.len() ==> (#[trigger] rects@[j]).0 < id,
                k <= rects@.len(),
                children_result(nodes, id as nat, t, k as nat) == Ok::<(Size, Seq<Entry>), Error>(
                    (size, table@),
                ),
            decreases rects@.len() - k,
        {
            let c = rects[k].0;
            let cell = rects[k].1;
            let ghost acc = (size, table@);
            proof {
                lemma_children_step(nodes, id as nat, t, k as nat, acc);
            }
            let sub = match self.compute(c) {
                Ok(s) => s,
                Err(e) => {
                    proof {
                        lemma_merged_err(acc, c, cell, t, node_result(nodes, c as nat));
                        lemma_error_sticks(nodes, id as nat, t, (k + 1) as nat, rects@.len());
                    }
                    return Err(e);
                },
            };
            match merge_child(size, &mut table, c, cell, template, &sub) {
                Some(s) => {
                    size = s;
                },
                None => {
                    proof {
                        lemma_error_sticks(nodes, id as nat, t, (k + 1) as nat, rects@.len());
                    }
                    return Err(Error::Overflow);
                },
            }
            k += 1;
        }
        Ok((size, table))
    }

    /// The layout of the tree under `root`: the root's intrinsic size and
    /// each leaf's rectangle in absolute units. A leaf root covers its own
    /// size from the origin.
    pub fn compute_layout(&self, root: usize) -> (r: Result<(Size, Vec<Entry>), Error>)
        requires
            self.wf(),
        ensures
            outcome(r) == layout_result(self.nodes@, root as nat),
            r matches Err(e) ==> describes_defect(self.nodes@, e),
    {
        let (size, table) = match self.compute(root) {
            Ok(v) => v,
            Err(e) => {
                return Err(e);
            },
        };
        match &self.nodes[root] {
            Data::Leaf { .. } => {
                let zero = Ratio { num: 0, den: 1 };
                let mut t: Vec<Entry> = Vec::new();
                t.push((root, Rect { origin: Point { x: zero, y: zero }, size }));
                proof {
                    assert(t@ =~= seq![(root, Rect { origin: Point { x: zero, y: zero }, size })]);
                }
                Ok((size, t))
            },
            Data::Parent { .. } => match scale_all(&table, size) {
                Some(t) => Ok((size, t)),
                None => Err(Error::Overflow),
            },
        }
    }

    /// An empty arena with room for `capacity` nodes.
    pub fn with_capacity(capacity: usize) -> (f: Forest)
        ensures
            f.wf(),
            f.nodes@.len() == 0,
    {
        Forest { nodes: Vec::with_capacity(capacity), children: Vec::with_capacity(capacity) }
    }

    /// Adds a leaf and returns its id.
    pub fn new_leaf(&mut self, props: Props) -> (id: usize)
        requires
            old(self).wf(),
        ensures
            final(self).wf(),
            id == old(self).nodes@.len(),
            final(self).nodes@ == old(self).nodes@.push(Data::Leaf { props }),
            final(self).children@.drop_last() == old(self).children@,
            final(self).children@.last()@.len() == 0,
    {
        let id = self.nodes.len();
        self.nodes.push(Data::Leaf { props });
        self.children.push(Vec::new());
        proof {
            assert forall|i: int| 0 <= i < self.nodes@.len() implies node_wf(#[trigger] self.nodes@[i], i) by {
                if i < id {
                    assert(self.nodes@[i] == old(self).nodes@[i]);
                }
            }
            assert forall|i: int| 0 <= i < self.nodes@.len() implies children_ok(
                self.nodes@[i],
                (#[trigger] self.children@[i])@,
            ) by {
                if i < id {
                    assert(self.nodes@[i] == old(self).nodes@[i]);
                    assert(self.children@[i] == old(self).children@[i]);
                }
            }
            assert(self.children@.drop_last() =~= old(self).children@);
        }
        id
    }

    /// Adds a parent laid out by `template` and returns its id; fails where
    /// the template is not well formed or names a node that does not exist.
    pub fn new_node(&mut self, template: Template) -> (r: Result<usize, Error>)
        requires
            old(self).wf(),
        ensures
            final(self).wf(),
            template.width == 0 || template.height == 0 ==> r == Err::<usize, Error>(Error::EmptyTemplate),
            template.width >= 1 && template.height >= 1 && template.cells@.len() != template.width
                * template.height ==> r == Err::<usize, Error>(
                Error::UnbalancedLine {
                    line: 0,
                    expected: template.width,
                    got: template.cells@.len() as usize,
                },
            ),
            template.wf() ==> ((exists|j: int|
                0 <= j < template.cells@.len() && #[trigger] template.cells@[j] >= old(self).nodes@.len())
                <==> r is Err),
            r matches Ok(id) ==> id == old(self).nodes@.len() && final(self).nodes@ == old(
                self,
            ).nodes@.push(Data::Parent { template }),
            r is Ok ==> final(self).children@.drop_last() == old(self).children@,
            r is Ok ==> children_ok(Data::Parent { template }, final(self).children@.last()@),
            r is Err ==> final(self).nodes@ == old(self).nodes@,
            r is Err ==> final(self).children@ == old(self).children@,
    {
        if template.width == 0 || template.height == 0 {
            return Err(Error::EmptyTemplate);
        }
        match template.width.checked_mul(template.height) {
            Some(n) => {
                if n != template.cells.len() {
                    return Err(
                        Error::UnbalancedLine {
                            line: 0,
                            expected: template.width,
                            got: template.cells.len(),
                        },
                    );
                }
            },
            None => {
                return Err(
                    Error::UnbalancedLine { line: 0, expected: template.width, got: template.cells.len() },
                );
            },
        }
        let id = self.nodes.len();
        let mut j: usize = 0;
        while j < template.cells.len()
            invariant
                self.wf(),
                self.nodes@ == old(self).nodes@,
                template.width >= 1,
                template.height >= 1,
                template.cells@.len() == template.width * template.height,
                id == self.nodes@.len(),
                j <= template.cells@.len(),
                forall|i: int| 0 <= i < j ==> (#[trigger] template.cells@[i]) < id,
            decreases template.cells@.len() - j,
        {
            if template.cells[j] >= id {
                return Err(Error::NodeNotFound { node: template.cells[j] });
            }
            j += 1;
        }
        let children = template.ids();
        let ghost t = template;
        self.nodes.push(Data::Parent { template });
        self.children.push(children);
        proof {
            assert(children_ok(Data::Parent { template: t }, children@));
            assert forall|i: int| 0 <= i < self.nodes@.len() implies node_wf(#[trigger] self.nodes@[i], i) by {
                if i < id {
                    assert(self.nodes@[i] == old(self).nodes@[i]);
                }
            }
            assert forall|i: int| 0 <= i < self.nodes@.len() implies children_ok(
                self.nodes@[i],
                (#[trigger] self.children@[i])@,
            ) by {
                if i < id {
                    assert(self.nodes@[i] == old(self).nodes@[i]);
                    assert(self.children@[i] == old(self).children@[i]);
                }
            }
            assert(self.children@.drop_last() =~= old(self).children@);
        }
        Ok(id)
    }

    /// Removes every node.
    pub fn clear(&mut self)
        ensures
            final(self).wf(),
            final(self).nodes@.len() == 0,
    {
        self.nodes.clear();
        self.children.clear();
    }

    /// The number of nodes.
    pub fn len(&self) -> (n: usize)
        ensures
            n == self.nodes@.len(),
    {
        self.nodes.len()
    }
}


/// A lone leaf of defined size lays out as itself: the layout's size is
/// the leaf's, and its one entry covers that size from the origin.
pub proof fn lemma_leaf_layout(nodes: Seq<Data>, root: nat)
    requires
        root < nodes.len(),
        nodes[root as int] matches Data::Leaf { props } && defined(props.width) && defined(props.height),
    ensures
        ({
            let props = nodes[root as int]->Leaf_props;
            let size = Size { width: props.width->Some_0, height: props.height->Some_0 };
            layout_result(nodes, root) == Ok::<(Size, Seq<Entry>), Error>(
                (size, seq![(root as usize, Rect { origin: Point { x: zero(), y: zero() }, size })]),
            )
        }),
{
}

/// Two runs of the layout on the same nodes give the same result: the same
/// size and table, or the same error.
pub proof fn lemma_layout_repeatable(
    nodes: Seq<Data>,
    root: nat,
    r1: Result<(Size, Seq<Entry>), Error>,
    r2: Result<(Size, Seq<Entry>), Error>,
)
    requires
        r1 == layout_result(nodes, root),
        r2 == layout_result(nodes, root),
    ensures
        r1 == r2,
{
}

/// A parent one of whose children fails fails too, with that child's error
/// where every child before it in the decomposition succeeded; applied
/// level by level, a failing node anywhere below makes the whole layout
/// fail. No table comes out of a failure.
pub proof fn lemma_child_error_fails(nodes: Seq<Data>, id: nat, k: nat)
    requires
        id < nodes.len(),
        nodes[id as int] matches Data::Parent { template } && template.shape_ok() && k
            < template.decomposition().len() && (template.decomposition()[k as int].0 as nat) < id,
        node_result(nodes, nodes[id as int]->Parent_template.decomposition()[k as int].0 as nat) is Err,
    ensures
        node_result(nodes, id) is Err,
        layout_result(nodes, id) is Err,
        ({
            let t = nodes[id as int]->Parent_template;
            children_result(nodes, id, t, k) is Ok ==> node_result(nodes, id) == node_result(
                nodes,
                t.decomposition()[k as int].0 as nat,
            )
        }),
{
    let t = nodes[id as int]->Parent_template;
    let c = t.decomposition()[k as int].0;
    match children_result(nodes, id, t, k) {
        Ok(acc) => {
            lemma_children_step(nodes, id, t, k, acc);
            lemma_merged_err(acc, c, t.decomposition()[k as int].1, t, node_result(nodes, c as nat));
        },
        Err(_) => {
            lemma_error_sticks(nodes, id, t, k, k + 1);
        },
    }
    lemma_error_sticks(nodes, id, t, k + 1, t.decomposition().len());
    lemma_parent_result(nodes, id, t);
}

/// A parent one of whose children is a leaf without a defined size fails,
/// and with that leaf's `UndefinedLeafSize` where every child before it in
/// the decomposition succeeded.
pub proof fn lemma_undefined_leaf_fails(nodes: Seq<Data>, id: nat, k: nat)
    requires
        id < nodes.len(),
        nodes[id as int] matches Data::Parent { template } && template.shape_ok() && k
            < template.decomposition().len() && (template.decomposition()[k as int].0 as nat) < id,
        ({
            let c = nodes[id as int]->Parent_template.decomposition()[k as int].0;
            nodes[c as int] matches Data::Leaf { props } && !(defined(props.width) && defined(
                props.height,
            ))
        }),
    ensures
        node_result(nodes, id) is Err,
        layout_result(nodes, id) is Err,
        ({
            let t = nodes[id as int]->Parent_template;
            children_result(nodes, id, t, k) is Ok ==> node_result(nodes, id) == Err::<
                (Size, Seq<Entry>),
                Error,
            >(Error::UndefinedLeafSize { node: t.decomposition()[k as int].0 })
        }),
{
    let t = nodes[id as int]->Parent_template;
    let c = t.decomposition()[k as int].0;
    lemma_leaf_result(nodes, c as nat);
    lemma_child_error_fails(nodes, id, k);
}

/// A parent whose template has a label in two separate patches, or in an L
/// (two cells of one label with a cell of another in the box they span),
/// fails with a shape error on that parent, and so does its layout.
pub proof fn lemma_split_label_fails(
    nodes: Seq<Data>,
    id: nat,
    x1: int,
    y1: int,
    x2: int,
    y2: int,
    x: int,
    y: int,
)
    requires
        id < nodes.len(),
        nodes[id as int] matches Data::Parent { template } && {
            &&& template.wf()
            &&& template.in_grid(x1, y1)
            &&& template.in_grid(x2, y2)
            &&& template.at(x1, y1) == template.at(x2, y2)
            &&& (x1 <= x <= x2 || x2 <= x <= x1)
            &&& (y1 <= y <= y2 || y2 <= y <= y1)
            &&& template.at(x, y) != template.at(x1, y1)
        },
    ensures
        node_result(nodes, id) matches Err(Error::InvalidShape { node, .. }) && node == id as usize,
        layout_result(nodes, id) matches Err(Error::InvalidShape { node, .. }) && node == id as usize,
{
    let t = nodes[id as int]->Parent_template;
    lemma_split_label_invalid(t, x1, y1, x2, y2, x, y);
    lemma_parent_result(nodes, id, t);
}


/// Placing one more child extends the parent's table by that child alone
/// at its cell's fraction where the child is a leaf, and otherwise by the
/// child's own leaves scaled by the fraction its cell occupies and offset
/// by that cell's position; the entries before stay as they were.
pub proof fn lemma_child_placement(nodes: Seq<Data>, id: nat, k: nat)
    requires
        id < nodes.len(),
        nodes[id as int] matches Data::Parent { template } && k < template.decomposition().len() && (
        template.decomposition()[k as int].0 as nat) < id,
        ({
            let t = nodes[id as int]->Parent_template;
            &&& children_result(nodes, id, t, k) is Ok
            &&& node_result(nodes, t.decomposition()[k as int].0 as nat) is Ok
            &&& children_result(nodes, id, t, k + 1) is Ok
        }),
    ensures
        ({
            let t = nodes[id as int]->Parent_template;
            let c = t.decomposition()[k as int].0;
            let rel = relativised(t.decomposition()[k as int].1, t.width as nat, t.height as nat)->Some_0;
            let sub = node_result(nodes, c as nat)->Ok_0.1;
            let before = children_result(nodes, id, t, k)->Ok_0.1;
            let after = children_result(nodes, id, t, k + 1)->Ok_0.1;
            &&& relativised(t.decomposition()[k as int].1, t.width as nat, t.height as nat) is Some
            &&& sub.len() == 0 ==> after == before.push((c, rel))
            &&& sub.len() > 0 ==> composed_all(rel, sub) is Some && after == before + composed_all(
                rel,
                sub,
            )->Some_0
        }),
{
    let t = nodes[id as int]->Parent_template;
    let acc = children_result(nodes, id, t, k)->Ok_0;
    lemma_children_step(nodes, id, t, k, acc);
    reveal(merged);
    let c = t.decomposition()[k as int].0;
    let sub = node_result(nodes, c as nat)->Ok_0.1;
    if sub.len() == 0 {
        let rel = relativised(t.decomposition()[k as int].1, t.width as nat, t.height as nat)->Some_0;
        assert(acc.1 + seq![(c, rel)] =~= acc.1.push((c, rel)));
    }
}

} // verus!
