//! Layout of a tree of boxes whose parents are described by label grids.
//!
//! Leaves carry their own size; a parent divides its box by a grid in which
//! every child's cells form one rectangle, and is sized so that each child
//! gets at least its own size. The layout gives every leaf a rectangle in
//! the root's coordinates, computed exactly over ratios.
pub mod error;
pub mod forest;
pub mod geo;
pub mod lines;
pub mod printer;
pub mod template;

pub use crate::error::Error;
pub use crate::geo::{GridRect, Point, Props, Ratio, Rect, Size};
pub use crate::lines::Lines;
pub use crate::template::Template;

use vstd::prelude::*;
use crate::forest::{describes_defect, layout_result, Data, Entry, Forest};

verus! {

/// A handle to a node of one `GridLay`. It stops naming anything once that
/// tree is cleared.
#[derive(Clone, Copy, Debug, PartialEq, Eq, Hash, Structural)]
pub struct Node {
    instance: u64,
    generation: u64,
    index: usize,
}

impl Node {
    /// The tree instance that gave out this handle.
    pub closed spec fn instance(self) -> u64 {
        self.instance
    }

    /// The number of clears its tree had seen when it gave out this handle
    /// (modulo 2^64).
    pub closed spec fn generation(self) -> u64 {
        self.generation
    }
}

/// A computed layout: the root's size and each leaf's rectangle in the
/// root's coordinates.
#[derive(Clone, Debug)]
pub struct Layout {
    pub size: Size,
    pub table: Vec<(Node, Rect)>,
}

/// The value of a layout result.
pub open spec fn layout_view(r: Result<Layout, Error>) -> Result<(Size, Seq<(Node, Rect)>), Error> {
    match r {
        Ok(l) => Ok((l.size, l.table@)),
        Err(e) => Err(e),
    }
}

/// A tree of boxes addressed through handles.
pub struct GridLay {
    id: u64,
    generation: u64,
    forest: Forest,
}

impl GridLay {
    pub closed spec fn wf(&self) -> bool {
        self.forest.wf()
    }

    /// The instance number its handles carry.
    pub closed spec fn instance(&self) -> u64 {
        self.id
    }

    /// The number of clears so far (modulo 2^64); its handles carry it.
    pub closed spec fn generation(&self) -> u64 {
        self.generation
    }

    /// A handle names a node only while its instance and generation are
    /// those of the tree.
    pub proof fn lemma_handle_fields(&self, n: Node)
        ensures
            self.index_of(n) is Some ==> n.instance() == self.instance() && n.generation()
                == self.generation(),
    {
    }

    /// The nodes, indexed by id.
    pub closed spec fn nodes(&self) -> Seq<Data> {
        self.forest.nodes@
    }

    /// The handle of node `index`.
    pub closed spec fn handle(&self, index: usize) -> Node {
        Node { instance: self.id, generation: self.generation, index }
    }

    /// The id of the node that `node` names, if any.
    pub closed spec fn index_of(&self, node: Node) -> Option<usize> {
        if node.instance == self.id && node.generation == self.generation && node.index
            < self.forest.nodes@.len() {
            Some(node.index)
        } else {
            None
        }
    }

    /// `r` with each node id replaced by its handle.
    pub open spec fn with_handles(&self, r: Result<(Size, Seq<Entry>), Error>) -> Result<
        (Size, Seq<(Node, Rect)>),
        Error,
    > {
        match r {
            Ok(v) => Ok((v.0, v.1.map_values(|e: Entry| (self.handle(e.0), e.1)))),
            Err(e) => Err(e),
        }
    }

    /// An empty tree of instance 0.
    pub fn new() -> (g: GridLay)
        ensures
            g.wf(),
            g.nodes().len() == 0,
            g.instance() == 0,
            g.generation() == 0,
    {
        GridLay::with_capacity(16)
    }

    /// An empty tree of instance 0 with room for `capacity` nodes. Trees
    /// of one instance accept each other's handles where the generation and
    /// index match: give each tree its own instance with `with_instance`.
    pub fn with_capacity(capacity: usize) -> (g: GridLay)
        ensures
            g.wf(),
            g.nodes().len() == 0,
            g.instance() == 0,
            g.generation() == 0,
    {
        GridLay::with_instance(0, capacity)
    }

    /// An empty tree whose handles carry `instance`, so that trees made
    /// with distinct instances never accept each other's handles.
    pub fn with_instance(instance: u64, capacity: usize) -> (g: GridLay)
        ensures
            g.wf(),
            g.nodes().len() == 0,
            g.instance() == instance,
            g.generation() == 0,
            forall|n: Node| n.instance() != instance ==> g.index_of(n) is None,
    {
        GridLay { id: instance, generation: 0, forest: Forest::with_capacity(capacity) }
    }

    /// Removes every node; handles given out before no longer name anything.
    pub fn clear(&mut self)
        requires
            old(self).wf(),
        ensures
            final(self).wf(),
            final(self).nodes().len() == 0,
            forall|n: Node| final(self).index_of(n) is None,
            final(self).instance() == old(self).instance(),
            final(self).generation() != old(self).generation(),
    {
        self.forest.clear();
        self.generation = self.generation.wrapping_add(1);
    }

    fn allocate_node(&self, index: usize) -> (n: Node)
        ensures
            n == self.handle(index),
    {
        Node { instance: self.id, generation: self.generation, index }
    }

    /// The id of the node that `node` names.
    pub(crate) fn find_node(&self, node: Node) -> (r: Result<usize, Error>)
        ensures
            match self.index_of(node) {
                Some(i) => r == Ok::<usize, Error>(i),
                None => r == Err::<usize, Error>(Error::UnknownNode),
            },
            r matches Ok(i) ==> i < self.nodes().len(),
    {
        if node.instance == self.id && node.generation == self.generation && node.index
            < self.forest.len() {
            Ok(node.index)
        } else {
            Err(Error::UnknownNode)
        }
    }

    /// Adds a leaf.
    pub fn new_leaf(&mut self, props: Props) -> (n: Node)
        requires
            old(self).wf(),
        ensures
            final(self).wf(),
            final(self).nodes() == old(self).nodes().push(Data::Leaf { props }),
            final(self).nodes().len() == old(self).nodes().len() + 1,
            final(self).nodes().len() <= usize::MAX,
            final(self).index_of(n) == Some(old(self).nodes().len() as usize),
            n.instance() == old(self).instance() && n.generation() == old(self).generation(),
            final(self).instance() == old(self).instance(),
            final(self).generation() == old(self).generation(),
            forall|m: Node| #[trigger] old(self).index_of(m) is Some ==> final(self).index_of(m) == old(self).index_of(m),
    {
        let id = self.forest.new_leaf(props);
        proof {
            assert(self.forest.nodes.len() == self.forest.nodes@.len());
        }
        self.allocate_node(id)
    }

    /// Adds a parent laid out by the rows of `lines`. Fails where the rows
    /// are not complete and of equal length, where a cell names no node of
    /// this tree, or where a row is missing.
    pub fn new_node(&mut self, lines: Lines) -> (r: Result<Node, Error>)
        requires
            old(self).wf(),
            lines.wf(),
        ensures
            final(self).wf(),
            lines.machine.shape() matches Err(e) ==> r == Err::<Node, Error>(e),
            lines.machine.shape() is Ok && (exists|j: int|
                0 <= j < lines.cells@.len() && old(self).index_of(#[trigger] lines.cells@[j]) is None)
                ==> r == Err::<Node, Error>(Error::UnknownNode),
            r is Err ==> final(self).nodes() == old(self).nodes(),
            r is Err ==> forall|m: Node| final(self).index_of(m) == old(self).index_of(m),
            final(self).instance() == old(self).instance(),
            final(self).generation() == old(self).generation(),
            final(self).nodes().len() <= usize::MAX,
            forall|m: Node| #[trigger] old(self).index_of(m) is Some ==> final(self).index_of(m) == old(self).index_of(m),
            r matches Ok(n) ==> {
                &&& final(self).index_of(n) == Some(old(self).nodes().len() as usize)
                &&& n.instance() == old(self).instance() && n.generation() == old(self).generation()
                &&& lines.machine.shape() matches Ok(s)
                &&& final(self).nodes().len() == old(self).nodes().len() + 1
                &&& final(self).nodes().drop_last() == old(self).nodes()
                &&& final(self).nodes().last() matches Data::Parent { template }
                &&& template.width == s.0 && template.height == s.1
                &&& template.cells@ == lines.cells@.map_values(|m: Node| old(self).index_of(m)->Some_0)
            },
            r is Ok <==> lines.machine.shape() is Ok && forall|j: int|
                0 <= j < lines.cells@.len() ==> old(self).index_of(#[trigger] lines.cells@[j]) is Some,
    {
        proof {
            assert(self.forest.nodes.len() == self.forest.nodes@.len());
        }
        let template = match lines.into_template(self) {
            Ok(t) => t,
            Err(e) => {
                return Err(e);
            },
        };
        let ghost t = template;
        let id = match self.forest.new_node(template) {
            Ok(id) => id,
            Err(e) => {
                proof {
                    assert(t.wf());
                    assert(false);
                }
                return Err(e);
            },
        };
        proof {
            assert(self.forest.nodes@.drop_last() =~= old(self).forest.nodes@);
            assert(self.forest.nodes.len() == self.forest.nodes@.len());
        }
        Ok(self.allocate_node(id))
    }

    /// The layout of the tree under `node`.
    pub fn compute_layout(&self, node: Node) -> (r: Result<Layout, Error>)
        requires
            self.wf(),
        ensures
            match self.index_of(node) {
                None => r == Err::<Layout, Error>(Error::UnknownNode),
                Some(i) => layout_view(r) == self.with_handles(layout_result(self.nodes(), i as nat)),
            },
            r matches Err(e) ==> describes_defect(self.nodes(), e),
    {
        let id = match self.find_node(node) {
            Ok(id) => id,
            Err(e) => {
                return Err(e);
            },
        };
        let (size, entries) = match self.forest.compute_layout(id) {
            Ok(v) => v,
            Err(e) => {
                return Err(e);
            },
        };
        let mut table: Vec<(Node, Rect)> = Vec::new();
        let mut k: usize = 0;
        while k < entries.len()
            invariant
                k <= entries@.len(),
                table@ == entries@.subrange(0, k as int).map_values(|e: Entry| (self.handle(e.0), e.1)),
            decreases entries@.len() - k,
        {
            let n = self.allocate_node(entries[k].0);
            table.push((n, entries[k].1));
            proof {
                assert(entries@.subrange(0, k + 1).map_values(|e: Entry| (self.handle(e.0), e.1))
                    =~= entries@.subrange(0, k as int).map_values(|e: Entry| (self.handle(e.0), e.1)).push(
                    (n, entries@[k as int].1),
                ));
            }
            k += 1;
        }
        proof {
            assert(entries@.subrange(0, entries@.len() as int) =~= entries@);
        }
        Ok(Layout { size, table })
    }
}


impl Default for GridLay {
    /// The same as `GridLay::new`.
    fn default() -> (g: GridLay)
        ensures
            g.wf(),
            g.nodes().len() == 0,
            g.instance() == 0,
            g.generation() == 0,
    {
        GridLay::new()
    }
}


/// Two layouts of one node of an unchanged tree are identical: the same
/// size and the same table in the same order, or the same error.
pub proof fn lemma_compute_layout_repeatable(g: &GridLay, node: Node, r1: Result<Layout, Error>, r2: Result<Layout, Error>)
    requires
        match g.index_of(node) {
            None => r1 == Err::<Layout, Error>(Error::UnknownNode),
            Some(i) => layout_view(r1) == g.with_handles(layout_result(g.nodes(), i as nat)),
        },
        match g.index_of(node) {
            None => r2 == Err::<Layout, Error>(Error::UnknownNode),
            Some(i) => layout_view(r2) == g.with_handles(layout_result(g.nodes(), i as nat)),
        },
    ensures
        layout_view(r1) == layout_view(r2),
{
}

} // verus!
