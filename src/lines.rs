//! Building a template row by row.
use vstd::prelude::*;
use crate::error::Error;
use crate::template::Template;
use crate::{GridLay, Node};

verus! {

/// Tracks the rows given so far: none, the first (still open), or the
/// first `height` complete rows of `width` cells and `count` cells of the
/// next.
#[derive(Clone, Copy, Debug, PartialEq, Eq, Structural)]
pub enum StateMachine {
    Start,
    FirstRow { count: usize },
    Rest { width: usize, count: usize, height: usize },
}

impl StateMachine {
    pub fn new() -> (m: StateMachine)
        ensures
            m == StateMachine::Start,
    {
        StateMachine::Start
    }

    /// The number of cells given so far.
    pub open spec fn cells(self) -> int {
        match self {
            StateMachine::Start => 0,
            StateMachine::FirstRow { count } => count as int,
            StateMachine::Rest { width, count, height } => width * height + count,
        }
    }

    /// The state after one more cell in the current row, or the error. A
    /// row may not grow past the first row's width by more than the cell
    /// that `row_step` then rejects.
    pub open spec fn column_step(self) -> Result<StateMachine, Error> {
        match self {
            StateMachine::Start => Ok(StateMachine::FirstRow { count: 1 }),
            StateMachine::FirstRow { count } => if count < usize::MAX {
                Ok(StateMachine::FirstRow { count: (count + 1) as usize })
            } else {
                Err(Error::Overflow)
            },
            StateMachine::Rest { width, count, height } => if count > width {
                Err(Error::UnbalancedLine { line: height, expected: width, got: count })
            } else if count < usize::MAX {
                Ok(StateMachine::Rest { width, count: (count + 1) as usize, height })
            } else {
                Err(Error::Overflow)
            },
        }
    }

    /// The state after closing the current row, which must be as long as
    /// the first, or the error.
    pub open spec fn row_step(self) -> Result<StateMachine, Error> {
        match self {
            StateMachine::Start => Err(Error::EmptyTemplate),
            StateMachine::FirstRow { count } => Ok(StateMachine::Rest { width: count, count: 0, height: 1 }),
            StateMachine::Rest { width, count, height } => if count != width {
                Err(Error::UnbalancedLine { line: height, expected: width, got: count })
            } else if height < usize::MAX {
                Ok(StateMachine::Rest { width, count: 0, height: (height + 1) as usize })
            } else {
                Err(Error::Overflow)
            },
        }
    }

    /// One more cell in the current row.
    pub fn push_column(&mut self) -> (r: Result<(), Error>)
        ensures
            match old(self).column_step() {
                Ok(m) => r is Ok && *final(self) == m,
                Err(e) => r == Err::<(), Error>(e) && *final(self) == *old(self),
            },
    {
        match *self {
            StateMachine::Start => {
                *self = StateMachine::FirstRow { count: 1 };
                Ok(())
            },
            StateMachine::FirstRow { count } => {
                if count == usize::MAX {
                    return Err(Error::Overflow);
                }
                *self = StateMachine::FirstRow { count: count + 1 };
                Ok(())
            },
            StateMachine::Rest { width, count, height } => {
                if count > width {
                    return Err(Error::UnbalancedLine { line: height, expected: width, got: count });
                }
                if count == usize::MAX {
                    return Err(Error::Overflow);
                }
                *self = StateMachine::Rest { width, count: count + 1, height };
                Ok(())
            },
        }
    }

    /// Closes the current row.
    pub fn push_row(&mut self) -> (r: Result<(), Error>)
        ensures
            match old(self).row_step() {
                Ok(m) => r is Ok && *final(self) == m,
                Err(e) => r == Err::<(), Error>(e) && *final(self) == *old(self),
            },
    {
        match *self {
            StateMachine::Start => Err(Error::EmptyTemplate),
            StateMachine::FirstRow { count } => {
                *self = StateMachine::Rest { width: count, count: 0, height: 1 };
                Ok(())
            },
            StateMachine::Rest { width, count, height } => {
                if count != width {
                    return Err(Error::UnbalancedLine { line: height, expected: width, got: count });
                }
                if height == usize::MAX {
                    return Err(Error::Overflow);
                }
                *self = StateMachine::Rest { width, count: 0, height: height + 1 };
                Ok(())
            },
        }
    }

    /// The grid's width and height once every row is complete; the last
    /// row needs no closing. A grid without cells is refused.
    pub open spec fn shape(self) -> Result<(usize, usize), Error> {
        match self {
            StateMachine::Start => Err(Error::EmptyTemplate),
            StateMachine::FirstRow { count } => if count == 0 {
                Err(Error::EmptyTemplate)
            } else {
                Ok((count, 1usize))
            },
            StateMachine::Rest { width, count, height } => if width == 0 || height == 0 {
                Err(Error::EmptyTemplate)
            } else if count == 0 {
                Ok((width, height))
            } else if count == width && height < usize::MAX {
                Ok((width, (height + 1) as usize))
            } else {
                Err(Error::UnbalancedLine { line: height, expected: width, got: count })
            },
        }
    }

    pub fn size(&self) -> (r: Result<(usize, usize), Error>)
        ensures
            r == self.shape(),
    {
        match *self {
            StateMachine::Start => Err(Error::EmptyTemplate),
            StateMachine::FirstRow { count } => {
                if count == 0 {
                    Err(Error::EmptyTemplate)
                } else {
                    Ok((count, 1))
                }
            },
            StateMachine::Rest { width, count, height } => {
                if width == 0 || height == 0 {
                    Err(Error::EmptyTemplate)
                } else if count == 0 {
                    Ok((width, height))
                } else if count == width && height < usize::MAX {
                    Ok((width, height + 1))
                } else {
                    Err(Error::UnbalancedLine { line: height, expected: width, got: count })
                }
            },
        }
    }
}

/// The rows of a template, given cell by cell.
pub struct Lines {
    pub cells: Vec<Node>,
    pub machine: StateMachine,
}

impl Lines {
    /// As many cells as the machine has counted.
    pub open spec fn wf(&self) -> bool {
        self.cells@.len() == self.machine.cells()
    }

    pub fn new() -> (l: Lines)
        ensures
            l.wf(),
            l.cells@.len() == 0,
            l.machine == StateMachine::Start,
    {
        Lines { cells: Vec::new(), machine: StateMachine::new() }
    }

    /// Appends `node`, which must name a node of `grid`, to the current row.
    pub fn add(&mut self, grid: &GridLay, node: Node) -> (r: Result<(), Error>)
        requires
            old(self).wf(),
        ensures
            final(self).wf(),
            grid.index_of(node) is None ==> r == Err::<(), Error>(Error::UnknownNode) && *final(self)
                == *old(self),
            grid.index_of(node) is Some ==> match old(self).machine.column_step() {
                Ok(m) => r is Ok && final(self).machine == m && final(self).cells@ == old(self).cells@.push(
                    node,
                ),
                Err(e) => r == Err::<(), Error>(e) && *final(self) == *old(self),
            },
    {
        match grid.find_node(node) {
            Ok(_) => {},
            Err(e) => {
                return Err(e);
            },
        }
        let ghost before = self.machine;
        match self.machine.push_column() {
            Ok(()) => {},
            Err(e) => {
                return Err(e);
            },
        }
        proof {
            match before {
                StateMachine::Start => {},
                StateMachine::FirstRow { .. } => {},
                StateMachine::Rest { .. } => {},
            }
        }
        self.cells.push(node);
        Ok(())
    }

    /// Ends the current row.
    pub fn end(&mut self) -> (r: Result<(), Error>)
        requires
            old(self).wf(),
        ensures
            final(self).wf(),
            match old(self).machine.row_step() {
                Ok(m) => r is Ok && final(self).machine == m && final(self).cells@ == old(self).cells@,
                Err(e) => r == Err::<(), Error>(e) && *final(self) == *old(self),
            },
    {
        let ghost before = self.machine;
        let r = self.machine.push_row();
        proof {
            if r is Ok {
                match before {
                    StateMachine::Start => {},
                    StateMachine::FirstRow { count } => {
                        assert(count * 1 == count);
                    },
                    StateMachine::Rest { width, count, height } => {
                        assert(width * (height + 1) == width * height + width) by (nonlinear_arith);
                    },
                }
            }
        }
        r
    }

    /// The template these rows describe, each cell's handle replaced by the
    /// id of the node of `grid` that it names.
    pub fn into_template(self, grid: &GridLay) -> (r: Result<Template, Error>)
        requires
            self.wf(),
        ensures
            self.machine.shape() matches Err(e) ==> r == Err::<Template, Error>(e),
            self.machine.shape() is Ok && (exists|j: int|
                0 <= j < self.cells@.len() && grid.index_of(#[trigger] self.cells@[j]) is None)
                ==> r == Err::<Template, Error>(Error::UnknownNode),
            r is Ok <==> self.machine.shape() is Ok && forall|j: int|
                0 <= j < self.cells@.len() ==> grid.index_of(#[trigger] self.cells@[j]) is Some,
            r matches Ok(t) ==> {
                &&& self.machine.shape() matches Ok(s)
                &&& t.width == s.0 && t.height == s.1
                &&& t.wf()
                &&& t.cells@ == self.cells@.map_values(|m: Node| grid.index_of(m)->Some_0)
                &&& forall|j: int| 0 <= j < t.cells@.len() ==> (#[trigger] t.cells@[j]) < grid.nodes().len()
            },
    {
        let (width, height) = match self.machine.size() {
            Ok(s) => s,
            Err(e) => {
                return Err(e);
            },
        };
        proof {
            match self.machine {
                StateMachine::FirstRow { count } => {
                    assert(count * 1 == count);
                },
                StateMachine::Rest { width: w, count, height: h } => {
                    assert(w * (h + 1) == w * h + w) by (nonlinear_arith);
                },
                StateMachine::Start => {},
            }
            assert(self.cells@.len() == width * height);
        }
        let mut cells: Vec<usize> = Vec::new();
        let mut j: usize = 0;
        while j < self.cells.len()
            invariant
                self.machine.shape() == Ok::<(usize, usize), Error>((width, height)),
                j <= self.cells@.len(),
                cells@.len() == j,
                forall|i: int| 0 <= i < j ==> grid.index_of(#[trigger] self.cells@[i]) == Some(cells@[i]),
                forall|i: int| 0 <= i < j ==> cells@[i] < grid.nodes().len(),
            decreases self.cells@.len() - j,
        {
            let i = match grid.find_node(self.cells[j]) {
                Ok(i) => i,
                Err(e) => {
                    proof {
                        assert(grid.index_of(self.cells@[j as int]) is None);
                    }
                    return Err(e);
                },
            };
            cells.push(i);
            j += 1;
        }
        proof {
            assert(cells@ =~= self.cells@.map_values(|m: Node| grid.index_of(m)->Some_0));
        }
        Ok(Template { width, height, cells })
    }
}

} // verus!
