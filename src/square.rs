use vstd::prelude::*;

verus! {

/// A grid coordinate `(x, y)`.
pub type Coor = (usize, usize);

/// What a cell is, as a mathematical value: whether the carving has reached
/// it, and the cells it has a passage to, in the order they were carved.
pub ghost struct SquareModel {
    pub visited: bool,
    pub dests: Seq<Coor>,
}

/// One cell of the maze.
#[derive(Debug)]
pub struct Square {
    visited: bool,
    destinations: Vec<Coor>,
}

impl View for Square {
    type V = SquareModel;

    closed spec fn view(&self) -> SquareModel {
        SquareModel { visited: self.visited, dests: self.destinations@ }
    }
}

impl Square {
    /// A cell that is not yet visited and has no passage.
    pub fn new() -> (r: Square)
        ensures
            !r@.visited,
            r@.dests == Seq::<Coor>::empty(),
    {
        Square { visited: false, destinations: Vec::new() }
    }

    /// Marks the cell visited; idempotent.
    pub fn visit(&mut self)
        ensures
            final(self)@ == (SquareModel { visited: true, dests: old(self)@.dests }),
    {
        self.visited = true;
    }

    /// Records a passage from this cell to `dest`.
    pub fn add_dest(&mut self, dest: Coor)
        ensures
            final(self)@ == (SquareModel {
                visited: old(self)@.visited,
                dests: old(self)@.dests.push(dest),
            }),
    {
        self.destinations.push(dest);
    }

    /// The cells this cell has a passage to.
    pub fn dest(&self) -> (r: &Vec<Coor>)
        ensures
            r@ == self@.dests,
    {
        &self.destinations
    }

    /// Whether the carving has reached this cell.
    pub fn visited(&self) -> (r: bool)
        ensures
            r == self@.visited,
    {
        self.visited
    }
}

} // verus!
