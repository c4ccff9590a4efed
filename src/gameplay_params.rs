use vstd::prelude::*;

verus! {

/// Shape used to draw a living cell.
#[derive(Debug, Copy, Clone, PartialEq, Eq, Structural)]
pub enum CellShape {
    Square,
    Circle,
}

/// How the field treats its edges.
///
/// `Connected` glues opposite edges together (a torus): stepping past the
/// last row or column lands on the first one, and the other way round.
/// `Limited` has nothing beyond the edges, so border cells have fewer
/// neighbours.
#[derive(Debug, Copy, Clone, PartialEq, Eq, Structural)]
pub enum FieldBorders {
    Connected,
    Limited,
}

/// How the first generation is laid out.
#[derive(Debug, Copy, Clone, PartialEq, Eq, Structural)]
pub enum MapGeneration {
    Random,
    Glider,
}

/// What a simulation is started with.
///
/// `milli_updates_per_sec` is the number of thousandths of a generation per
/// second of running time, `field_size` the number of rows and of columns,
/// and `seed` seeds the generator when the first generation is random.
#[derive(Debug, Copy, Clone, PartialEq, Eq, Structural)]
pub struct GameplayParams {
    pub milli_updates_per_sec: u64,
    pub field_size: usize,
    pub cell_shape: CellShape,
    pub field_borders: FieldBorders,
    pub map_generation: MapGeneration,
    pub seed: u64,
}

impl FieldBorders {
    /// `num` where the edges are connected, nothing otherwise.
    pub open spec fn connected_or_none(self, num: int) -> Option<int> {
        match self {
            FieldBorders::Connected => Some(num),
            FieldBorders::Limited => None,
        }
    }

    /// The position before `index` on an axis of length `n`.
    pub open spec fn previous(self, index: int, n: int) -> Option<int> {
        if index > 0 {
            Some(index - 1)
        } else {
            self.connected_or_none(n - 1)
        }
    }

    /// The position after `index` on an axis of length `n`.
    pub open spec fn following(self, index: int, n: int) -> Option<int> {
        if index + 1 < n {
            Some(index + 1)
        } else {
            self.connected_or_none(0)
        }
    }

    /// The positions on one axis that a cell at `index` touches: the one
    /// before it (if any), itself, the one after it (if any), in that order.
    /// On a connected axis of length one or two some of them coincide; they
    /// are all listed, and whoever counts neighbours takes each position once.
    pub open spec fn axis_candidates(self, index: int, n: int) -> Seq<int> {
        let prev = self.previous(index, n);
        let next = self.following(index, n);
        let before = if prev is Some {
            seq![prev->0]
        } else {
            Seq::<int>::empty()
        };
        let after = if next is Some {
            seq![next->0]
        } else {
            Seq::<int>::empty()
        };
        before + seq![index] + after
    }

    /// Candidate positions on one axis for a cell at `index`: the previous
    /// one if any, `index`, the next one if any.
    pub fn create_index_iter(&self, index: usize, max_index: usize) -> (r: Vec<usize>)
        requires
            index < max_index,
        ensures
            r@.len() == self.axis_candidates(index as int, max_index as int).len(),
            forall|k: int|
                0 <= k < r@.len() ==> r@[k] as int == self.axis_candidates(
                    index as int,
                    max_index as int,
                )[k],
    {
        let prev = self.decrease_index(index, max_index);
        let next = self.increase_index(index, max_index);
        let mut r: Vec<usize> = Vec::new();
        if let Some(p) = prev {
            r.push(p);
        }
        r.push(index);
        if let Some(q) = next {
            r.push(q);
        }
        r
    }

    fn decrease_index(&self, index: usize, max_index: usize) -> (r: Option<usize>)
        requires
            index < max_index,
        ensures
            r is Some <==> self.previous(index as int, max_index as int) is Some,
            r is Some ==> r->0 as int == self.previous(index as int, max_index as int)->0,
    {
        match index.checked_sub(1) {
            Some(p) => Some(p),
            None => self.when_connected(max_index - 1),
        }
    }

    fn increase_index(&self, index: usize, max_index: usize) -> (r: Option<usize>)
        requires
            index < max_index,
        ensures
            r is Some <==> self.following(index as int, max_index as int) is Some,
            r is Some ==> r->0 as int == self.following(index as int, max_index as int)->0,
    {
        let next_index = index + 1;
        if next_index < max_index {
            Some(next_index)
        } else {
            self.when_connected(0)
        }
    }

    fn when_connected(&self, num: usize) -> (r: Option<usize>)
        ensures
            r is Some <==> self.connected_or_none(num as int) is Some,
            r is Some ==> r->0 == num,
    {
        match self {
            FieldBorders::Connected => Some(num),
            FieldBorders::Limited => None,
        }
    }
}

} // verus!
