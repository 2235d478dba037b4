use vstd::prelude::*;

verus! {

/// A 9x9 board in row-major order: position `p` is row `p / 9`, column `p % 9`.
/// A cell holds 0 when blank and a digit 1..=9 when filled.
#[derive(Clone, Debug, PartialEq, Eq)]
pub struct Grid {
    cells: Vec<u8>,
}

/// Why a text could not be read as a board.
#[derive(Clone, Copy, Debug, PartialEq, Eq, Structural)]
pub enum ParseError {
    /// The first character that is neither whitespace nor a decimal digit.
    InvalidChar(char),
    /// The text holds this many digits instead of 81.
    WrongCount(usize),
}

/// Holds 81 cells, each in 0..=9.
pub open spec fn valid_cells(cells: Seq<u8>) -> bool {
    &&& cells.len() == 81
    &&& forall|p: int| 0 <= p < 81 ==> #[trigger] cells[p] <= 9
}

impl View for Grid {
    type V = Seq<u8>;

    closed spec fn view(&self) -> Seq<u8> {
        self.cells@
    }
}

impl Grid {
    pub open spec fn wf(&self) -> bool {
        valid_cells(self@)
    }

    /// Builds a board from 81 cell values.
    pub fn from_cells(cells: Vec<u8>) -> (g: Option<Grid>)
        ensures
            g is Some <==> valid_cells(cells@),
            g is Some ==> g->Some_0@ == cells@,
    {
        if cells.len() != 81 {
            return None;
        }
        let mut p: usize = 0;
        while p < 81
            invariant
                cells@.len() == 81,
                p <= 81,
                forall|q: int| 0 <= q < p ==> #[trigger] cells@[q] <= 9,
            decreases 81 - p,
        {
            if cells[p] > 9 {
                return None;
            }
            p += 1;
        }
        Some(Grid { cells })
    }

    /// The value at position `p`.
    pub fn get(&self, p: usize) -> (v: u8)
        requires
            self.wf(),
            p < 81,
        ensures
            v == self@[p as int],
            v <= 9,
    {
        self.cells[p]
    }

    /// Writes `v` at position `p`.
    pub fn set(&mut self, p: usize, v: u8)
        requires
            old(self).wf(),
            p < 81,
            v <= 9,
        ensures
            final(self).wf(),
            final(self)@ == old(self)@.update(p as int, v),
    {
        self.cells.set(p, v);
    }

    /// The cells as a vector.
    pub fn to_cells(&self) -> (v: Vec<u8>)
        ensures
            v@ == self@,
    {
        self.cells.clone()
    }

    /// The positions that hold 0, in ascending order.
    pub fn guess_idxs(&self) -> (r: Vec<usize>)
        requires
            self.wf(),
        ensures
            is_blank_list(self@, r@),
    {
        let mut r: Vec<usize> = Vec::new();
        let mut p: usize = 0;
        while p < 81
            invariant
                self.wf(),
                p <= 81,
                forall|j: int| 0 <= j < r@.len() ==> #[trigger] r@[j] < p,
                forall|j: int| 0 <= j < r@.len() ==> self@[#[trigger] r@[j] as int] == 0,
                forall|i: int, j: int| 0 <= i < j < r@.len() ==> r@[i] < r@[j],
                forall|q: int| 0 <= q < p && self@[q] == 0 ==> r@.contains(q as usize),
            decreases 81 - p,
        {
            if self.cells[p] == 0 {
                let ghost before = r@;
                r.push(p);
                assert(forall|j: int| 0 <= j < before.len() ==> r@[j] == before[j]);
                assert(r@[r@.len() - 1] == p);
                assert forall|q: int| 0 <= q <= p && self@[q] == 0 implies r@.contains(
                    q as usize,
                ) by {
                    if q < p {
                        let j = choose|j: int| 0 <= j < before.len() && before[j] == q as usize;
                        assert(r@[j] == q as usize);
                    } else {
                        assert(r@[r@.len() - 1] == q as usize);
                    }
                }
            }
            p += 1;
        }
        r
    }
}

/// `b` lists, in strictly ascending order, exactly the positions of `cells` that hold 0.
pub open spec fn is_blank_list(cells: Seq<u8>, b: Seq<usize>) -> bool {
    &&& forall|j: int| 0 <= j < b.len() ==> #[trigger] b[j] < 81
    &&& forall|j: int| 0 <= j < b.len() ==> cells[#[trigger] b[j] as int] == 0
    &&& forall|i: int, j: int| 0 <= i < j < b.len() ==> b[i] < b[j]
    &&& forall|q: int| 0 <= q < 81 && cells[q] == 0 ==> b.contains(q as usize)
}

} // verus!
