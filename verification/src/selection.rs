//! The cells of the table that are highlighted.

use vstd::prelude::*;
use crate::text::same_text;

verus! {

/// A cell of the table: the row's id and the column's key.
pub type Cell = (Seq<char>, Seq<char>);

/// A cell as a mathematical value.
pub open spec fn cell_view(c: (String, String)) -> Cell {
    (c.0@, c.1@)
}

/// The cells of a list as mathematical values.
pub open spec fn cell_views(cells: Seq<(String, String)>) -> Seq<Cell> {
    cells.map_values(|c: (String, String)| cell_view(c))
}

/// `cells` with `cell` taken out if it is in, and put in if it is not.
pub open spec fn toggled(cells: Set<Cell>, cell: Cell) -> Set<Cell> {
    if cells.contains(cell) {
        cells.remove(cell)
    } else {
        cells.insert(cell)
    }
}

/// The style of a highlighted cell.
pub open spec fn highlight_style() -> Seq<char> {
    "background-color: steelblue;"@
}

/// The set of highlighted cells. No cell is held twice.
#[derive(Debug)]
pub struct CellSelection {
    cells: Vec<(String, String)>,
}

impl View for CellSelection {
    type V = Set<Cell>;

    closed spec fn view(&self) -> Set<Cell> {
        cell_views(self.cells@).to_set()
    }
}

impl CellSelection {
    /// What holds of every selection: no cell is held twice.
    #[verifier::type_invariant]
    spec fn well_formed(self) -> bool {
        cell_views(self.cells@).no_duplicates()
    }

    /// The empty set.
    pub fn new() -> (r: CellSelection)
        ensures
            r@ == Set::<Cell>::empty(),
    {
        let r = CellSelection { cells: Vec::new() };
        assert(cell_views(r.cells@).to_set() =~= Set::<Cell>::empty());
        r
    }

    /// Where the cell stands in the list, if it is there.
    fn position(&self, id: &str, column: &str) -> (r: Option<usize>)
        ensures
            match r {
                Some(i) => i < self.cells.len() && cell_views(self.cells@)[i as int] == (
                    id@,
                    column@,
                ),
                None => !self@.contains((id@, column@)),
            },
    {
        let mut i: usize = 0;
        while i < self.cells.len()
            invariant
                i <= self.cells.len(),
                forall|j: int| 0 <= j < i ==> cell_views(self.cells@)[j] != (id@, column@),
            decreases self.cells.len() - i,
        {
            if same_text(self.cells[i].0.as_str(), id) && same_text(
                self.cells[i].1.as_str(),
                column,
            ) {
                return Some(i);
            }
            i += 1;
        }
        None
    }

    /// Whether the cell is highlighted.
    pub fn contains(&self, id: &str, column: &str) -> (r: bool)
        ensures
            r == self@.contains((id@, column@)),
    {
        match self.position(id, column) {
            Some(i) => {
                assert(cell_views(self.cells@).contains(cell_views(self.cells@)[i as int]));
                true
            },
            None => false,
        }
    }

    /// How many cells are highlighted.
    pub fn len(&self) -> (n: usize)
        ensures
            self@.finite(),
            n == self@.len(),
    {
        proof {
            use_type_invariant(self);
            cell_views(self.cells@).unique_seq_to_set();
        }
        self.cells.len()
    }
}

/// Highlights the cell if it is not highlighted, and takes the highlight
/// off if it is.
pub fn toggle_cell_selection(selected_cells: &mut CellSelection, id: String, column: String)
    ensures
        final(selected_cells)@ == toggled(old(selected_cells)@, (id@, column@)),
{
    proof {
        use_type_invariant(&*selected_cells);
    }
    let ghost before = cell_views(selected_cells.cells@);
    let ghost cell = (id@, column@);
    let found = selected_cells.position(id.as_str(), column.as_str());
    let mut taken = CellSelection::new();
    std::mem::swap(selected_cells, &mut taken);
    let CellSelection { cells: mut list } = taken;
    match found {
        Some(i) => {
            list.remove(i);
            let ghost after = cell_views(list@);
            assert(after =~= before.remove(i as int));
            assert(before.contains(before[i as int]));
            assert(after.no_duplicates());
            assert(after.to_set() =~= before.to_set().remove(cell)) by {
                assert forall|c: Cell| after.to_set().contains(c) <==> before.to_set().contains(c)
                    && c != cell by {
                    if after.contains(c) {
                        let k = choose|k: int| 0 <= k < after.len() && after[k] == c;
                        if k < i {
                            assert(before[k] == c);
                        } else {
                            assert(before[k + 1] == c);
                        }
                    }
                    if before.contains(c) && c != cell {
                        let k = choose|k: int| 0 <= k < before.len() && before[k] == c;
                        if k < i {
                            assert(after[k] == c);
                        } else {
                            assert(after[k - 1] == c);
                        }
                    }
                }
            }
        },
        None => {
            list.push((id, column));
            let ghost after = cell_views(list@);
            assert(after =~= before.push(cell));
            assert(after.no_duplicates()) by {
                assert forall|a: int, b: int| 0 <= a < after.len() && 0 <= b < after.len() && a
                    != b implies after[a] != after[b] by {
                    if a < before.len() {
                        assert(before.contains(before[a]));
                    }
                    if b < before.len() {
                        assert(before.contains(before[b]));
                    }
                }
            }
            assert(after.to_set() =~= before.to_set().insert(cell)) by {
                assert forall|c: Cell| after.to_set().contains(c) <==> before.to_set().contains(c)
                    || c == cell by {
                    if after.contains(c) {
                        let k = choose|k: int| 0 <= k < after.len() && after[k] == c;
                        if k < before.len() {
                            assert(before[k] == c);
                        }
                    }
                    if before.contains(c) {
                        let k = choose|k: int| 0 <= k < before.len() && before[k] == c;
                        assert(after[k] == c);
                    }
                    if c == cell {
                        assert(after[before.len() as int] == c);
                    }
                }
            }
        },
    }
    *selected_cells = CellSelection { cells: list };
}

/// The style of the cell: the highlight if it is highlighted, else none.
pub fn cell_style(id: &str, column: &str, selected_cells: &CellSelection) -> (style: String)
    ensures
        style@ == if selected_cells@.contains((id@, column@)) {
            highlight_style()
        } else {
            Seq::<char>::empty()
        },
{
    if selected_cells.contains(id, column) {
        "background-color: steelblue;".to_owned()
    } else {
        String::new()
    }
}

/// Toggling a cell twice leaves the set as it was.
pub proof fn lemma_toggle_twice(cells: Set<Cell>, cell: Cell)
    ensures
        toggled(toggled(cells, cell), cell) == cells,
{
    assert(toggled(toggled(cells, cell), cell) =~= cells);
}

} // verus!
