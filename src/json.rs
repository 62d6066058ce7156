use vstd::prelude::*;
use crate::grid::Grid;

verus! {

#[verifier::external_type_specification]
#[verifier::external_body]
pub struct ExJsonError(serde_json::Error);

/// The JSON text that serde_json writes for a list of integer matrices.
pub uninterp spec fn json_of(v: Seq<Seq<Seq<i8>>>) -> Seq<char>;

/// Relies on serde_json::to_string: it returns the JSON text of the nested
/// arrays, which depends on their values alone. Writing integers into a
/// `Vec<u8>` cannot fail, so the result is always `Ok`.
#[verifier::external_body]
fn json_text(v: &Vec<Vec<Vec<i8>>>) -> (r: Result<String, serde_json::Error>)
    ensures
        r is Ok,
        r matches Ok(s) ==> s@ == json_of(v.deep_view()),
{
    serde_json::to_string(v)
}

impl Grid {
    /// The rows of the grid, each cell as an integer, `0` for empty.
    pub open spec fn rows_view(&self) -> Seq<Seq<i8>> {
        Seq::new(
            self.size as nat,
            |r: int| Seq::new(self.size as nat, |c: int| self.cells@[r * self.size + c] as i8),
        )
    }

    /// The rows of the grid, each cell as an integer, `0` for empty.
    pub fn to_rows(&self) -> (r: Vec<Vec<i8>>)
        requires
            self.wf(),
        ensures
            r.deep_view() == self.rows_view(),
    {
        let size = self.size;
        let mut rows: Vec<Vec<i8>> = Vec::new();
        let mut r: usize = 0;
        while r < size
            invariant
                self.wf(),
                size == self.size,
                r <= size,
                rows@.len() == r,
                forall|k: int| 0 <= k < r ==> #[trigger] rows@[k].deep_view() == self.rows_view()[k],
            decreases size - r,
        {
            let mut row: Vec<i8> = Vec::new();
            let mut c: usize = 0;
            while c < size
                invariant
                    self.wf(),
                    size == self.size,
                    r < size,
                    c <= size,
                    row@.len() == c,
                    forall|k: int| 0 <= k < c ==> #[trigger] row@[k] == self.cells@[r * size + k] as i8,
                decreases size - c,
            {
                proof {
                    crate::grid::lemma_index(size as int, c as int, r as int);
                }
                let v = self.cells[r * size + c];
                assert(v <= 25);
                row.push(v as i8);
                c += 1;
            }
            assert(row.deep_view() =~= self.rows_view()[r as int]);
            rows.push(row);
            r += 1;
        }
        assert(rows.deep_view() =~= self.rows_view());
        rows
    }
}

/// The JSON array `[puzzle rows, solution rows]`.
pub fn sudoku_json(puzzle: &Grid, solution: &Grid) -> (r: String)
    requires
        puzzle.wf(),
        solution.wf(),
    ensures
        r@ == json_of(seq![puzzle.rows_view(), solution.rows_view()]),
{
    let mut both: Vec<Vec<Vec<i8>>> = Vec::new();
    both.push(puzzle.to_rows());
    both.push(solution.to_rows());
    assert(both.deep_view() =~= seq![puzzle.rows_view(), solution.rows_view()]);
    match json_text(&both) {
        Ok(s) => s,
        Err(_) => String::new(),
    }
}

} // verus!
