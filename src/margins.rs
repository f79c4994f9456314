use vstd::prelude::*;

verus! {

/// The decimal writing of `v`, most significant digit first.
pub open spec fn decimal_digits(v: nat) -> Seq<char>
    decreases v,
{
    let d = "0123456789"@[(v % 10) as int];
    if v < 10 {
        seq![d]
    } else {
        decimal_digits(v / 10).push(d)
    }
}

/// The message that reports a row of the wrong length.
pub open spec fn shape_message(row: nat) -> Seq<char> {
    "incorrect number of candidates in row "@ + decimal_digits(row)
}

/// The rows of a jagged matrix, as sequences.
pub open spec fn row_views(rows: Seq<Vec<isize>>) -> Seq<Seq<isize>> {
    rows.map_values(|r: Vec<isize>| r@)
}

/// Row `i` of an upper triangle with `rows.len() + 1` candidates holds the margins of
/// candidate `i` against `i + 1 .. rows.len() + 1`.
pub open spec fn row_ok(rows: Seq<Seq<isize>>, i: int) -> bool {
    rows[i].len() == rows.len() - i
}

/// Every row has the length that its position asks for.
pub open spec fn well_shaped(rows: Seq<Seq<isize>>) -> bool {
    forall|i: int| 0 <= i < rows.len() ==> #[trigger] row_ok(rows, i)
}

/// Every stored margin can be negated without leaving `isize`.
pub open spec fn entries_fit(rows: Seq<Seq<isize>>) -> bool {
    forall|i: int, j: int|
        0 <= i < rows.len() && 0 <= j < rows[i].len() ==> #[trigger] rows[i][j] > isize::MIN
}

/// `e` reports the first row of `rows` whose length is wrong.
pub open spec fn reports_first_bad_row(rows: Seq<Seq<isize>>, e: Seq<char>) -> bool {
    exists|i: int|
        0 <= i < rows.len() && !row_ok(rows, i) && (forall|t: int| 0 <= t < i ==> row_ok(rows, t))
            && e == shape_message(i as nat)
}

/// Relies on `format!` writing a `usize` under `{}` in decimal.
#[verifier::external_body]
fn shape_error(row: usize) -> (r: String)
    ensures
        r@ == shape_message(row as nat),
{
    format!("incorrect number of candidates in row {}", row)
}

/// An immutable matrix of voting margins over `n` candidates, stored as the strict upper
/// triangle of the full square matrix: row `i` holds `margin(i, j)` for `j` in `i + 1 .. n`,
/// so the diagonal and the last row are left out.
///
/// The full matrix is recovered from `margin(i, j) == -margin(j, i)` and `margin(i, i) == 0`.
/// A positive `margin(i, j)` means that `i` beats `j` head to head by that many votes.
pub struct VotingMarginsGraph {
    margins: Vec<Vec<isize>>,
    n: usize,
}

impl VotingMarginsGraph {
    /// The stored rows of the upper triangle.
    pub closed spec fn rows(&self) -> Seq<Seq<isize>> {
        row_views(self.margins@)
    }

    /// The number of candidates.
    pub closed spec fn num_candidates(&self) -> nat {
        self.n as nat
    }

    /// The store holds a well-shaped triangle for its number of candidates.
    pub open spec fn wf(&self) -> bool {
        &&& self.num_candidates() == self.rows().len() + 1
        &&& self.num_candidates() <= usize::MAX
        &&& well_shaped(self.rows())
        &&& entries_fit(self.rows())
    }

    /// The full square matrix, read through the stored triangle.
    pub open spec fn margin(&self, i: int, j: int) -> int {
        if i == j {
            0
        } else if i < j {
            self.rows()[i][j - i - 1] as int
        } else {
            -(self.rows()[j][i - j - 1] as int)
        }
    }

    /// The margin of victory of one candidate over another is the negation of the reverse.
    pub proof fn lemma_antisymmetric(&self, i: int, j: int)
        requires
            self.wf(),
            0 <= i < self.num_candidates(),
            0 <= j < self.num_candidates(),
        ensures
            self.margin(i, j) == -self.margin(j, i),
    {
    }

    /// No candidate beats or loses to itself.
    pub proof fn lemma_zero_diagonal(&self, i: int)
        requires
            self.wf(),
            0 <= i < self.num_candidates(),
        ensures
            self.margin(i, i) == 0,
    {
    }

    /// Checks that row `i` of `margins` holds `margins.len() - i` entries, as the upper
    /// triangle over `margins.len() + 1` candidates asks; reports the first row that does not.
    pub fn check_shape(margins: &[Vec<isize>]) -> (r: Result<(), String>)
        ensures
            r is Ok <==> well_shaped(row_views(margins@)),
            r matches Err(e) ==> reports_first_bad_row(row_views(margins@), e@),
    {
        let ghost rows = row_views(margins@);
        let n = margins.len();
        let mut i: usize = 0;
        while i < n
            invariant
                n == margins@.len(),
                rows == row_views(margins@),
                i <= n,
                forall|t: int| 0 <= t < i ==> #[trigger] row_ok(rows, t),
            decreases n - i,
        {
            if margins[i].len() != n - i {
                let e = shape_error(i);
                assert(!row_ok(rows, i as int));
                return Err(e);
            }
            assert(row_ok(rows, i as int));
            i = i + 1;
        }
        Ok(())
    }

    /// The margin of `i` over `j`, read as if the full square matrix were stored.
    ///
    /// Both indices must be below the number of candidates; `get` checks that instead.
    pub fn index(&self, i: usize, j: usize) -> (r: isize)
        requires
            self.wf(),
            i < self.num_candidates(),
            j < self.num_candidates(),
        ensures
            r == self.margin(i as int, j as int),
    {
        if i == j {
            return 0;
        }
        if i < j {
            assert(row_ok(self.rows(), i as int));
            self.margins[i][j - i - 1]
        } else {
            assert(row_ok(self.rows(), j as int));
            assert(self.rows()[j as int][i - j - 1] > isize::MIN);
            -self.margins[j][i - j - 1]
        }
    }

    /// The margin of `i` over `j`, or `None` when either index names no candidate.
    pub fn get(&self, i: usize, j: usize) -> (r: Option<isize>)
        requires
            self.wf(),
        ensures
            match r {
                Some(v) => i < self.num_candidates() && j < self.num_candidates() && v
                    == self.margin(i as int, j as int),
                None => i >= self.num_candidates() || j >= self.num_candidates(),
            },
    {
        if i >= self.n || j >= self.n {
            return None;
        }
        Some(self.index(i, j))
    }

    /// The number of candidates.
    pub fn size(&self) -> (r: usize)
        requires
            self.wf(),
        ensures
            r == self.num_candidates(),
    {
        self.n
    }

    /// Makes a store from rows that the caller knows to be well shaped, without checking them.
    pub fn new(margins: Vec<Vec<isize>>) -> (r: Self)
        requires
            margins.len() < usize::MAX,
            well_shaped(row_views(margins@)),
            entries_fit(row_views(margins@)),
        ensures
            r.wf(),
            r.rows() == row_views(margins@),
    {
        let n = margins.len() + 1;
        Self { margins, n }
    }

    /// Makes a store after checking the shape of the rows; on a row of the wrong length,
    /// reports the first such row and makes no store.
    pub fn build(margins: Vec<Vec<isize>>) -> (r: Result<Self, String>)
        requires
            margins.len() < usize::MAX,
            entries_fit(row_views(margins@)),
        ensures
            r is Ok <==> well_shaped(row_views(margins@)),
            r matches Ok(g) ==> g.wf() && g.rows() == row_views(margins@),
            r matches Err(e) ==> reports_first_bad_row(row_views(margins@), e@),
    {
        match Self::check_shape(margins.as_slice()) {
            Ok(()) => Ok(Self::new(margins)),
            Err(e) => Err(e),
        }
    }
}

} // verus!
