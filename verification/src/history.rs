//! The meeting history: how often each pair of members has shared a team.

use vstd::prelude::*;

verus! {

/// A meeting matrix is square, symmetric, and empty on its diagonal.
pub open spec fn is_meeting_matrix(cells: Seq<Seq<nat>>) -> bool {
    &&& forall|i: int| 0 <= i < cells.len() ==> (#[trigger] cells[i]).len() == cells.len()
    &&& forall|i: int, j: int|
        0 <= i < cells.len() && 0 <= j < cells.len() ==> #[trigger] cells[i][j] == cells[j][i]
    &&& forall|i: int| 0 <= i < cells.len() ==> (#[trigger] cells[i])[i] == 0
}

/// How often `a` and `b` have met; zero for an index outside the matrix.
pub open spec fn met(cells: Seq<Seq<nat>>, a: int, b: int) -> nat {
    if 0 <= a < cells.len() && 0 <= b < cells[a].len() {
        cells[a][b]
    } else {
        0
    }
}

/// Sum of the first `upto` counts of a row.
pub open spec fn row_total_upto(row: Seq<nat>, upto: int) -> nat
    decreases upto,
{
    if upto <= 0 {
        0
    } else {
        row_total_upto(row, upto - 1) + row[upto - 1]
    }
}

/// All meetings that `member` has had, with anybody; zero for an index
/// outside the matrix.
pub open spec fn total_meetings(cells: Seq<Seq<nat>>, member: int) -> nat {
    if 0 <= member < cells.len() {
        row_total_upto(cells[member], cells[member].len() as int)
    } else {
        0
    }
}

/// How many of the counts `row[from..to]` are zero.
pub open spec fn zeros_between(row: Seq<nat>, from: int, to: int) -> nat
    decreases to - from,
{
    if to <= from {
        0
    } else {
        zeros_between(row, from, to - 1) + if row[to - 1] == 0 {
            1nat
        } else {
            0nat
        }
    }
}

/// How many cells are zero in the first `width` columns of the first `rows`
/// rows.
pub open spec fn zero_cells_in(cells: Seq<Seq<nat>>, rows: int, width: int) -> nat
    decreases rows,
{
    if rows <= 0 {
        0
    } else {
        zero_cells_in(cells, rows - 1, width) + zeros_between(cells[rows - 1], 0, width)
    }
}

/// How many cells of the matrix are zero, the diagonal included.
pub open spec fn zero_cells(cells: Seq<Seq<nat>>) -> nat {
    zero_cells_in(cells, cells.len() as int, cells.len() as int)
}

/// How many index pairs `i < j` with `i < rows` and `j < width` hold zero.
pub open spec fn unmet_in(cells: Seq<Seq<nat>>, rows: int, width: int) -> nat
    decreases rows,
{
    if rows <= 0 {
        0
    } else {
        unmet_in(cells, rows - 1, width) + zeros_between(cells[rows - 1], rows, width)
    }
}

/// How many pairs of members `i < j` have never met.
pub open spec fn unmet_pairs(cells: Seq<Seq<nat>>) -> nat {
    unmet_in(cells, cells.len() as int, cells.len() as int)
}

/// How many of the first `rows` cells of column `col` are zero.
spec fn column_zeros(cells: Seq<Seq<nat>>, col: int, rows: int) -> nat
    decreases rows,
{
    if rows <= 0 {
        0
    } else {
        column_zeros(cells, col, rows - 1) + if cells[rows - 1][col] == 0 {
            1nat
        } else {
            0nat
        }
    }
}

proof fn lemma_unmet_widen(cells: Seq<Seq<nat>>, rows: int, width: int)
    requires
        0 <= rows <= width,
    ensures
        unmet_in(cells, rows, width + 1) == unmet_in(cells, rows, width) + column_zeros(
            cells,
            width,
            rows,
        ),
    decreases rows,
{
    if rows > 0 {
        lemma_unmet_widen(cells, rows - 1, width);
    }
}

proof fn lemma_zero_cells_widen(cells: Seq<Seq<nat>>, rows: int, width: int)
    requires
        0 <= rows,
        0 <= width,
    ensures
        zero_cells_in(cells, rows, width + 1) == zero_cells_in(cells, rows, width) + column_zeros(
            cells,
            width,
            rows,
        ),
    decreases rows,
{
    if rows > 0 {
        lemma_zero_cells_widen(cells, rows - 1, width);
    }
}

proof fn lemma_row_mirrors_column(cells: Seq<Seq<nat>>, index: int, upto: int)
    requires
        is_meeting_matrix(cells),
        0 <= upto <= cells.len(),
        0 <= index < cells.len(),
    ensures
        zeros_between(cells[index], 0, upto) == column_zeros(cells, index, upto),
    decreases upto,
{
    if upto > 0 {
        lemma_row_mirrors_column(cells, index, upto - 1);
    }
}

proof fn lemma_zero_cells_block(cells: Seq<Seq<nat>>, size: int)
    requires
        is_meeting_matrix(cells),
        0 <= size <= cells.len(),
    ensures
        zero_cells_in(cells, size, size) == size + 2 * unmet_in(cells, size, size),
    decreases size,
{
    if size > 0 {
        let k = size - 1;
        lemma_zero_cells_block(cells, k);
        lemma_zero_cells_widen(cells, k, k);
        lemma_unmet_widen(cells, k, k);
        lemma_row_mirrors_column(cells, k, k);
    }
}

/// In a meeting matrix the zero cells are the diagonal and, twice each, the
/// pairs that have never met: `(zero_cells - n) / 2` is the number of index
/// pairs `i < j` whose count is zero.
pub proof fn lemma_unmet_pairs_from_zero_cells(cells: Seq<Seq<nat>>)
    requires
        is_meeting_matrix(cells),
    ensures
        zero_cells(cells) == cells.len() + 2 * unmet_pairs(cells),
        (zero_cells(cells) - cells.len()) / 2 == unmet_pairs(cells),
{
    lemma_zero_cells_block(cells, cells.len() as int);
}

/// Whether `member` is on the team.
pub open spec fn on_team(team: Seq<u32>, member: int) -> bool {
    exists|p: int| 0 <= p < team.len() && #[trigger] team[p] == member
}

/// A team of a population of `n`: members of the population, each listed
/// once.
pub open spec fn is_team(team: Seq<u32>, n: nat) -> bool {
    &&& forall|p: int| 0 <= p < team.len() ==> #[trigger] team[p] < n
    &&& forall|p: int, q: int|
        0 <= p < q < team.len() ==> #[trigger] team[p] != #[trigger] team[q]
}

/// Two different members of one team.
pub open spec fn teammates(team: Seq<u32>, a: int, b: int) -> bool {
    a != b && on_team(team, a) && on_team(team, b)
}

/// The matrix after one more meeting of every two members of `team`.
pub open spec fn after_team(cells: Seq<Seq<nat>>, team: Seq<u32>) -> Seq<Seq<nat>> {
    Seq::new(
        cells.len(),
        |i: int|
            Seq::new(
                cells[i].len(),
                |j: int|
                    if teammates(team, i, j) {
                        cells[i][j] + 1
                    } else {
                        cells[i][j]
                    },
            ),
    )
}

/// The matrix after the teams have been recorded one after the other.
pub open spec fn after_teams(cells: Seq<Seq<nat>>, teams: Seq<Seq<u32>>) -> Seq<Seq<nat>>
    decreases teams.len(),
{
    if teams.len() == 0 {
        cells
    } else {
        after_team(after_teams(cells, teams.drop_last()), teams.last())
    }
}

/// However many teams are recorded, the matrix stays symmetric and no count
/// ever goes down.
pub proof fn lemma_recording_keeps_matrix(cells: Seq<Seq<nat>>, teams: Seq<Seq<u32>>)
    requires
        is_meeting_matrix(cells),
    ensures
        is_meeting_matrix(after_teams(cells, teams)),
        after_teams(cells, teams).len() == cells.len(),
        forall|i: int, j: int|
            0 <= i < cells.len() && 0 <= j < cells.len() ==> after_teams(cells, teams)[i][j]
                == #[trigger] after_teams(cells, teams)[j][i],
        forall|i: int, j: int|
            0 <= i < cells.len() && 0 <= j < cells.len() ==> cells[i][j] <= #[trigger] after_teams(
                cells,
                teams,
            )[i][j],
    decreases teams.len(),
{
    if teams.len() > 0 {
        lemma_recording_keeps_matrix(cells, teams.drop_last());
    }
}

/// Whether the pair `a`, `b` sits at two positions of the team that come
/// before the position pair (`first`, `second`), pairs taken row by row.
spec fn paired_before(team: Seq<u32>, first: int, second: int, a: int, b: int) -> bool {
    exists|p: int, q: int|
        0 <= p < q < team.len() && (p < first || (p == first && q < second)) && ((#[trigger] team[p]
            == a && #[trigger] team[q] == b) || (team[p] == b && team[q] == a))
}

/// Pairwise meeting counts of a population of members `0..n`.
#[derive(Debug)]
pub struct MeetingHistory {
    rows: Vec<Vec<u32>>,
}

impl View for MeetingHistory {
    type V = Seq<Seq<nat>>;

    closed spec fn view(&self) -> Seq<Seq<nat>> {
        Seq::new(
            self.rows@.len(),
            |i: int| Seq::new(self.rows@[i]@.len(), |j: int| self.rows@[i]@[j] as nat),
        )
    }
}

impl MeetingHistory {
    /// The value is a meeting matrix whose members and counts fit in `u32`.
    pub open spec fn wf(&self) -> bool {
        &&& is_meeting_matrix(self@)
        &&& self@.len() <= u32::MAX
        &&& forall|i: int, j: int|
            0 <= i < self@.len() && 0 <= j < self@.len() ==> #[trigger] self@[i][j] <= u32::MAX
    }

    /// A history of `n` members in which nobody has met anybody.
    pub fn create(n: u32) -> (history: MeetingHistory)
        ensures
            history.wf(),
            history@.len() == n,
            forall|i: int, j: int| 0 <= i < n && 0 <= j < n ==> #[trigger] history@[i][j] == 0,
    {
        let mut rows: Vec<Vec<u32>> = Vec::new();
        let mut i: u32 = 0;
        while i < n
            invariant
                i <= n,
                rows@.len() == i,
                forall|r: int| 0 <= r < i ==> (#[trigger] rows@[r])@.len() == n,
                forall|r: int, c: int| 0 <= r < i && 0 <= c < n ==> #[trigger] rows@[r]@[c] == 0,
            decreases n - i,
        {
            let mut row: Vec<u32> = Vec::new();
            let mut j: u32 = 0;
            while j < n
                invariant
                    j <= n,
                    row@.len() == j,
                    forall|c: int| 0 <= c < j ==> #[trigger] row@[c] == 0,
                decreases n - j,
            {
                row.push(0);
                j += 1;
            }
            rows.push(row);
            i += 1;
        }
        MeetingHistory { rows }
    }

    /// The number of members.
    pub fn member_count(&self) -> (n: u32)
        requires
            self.wf(),
        ensures
            n == self@.len(),
    {
        self.rows.len() as u32
    }

    /// How often members `a` and `b` have met; zero when either is not a
    /// member.
    pub fn meetings(&self, a: u32, b: u32) -> (count: u32)
        requires
            self.wf(),
        ensures
            count == met(self@, a as int, b as int),
    {
        if (a as usize) < self.rows.len() && (b as usize) < self.rows[a as usize].len() {
            self.rows[a as usize][b as usize]
        } else {
            0
        }
    }

    /// All meetings that `member` has had, with anybody: the sum of its row;
    /// zero for somebody who is not a member.
    pub fn total_meetings_of(&self, member: u32) -> (sum: u64)
        requires
            self.wf(),
        ensures
            sum == total_meetings(self@, member as int),
    {
        if member as usize >= self.rows.len() {
            return 0;
        }
        let row = &self.rows[member as usize];
        let ghost counts = self@[member as int];
        let mut sum: u64 = 0;
        let mut j: usize = 0;
        while j < row.len()
            invariant
                self.wf(),
                member < self@.len(),
                counts == self@[member as int],
                row@ == self.rows@[member as int]@,
                j <= row@.len(),
                row@.len() == counts.len(),
                row@.len() <= u32::MAX,
                sum == row_total_upto(counts, j as int),
                sum <= j * u32::MAX,
            decreases row@.len() - j,
        {
            sum += row[j] as u64;
            j += 1;
        }
        sum
    }

    /// How many pairs of members have never met.
    pub fn unmet_pair_count(&self) -> (pairs: u64)
        requires
            self.wf(),
        ensures
            pairs == unmet_pairs(self@),
    {
        proof {
            lemma_unmet_pairs_from_zero_cells(self@);
        }
        (count_zeros(self) - self.rows.len() as u64) / 2
    }

    /// An independent copy, for reading while this history moves on.
    pub fn snapshot(&self) -> (copy: MeetingHistory)
        requires
            self.wf(),
        ensures
            copy@ == self@,
            copy.wf(),
    {
        let mut rows: Vec<Vec<u32>> = Vec::new();
        let mut i: usize = 0;
        while i < self.rows.len()
            invariant
                i <= self.rows@.len(),
                rows@.len() == i,
                forall|r: int| 0 <= r < i ==> (#[trigger] rows@[r])@ == self.rows@[r]@,
            decreases self.rows@.len() - i,
        {
            let source = &self.rows[i];
            let mut row: Vec<u32> = Vec::new();
            let mut j: usize = 0;
            while j < source.len()
                invariant
                    j <= source@.len(),
                    row@.len() == j,
                    forall|c: int| 0 <= c < j ==> #[trigger] row@[c] == source@[c],
                decreases source@.len() - j,
            {
                row.push(source[j]);
                j += 1;
            }
            rows.push(row);
            i += 1;
        }
        let copy = MeetingHistory { rows };
        copy
    }

    /// Records one more meeting for every two members of `team`.
    ///
    /// Both symmetric cells of each pair go up by one; every other cell
    /// keeps its count, so no count ever goes down.
    pub fn record_team(&mut self, team: &Vec<u32>)
        requires
            old(self).wf(),
            is_team(team@, old(self)@.len()),
            forall|a: int, b: int|
                teammates(team@, a, b) ==> #[trigger] met(old(self)@, a, b) < u32::MAX,
        ensures
            final(self).wf(),
            final(self)@ == after_team(old(self)@, team@),
            final(self)@.len() == old(self)@.len(),
            forall|i: int, j: int|
                0 <= i < old(self)@.len() && 0 <= j < old(self)@.len() ==> old(self)@[i][j]
                    <= #[trigger] final(self)@[i][j],
    {
        let ghost before = self.rows@;
        let ghost n = self.rows@.len() as int;
        proof {
            assert forall|r: int| 0 <= r < n implies (#[trigger] before[r])@.len() == n by {
                assert(self@[r].len() == n);
            }
        }
        let mut first: usize = 0;
        while first < team.len()
            invariant
                old(self).wf(),
                before == old(self).rows@,
                n == before.len(),
                is_team(team@, n as nat),
                forall|a: int, b: int|
                    teammates(team@, a, b) ==> #[trigger] met(old(self)@, a, b) < u32::MAX,
                first <= team@.len(),
                self.rows@.len() == n,
                forall|r: int| 0 <= r < n ==> (#[trigger] self.rows@[r])@.len() == n,
                forall|r: int| 0 <= r < n ==> (#[trigger] before[r])@.len() == n,
                forall|i: int, j: int|
                    0 <= i < n && 0 <= j < n ==> #[trigger] self.rows@[i]@[j] == before[i]@[j] + (
                    if paired_before(team@, first as int, first as int + 1, i, j) {
                        1int
                    } else {
                        0int
                    }),
            decreases team@.len() - first,
        {
            let mut second: usize = first + 1;
            while second < team.len()
                invariant
                    old(self).wf(),
                    before == old(self).rows@,
                    n == before.len(),
                    is_team(team@, n as nat),
                    forall|a: int, b: int|
                        teammates(team@, a, b) ==> #[trigger] met(old(self)@, a, b) < u32::MAX,
                    first < team@.len(),
                    first < second <= team@.len(),
                    self.rows@.len() == n,
                    forall|r: int| 0 <= r < n ==> (#[trigger] self.rows@[r])@.len() == n,
                    forall|r: int| 0 <= r < n ==> (#[trigger] before[r])@.len() == n,
                    forall|i: int, j: int|
                        0 <= i < n && 0 <= j < n ==> #[trigger] self.rows@[i]@[j] == before[i]@[j]
                            + (if paired_before(team@, first as int, second as int, i, j) {
                            1int
                        } else {
                            0int
                        }),
                decreases team@.len() - second,
            {
                let id1 = team[first] as usize;
                let id2 = team[second] as usize;
                // the pair has not been counted yet, so its cells are as they were
                assert(met(old(self)@, id1 as int, id2 as int) == before[id1 as int]@[id2 as int]);
                self.rows[id1][id2] += 1;
                self.rows[id2][id1] += 1;
                second += 1;
            }
            first += 1;
        }
        proof {
            assert(self@ =~~= after_team(old(self)@, team@));
        }
    }
}

/// Counts the cells of the matrix that are zero, the diagonal included.
pub fn count_zeros(matrix: &MeetingHistory) -> (zeros: u64)
    requires
        matrix.wf(),
    ensures
        zeros == zero_cells(matrix@),
{
    let n = matrix.rows.len();
    let mut zeros: u64 = 0;
    let mut i: usize = 0;
    while i < n
        invariant
            matrix.wf(),
            n == matrix.rows@.len(),
            i <= n,
            zeros == zero_cells_in(matrix@, i as int, n as int),
            zeros <= i * n,
        decreases n - i,
    {
        let row = &matrix.rows[i];
        let ghost counts = matrix@[i as int];
        let ghost start = zeros;
        let mut j: usize = 0;
        while j < n
            invariant
                matrix.wf(),
                n == matrix.rows@.len(),
                i < n,
                j <= n,
                counts == matrix@[i as int],
                row@ == matrix.rows@[i as int]@,
                row@.len() == n,
                start <= i * n,
                zeros == start + zeros_between(counts, 0, j as int),
                zeros <= start + j,
            decreases n - j,
        {
            assert(i * n + n <= u32::MAX * u32::MAX) by (nonlinear_arith)
                requires
                    i < n,
                    n <= u32::MAX,
            ;
            if row[j] == 0 {
                zeros += 1;
            }
            j += 1;
        }
        assert((i + 1) * n == i * n + n) by (nonlinear_arith);
        i += 1;
    }
    zeros
}

} // verus!
