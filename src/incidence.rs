//! The binary incidence relation between assemblies (rows) and parts (columns).

use vstd::prelude::*;

verus! {

/// Why a list of matrix entries could not be turned into an incidence relation.
#[derive(Debug, Clone, Copy, PartialEq, Eq, Structural)]
pub enum IncidenceError {
    /// The row, column and value lists have different lengths.
    LengthMismatch,
    /// Some entry names a row or column outside the matrix shape.
    IndexOutOfRange,
}

/// Whether `row` has at least one required part.
pub open spec fn is_valid(row: Seq<usize>) -> bool {
    row.len() > 0
}

/// The validity of the row at each index.
pub open spec fn valid_at(rows: Seq<Seq<usize>>) -> spec_fn(int) -> bool {
    |r: int| is_valid(rows[r])
}

/// Number of rows with at least one required part.
pub open spec fn total_valid(rows: Seq<Seq<usize>>) -> nat {
    crate::counting::count_upto(rows.len() as int, valid_at(rows))
}

/// Whether entry `k` of the lists marks part `c` as required by assembly `r`.
pub open spec fn entry_requires(
    rows: Seq<usize>,
    cols: Seq<usize>,
    vals: Seq<i32>,
    k: int,
    r: int,
    c: int,
) -> bool {
    rows[k] == r && cols[k] == c && vals[k] > 0
}

/// Whether every entry of the lists lies inside an `nr` by `nc` matrix.
pub open spec fn entries_in_range(rows: Seq<usize>, cols: Seq<usize>, nr: int, nc: int) -> bool {
    forall|k: int| 0 <= k < rows.len() ==> #[trigger] rows[k] < nr && cols[k] < nc
}

/// An immutable sparse binary matrix: rows are assemblies, columns are parts.
/// Both the row view (parts of each assembly) and the column view
/// (assemblies of each part) are kept.
pub struct Incidence {
    num_parts: usize,
    row_parts: Vec<Vec<usize>>,
    part_rows: Vec<Vec<usize>>,
}

/// Whether `v` holds `x`.
fn holds_index(v: &Vec<usize>, x: usize) -> (b: bool)
    ensures
        b == v@.contains(x),
{
    let mut i: usize = 0;
    while i < v.len()
        invariant
            0 <= i <= v@.len(),
            forall|j: int| 0 <= j < i ==> v@[j] != x,
        decreases v@.len() - i,
    {
        if v[i] == x {
            return true;
        }
        i = i + 1;
    }
    false
}

/// A vector of `n` empty lists.
fn empty_lists(n: usize) -> (v: Vec<Vec<usize>>)
    ensures
        v@.len() == n,
        forall|i: int| 0 <= i < n ==> (#[trigger] v@[i])@.len() == 0,
{
    let mut v: Vec<Vec<usize>> = Vec::new();
    let mut i: usize = 0;
    while i < n
        invariant
            0 <= i <= n,
            v@.len() == i,
            forall|j: int| 0 <= j < i ==> (#[trigger] v@[j])@.len() == 0,
        decreases n - i,
    {
        v.push(Vec::new());
        i = i + 1;
    }
    v
}

/// Whether every entry lies inside an `nr` by `nc` matrix.
fn check_ranges(rows: &Vec<usize>, cols: &Vec<usize>, nr: usize, nc: usize) -> (b: bool)
    requires
        rows@.len() == cols@.len(),
    ensures
        b == entries_in_range(rows@, cols@, nr as int, nc as int),
{
    let mut k: usize = 0;
    while k < rows.len()
        invariant
            0 <= k <= rows@.len(),
            rows@.len() == cols@.len(),
            forall|j: int| 0 <= j < k ==> #[trigger] rows@[j] < nr && cols@[j] < nc,
        decreases rows@.len() - k,
    {
        if rows[k] >= nr || cols[k] >= nc {
            return false;
        }
        k = k + 1;
    }
    true
}

impl Incidence {
    /// The required parts of each assembly.
    pub closed spec fn rows(&self) -> Seq<Seq<usize>> {
        self.row_parts@.map_values(|v: Vec<usize>| v@)
    }

    /// The assemblies requiring each part.
    pub closed spec fn cols(&self) -> Seq<Seq<usize>> {
        self.part_rows@.map_values(|v: Vec<usize>| v@)
    }

    /// The number of parts (columns).
    pub closed spec fn parts(&self) -> nat {
        self.num_parts as nat
    }

    /// Whether assembly `r` requires part `c`.
    pub open spec fn needs(&self, r: int, c: int) -> bool {
        self.rows()[r].contains(c as usize)
    }

    /// Well-formedness: indices are in range, no list repeats an index, and
    /// the two views describe the same relation.
    pub open spec fn wf(&self) -> bool {
        &&& self.cols().len() == self.parts()
        &&& forall|r: int, i: int|
            0 <= r < self.rows().len() && 0 <= i < self.rows()[r].len() ==> #[trigger] self.rows()[r][i]
                < self.parts()
        &&& forall|r: int| 0 <= r < self.rows().len() ==> #[trigger] self.rows()[r].no_duplicates()
        &&& forall|c: int, j: int|
            0 <= c < self.parts() && 0 <= j < self.cols()[c].len() ==> #[trigger] self.cols()[c][j]
                < self.rows().len()
        &&& forall|c: int| 0 <= c < self.parts() ==> #[trigger] self.cols()[c].no_duplicates()
        &&& forall|c: int, r: int|
            0 <= c < self.parts() && 0 <= r < self.rows().len() ==> (#[trigger] self.cols()[c].contains(
                r as usize,
            ) <==> #[trigger] self.rows()[r].contains(c as usize))
    }

    /// The occupancy of each part: how many assemblies require it.
    pub open spec fn occupancy_spec(&self) -> Seq<usize> {
        Seq::new(self.parts(), |c: int| self.cols()[c].len() as usize)
    }


    /// Builds the relation of an `num_rows` by `num_parts` matrix from its
    /// entries (`rows[k]`, `cols[k]`, `vals[k]`): assembly `r` requires part
    /// `c` when some entry at `(r, c)` has a positive value.
    pub fn from_entries(
        num_rows: usize,
        num_parts: usize,
        rows: &Vec<usize>,
        cols: &Vec<usize>,
        vals: &Vec<i32>,
    ) -> (res: Result<Incidence, IncidenceError>)
        ensures
            res is Err <==> !(rows@.len() == cols@.len() && cols@.len() == vals@.len()
                && entries_in_range(rows@, cols@, num_rows as int, num_parts as int)),
            res == Err::<Incidence, IncidenceError>(IncidenceError::LengthMismatch) <==> !(
            rows@.len() == cols@.len() && cols@.len() == vals@.len()),
            res matches Ok(m) ==> {
                &&& m.wf()
                &&& m.rows().len() == num_rows
                &&& m.parts() == num_parts
                &&& forall|r: int, c: int|
                    0 <= r < num_rows && 0 <= c < num_parts ==> (#[trigger] m.needs(r, c) <==> exists|
                        k: int,
                    | 0 <= k < rows@.len() && #[trigger] entry_requires(rows@, cols@, vals@, k, r, c))
            },
    {
        if rows.len() != cols.len() || cols.len() != vals.len() {
            return Err(IncidenceError::LengthMismatch);
        }
        if !check_ranges(rows, cols, num_rows, num_parts) {
            return Err(IncidenceError::IndexOutOfRange);
        }
        let mut row_parts = empty_lists(num_rows);
        let mut k: usize = 0;
        while k < rows.len()
            invariant
                0 <= k <= rows@.len(),
                rows@.len() == cols@.len(),
                cols@.len() == vals@.len(),
                entries_in_range(rows@, cols@, num_rows as int, num_parts as int),
                row_parts@.len() == num_rows,
                forall|r: int, i: int|
                    0 <= r < num_rows && 0 <= i < row_parts@[r]@.len() ==> #[trigger] row_parts@[r]@[i]
                        < num_parts,
                forall|r: int| 0 <= r < num_rows ==> (#[trigger] row_parts@[r])@.no_duplicates(),
                forall|r: int, c: int|
                    0 <= r < num_rows && 0 <= c < num_parts ==> (#[trigger] row_parts@[r]@.contains(
                        c as usize,
                    ) <==> exists|j: int|
                        0 <= j < k && #[trigger] entry_requires(rows@, cols@, vals@, j, r, c)),
            decreases rows@.len() - k,
        {
            let r = rows[k];
            let c = cols[k];
            assert(r < num_rows && c < num_parts);
            let ghost before = row_parts@;
            if vals[k] > 0 && !holds_index(&row_parts[r], c) {
                row_parts[r].push(c);
                proof {
                    assert(row_parts@[r as int]@ == before[r as int]@.push(c));
                    assert forall|x: usize| #[trigger]
                        row_parts@[r as int]@.contains(x) <==> (before[r as int]@.contains(x) || x
                            == c) by {
                        if row_parts@[r as int]@.contains(x) {
                            let j = choose|j: int|
                                0 <= j < row_parts@[r as int]@.len() && row_parts@[r as int]@[j] == x;
                            if j < before[r as int]@.len() {
                                assert(before[r as int]@[j] == x);
                            }
                        }
                        if x == c {
                            assert(row_parts@[r as int]@[before[r as int]@.len() as int] == c);
                        }
                        if before[r as int]@.contains(x) {
                            let j = choose|j: int|
                                0 <= j < before[r as int]@.len() && before[r as int]@[j] == x;
                            assert(row_parts@[r as int]@[j] == x);
                        }
                    }
                }
            }
            assert forall|rr: int| 0 <= rr < num_rows && rr != r implies #[trigger] row_parts@[rr]
                == before[rr] by {}
            assert forall|rr: int, cc: int|
                0 <= rr < num_rows && 0 <= cc < num_parts implies (#[trigger] row_parts@[rr]@.contains(
                cc as usize,
            ) <==> exists|j: int|
                0 <= j < k + 1 && #[trigger] entry_requires(rows@, cols@, vals@, j, rr, cc)) by {
                if rr == r && cc == c && vals@[k as int] > 0 {
                    assert(entry_requires(rows@, cols@, vals@, k as int, rr, cc));
                    if before[rr]@.contains(cc as usize) {
                        let j = choose|j: int| 0 <= j < before[rr]@.len() && before[rr]@[j] == cc;
                        assert(row_parts@[rr]@[j] == cc);
                    }
                    assert(row_parts@[rr]@.contains(cc as usize));
                } else {
                    if exists|j: int|
                        0 <= j < k + 1 && #[trigger] entry_requires(rows@, cols@, vals@, j, rr, cc) {
                        let j = choose|j: int|
                            0 <= j < k + 1 && #[trigger] entry_requires(rows@, cols@, vals@, j, rr, cc);
                        assert(j != k);
                    }
                }
            }
            k = k + 1;
        }
        let mut part_rows = empty_lists(num_parts);
        let mut r: usize = 0;
        while r < num_rows
            invariant
                0 <= r <= num_rows,
                row_parts@.len() == num_rows,
                part_rows@.len() == num_parts,
                forall|rr: int, i: int|
                    0 <= rr < num_rows && 0 <= i < row_parts@[rr]@.len() ==> #[trigger] row_parts@[rr]@[i]
                        < num_parts,
                forall|rr: int| 0 <= rr < num_rows ==> (#[trigger] row_parts@[rr])@.no_duplicates(),
                forall|c: int, j: int|
                    0 <= c < num_parts && 0 <= j < part_rows@[c]@.len() ==> #[trigger] part_rows@[c]@[j]
                        < r,
                forall|c: int| 0 <= c < num_parts ==> (#[trigger] part_rows@[c])@.no_duplicates(),
                forall|c: int, rr: int|
                    0 <= c < num_parts && 0 <= rr < r ==> (#[trigger] part_rows@[c]@.contains(
                        rr as usize,
                    ) <==> #[trigger] row_parts@[rr]@.contains(c as usize)),
            decreases num_rows - r,
        {
            let here = &row_parts[r];
            let mut i: usize = 0;
            while i < here.len()
                invariant
                    0 <= i <= here@.len(),
                    r < num_rows,
                    row_parts@.len() == num_rows,
                    here@ == row_parts@[r as int]@,
                    here@.no_duplicates(),
                    part_rows@.len() == num_parts,
                    forall|j: int| 0 <= j < here@.len() ==> #[trigger] here@[j] < num_parts,
                    forall|c: int, j: int|
                        0 <= c < num_parts && 0 <= j < part_rows@[c]@.len() ==> #[trigger] part_rows@[c]@[j]
                            <= r,
                    forall|c: int| 0 <= c < num_parts ==> (#[trigger] part_rows@[c])@.no_duplicates(),
                    forall|c: int, rr: int|
                        0 <= c < num_parts && 0 <= rr < r ==> (#[trigger] part_rows@[c]@.contains(
                            rr as usize,
                        ) <==> #[trigger] row_parts@[rr]@.contains(c as usize)),
                    forall|c: int|
                        0 <= c < num_parts ==> (#[trigger] part_rows@[c]@.contains(r) <==> here@.take(
                            i as int,
                        ).contains(c as usize)),
                decreases here@.len() - i,
            {
                let c = here[i];
                proof {
                    if part_rows@[c as int]@.contains(r) {
                        let j = choose|j: int| 0 <= j < i && here@.take(i as int)[j] == c;
                        assert(here@[j] == here@[i as int]);
                    }
                }
                let ghost before = part_rows@;
                part_rows[c].push(r);
                proof {
                    assert(part_rows@[c as int]@ == before[c as int]@.push(r));
                    assert forall|cc: int| 0 <= cc < num_parts && cc != c implies #[trigger] part_rows@[cc]
                        == before[cc] by {}
                    assert forall|x: usize| #[trigger]
                        part_rows@[c as int]@.contains(x) <==> (before[c as int]@.contains(x) || x
                            == r) by {
                        if part_rows@[c as int]@.contains(x) {
                            let j = choose|j: int|
                                0 <= j < part_rows@[c as int]@.len() && part_rows@[c as int]@[j] == x;
                            if j < before[c as int]@.len() {
                                assert(before[c as int]@[j] == x);
                            }
                        }
                        if x == r {
                            assert(part_rows@[c as int]@[before[c as int]@.len() as int] == r);
                        }
                        if before[c as int]@.contains(x) {
                            let j = choose|j: int|
                                0 <= j < before[c as int]@.len() && before[c as int]@[j] == x;
                            assert(part_rows@[c as int]@[j] == x);
                        }
                    }
                    assert forall|cc: int|
                        0 <= cc < num_parts implies (#[trigger] part_rows@[cc]@.contains(r) <==> here@.take(
                        i + 1,
                    ).contains(cc as usize)) by {
                        let t = here@.take(i as int);
                        assert(here@.take(i + 1) == t.push(c));
                        if t.push(c).contains(cc as usize) {
                            let j = choose|j: int| 0 <= j < t.len() + 1 && t.push(c)[j] == cc;
                            if j < t.len() {
                                assert(t[j] == cc);
                            }
                        }
                        if t.contains(cc as usize) {
                            let j = choose|j: int| 0 <= j < t.len() && t[j] == cc;
                            assert(t.push(c)[j] == cc);
                        }
                        if cc == c {
                            assert(t.push(c)[t.len() as int] == cc);
                        }
                    }
                }
                i = i + 1;
            }
            assert(here@.take(here@.len() as int) == here@);
            r = r + 1;
        }
        let m = Incidence { num_parts, row_parts, part_rows };
        proof {
            assert(m.rows() =~= m.row_parts@.map_values(|v: Vec<usize>| v@));
        }
        Ok(m)
    }

    /// The parts required by assembly `r`.
    pub fn assembly_parts(&self, r: usize) -> (v: &Vec<usize>)
        requires
            r < self.rows().len(),
        ensures
            v@ == self.rows()[r as int],
    {
        &self.row_parts[r]
    }

    /// The assemblies requiring part `c`.
    pub fn part_assemblies(&self, c: usize) -> (v: &Vec<usize>)
        requires
            self.wf(),
            c < self.parts(),
        ensures
            v@ == self.cols()[c as int],
    {
        &self.part_rows[c]
    }

    /// For each part, the number of assemblies that require it.
    pub fn occupancy(&self) -> (occ: Vec<usize>)
        requires
            self.wf(),
        ensures
            occ@ == self.occupancy_spec(),
    {
        let mut occ: Vec<usize> = Vec::new();
        let mut c: usize = 0;
        while c < self.num_parts
            invariant
                self.wf(),
                0 <= c <= self.parts(),
                occ@.len() == c,
                forall|j: int| 0 <= j < c ==> #[trigger] occ@[j] == self.cols()[j].len(),
            decreases self.parts() - c,
        {
            occ.push(self.part_rows[c].len());
            c = c + 1;
        }
        assert(occ@ =~= self.occupancy_spec());
        occ
    }

    /// The number of assemblies with at least one required part.
    pub fn total_valid(&self) -> (n: usize)
        ensures
            n == total_valid(self.rows()),
    {
        let mut n: usize = 0;
        let mut r: usize = 0;
        while r < self.row_parts.len()
            invariant
                0 <= r <= self.rows().len(),
                self.rows().len() == self.row_parts@.len(),
                n == crate::counting::count_upto(r as int, valid_at(self.rows())),
            decreases self.rows().len() - r,
        {
            proof {
                crate::counting::lemma_count_bound(r as int, valid_at(self.rows()));
            }
            if self.row_parts[r].len() > 0 {
                n = n + 1;
            }
            r = r + 1;
        }
        n
    }

    /// The number of parts (columns).
    pub fn num_parts(&self) -> (n: usize)
        ensures
            n == self.parts(),
    {
        self.num_parts
    }

    /// The number of assemblies (rows).
    pub fn num_assemblies(&self) -> (n: usize)
        ensures
            n == self.rows().len(),
    {
        self.row_parts.len()
    }
}

} // verus!
