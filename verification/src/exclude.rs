//! Dropping the rows whose units occur in reference texts.
//!
//! Units are matched by fingerprint, not by text: two different texts with
//! one fingerprint count as one, so a unit may go although the references
//! do not hold it. With 64 bits this is rare, and it is accepted.

use vstd::prelude::*;
use std::collections::HashSet;
use crate::error::SampleError;
use crate::text::{fingerprint, fingerprint_of};
use crate::views::{columns, sets, texts};

verus! {

broadcast use vstd::std_specs::hash::group_hash_axioms;

/// Whether the unit at `row` of column `c` has its fingerprint in the
/// reference set of that column.
pub open spec fn hit(
    data: Seq<Seq<Seq<char>>>,
    references: Seq<Set<u64>>,
    c: int,
    row: int,
) -> bool {
    &&& 0 <= c < data.len()
    &&& c < references.len()
    &&& 0 <= row < data[c].len()
    &&& references[c].contains(fingerprint_of(data[c][row]))
}

/// Whether `row` is to go: some column has a hit there. A row goes from
/// every column as soon as one column matches, so that the columns stay
/// aligned row by row.
pub open spec fn marked(data: Seq<Seq<Seq<char>>>, references: Seq<Set<u64>>, row: int) -> bool {
    exists|c: int| hit(data, references, c, row)
}

/// Whether a hit at `row` lies in a column before `c`, or in column `c`
/// itself above row `r`.
pub open spec fn marked_by(
    data: Seq<Seq<Seq<char>>>,
    references: Seq<Set<u64>>,
    row: int,
    c: int,
    r: int,
) -> bool {
    exists|k: int| hit(data, references, k, row) && (k < c || (k == c && row < r))
}

/// The rows below `n` that stay, in ascending order.
pub open spec fn kept_rows(data: Seq<Seq<Seq<char>>>, references: Seq<Set<u64>>, n: nat) -> Seq<
    int,
>
    decreases n,
{
    if n == 0 {
        Seq::empty()
    } else if marked(data, references, n - 1) {
        kept_rows(data, references, (n - 1) as nat)
    } else {
        kept_rows(data, references, (n - 1) as nat).push(n - 1)
    }
}

/// The units of a column at the given rows.
pub open spec fn pick_rows(column: Seq<Seq<char>>, rows: Seq<int>) -> Seq<Seq<char>> {
    Seq::new(rows.len(), |k: int| column[rows[k]])
}

/// The data without the rows that are to go.
pub open spec fn filtered(data: Seq<Seq<Seq<char>>>, references: Seq<Set<u64>>) -> Seq<
    Seq<Seq<char>>,
> {
    Seq::new(
        data.len(),
        |c: int| pick_rows(data[c], kept_rows(data, references, data[c].len())),
    )
}

/// For each row, whether it is to go. The answer covers every row of every
/// column.
pub fn mark_rows(data: &Vec<Vec<String>>, exclude: &Vec<HashSet<u64>>) -> (marks: Vec<bool>)
    requires
        data.len() == exclude.len(),
    ensures
        forall|c: int| 0 <= c < data.len() ==> data[c].len() <= marks.len(),
        forall|row: int|
            0 <= row < marks.len() ==> marks[row] == marked(
                columns(data@),
                sets(exclude@),
                row,
            ),
{
    let ghost d = columns(data@);
    let ghost e = sets(exclude@);
    let mut marks: Vec<bool> = Vec::new();
    let mut c: usize = 0;
    while c < data.len()
        invariant
            c <= data.len(),
            data.len() == exclude.len(),
            d == columns(data@),
            e == sets(exclude@),
            forall|k: int| 0 <= k < c ==> data[k].len() <= marks.len(),
            forall|row: int| 0 <= row < marks.len() ==> marks[row] == marked_by(d, e, row, c as int, 0),
        decreases data.len() - c,
    {
        let column: &Vec<String> = &data[c];
        let mut row: usize = 0;
        while row < column.len()
            invariant
                row <= column.len(),
                c < data.len(),
                data.len() == exclude.len(),
                column == data[c as int],
                d == columns(data@),
                e == sets(exclude@),
                row <= marks.len(),
                forall|k: int| 0 <= k < c ==> data[k].len() <= marks.len(),
                forall|x: int|
                    0 <= x < marks.len() ==> marks[x] == marked_by(d, e, x, c as int, row as int),
            decreases column.len() - row,
        {
            let h: u64 = fingerprint(column[row].as_str());
            let found: bool = exclude[c].contains(&h);
            let ghost before: Seq<bool> = marks@;
            proof {
                assert(d[c as int][row as int] == column[row as int]@);
                assert(e[c as int] == exclude[c as int]@);
                assert(found == hit(d, e, c as int, row as int));
            }
            if row < marks.len() {
                if found {
                    marks.set(row, true);
                }
            } else {
                marks.push(found);
            }
            proof {
                assert forall|x: int| 0 <= x < marks.len() implies marks[x] == marked_by(
                    d,
                    e,
                    x,
                    c as int,
                    row + 1,
                ) by {
                    if x == row {
                        if x < before.len() {
                            assert(before[x] == marked_by(d, e, x, c as int, row as int));
                        } else {
                            if marked_by(d, e, x, c as int, row as int) {
                                let k = choose|k: int|
                                    hit(d, e, k, x) && (k < c || (k == c && x < row));
                                assert(data[k].len() <= before.len());
                                assert(d[k].len() == data[k].len());
                            }
                        }
                        if marked_by(d, e, x, c as int, row + 1) {
                            let k = choose|k: int|
                                hit(d, e, k, x) && (k < c || (k == c && x < row + 1));
                            if k < c {
                                assert(marked_by(d, e, x, c as int, row as int));
                            }
                        }
                        if found {
                            assert(hit(d, e, c as int, x));
                        }
                    } else {
                        assert(before[x] == marked_by(d, e, x, c as int, row as int));
                        if marked_by(d, e, x, c as int, row + 1) {
                            let k = choose|k: int|
                                hit(d, e, k, x) && (k < c || (k == c && x < row + 1));
                            assert(hit(d, e, k, x) && (k < c || (k == c && x < row)));
                        }
                        if marked_by(d, e, x, c as int, row as int) {
                            let k = choose|k: int|
                                hit(d, e, k, x) && (k < c || (k == c && x < row));
                            assert(hit(d, e, k, x) && (k < c || (k == c && x < row + 1)));
                        }
                    }
                }
            }
            row = row + 1;
        }
        proof {
            assert forall|x: int| 0 <= x < marks.len() implies marks[x] == marked_by(
                d,
                e,
                x,
                c + 1,
                0,
            ) by {
                if marked_by(d, e, x, c as int, row as int) {
                    let k = choose|k: int| hit(d, e, k, x) && (k < c || (k == c && x < row));
                    assert(hit(d, e, k, x) && (k < c + 1 || (k == c + 1 && x < 0)));
                }
                if marked_by(d, e, x, c + 1, 0) {
                    let k = choose|k: int| hit(d, e, k, x) && (k < c + 1 || (k == c + 1 && x < 0));
                    assert(d[c as int].len() == column.len());
                    assert(hit(d, e, k, x) && (k < c || (k == c && x < row)));
                }
            }
        }
        c = c + 1;
    }
    proof {
        assert forall|x: int| 0 <= x < marks.len() implies marks[x] == marked(d, e, x) by {
            if marked(d, e, x) {
                let k = choose|k: int| hit(d, e, k, x);
                assert(hit(d, e, k, x) && (k < c || (k == c && x < 0)));
            }
        }
    }
    marks
}

/// Removes from every column the rows at which some column holds a unit
/// whose fingerprint is in the reference set of that column. There must be
/// one reference set for each column; else nothing is removed and the
/// mismatch is the error. Columns of equal length stay row-aligned: the same
/// rows go from each.
pub fn apply_exclude(data: &mut Vec<Vec<String>>, exclude: &Vec<HashSet<u64>>) -> (r: Result<
    (),
    SampleError,
>)
    ensures
        old(data).len() != exclude.len() ==> *final(data) == *old(data) && r == Err::<
            (),
            SampleError,
        >(SampleError::ExcludeCount { columns: old(data).len(), references: exclude.len() }),
        old(data).len() == exclude.len() ==> r is Ok && columns(final(data)@) == filtered(
            columns(old(data)@),
            sets(exclude@),
        ),
{
    if data.len() != exclude.len() {
        return Err(SampleError::ExcludeCount { columns: data.len(), references: exclude.len() });
    }
    let marks: Vec<bool> = mark_rows(data, exclude);
    let ghost d = columns(data@);
    let ghost e = sets(exclude@);
    let mut result: Vec<Vec<String>> = Vec::new();
    let mut c: usize = 0;
    while c < data.len()
        invariant
            c <= data.len(),
            d == columns(data@),
            e == sets(exclude@),
            forall|k: int| 0 <= k < data.len() ==> data[k].len() <= marks.len(),
            forall|row: int| 0 <= row < marks.len() ==> marks[row] == marked(d, e, row),
            result.len() == c,
            forall|k: int|
                0 <= k < c ==> texts(#[trigger] result[k]@) == pick_rows(
                    d[k],
                    kept_rows(d, e, d[k].len()),
                ),
        decreases data.len() - c,
    {
        let column: &Vec<String> = &data[c];
        let mut kept: Vec<String> = Vec::new();
        let mut row: usize = 0;
        while row < column.len()
            invariant
                row <= column.len(),
                column.len() <= marks.len(),
                c < data.len(),
                column == data[c as int],
                d == columns(data@),
                forall|x: int| 0 <= x < marks.len() ==> marks[x] == marked(d, e, x),
                texts(kept@) == pick_rows(d[c as int], kept_rows(d, e, row as nat)),
            decreases column.len() - row,
        {
            let ghost held: Seq<Seq<char>> = texts(kept@);
            if !marks[row] {
                kept.push(column[row].clone());
                proof {
                    assert(d[c as int][row as int] == column[row as int]@);
                    assert(texts(kept@) =~= held.push(column[row as int]@));
                    assert(texts(kept@) =~= pick_rows(
                        d[c as int],
                        kept_rows(d, e, (row + 1) as nat),
                    ));
                }
            }
            row = row + 1;
        }
        proof {
            assert(d[c as int].len() == column.len());
        }
        result.push(kept);
        c = c + 1;
    }
    proof {
        assert(columns(result@) =~= filtered(d, e));
    }
    *data = result;
    Ok(())
}

/// The rows that stay are rows of the column, none of them marked, in
/// ascending order, and every row that is not marked is among them.
pub proof fn lemma_kept_rows(data: Seq<Seq<Seq<char>>>, references: Seq<Set<u64>>, n: nat)
    ensures
        forall|k: int|
            0 <= k < kept_rows(data, references, n).len() ==> 0 <= (#[trigger] kept_rows(
                data,
                references,
                n,
            )[k]) < n && !marked(data, references, kept_rows(data, references, n)[k]),
        forall|k: int, m: int|
            0 <= k < m < kept_rows(data, references, n).len() ==> kept_rows(data, references, n)[k]
                < kept_rows(data, references, n)[m],
        forall|row: int|
            0 <= row < n && !marked(data, references, row) ==> kept_rows(
                data,
                references,
                n,
            ).contains(row),
    decreases n,
{
    if n > 0 {
        let before = kept_rows(data, references, (n - 1) as nat);
        let now = kept_rows(data, references, n);
        lemma_kept_rows(data, references, (n - 1) as nat);
        assert forall|row: int| 0 <= row < n && !marked(data, references, row) implies now.contains(
            row,
        ) by {
            if row < n - 1 {
                assert(before.contains(row));
                let k = choose|k: int| 0 <= k < before.len() && before[k] == row;
                assert(now[k] == row);
            } else {
                assert(now[now.len() - 1] == row);
            }
        }
    }
}

/// After the exclusion no unit is left whose fingerprint is in the reference
/// set of its column, and every unit that is left was a unit of its column.
pub proof fn lemma_no_match_survives(
    data: Seq<Seq<Seq<char>>>,
    references: Seq<Set<u64>>,
    c: int,
    k: int,
)
    requires
        0 <= c < data.len(),
        c < references.len(),
        0 <= k < filtered(data, references)[c].len(),
    ensures
        !references[c].contains(fingerprint_of(filtered(data, references)[c][k])),
        data[c].contains(filtered(data, references)[c][k]),
{
    lemma_kept_rows(data, references, data[c].len());
    let row = kept_rows(data, references, data[c].len())[k];
    assert(filtered(data, references)[c][k] == data[c][row]);
    assert(!marked(data, references, row));
    assert(!hit(data, references, c, row));
}

/// Two columns of one length lose the same rows: after the exclusion they
/// are of one length again, and what stands at one place in both stood in
/// one row before. The rows that stay keep their order.
pub proof fn lemma_rows_stay_aligned(
    data: Seq<Seq<Seq<char>>>,
    references: Seq<Set<u64>>,
    a: int,
    b: int,
)
    requires
        0 <= a < data.len(),
        0 <= b < data.len(),
        data[a].len() == data[b].len(),
    ensures
        filtered(data, references)[a].len() == filtered(data, references)[b].len(),
        forall|k: int|
            0 <= k < filtered(data, references)[a].len() ==> {
                let row = kept_rows(data, references, data[a].len())[k];
                &&& 0 <= row < data[a].len()
                &&& #[trigger] filtered(data, references)[a][k] == data[a][row]
                &&& filtered(data, references)[b][k] == data[b][row]
            },
        forall|k: int, m: int|
            0 <= k < m < filtered(data, references)[a].len() ==> kept_rows(
                data,
                references,
                data[a].len(),
            )[k] < kept_rows(data, references, data[a].len())[m],
{
    lemma_kept_rows(data, references, data[a].len());
}

/// A unit whose row no column marks is still there after the exclusion.
pub proof fn lemma_unmatched_rows_stay(
    data: Seq<Seq<Seq<char>>>,
    references: Seq<Set<u64>>,
    c: int,
    row: int,
)
    requires
        0 <= c < data.len(),
        0 <= row < data[c].len(),
        !marked(data, references, row),
    ensures
        filtered(data, references)[c].contains(data[c][row]),
{
    lemma_kept_rows(data, references, data[c].len());
    let rows = kept_rows(data, references, data[c].len());
    let k = choose|k: int| 0 <= k < rows.len() && rows[k] == row;
    assert(filtered(data, references)[c][k] == data[c][row]);
}

} // verus!
