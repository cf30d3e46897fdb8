//! Cutting an input into units: line by line, or block by block where a
//! delimiter line separates the blocks.

use vstd::prelude::*;
use std::collections::HashSet;
use crate::error::SampleError;
use crate::text::{end_line, fingerprint, fingerprint_of, trim, trimmed};
use crate::views::{opt_text, texts};

verus! {

broadcast use vstd::std_specs::hash::group_hash_axioms;

/// The texts of input lines; a line that could not be read counts as empty.
pub open spec fn line_texts(lines: Seq<Option<String>>) -> Seq<Seq<char>> {
    Seq::new(
        lines.len(),
        |i: int|
            match lines[i] {
                Some(s) => s@,
                None => Seq::empty(),
            },
    )
}

/// Whether line `k` is the first that could not be read.
pub open spec fn first_unreadable(lines: Seq<Option<String>>, k: int) -> bool {
    &&& 0 <= k < lines.len()
    &&& lines[k] is None
    &&& forall|j: int| 0 <= j < k ==> lines[j] is Some
}

/// Whether every line could be read.
pub open spec fn all_readable(lines: Seq<Option<String>>) -> bool {
    forall|j: int| 0 <= j < lines.len() ==> lines[j] is Some
}

/// Whether a line separates two units: trimmed, it is the delimiter.
pub open spec fn is_break(line: Seq<char>, delimiter: Seq<char>) -> bool {
    trimmed(line) == delimiter
}

/// A unit under way with one more line: lines are joined by a line feed,
/// and an empty unit takes the line as it is.
pub open spec fn extend(buffer: Seq<char>, line: Seq<char>) -> Seq<char> {
    if buffer.len() == 0 {
        line
    } else {
        buffer.push('\n') + line
    }
}

/// The unit that is under way after the given lines.
pub open spec fn open_block(lines: Seq<Seq<char>>, delimiter: Seq<char>) -> Seq<char>
    decreases lines.len(),
{
    if lines.len() == 0 {
        Seq::empty()
    } else if is_break(lines.last(), delimiter) {
        Seq::empty()
    } else {
        extend(open_block(lines.drop_last(), delimiter), lines.last())
    }
}

/// The units that the given lines have closed: one for each separating line.
pub open spec fn blocks(lines: Seq<Seq<char>>, delimiter: Seq<char>) -> Seq<Seq<char>>
    decreases lines.len(),
{
    if lines.len() == 0 {
        Seq::empty()
    } else if is_break(lines.last(), delimiter) {
        blocks(lines.drop_last(), delimiter).push(open_block(lines.drop_last(), delimiter))
    } else {
        blocks(lines.drop_last(), delimiter)
    }
}

/// The units of an input. Without a delimiter every line is a unit. With one,
/// the units are what the separating lines close, and then the unit that is
/// under way at the end of the input, empty or not.
pub open spec fn units_of(lines: Seq<Seq<char>>, delimiter: Option<Seq<char>>) -> Seq<Seq<char>> {
    match delimiter {
        None => lines,
        Some(d) => blocks(lines, d).push(open_block(lines, d)),
    }
}

/// The fingerprints of the given units.
pub open spec fn fingerprints(units: Seq<Seq<char>>) -> Set<u64> {
    Set::new(|h: u64| exists|i: int| 0 <= i < units.len() && fingerprint_of(units[i]) == h)
}

/// Cuts an input into units. `lines` holds the input line by line, without
/// line ends, and `None` for a line that could not be read: the first such
/// line is the error, with its 1-based number. Without a delimiter there is
/// one unit for each line, in the order of the lines.
pub fn parse_lines(lines: &Vec<Option<String>>, delimiter: Option<&str>) -> (r: Result<
    Vec<String>,
    SampleError,
>)
    ensures
        all_readable(lines@) ==> r is Ok && texts(r->Ok_0@) == units_of(
            line_texts(lines@),
            opt_text(delimiter),
        ),
        all_readable(lines@) && delimiter is None ==> texts(r->Ok_0@) == line_texts(lines@),
        forall|k: int|
            first_unreadable(lines@, k) ==> r == Err::<Vec<String>, SampleError>(
                SampleError::Parse { line: (k + 1) as usize },
            ),
{
    let mut units: Vec<String> = Vec::new();
    let mut buffer: String = String::new();
    let mark: String = match delimiter {
        Some(d) => d.to_owned(),
        None => String::new(),
    };
    let ghost mut seen: Seq<Seq<char>> = Seq::empty();
    let mut i: usize = 0;
    while i < lines.len()
        invariant
            i <= lines.len(),
            forall|j: int| 0 <= j < i ==> lines[j] is Some,
            seen == line_texts(lines@.take(i as int)),
            delimiter is Some ==> mark@ == delimiter->Some_0@,
            match delimiter {
                None => texts(units@) == seen,
                Some(d) => texts(units@) == blocks(seen, d@) && buffer@ == open_block(seen, d@),
            },
        decreases lines.len() - i,
    {
        match &lines[i] {
            None => {
                assert(first_unreadable(lines@, i as int));
                assert(!all_readable(lines@));
                assert forall|k: int| first_unreadable(lines@, k) implies k == i by {
                    if k < i {
                        assert(lines[k] is Some);
                    }
                }
                return Err(SampleError::Parse { line: i + 1 });
            },
            Some(line) => {
                let ghost next: Seq<Seq<char>> = seen.push(line@);
                let ghost held: Seq<Seq<char>> = texts(units@);
                proof {
                    assert(next.drop_last() =~= seen);
                    assert(next =~= line_texts(lines@.take(i + 1)));
                }
                match delimiter {
                    None => {
                        units.push(line.clone());
                        assert(texts(units@) =~= held.push(line@));
                    },
                    Some(d) => {
                        let cut: String = trim(line.as_str()).to_owned();
                        if cut == mark {
                            units.push(buffer);
                            buffer = String::new();
                            assert(texts(units@) =~= held.push(open_block(seen, d@)));
                        } else {
                            if !buffer.as_str().is_empty() {
                                end_line(&mut buffer);
                            }
                            buffer.append(line.as_str());
                            assert(buffer@ =~= extend(open_block(seen, d@), line@));
                        }
                    },
                }
                proof {
                    seen = next;
                }
            },
        }
        i = i + 1;
    }
    proof {
        assert(lines@.take(i as int) =~= lines@);
        assert(all_readable(lines@));
        assert forall|k: int| !first_unreadable(lines@, k) by {}
    }
    let ghost held: Seq<Seq<char>> = texts(units@);
    match delimiter {
        None => {},
        Some(d) => {
            units.push(buffer);
            assert(texts(units@) =~= held.push(open_block(seen, d@)));
        },
    }
    Ok(units)
}

/// The fingerprints of a vector of units.
pub fn index_units(units: &Vec<String>) -> (set: HashSet<u64>)
    ensures
        set@ == fingerprints(texts(units@)),
{
    let mut set: HashSet<u64> = HashSet::new();
    let mut i: usize = 0;
    while i < units.len()
        invariant
            i <= units.len(),
            set@ == fingerprints(texts(units@).take(i as int)),
        decreases units.len() - i,
    {
        let h: u64 = fingerprint(units[i].as_str());
        let ghost before: Set<u64> = set@;
        set.insert(h);
        proof {
            let old_units = texts(units@).take(i as int);
            let new_units = texts(units@).take(i + 1);
            assert(new_units[i as int] == units[i as int]@);
            assert forall|x: u64| before.insert(h).contains(x) <==> fingerprints(
                new_units,
            ).contains(x) by {
                if before.contains(x) {
                    let k = choose|k: int|
                        0 <= k < old_units.len() && fingerprint_of(old_units[k]) == x;
                    assert(new_units[k] == old_units[k]);
                }
                if fingerprints(new_units).contains(x) {
                    let k = choose|k: int|
                        0 <= k < new_units.len() && fingerprint_of(new_units[k]) == x;
                    if k < i {
                        assert(old_units[k] == new_units[k]);
                    }
                }
            }
            assert(set@ =~= fingerprints(new_units));
        }
        i = i + 1;
    }
    proof {
        assert(texts(units@).take(i as int) =~= texts(units@));
    }
    set
}

/// Cuts a reference input into units, as `parse_lines` does, and keeps the
/// fingerprint of each unit.
pub fn parse_lines_as_set(lines: &Vec<Option<String>>, delimiter: Option<&str>) -> (r: Result<
    HashSet<u64>,
    SampleError,
>)
    ensures
        all_readable(lines@) ==> r is Ok && r->Ok_0@ == fingerprints(
            units_of(line_texts(lines@), opt_text(delimiter)),
        ),
        forall|k: int|
            first_unreadable(lines@, k) ==> r is Err && r->Err_0 == (SampleError::Parse {
                line: (k + 1) as usize,
            }),
{
    match parse_lines(lines, delimiter) {
        Ok(units) => Ok(index_units(&units)),
        Err(e) => Err(e),
    }
}

} // verus!
