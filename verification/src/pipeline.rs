//! One whole run, from the columns to what is to be written.

use vstd::prelude::*;
use rand_pcg::Pcg64;
use std::collections::HashSet;
use crate::assign::{ascending, assign, count_unassigned, draws_fit, idle, plan, refusal};
use crate::data::{aligned, check_data, first_mismatch, is_empty_data};
use crate::options::{fill_names, filled};
use crate::emit::{arranges, emit, emitted, lemma_output_is_determined, same_output, Output};
use crate::error::SampleError;
use crate::exclude::{apply_exclude, filtered};
use crate::sizes::{remainder_is, SetSize};
use crate::views::{columns, lists, opt_text, sets, texts};

verus! {

/// What a run hands back: what is to be written, the number of units that
/// belong to no set and are left out, and whether more names than sets were
/// given. The last two are worth a notice, no more.
#[derive(Debug)]
pub struct Report {
    pub output: Output,
    pub unassigned: usize,
    pub surplus_names: bool,
}

/// The data that is sampled from: the columns, without the excluded rows
/// where there are references.
pub open spec fn sampled(data: Seq<Vec<String>>, exclude: Option<Vec<HashSet<u64>>>) -> Seq<
    Seq<Seq<char>>,
> {
    match exclude {
        Some(e) => filtered(columns(data), sets(e@)),
        None => columns(data),
    }
}

/// What was written, or why not.
pub open spec fn written(r: Result<Report, SampleError>) -> Result<Output, SampleError> {
    match r {
        Ok(report) => Ok(report.output),
        Err(e) => Err(e),
    }
}

/// Whether `r` is the outcome of a run on `units` units in which the
/// generator handed out the draws `picks` and the order of rows `order`.
pub open spec fn ran(
    r: Result<Report, SampleError>,
    data: Seq<Seq<Seq<char>>>,
    units: nat,
    sizes: Seq<SetSize>,
    names: Seq<Seq<char>>,
    prefixes: Seq<Seq<char>>,
    delimiter: Option<Seq<char>>,
    extension: Seq<char>,
    replace: bool,
    shuffle_rows: bool,
    picks: Seq<usize>,
    remainder: Option<usize>,
    order: Seq<usize>,
) -> bool {
    &&& remainder_is(sizes, remainder)
    &&& draws_fit(sizes, units, replace, picks)
    &&& arranges(order, units)
    &&& !shuffle_rows ==> order == ascending(units)
    &&& emitted(
        written(r),
        data,
        plan(sizes, units, picks, remainder),
        prefixes,
        filled(names, sizes.len()),
        sizes.len(),
        delimiter,
        extension,
        order,
    )
    &&& r is Ok ==> r->Ok_0.unassigned == idle(plan(sizes, units, picks, remainder))
        && r->Ok_0.surplus_names == (names.len() > sizes.len())
}

/// One run, from the columns to what is to be written.
///
/// The steps and their failures come in a fixed order. Sets without a name
/// are named by their place. Where there are references, there must be one
/// for each column, and the rows that match go. There must be data left,
/// and the columns must be of one length. The sizes must fit and only one
/// set may take the remainder. Then the units are assigned, and what belongs
/// to each destination is put together. The generator is used for the
/// assignment first and for the order of the rows after that, and for
/// nothing else.
pub fn run(
    data: Vec<Vec<String>>,
    exclude: Option<Vec<HashSet<u64>>>,
    sizes: &Vec<SetSize>,
    setnames: Vec<String>,
    outputprefixes: &Vec<String>,
    delimiter: Option<&str>,
    extension: &str,
    replace: bool,
    shuffle_rows: bool,
    rng: &mut Pcg64,
) -> (r: Result<Report, SampleError>)
    ensures
        exclude is Some && exclude->Some_0.len() != data.len() ==> r == Err::<
            Report,
            SampleError,
        >(SampleError::ExcludeCount { columns: data.len(), references: exclude->Some_0.len() }),
        !(exclude is Some && exclude->Some_0.len() != data.len()) ==> {
            let kept = sampled(data@, exclude);
            &&& is_empty_data(kept) ==> r == Err::<Report, SampleError>(SampleError::EmptyData)
            &&& forall|i: int|
                !is_empty_data(kept) && first_mismatch(kept, i) ==> r == Err::<
                    Report,
                    SampleError,
                >(SampleError::ColumnMismatch { column: (i + 1) as usize })
            &&& forall|units: usize|
                !is_empty_data(kept) && aligned(kept, units as nat) ==> match refusal(sizes@, units, replace) {
                    Some(e) => r == Err::<Report, SampleError>(e),
                    None => exists|picks: Seq<usize>, remainder: Option<usize>, order: Seq<usize>|
                        ran(
                            r,
                            kept,
                            units as nat,
                            sizes@,
                            texts(setnames@),
                            texts(outputprefixes@),
                            opt_text(delimiter),
                            extension@,
                            replace,
                            shuffle_rows,
                            picks,
                            remainder,
                            order,
                        ),
                }
        },
{
    let mut data: Vec<Vec<String>> = data;
    let mut setnames: Vec<String> = setnames;
    let ghost given: Seq<Seq<char>> = texts(setnames@);
    let surplus_names: bool = fill_names(&mut setnames, sizes.len());
    match exclude {
        Some(e) => {
            match apply_exclude(&mut data, &e) {
                Ok(_) => {},
                Err(err) => {
                    return Err(err);
                },
            }
        },
        None => {},
    }
    let ghost kept: Seq<Seq<Seq<char>>> = columns(data@);
    let datasize: usize = match check_data(&data) {
        Ok(n) => n,
        Err(err) => {
            proof {
                assert forall|units: usize|
                    !is_empty_data(kept) && aligned(kept, units as nat) implies false by {
                    let i = choose|i: int| first_mismatch(kept, i);
                    assert(kept[i - 1].len() == units);
                    assert(kept[i].len() == units);
                }
            }
            return Err(err);
        },
    };
    proof {
        assert(kept[0].len() == datasize);
        assert forall|units: usize| aligned(kept, units as nat) implies units == datasize by {
            assert(kept[0].len() == units);
        }
        assert forall|i: int| !first_mismatch(kept, i) by {
            if first_mismatch(kept, i) {
                assert(kept[i - 1].len() == datasize);
                assert(kept[i].len() == datasize);
            }
        }
    }
    let assignment: Vec<Vec<usize>> = match assign(sizes, datasize, replace, rng) {
        Ok(a) => a,
        Err(err) => {
            return Err(err);
        },
    };
    let ghost (picks, remainder) = choose|picks: Seq<usize>, remainder: Option<usize>|
        {
            &&& remainder_is(sizes@, remainder)
            &&& draws_fit(sizes@, datasize as nat, replace, picks)
            &&& #[trigger] plan(sizes@, datasize as nat, picks, remainder) == lists(assignment@)
        };
    let unassigned: usize = count_unassigned(&assignment);
    proof {
        assert(lists(assignment@).len() == datasize);
        assert forall|c: int| 0 <= c < data.len() implies assignment.len() <= (
        #[trigger] data[c]).len() by {
            assert(kept[c] == texts(data[c]@));
        }
    }
    let out: Result<Output, SampleError> = emit(
        &data,
        &assignment,
        outputprefixes,
        &setnames,
        sizes.len(),
        delimiter,
        extension,
        shuffle_rows,
        rng,
    );
    let ghost order: Seq<usize> = choose|order: Seq<usize>|
        {
            &&& arranges(order, assignment.len() as nat)
            &&& !shuffle_rows ==> order == ascending(assignment.len() as nat)
            &&& #[trigger] emitted(
                out,
                columns(data@),
                lists(assignment@),
                texts(outputprefixes@),
                texts(setnames@),
                sizes.len() as nat,
                opt_text(delimiter),
                extension@,
                order,
            )
        };
    let r: Result<Report, SampleError> = match out {
        Ok(output) => Ok(Report { output, unassigned, surplus_names }),
        Err(err) => Err(err),
    };
    proof {
        assert(written(r) == out);
        assert(ran(
            r,
            kept,
            datasize as nat,
            sizes@,
            given,
            texts(outputprefixes@),
            opt_text(delimiter),
            extension@,
            replace,
            shuffle_rows,
            picks,
            remainder,
            order,
        ));
    }
    r
}

/// Two runs on the same data with the same options, in which the generator
/// hands out the same draws and the same order of rows, end alike: with the
/// same failure, or with the same text for each destination and the same
/// notices.
pub proof fn lemma_run_is_determined(
    first: Result<Report, SampleError>,
    second: Result<Report, SampleError>,
    data: Seq<Seq<Seq<char>>>,
    units: nat,
    sizes: Seq<SetSize>,
    names: Seq<Seq<char>>,
    prefixes: Seq<Seq<char>>,
    delimiter: Option<Seq<char>>,
    extension: Seq<char>,
    replace: bool,
    shuffle_rows: bool,
    picks: Seq<usize>,
    remainder: Option<usize>,
    order: Seq<usize>,
)
    requires
        ran(
            first,
            data,
            units,
            sizes,
            names,
            prefixes,
            delimiter,
            extension,
            replace,
            shuffle_rows,
            picks,
            remainder,
            order,
        ),
        ran(
            second,
            data,
            units,
            sizes,
            names,
            prefixes,
            delimiter,
            extension,
            replace,
            shuffle_rows,
            picks,
            remainder,
            order,
        ),
    ensures
        same_output(written(first), written(second)),
        first is Ok ==> second is Ok && first->Ok_0.unassigned == second->Ok_0.unassigned
            && first->Ok_0.surplus_names == second->Ok_0.surplus_names,
{
    lemma_output_is_determined(
        written(first),
        written(second),
        data,
        plan(sizes, units, picks, remainder),
        prefixes,
        filled(names, sizes.len()),
        sizes.len(),
        delimiter,
        extension,
        order,
    );
}

} // verus!
