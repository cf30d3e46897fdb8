//! Putting together what is written: which units go to which destination,
//! in which order, and the text that they make there.

use vstd::prelude::*;
use rand_pcg::Pcg64;
use crate::assign::{ascending, count_in, lemma_rearranged};
use crate::error::SampleError;
use crate::random::shuffle;
use crate::text::{end_line, push_dot, push_slash};
use crate::views::{columns, lists, opt_text, texts};

verus! {

/// What goes to one destination: its name, the text to write there, and the
/// number of units in that text.
#[derive(Debug)]
pub struct Destination {
    pub name: String,
    pub text: String,
    pub count: usize,
}

/// How often a unit with this list is written: to one set as often as the
/// set stands in the list, to a single stream once for each entry.
pub open spec fn share(list: Seq<usize>, only: Option<usize>) -> nat {
    match only {
        Some(set) => count_in(list, set),
        None => list.len(),
    }
}

/// The units of a column that are written, in the order of writing: the rows
/// are visited as `order` says, and each unit is written as often as its
/// share says.
pub open spec fn selected(
    column: Seq<Seq<char>>,
    assignment: Seq<Seq<usize>>,
    order: Seq<usize>,
    only: Option<usize>,
) -> Seq<Seq<char>>
    decreases order.len(),
{
    if order.len() == 0 {
        Seq::empty()
    } else {
        selected(column, assignment, order.drop_last(), only) + Seq::new(
            share(assignment[order.last() as int], only),
            |k: int| column[order.last() as int],
        )
    }
}

/// The text written for the given units: each unit ends its line, and where
/// a delimiter is in use, a line that holds the delimiter stands between two
/// units, none before the first and none after the last.
pub open spec fn rendered(units: Seq<Seq<char>>, delimiter: Option<Seq<char>>) -> Seq<char>
    decreases units.len(),
{
    if units.len() == 0 {
        Seq::empty()
    } else {
        let gap: Seq<char> = match delimiter {
            Some(d) => if units.len() > 1 {
                d.push('\n')
            } else {
                Seq::empty()
            },
            None => Seq::empty(),
        };
        rendered(units.drop_last(), delimiter) + gap + units.last().push('\n')
    }
}

/// The name of the destination of one column and one set.
pub open spec fn named(prefix: Seq<char>, set: Seq<char>, extension: Seq<char>) -> Seq<char> {
    prefix.push('.') + set.push('.') + extension
}

/// The prefix of a column's destinations: the name that stands for the
/// column, inside the output directory where one is given.
pub open spec fn prefixed(outputdir: Option<Seq<char>>, stem: Seq<char>) -> Seq<char> {
    match outputdir {
        Some(dir) => dir.push('/') + stem,
        None => stem,
    }
}

/// Whether `order` visits each of `count` rows once.
pub open spec fn arranges(order: Seq<usize>, count: nat) -> bool {
    &&& order.len() == count
    &&& order.no_duplicates()
    &&& forall|t: int| 0 <= t < order.len() ==> order[t] < count
}

/// Whether every row of `order` has a list and a unit in each column.
pub open spec fn rows_exist(order: Seq<usize>, assignment: nat, data: Seq<Seq<Seq<char>>>) -> bool {
    &&& forall|t: int| 0 <= t < order.len() ==> order[t] < assignment
    &&& forall|c: int| 0 <= c < data.len() ==> assignment <= data[c].len()
}

/// Whether a unit that is written belongs to a set from `sets` on.
pub open spec fn unroutable(assignment: Seq<Seq<usize>>, order: Seq<usize>, sets: nat) -> bool {
    exists|t: int, e: int|
        0 <= t < order.len() && 0 <= e < assignment[order[t] as int].len()
            && assignment[order[t] as int][e] >= sets
}

/// Whether any unit is written at all.
pub open spec fn any_written(assignment: Seq<Seq<usize>>, order: Seq<usize>) -> bool {
    exists|t: int| 0 <= t < order.len() && assignment[order[t] as int].len() > 0
}

/// Whether a unit that is to be written has no destination: its set has no
/// name, or its column has no prefix.
pub open spec fn missing(
    columns: nat,
    prefixes: nat,
    names: nat,
    assignment: Seq<Seq<usize>>,
    order: Seq<usize>,
) -> bool {
    columns > 0 && (unroutable(assignment, order, names) || (columns > prefixes && any_written(
        assignment,
        order,
    )))
}

/// The units that go to the destination of column `c` and set `s`.
pub open spec fn destined(
    data: Seq<Seq<Seq<char>>>,
    assignment: Seq<Seq<usize>>,
    order: Seq<usize>,
    c: int,
    s: int,
) -> Seq<Seq<char>> {
    if c < data.len() {
        selected(data[c], assignment, order, Some(s as usize))
    } else {
        Seq::empty()
    }
}

/// Whether `dest` is the destination of the given name for the given units.
pub open spec fn holds(
    dest: Destination,
    name: Seq<char>,
    units: Seq<Seq<char>>,
    delimiter: Option<Seq<char>>,
) -> bool {
    &&& dest.name@ == name
    &&& dest.text@ == rendered(units, delimiter)
    &&& dest.count == units.len()
}

/// Whether `files` holds one destination for each prefix and each set name,
/// filled with the units that belong there.
pub open spec fn files_hold(
    files: Seq<Vec<Destination>>,
    data: Seq<Seq<Seq<char>>>,
    assignment: Seq<Seq<usize>>,
    prefixes: Seq<Seq<char>>,
    names: Seq<Seq<char>>,
    delimiter: Option<Seq<char>>,
    extension: Seq<char>,
    order: Seq<usize>,
) -> bool {
    &&& files.len() == prefixes.len()
    &&& forall|c: int| 0 <= c < files.len() ==> (#[trigger] files[c]).len() == names.len()
    &&& forall|c: int, s: int|
        0 <= c < files.len() && 0 <= s < names.len() ==> holds(
            #[trigger] files[c][s],
            named(prefixes[c], names[s], extension),
            destined(data, assignment, order, c, s),
            delimiter,
        )
}

/// What a run writes: one text for the single stream, or the destinations
/// column by column.
#[derive(Debug)]
pub enum Output {
    Stream(String),
    Files(Vec<Vec<Destination>>),
}

/// Whether `r` is what is written with the rows in the given order. A single
/// column with a single declared set goes to the single stream; everything
/// else goes to one destination for each column and each set name.
pub open spec fn emitted(
    r: Result<Output, SampleError>,
    data: Seq<Seq<Seq<char>>>,
    assignment: Seq<Seq<usize>>,
    prefixes: Seq<Seq<char>>,
    names: Seq<Seq<char>>,
    sets: nat,
    delimiter: Option<Seq<char>>,
    extension: Seq<char>,
    order: Seq<usize>,
) -> bool {
    if data.len() == 1 && sets == 1 {
        &&& r is Ok
        &&& r->Ok_0 is Stream
        &&& r->Ok_0->Stream_0@ == rendered(selected(data[0], assignment, order, None), delimiter)
    } else if missing(data.len(), prefixes.len(), names.len(), assignment, order) {
        r == Err::<Output, SampleError>(SampleError::MissingDestination)
    } else {
        &&& r is Ok
        &&& r->Ok_0 is Files
        &&& files_hold(
            r->Ok_0->Files_0@,
            data,
            assignment,
            prefixes,
            names,
            delimiter,
            extension,
            order,
        )
    }
}

/// Whether two destinations are named alike and hold the same text.
pub open spec fn same_destination(a: Destination, b: Destination) -> bool {
    a.name@ == b.name@ && a.text@ == b.text@ && a.count == b.count
}

/// Whether two runs wrote the same: they failed alike, or wrote the same
/// text to the single stream, or the same text to each destination.
pub open spec fn same_output(a: Result<Output, SampleError>, b: Result<Output, SampleError>) -> bool {
    match (a, b) {
        (Err(x), Err(y)) => x == y,
        (Ok(Output::Stream(x)), Ok(Output::Stream(y))) => x@ == y@,
        (Ok(Output::Files(x)), Ok(Output::Files(y))) => {
            &&& x.len() == y.len()
            &&& forall|c: int| 0 <= c < x.len() ==> (#[trigger] x[c]).len() == y[c].len()
            &&& forall|c: int, s: int|
                0 <= c < x.len() && 0 <= s < x[c].len() ==> same_destination(
                    #[trigger] x[c][s],
                    y[c][s],
                )
        },
        _ => false,
    }
}

/// Joins units into the text that is written for them.
pub fn render(units: &Vec<String>, delimiter: Option<&str>) -> (text: String)
    ensures
        text@ == rendered(texts(units@), opt_text(delimiter)),
{
    let mut text: String = String::new();
    let mut i: usize = 0;
    while i < units.len()
        invariant
            i <= units.len(),
            text@ == rendered(texts(units@).take(i as int), opt_text(delimiter)),
        decreases units.len() - i,
    {
        if i > 0 {
            if let Some(d) = delimiter {
                text.append(d);
                end_line(&mut text);
            }
        }
        text.append(units[i].as_str());
        end_line(&mut text);
        proof {
            let now = texts(units@).take(i + 1);
            assert(now.drop_last() =~= texts(units@).take(i as int));
            assert(now.last() == units[i as int]@);
            assert(text@ =~= rendered(now, opt_text(delimiter)));
        }
        i = i + 1;
    }
    proof {
        assert(texts(units@).take(i as int) =~= texts(units@));
    }
    text
}

/// Collects the units of a column that are written to one set, or, with
/// `only` left open, to the single stream, in the order of writing.
pub fn select(
    column: &Vec<String>,
    assignment: &Vec<Vec<usize>>,
    order: &Vec<usize>,
    only: Option<usize>,
) -> (out: Vec<String>)
    requires
        assignment.len() <= column.len(),
        forall|t: int| 0 <= t < order.len() ==> order[t] < assignment.len(),
    ensures
        texts(out@) == selected(texts(column@), lists(assignment@), order@, only),
{
    let ghost col = texts(column@);
    let ghost asg = lists(assignment@);
    let mut out: Vec<String> = Vec::new();
    let mut t: usize = 0;
    while t < order.len()
        invariant
            t <= order.len(),
            assignment.len() <= column.len(),
            forall|k: int| 0 <= k < order.len() ==> order[k] < assignment.len(),
            col == texts(column@),
            asg == lists(assignment@),
            texts(out@) == selected(col, asg, order@.take(t as int), only),
        decreases order.len() - t,
    {
        let j: usize = order[t];
        let list: &Vec<usize> = &assignment[j];
        let ghost base: Seq<Seq<char>> = texts(out@);
        let ghost unit: Seq<char> = col[j as int];
        let mut e: usize = 0;
        while e < list.len()
            invariant
                e <= list.len(),
                j < column.len(),
                unit == column[j as int]@,
                texts(out@) == base + Seq::new(share(list@.take(e as int), only), |k: int| unit),
            decreases list.len() - e,
        {
            let ghost held: Seq<Seq<char>> = texts(out@);
            let wanted: bool = match only {
                Some(set) => list[e] == set,
                None => true,
            };
            proof {
                assert(list@.take(e + 1).drop_last() =~= list@.take(e as int));
            }
            if wanted {
                out.push(column[j].clone());
                proof {
                    assert(texts(out@) =~= held.push(unit));
                }
            }
            proof {
                assert(texts(out@) =~= base + Seq::new(
                    share(list@.take(e + 1), only),
                    |k: int| unit,
                ));
            }
            e = e + 1;
        }
        proof {
            assert(list@.take(e as int) =~= list@);
            assert(asg[j as int] == list@);
            let now = order@.take(t + 1);
            assert(now.drop_last() =~= order@.take(t as int));
            assert(now.last() == j);
        }
        t = t + 1;
    }
    proof {
        assert(order@.take(t as int) =~= order@);
    }
    out
}

/// The name of the destination of one column and one set: the prefix, the
/// set's name and the extension, with a dot between them.
pub fn file_name(prefix: &str, set: &str, extension: &str) -> (name: String)
    ensures
        name@ == named(prefix@, set@, extension@),
{
    let mut name: String = String::new();
    name.append(prefix);
    push_dot(&mut name);
    name.append(set);
    push_dot(&mut name);
    name.append(extension);
    proof {
        assert(name@ =~= named(prefix@, set@, extension@));
    }
    name
}

/// The prefix of a column's destinations: the name that stands for the
/// column, inside the output directory where one is given.
pub fn output_prefix(outputdir: Option<&str>, stem: &str) -> (prefix: String)
    ensures
        prefix@ == prefixed(opt_text(outputdir), stem@),
{
    let mut prefix: String = String::new();
    if let Some(dir) = outputdir {
        prefix.append(dir);
        push_slash(&mut prefix);
    }
    prefix.append(stem);
    proof {
        assert(prefix@ =~= prefixed(opt_text(outputdir), stem@));
    }
    prefix
}

/// The order in which rows are written: the order of the input, or, with
/// `shuffle_rows`, a rearrangement of it drawn from the generator.
pub fn emission_order(count: usize, shuffle_rows: bool, rng: &mut Pcg64) -> (order: Vec<usize>)
    ensures
        arranges(order@, count as nat),
        !shuffle_rows ==> order@ == ascending(count as nat),
{
    let mut order: Vec<usize> = Vec::new();
    let mut j: usize = 0;
    while j < count
        invariant
            j <= count,
            order@ == ascending(j as nat),
        decreases count - j,
    {
        order.push(j);
        proof {
            assert(order@ =~= ascending((j + 1) as nat));
        }
        j = j + 1;
    }
    if shuffle_rows {
        shuffle(&mut order, rng);
    }
    proof {
        lemma_rearranged(order@, count as nat);
    }
    order
}

/// Whether a unit that is to be written has no destination.
pub fn find_missing(
    columns: usize,
    prefixes: usize,
    names: usize,
    assignment: &Vec<Vec<usize>>,
    order: &Vec<usize>,
) -> (r: bool)
    requires
        forall|t: int| 0 <= t < order.len() ==> order[t] < assignment.len(),
    ensures
        r == missing(columns as nat, prefixes as nat, names as nat, lists(assignment@), order@),
{
    let ghost asg = lists(assignment@);
    let mut any: bool = false;
    let mut bad: bool = false;
    let mut t: usize = 0;
    while t < order.len()
        invariant
            t <= order.len(),
            forall|k: int| 0 <= k < order.len() ==> order[k] < assignment.len(),
            asg == lists(assignment@),
            any == any_written(asg, order@.take(t as int)),
            bad == unroutable(asg, order@.take(t as int), names as nat),
        decreases order.len() - t,
    {
        let list: &Vec<usize> = &assignment[order[t]];
        let ghost seen = order@.take(t as int);
        let ghost now = order@.take(t + 1);
        let mut found: bool = false;
        let mut e: usize = 0;
        while e < list.len()
            invariant
                e <= list.len(),
                found == exists|x: int| 0 <= x < e && list[x] >= names,
            decreases list.len() - e,
        {
            if list[e] >= names {
                found = true;
            }
            e = e + 1;
        }
        proof {
            assert(asg[order[t as int] as int] == list@);
            assert(forall|k: int| 0 <= k < t ==> now[k] == seen[k]);
            if any_written(asg, seen) {
                let k = choose|k: int| 0 <= k < seen.len() && asg[seen[k] as int].len() > 0;
                assert(0 <= k < now.len() && asg[now[k] as int].len() > 0);
            }
            if list.len() > 0 {
                assert(0 <= t < now.len() && asg[now[t as int] as int].len() > 0);
            }
            if any_written(asg, now) {
                let k = choose|k: int| 0 <= k < now.len() && asg[now[k] as int].len() > 0;
                if k < t {
                    assert(0 <= k < seen.len() && asg[seen[k] as int].len() > 0);
                }
            }
            if unroutable(asg, seen, names as nat) {
                let (k, x) = choose|k: int, x: int|
                    0 <= k < seen.len() && 0 <= x < asg[seen[k] as int].len()
                        && asg[seen[k] as int][x] >= names;
                assert(0 <= k < now.len() && 0 <= x < asg[now[k] as int].len()
                    && asg[now[k] as int][x] >= names);
            }
            if found {
                let x = choose|x: int| 0 <= x < e && list[x] >= names;
                assert(0 <= t < now.len() && 0 <= x < asg[now[t as int] as int].len()
                    && asg[now[t as int] as int][x] >= names);
            }
            if unroutable(asg, now, names as nat) {
                let (k, x) = choose|k: int, x: int|
                    0 <= k < now.len() && 0 <= x < asg[now[k] as int].len()
                        && asg[now[k] as int][x] >= names;
                if k < t {
                    assert(0 <= k < seen.len() && 0 <= x < asg[seen[k] as int].len()
                        && asg[seen[k] as int][x] >= names);
                } else {
                    assert(0 <= x < e && list[x] >= names);
                }
            }
        }
        if list.len() > 0 {
            any = true;
        }
        if found {
            bad = true;
        }
        t = t + 1;
    }
    proof {
        assert(order@.take(t as int) =~= order@);
    }
    columns > 0 && (bad || (columns > prefixes && any))
}

/// What the single stream receives: every assigned unit of the column, the
/// rows in the given order, a unit once for each entry of its list.
pub fn stream_in_order(
    data: &Vec<String>,
    assignment: &Vec<Vec<usize>>,
    delimiter: Option<&str>,
    order: &Vec<usize>,
) -> (text: String)
    requires
        assignment.len() <= data.len(),
        forall|t: int| 0 <= t < order.len() ==> order[t] < assignment.len(),
    ensures
        text@ == rendered(
            selected(texts(data@), lists(assignment@), order@, None),
            opt_text(delimiter),
        ),
{
    let units: Vec<String> = select(data, assignment, order, None);
    render(&units, delimiter)
}

/// Writes a single column to the single stream. The rows are visited in the
/// order of the input, or, with `shuffle_rows`, in an order drawn from the
/// generator; whichever it is visits each row once.
pub fn output_to_stdout(
    data: &Vec<String>,
    assignment: &Vec<Vec<usize>>,
    delimiter: Option<&str>,
    shuffle_rows: bool,
    rng: &mut Pcg64,
) -> (text: String)
    requires
        assignment.len() <= data.len(),
    ensures
        exists|order: Seq<usize>|
            {
                &&& arranges(order, assignment.len() as nat)
                &&& !shuffle_rows ==> order == ascending(assignment.len() as nat)
                &&& text@ == rendered(
                    #[trigger] selected(texts(data@), lists(assignment@), order, None),
                    opt_text(delimiter),
                )
            },
{
    let order: Vec<usize> = emission_order(assignment.len(), shuffle_rows, rng);
    stream_in_order(data, assignment, delimiter, &order)
}

/// What each destination receives, with the rows in the given order: one
/// destination for each prefix and each set name, row by row of the result a
/// column, and in it the sets in the order of their names. A unit without a
/// destination is the error, and then nothing is handed back.
pub fn files_in_order(
    data: &Vec<Vec<String>>,
    assignment: &Vec<Vec<usize>>,
    outputprefixes: &Vec<String>,
    setnames: &Vec<String>,
    delimiter: Option<&str>,
    extension: &str,
    order: &Vec<usize>,
) -> (r: Result<Vec<Vec<Destination>>, SampleError>)
    requires
        rows_exist(order@, assignment.len() as nat, columns(data@)),
    ensures
        missing(
            data.len() as nat,
            outputprefixes.len() as nat,
            setnames.len() as nat,
            lists(assignment@),
            order@,
        ) ==> r == Err::<Vec<Vec<Destination>>, SampleError>(SampleError::MissingDestination),
        !missing(
            data.len() as nat,
            outputprefixes.len() as nat,
            setnames.len() as nat,
            lists(assignment@),
            order@,
        ) ==> r is Ok && files_hold(
            r->Ok_0@,
            columns(data@),
            lists(assignment@),
            texts(outputprefixes@),
            texts(setnames@),
            opt_text(delimiter),
            extension@,
            order@,
        ),
{
    if find_missing(data.len(), outputprefixes.len(), setnames.len(), assignment, order) {
        return Err(SampleError::MissingDestination);
    }
    let ghost d = columns(data@);
    let ghost asg = lists(assignment@);
    let ghost pre = texts(outputprefixes@);
    let ghost nam = texts(setnames@);
    let mut files: Vec<Vec<Destination>> = Vec::new();
    let mut c: usize = 0;
    while c < outputprefixes.len()
        invariant
            c <= outputprefixes.len(),
            rows_exist(order@, assignment.len() as nat, columns(data@)),
            d == columns(data@),
            asg == lists(assignment@),
            pre == texts(outputprefixes@),
            nam == texts(setnames@),
            files.len() == c,
            forall|k: int| 0 <= k < c ==> (#[trigger] files[k]).len() == setnames.len(),
            forall|k: int, s: int|
                0 <= k < c && 0 <= s < setnames.len() ==> holds(
                    #[trigger] files[k][s],
                    named(pre[k], nam[s], extension@),
                    destined(d, asg, order@, k, s),
                    opt_text(delimiter),
                ),
        decreases outputprefixes.len() - c,
    {
        let mut row: Vec<Destination> = Vec::new();
        let mut s: usize = 0;
        while s < setnames.len()
            invariant
                s <= setnames.len(),
                c < outputprefixes.len(),
                rows_exist(order@, assignment.len() as nat, columns(data@)),
                d == columns(data@),
                asg == lists(assignment@),
                pre == texts(outputprefixes@),
                nam == texts(setnames@),
                row.len() == s,
                forall|x: int|
                    0 <= x < s ==> holds(
                        #[trigger] row[x],
                        named(pre[c as int], nam[x], extension@),
                        destined(d, asg, order@, c as int, x),
                        opt_text(delimiter),
                    ),
            decreases setnames.len() - s,
        {
            let name: String = file_name(
                outputprefixes[c].as_str(),
                setnames[s].as_str(),
                extension,
            );
            let units: Vec<String> = if c < data.len() {
                proof {
                    assert(d[c as int] == texts(data[c as int]@));
                    assert(assignment.len() <= d[c as int].len());
                }
                select(&data[c], assignment, order, Some(s))
            } else {
                Vec::new()
            };
            proof {
                assert(texts(units@) =~= destined(d, asg, order@, c as int, s as int));
            }
            let text: String = render(&units, delimiter);
            row.push(Destination { name, text, count: units.len() });
            s = s + 1;
        }
        files.push(row);
        c = c + 1;
    }
    Ok(files)
}

/// Writes every column to its destinations. The rows are visited in the
/// order of the input, or, with `shuffle_rows`, in an order drawn from the
/// generator; whichever it is visits each row once.
pub fn output_to_files(
    data: &Vec<Vec<String>>,
    assignment: &Vec<Vec<usize>>,
    outputprefixes: &Vec<String>,
    setnames: &Vec<String>,
    delimiter: Option<&str>,
    extension: &str,
    shuffle_rows: bool,
    rng: &mut Pcg64,
) -> (r: Result<Vec<Vec<Destination>>, SampleError>)
    requires
        forall|c: int| 0 <= c < data.len() ==> assignment.len() <= (#[trigger] data[c]).len(),
    ensures
        exists|order: Seq<usize>|
            {
                &&& arranges(order, assignment.len() as nat)
                &&& !shuffle_rows ==> order == ascending(assignment.len() as nat)
                &&& #[trigger] missing(
                    data.len() as nat,
                    outputprefixes.len() as nat,
                    setnames.len() as nat,
                    lists(assignment@),
                    order,
                ) ==> r == Err::<Vec<Vec<Destination>>, SampleError>(
                    SampleError::MissingDestination,
                )
                &&& !missing(
                    data.len() as nat,
                    outputprefixes.len() as nat,
                    setnames.len() as nat,
                    lists(assignment@),
                    order,
                ) ==> r is Ok && files_hold(
                    r->Ok_0@,
                    columns(data@),
                    lists(assignment@),
                    texts(outputprefixes@),
                    texts(setnames@),
                    opt_text(delimiter),
                    extension@,
                    order,
                )
            },
{
    let order: Vec<usize> = emission_order(assignment.len(), shuffle_rows, rng);
    proof {
        assert forall|c: int| 0 <= c < columns(data@).len() implies assignment.len() <= columns(
            data@,
        )[c].len() by {
            assert(columns(data@)[c] == texts(data[c]@));
        }
    }
    files_in_order(data, assignment, outputprefixes, setnames, delimiter, extension, &order)
}

/// What a run writes, with the rows in the given order.
pub fn emit_in_order(
    data: &Vec<Vec<String>>,
    assignment: &Vec<Vec<usize>>,
    outputprefixes: &Vec<String>,
    setnames: &Vec<String>,
    sets: usize,
    delimiter: Option<&str>,
    extension: &str,
    order: &Vec<usize>,
) -> (r: Result<Output, SampleError>)
    requires
        rows_exist(order@, assignment.len() as nat, columns(data@)),
    ensures
        emitted(
            r,
            columns(data@),
            lists(assignment@),
            texts(outputprefixes@),
            texts(setnames@),
            sets as nat,
            opt_text(delimiter),
            extension@,
            order@,
        ),
{
    if data.len() == 1 && sets == 1 {
        proof {
            assert(columns(data@)[0] == texts(data[0]@));
        }
        Ok(Output::Stream(stream_in_order(&data[0], assignment, delimiter, order)))
    } else {
        match files_in_order(
            data,
            assignment,
            outputprefixes,
            setnames,
            delimiter,
            extension,
            order,
        ) {
            Ok(files) => Ok(Output::Files(files)),
            Err(e) => Err(e),
        }
    }
}

/// What a run writes. The rows are visited in the order of the input, or,
/// with `shuffle_rows`, in an order drawn from the generator; whichever it
/// is visits each row once.
pub fn emit(
    data: &Vec<Vec<String>>,
    assignment: &Vec<Vec<usize>>,
    outputprefixes: &Vec<String>,
    setnames: &Vec<String>,
    sets: usize,
    delimiter: Option<&str>,
    extension: &str,
    shuffle_rows: bool,
    rng: &mut Pcg64,
) -> (r: Result<Output, SampleError>)
    requires
        forall|c: int| 0 <= c < data.len() ==> assignment.len() <= (#[trigger] data[c]).len(),
    ensures
        exists|order: Seq<usize>|
            {
                &&& arranges(order, assignment.len() as nat)
                &&& !shuffle_rows ==> order == ascending(assignment.len() as nat)
                &&& #[trigger] emitted(
                    r,
                    columns(data@),
                    lists(assignment@),
                    texts(outputprefixes@),
                    texts(setnames@),
                    sets as nat,
                    opt_text(delimiter),
                    extension@,
                    order,
                )
            },
{
    let order: Vec<usize> = emission_order(assignment.len(), shuffle_rows, rng);
    proof {
        assert forall|c: int| 0 <= c < columns(data@).len() implies assignment.len() <= columns(
            data@,
        )[c].len() by {
            assert(columns(data@)[c] == texts(data[c]@));
        }
    }
    emit_in_order(
        data,
        assignment,
        outputprefixes,
        setnames,
        sets,
        delimiter,
        extension,
        &order,
    )
}

/// What is written is fixed by the data, the assignment, the names and the
/// order of the rows: two runs that agree in these write the same, text for
/// text. The generator enters only through the assignment and the order.
pub proof fn lemma_output_is_determined(
    first: Result<Output, SampleError>,
    second: Result<Output, SampleError>,
    data: Seq<Seq<Seq<char>>>,
    assignment: Seq<Seq<usize>>,
    prefixes: Seq<Seq<char>>,
    names: Seq<Seq<char>>,
    sets: nat,
    delimiter: Option<Seq<char>>,
    extension: Seq<char>,
    order: Seq<usize>,
)
    requires
        emitted(first, data, assignment, prefixes, names, sets, delimiter, extension, order),
        emitted(second, data, assignment, prefixes, names, sets, delimiter, extension, order),
    ensures
        same_output(first, second),
{
    if data.len() == 1 && sets == 1 {
    } else if missing(data.len(), prefixes.len(), names.len(), assignment, order) {
    } else {
        let x = first->Ok_0->Files_0@;
        let y = second->Ok_0->Files_0@;
        assert forall|c: int| 0 <= c < x.len() implies (#[trigger] x[c]).len() == y[c].len() by {
            assert(x[c].len() == names.len());
            assert(y[c].len() == names.len());
        }
        assert forall|c: int, s: int| 0 <= c < x.len() && 0 <= s < x[c].len() implies same_destination(
            #[trigger] x[c][s],
            y[c][s],
        ) by {
            assert(x[c].len() == names.len());
            assert(holds(
                x[c][s],
                named(prefixes[c], names[s], extension),
                destined(data, assignment, order, c, s),
                delimiter,
            ));
            assert(holds(
                y[c][s],
                named(prefixes[c], names[s], extension),
                destined(data, assignment, order, c, s),
                delimiter,
            ));
        }
    }
}

} // verus!
