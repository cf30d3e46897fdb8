//! Writing units out and reading them again gives the same units.

use vstd::prelude::*;
use crate::emit::rendered;
use crate::segment::{blocks, extend, is_break, open_block, units_of};
use crate::text::{lemma_trimmed, trimmed};

verus! {

/// The line that a text has begun after its last line feed.
pub open spec fn open_line(text: Seq<char>) -> Seq<char>
    decreases text.len(),
{
    if text.len() == 0 {
        Seq::empty()
    } else if text.last() == '\n' {
        Seq::empty()
    } else {
        open_line(text.drop_last()).push(text.last())
    }
}

/// The lines that a text has ended with a line feed.
pub open spec fn closed_lines(text: Seq<char>) -> Seq<Seq<char>>
    decreases text.len(),
{
    if text.len() == 0 {
        Seq::empty()
    } else if text.last() == '\n' {
        closed_lines(text.drop_last()).push(open_line(text.drop_last()))
    } else {
        closed_lines(text.drop_last())
    }
}

/// The lines of a text, as a reader sees them that cuts at line feeds: a
/// last line counts without a line feed too, unless it is empty.
pub open spec fn lines_of(text: Seq<char>) -> Seq<Seq<char>> {
    if open_line(text).len() == 0 {
        closed_lines(text)
    } else {
        closed_lines(text).push(open_line(text))
    }
}

/// Whether a text holds no line feed.
pub open spec fn one_line(text: Seq<char>) -> bool {
    forall|i: int| 0 <= i < text.len() ==> text[i] != '\n'
}

/// Whether each of the texts holds no line feed.
pub open spec fn all_one_line(lines: Seq<Seq<char>>) -> bool {
    forall|i: int| 0 <= i < lines.len() ==> one_line(#[trigger] lines[i])
}

/// Whether a unit, written out and read again line by line, is one unit
/// again, and the same.
pub open spec fn reads_back(unit: Seq<char>, delimiter: Seq<char>) -> bool {
    &&& blocks(closed_lines(unit.push('\n')), delimiter) == Seq::<Seq<char>>::empty()
    &&& open_block(closed_lines(unit.push('\n')), delimiter) == unit
}

/// A text without a line feed is one line, not yet ended.
proof fn lemma_one_line(line: Seq<char>)
    requires
        one_line(line),
    ensures
        closed_lines(line) == Seq::<Seq<char>>::empty(),
        open_line(line) == line,
    decreases line.len(),
{
    if line.len() > 0 {
        lemma_one_line(line.drop_last());
        assert(line.drop_last().push(line.last()) =~= line);
    } else {
        assert(line =~= Seq::<char>::empty());
    }
}

/// After a text that ends its last line, a second text is read on its own.
proof fn lemma_text_append(x: Seq<char>, y: Seq<char>)
    requires
        open_line(x).len() == 0,
    ensures
        closed_lines(x + y) == closed_lines(x) + closed_lines(y),
        open_line(x + y) == open_line(y),
    decreases y.len(),
{
    if y.len() == 0 {
        assert(x + y =~= x);
        assert(closed_lines(x) + closed_lines(y) =~= closed_lines(x));
        assert(open_line(x) =~= open_line(y));
    } else {
        assert((x + y).drop_last() =~= x + y.drop_last());
        lemma_text_append(x, y.drop_last());
        if y.last() == '\n' {
            assert(closed_lines(x + y) =~= closed_lines(x) + closed_lines(y));
        }
    }
}

/// A line that is written and ended is read as that line.
proof fn lemma_line_written(line: Seq<char>)
    requires
        one_line(line),
    ensures
        closed_lines(line.push('\n')) == seq![line],
        open_line(line.push('\n')).len() == 0,
{
    lemma_one_line(line);
    assert(line.push('\n').drop_last() =~= line);
    assert(closed_lines(line.push('\n')) =~= seq![line]);
}

/// After lines that leave no unit under way, further lines are cut on their
/// own.
proof fn lemma_lines_append(x: Seq<Seq<char>>, y: Seq<Seq<char>>, delimiter: Seq<char>)
    requires
        open_block(x, delimiter).len() == 0,
    ensures
        blocks(x + y, delimiter) == blocks(x, delimiter) + blocks(y, delimiter),
        open_block(x + y, delimiter) == open_block(y, delimiter),
    decreases y.len(),
{
    if y.len() == 0 {
        assert(x + y =~= x);
        assert(blocks(x, delimiter) + blocks(y, delimiter) =~= blocks(x, delimiter));
        assert(open_block(x, delimiter) =~= open_block(y, delimiter));
    } else {
        assert((x + y).drop_last() =~= x + y.drop_last());
        lemma_lines_append(x, y.drop_last(), delimiter);
        if is_break(y.last(), delimiter) {
            assert(blocks(x + y, delimiter) =~= blocks(x, delimiter) + blocks(y, delimiter));
        }
    }
}

/// The unit that is under way after some lines reads back, unless it is
/// empty and the empty line separates units.
proof fn lemma_block_reads_back(lines: Seq<Seq<char>>, delimiter: Seq<char>)
    requires
        all_one_line(lines),
        open_block(lines, delimiter).len() == 0 ==> !is_break(Seq::empty(), delimiter),
    ensures
        reads_back(open_block(lines, delimiter), delimiter),
    decreases lines.len(),
{
    let unit = open_block(lines, delimiter);
    let written = closed_lines(unit.push('\n'));
    assert(unit.push('\n').drop_last() =~= unit);
    assert(written == closed_lines(unit).push(open_line(unit)));
    let none = Seq::<Seq<char>>::empty();
    let blank = Seq::<char>::empty();
    if lines.len() == 0 || is_break(lines.last(), delimiter) {
        assert(unit =~= blank);
        assert(written =~= seq![blank]);
        assert(seq![blank].drop_last() =~= none);
        assert(seq![blank].last() == blank);
        assert(blocks(none, delimiter) =~= none);
        assert(open_block(none, delimiter) =~= blank);
        assert(blocks(seq![blank], delimiter) =~= none);
        assert(open_block(seq![blank], delimiter) =~= blank);
    } else {
        let last = lines.last();
        let before = open_block(lines.drop_last(), delimiter);
        assert(one_line(last));
        assert(unit == extend(before, last));
        if before.len() == 0 {
            assert(unit == last);
            lemma_line_written(last);
            assert(written =~= seq![last]);
            assert(seq![last].drop_last() =~= none);
            assert(seq![last].last() == last);
            assert(blocks(none, delimiter) =~= none);
            assert(open_block(none, delimiter) =~= blank);
            assert(blocks(seq![last], delimiter) =~= none);
            assert(open_block(seq![last], delimiter) == extend(blank, last));
        } else {
            assert(all_one_line(lines.drop_last()));
            lemma_block_reads_back(lines.drop_last(), delimiter);
            let head = before.push('\n');
            assert(head.drop_last() =~= before);
            assert(open_line(head).len() == 0);
            lemma_text_append(head, last);
            lemma_one_line(last);
            assert(unit == head + last);
            let earlier = closed_lines(head);
            assert(closed_lines(unit) =~= earlier);
            assert(open_line(unit) == last);
            assert(written == earlier.push(last));
            assert(earlier.push(last).drop_last() =~= earlier);
            assert(earlier.push(last).last() == last);
            assert(blocks(written, delimiter) == blocks(earlier, delimiter));
            assert(open_block(written, delimiter) == extend(
                open_block(earlier, delimiter),
                last,
            ));
        }
    }
}

/// Every unit that a separating line closed was under way after the lines
/// before it.
proof fn lemma_blocks_are_open_blocks(lines: Seq<Seq<char>>, delimiter: Seq<char>, i: int)
    requires
        0 <= i < blocks(lines, delimiter).len(),
    ensures
        exists|k: int|
            0 <= k <= lines.len() && blocks(lines, delimiter)[i] == open_block(
                #[trigger] lines.take(k),
                delimiter,
            ),
    decreases lines.len(),
{
    if lines.len() > 0 {
        let before = lines.drop_last();
        if i < blocks(before, delimiter).len() {
            lemma_blocks_are_open_blocks(before, delimiter, i);
            let k = choose|k: int|
                0 <= k <= before.len() && blocks(before, delimiter)[i] == open_block(
                    #[trigger] before.take(k),
                    delimiter,
                );
            assert(before.take(k) =~= lines.take(k));
        } else {
            assert(before =~= lines.take(lines.len() - 1));
        }
    }
}

/// Every unit that the segmenter cuts from lines reads back, unless it is
/// empty and the empty line separates units.
proof fn lemma_units_read_back(lines: Seq<Seq<char>>, delimiter: Seq<char>)
    requires
        all_one_line(lines),
        forall|i: int|
            0 <= i < units_of(lines, Some(delimiter)).len() && (#[trigger] units_of(
                lines,
                Some(delimiter),
            )[i]).len() == 0 ==> !is_break(Seq::empty(), delimiter),
    ensures
        forall|i: int|
            0 <= i < units_of(lines, Some(delimiter)).len() ==> reads_back(
                #[trigger] units_of(lines, Some(delimiter))[i],
                delimiter,
            ),
{
    let units = units_of(lines, Some(delimiter));
    assert forall|i: int| 0 <= i < units.len() implies reads_back(#[trigger] units[i], delimiter) by {
        if i < blocks(lines, delimiter).len() {
            lemma_blocks_are_open_blocks(lines, delimiter, i);
            let k = choose|k: int|
                0 <= k <= lines.len() && blocks(lines, delimiter)[i] == open_block(
                    #[trigger] lines.take(k),
                    delimiter,
                );
            assert(units[i] == open_block(lines.take(k), delimiter));
            assert(all_one_line(lines.take(k)));
            lemma_block_reads_back(lines.take(k), delimiter);
        } else {
            assert(units[i] == open_block(lines, delimiter));
            lemma_block_reads_back(lines, delimiter);
        }
    }
}

/// Units that each read back, written out with the delimiter between them,
/// read back together.
proof fn lemma_rendered_reads_back(units: Seq<Seq<char>>, delimiter: Seq<char>)
    requires
        units.len() >= 1,
        forall|i: int| 0 <= i < units.len() ==> reads_back(#[trigger] units[i], delimiter),
        units.len() > 1 ==> is_break(delimiter, delimiter) && one_line(delimiter),
    ensures
        open_line(rendered(units, Some(delimiter))).len() == 0,
        blocks(closed_lines(rendered(units, Some(delimiter))), delimiter) == units.drop_last(),
        open_block(closed_lines(rendered(units, Some(delimiter))), delimiter) == units.last(),
    decreases units.len(),
{
    let text = rendered(units, Some(delimiter));
    let unit = units.last();
    let tail = unit.push('\n');
    assert(tail.drop_last() =~= unit);
    assert(open_line(tail).len() == 0);
    assert(reads_back(unit, delimiter));
    let blank = Seq::<char>::empty();
    if units.len() == 1 {
        assert(units.drop_last() =~= Seq::<Seq<char>>::empty());
        assert(rendered(units.drop_last(), Some(delimiter)) =~= blank);
        assert(text =~= tail);
    } else {
        let before = units.drop_last();
        let head = rendered(before, Some(delimiter));
        lemma_rendered_reads_back(before, delimiter);
        let gap = delimiter.push('\n');
        assert(text == head + gap + tail);
        lemma_text_append(head, gap);
        lemma_line_written(delimiter);
        let middle = head + gap;
        assert(open_line(middle).len() == 0);
        lemma_text_append(middle, tail);
        let early = closed_lines(head);
        let x = early.push(delimiter);
        assert(closed_lines(middle) =~= x);
        assert(x.drop_last() =~= early);
        assert(x.last() == delimiter);
        assert(blocks(x, delimiter) == blocks(early, delimiter).push(open_block(early, delimiter)));
        assert(before.drop_last().push(before.last()) =~= before);
        assert(blocks(x, delimiter) == before);
        assert(open_block(x, delimiter).len() == 0);
        lemma_lines_append(x, closed_lines(tail), delimiter);
        assert(closed_lines(text) == x + closed_lines(tail));
        assert(before + Seq::<Seq<char>>::empty() =~= before);
    }
}

/// Where a separating line closed a unit, there is a separating line.
proof fn lemma_some_break(lines: Seq<Seq<char>>, delimiter: Seq<char>)
    requires
        blocks(lines, delimiter).len() > 0,
    ensures
        exists|k: int| 0 <= k < lines.len() && is_break(#[trigger] lines[k], delimiter),
    decreases lines.len(),
{
    if lines.len() > 0 {
        if is_break(lines.last(), delimiter) {
            assert(is_break(lines[lines.len() - 1], delimiter));
        } else {
            lemma_some_break(lines.drop_last(), delimiter);
            let k = choose|k: int|
                0 <= k < lines.drop_last().len() && is_break(
                    #[trigger] lines.drop_last()[k],
                    delimiter,
                );
            assert(is_break(lines[k], delimiter));
        }
    }
}

/// Units that are written out with their delimiter and read again line by
/// line are the units that were written: the same number, the same texts,
/// the trailing empty unit included.
///
/// The lines are lines: none holds a line feed. One case is left out, in
/// which the law does not hold: an empty unit where the empty line separates
/// units, for the line that is written for the unit then reads as a
/// separator.
pub proof fn lemma_round_trip(lines: Seq<Seq<char>>, delimiter: Seq<char>)
    requires
        all_one_line(lines),
        delimiter.len() == 0 ==> forall|i: int|
            0 <= i < units_of(lines, Some(delimiter)).len() ==> (#[trigger] units_of(
                lines,
                Some(delimiter),
            )[i]).len() > 0,
    ensures
        units_of(
            lines_of(rendered(units_of(lines, Some(delimiter)), Some(delimiter))),
            Some(delimiter),
        ) == units_of(lines, Some(delimiter)),
{
    let units = units_of(lines, Some(delimiter));
    let blank = Seq::<char>::empty();
    lemma_trimmed(blank);
    assert forall|i: int| 0 <= i < units.len() && (#[trigger] units[i]).len() == 0 implies !is_break(
        blank,
        delimiter,
    ) by {
        if is_break(blank, delimiter) {
            assert(delimiter.len() == 0);
            assert(units[i].len() > 0);
        }
    }
    if units.len() > 1 {
        lemma_some_break(lines, delimiter);
        let k = choose|k: int| 0 <= k < lines.len() && is_break(#[trigger] lines[k], delimiter);
        lemma_trimmed(lines[k]);
        assert(one_line(lines[k]));
        assert forall|i: int| 0 <= i < delimiter.len() implies delimiter[i] != '\n' by {
            assert(lines[k].contains(trimmed(lines[k])[i]));
        }
    }
    lemma_units_read_back(lines, delimiter);
    lemma_rendered_reads_back(units, delimiter);
    assert(units.drop_last().push(units.last()) =~= units);
}

/// Without a delimiter, lines that are written out and read again are the
/// lines that were written.
pub proof fn lemma_round_trip_lines(lines: Seq<Seq<char>>)
    requires
        all_one_line(lines),
    ensures
        open_line(rendered(units_of(lines, None), None)).len() == 0,
        units_of(lines_of(rendered(units_of(lines, None), None)), None) == lines,
    decreases lines.len(),
{
    let text = rendered(lines, None);
    if lines.len() == 0 {
        assert(text =~= Seq::<char>::empty());
    } else {
        let before = lines.drop_last();
        let head = rendered(before, None);
        let tail = lines.last().push('\n');
        assert(all_one_line(before));
        lemma_round_trip_lines(before);
        assert(text =~= head + tail);
        lemma_text_append(head, tail);
        lemma_line_written(lines.last());
        assert(closed_lines(text) =~= before.push(lines.last()));
        assert(before.push(lines.last()) =~= lines);
    }
}

} // verus!
