//! Declared set sizes and what is checked of them before anything is drawn.

use vstd::prelude::*;
use crate::error::SampleError;

verus! {

/// The declared size of one set.
#[derive(Clone, Copy, Debug, PartialEq, Eq, Structural)]
pub enum SetSize {
    /// This many units.
    Absolute(usize),
    /// Every unit that no other set took.
    Remainder,
}

/// A size as it is written in the options, before the number of units is
/// known: the remainder sign, a fraction of the data, or a count.
#[derive(Clone, Copy, Debug, PartialEq, Eq, Structural)]
pub enum SizeText {
    /// An asterisk.
    Remainder,
    /// A text with a dot in it: a fraction, which is for the caller to read.
    Fraction,
    /// A count, in decimal.
    Count(usize),
}

/// The value of a decimal digit.
pub open spec fn digit_value(c: char) -> Option<nat> {
    if c == '0' {
        Some(0)
    } else if c == '1' {
        Some(1)
    } else if c == '2' {
        Some(2)
    } else if c == '3' {
        Some(3)
    } else if c == '4' {
        Some(4)
    } else if c == '5' {
        Some(5)
    } else if c == '6' {
        Some(6)
    } else if c == '7' {
        Some(7)
    } else if c == '8' {
        Some(8)
    } else if c == '9' {
        Some(9)
    } else {
        None
    }
}

/// Whether a text is made of decimal digits.
pub open spec fn all_digits(text: Seq<char>) -> bool {
    forall|i: int| 0 <= i < text.len() ==> digit_value(#[trigger] text[i]) is Some
}

/// The number that decimal digits stand for.
pub open spec fn value_of(text: Seq<char>) -> nat
    decreases text.len(),
{
    if text.len() == 0 {
        0
    } else {
        value_of(text.drop_last()) * 10 + match digit_value(text.last()) {
            Some(d) => d,
            None => 0,
        }
    }
}

/// A count without the plus sign that may stand before it.
pub open spec fn unsigned_part(text: Seq<char>) -> Seq<char> {
    if text.len() > 0 && text[0] == '+' {
        text.drop_first()
    } else {
        text
    }
}

/// The count that a text stands for: one decimal digit or more, with or
/// without a plus sign before them, and not beyond a machine word.
pub open spec fn count_of(text: Seq<char>) -> Option<usize> {
    let body = unsigned_part(text);
    if body.len() > 0 && all_digits(body) && value_of(body) <= usize::MAX {
        Some(value_of(body) as usize)
    } else {
        None
    }
}

/// What a size text stands for. The asterisk is the remainder; a text with
/// a dot is a fraction; everything else must be a count.
pub open spec fn size_of_text(text: Seq<char>) -> Result<SizeText, SampleError> {
    if text == seq!['*'] {
        Ok(SizeText::Remainder)
    } else if text.contains('.') {
        Ok(SizeText::Fraction)
    } else {
        match count_of(text) {
            Some(c) => Ok(SizeText::Count(c)),
            None => Err(SampleError::BadSize),
        }
    }
}

/// The number of units that a set draws for itself.
pub open spec fn target(size: SetSize) -> nat {
    match size {
        SetSize::Absolute(c) => c as nat,
        SetSize::Remainder => 0,
    }
}

/// The sum of the targets.
pub open spec fn total(sizes: Seq<SetSize>) -> nat
    decreases sizes.len(),
{
    if sizes.len() == 0 {
        0
    } else {
        total(sizes.drop_last()) + target(sizes.last())
    }
}

/// Whether the set at `slot` takes the remainder.
pub open spec fn takes_remainder(sizes: Seq<SetSize>, slot: int) -> bool {
    0 <= slot < sizes.len() && sizes[slot] == SetSize::Remainder
}

/// Whether two different sets take the remainder.
pub open spec fn remainder_twice(sizes: Seq<SetSize>) -> bool {
    exists|i: int, j: int| i != j && takes_remainder(sizes, i) && takes_remainder(sizes, j)
}

/// The set that takes the remainder, where exactly the sets at `slot` do.
pub open spec fn remainder_is(sizes: Seq<SetSize>, slot: Option<usize>) -> bool {
    match slot {
        Some(r) => takes_remainder(sizes, r as int),
        None => forall|i: int| !takes_remainder(sizes, i),
    }
}

/// The most that the sets together may draw from `datasize` units.
pub open spec fn capacity(datasize: usize, replace: bool) -> nat {
    if replace {
        usize::MAX as nat
    } else {
        datasize as nat
    }
}

/// One more set adds its target to the sum.
pub proof fn lemma_total_step(sizes: Seq<SetSize>, i: int)
    requires
        0 <= i < sizes.len(),
    ensures
        total(sizes.take(i + 1)) == total(sizes.take(i)) + target(sizes[i]),
{
    assert(sizes.take(i + 1).drop_last() =~= sizes.take(i));
}

/// The first sets never ask for more than all sets together.
pub proof fn lemma_total_prefix(sizes: Seq<SetSize>, i: int)
    requires
        0 <= i <= sizes.len(),
    ensures
        total(sizes.take(i)) <= total(sizes),
    decreases sizes.len() - i,
{
    if i == sizes.len() {
        assert(sizes.take(i) =~= sizes);
    } else {
        lemma_total_step(sizes, i);
        lemma_total_prefix(sizes, i + 1);
    }
}

/// More digits never stand for less.
proof fn lemma_value_grows(text: Seq<char>, k: int)
    requires
        0 <= k <= text.len(),
    ensures
        value_of(text.take(k)) <= value_of(text),
    decreases text.len() - k,
{
    if k == text.len() {
        assert(text.take(k) =~= text);
    } else {
        assert(text.take(k + 1).drop_last() =~= text.take(k));
        lemma_value_grows(text, k + 1);
    }
}

/// The value of a decimal digit.
pub fn digit(c: char) -> (d: Option<usize>)
    ensures
        match d {
            Some(v) => digit_value(c) == Some(v as nat) && v < 10,
            None => digit_value(c) is None,
        },
{
    if c == '0' {
        Some(0)
    } else if c == '1' {
        Some(1)
    } else if c == '2' {
        Some(2)
    } else if c == '3' {
        Some(3)
    } else if c == '4' {
        Some(4)
    } else if c == '5' {
        Some(5)
    } else if c == '6' {
        Some(6)
    } else if c == '7' {
        Some(7)
    } else if c == '8' {
        Some(8)
    } else if c == '9' {
        Some(9)
    } else {
        None
    }
}

/// Reads a count: decimal digits, with or without a plus sign before them.
/// There is no count where a digit is missing, where anything else stands in
/// the text, or where the number is beyond a machine word.
pub fn read_count(text: &str) -> (r: Option<usize>)
    ensures
        r == count_of(text@),
{
    let n: usize = text.unicode_len();
    let mut i: usize = 0;
    if n > 0 && text.get_char(0) == '+' {
        i = 1;
    }
    let start: usize = i;
    let ghost body: Seq<char> = unsigned_part(text@);
    proof {
        assert(body =~= text@.subrange(start as int, n as int));
    }
    if i == n {
        return None;
    }
    let mut value: usize = 0;
    while i < n
        invariant
            start <= i <= n,
            n == text@.len(),
            body == text@.subrange(start as int, n as int),
            body == unsigned_part(text@),
            body.len() > 0,
            all_digits(body.take(i - start)),
            value == value_of(body.take(i - start)),
        decreases n - i,
    {
        let c: char = text.get_char(i);
        let ghost seen: Seq<char> = body.take(i - start);
        let ghost next: Seq<char> = body.take(i - start + 1);
        proof {
            assert(body[i - start] == c);
            assert(next.drop_last() =~= seen);
            assert(next.last() == c);
        }
        match digit(c) {
            None => {
                return None;
            },
            Some(d) => {
                if value > (usize::MAX - d) / 10 {
                    proof {
                        assert(value_of(next) == value * 10 + d);
                        assert(value_of(next) > usize::MAX);
                        lemma_value_grows(body, i - start + 1);
                    }
                    return None;
                }
                value = value * 10 + d;
                proof {
                    assert forall|k: int| 0 <= k < next.len() implies digit_value(
                        #[trigger] next[k],
                    ) is Some by {
                        if k < seen.len() {
                            assert(next[k] == seen[k]);
                        }
                    }
                }
            },
        }
        i = i + 1;
    }
    proof {
        assert(body.take(i - start) =~= body);
    }
    Some(value)
}

/// Reads a size as it is written in the options. The asterisk is the
/// remainder; a text with a dot is a fraction, which is left to the caller,
/// for fractions are outside this library; everything else must be a count.
pub fn read_size(text: &str) -> (r: Result<SizeText, SampleError>)
    ensures
        r == size_of_text(text@),
{
    let n: usize = text.unicode_len();
    if n == 1 && text.get_char(0) == '*' {
        proof {
            assert(text@ =~= seq!['*']);
        }
        return Ok(SizeText::Remainder);
    }
    let mut i: usize = 0;
    while i < n
        invariant
            i <= n,
            n == text@.len(),
            forall|k: int| 0 <= k < i ==> text@[k] != '.',
        decreases n - i,
    {
        if text.get_char(i) == '.' {
            return Ok(SizeText::Fraction);
        }
        i = i + 1;
    }
    match read_count(text) {
        Some(c) => Ok(SizeText::Count(c)),
        None => Err(SampleError::BadSize),
    }
}

/// The number of units that a set draws for itself.
pub fn get_size(size: &SetSize) -> (r: usize)
    ensures
        r == target(*size),
{
    match size {
        SetSize::Absolute(c) => *c,
        SetSize::Remainder => 0,
    }
}

/// Whether the targets add up to more than `limit`. The sum itself may not
/// fit a machine word; the answer is exact all the same.
pub fn exceeds(sizes: &Vec<SetSize>, limit: usize) -> (r: bool)
    ensures
        r == (total(sizes@) > limit),
{
    let mut sum: usize = 0;
    let mut i: usize = 0;
    while i < sizes.len()
        invariant
            i <= sizes.len(),
            sum == total(sizes@.take(i as int)),
            sum <= limit,
        decreases sizes.len() - i,
    {
        let c: usize = get_size(&sizes[i]);
        proof {
            lemma_total_step(sizes@, i as int);
        }
        if c > limit - sum {
            proof {
                lemma_total_prefix(sizes@, i + 1);
            }
            return true;
        }
        sum = sum + c;
        i = i + 1;
    }
    proof {
        assert(sizes@.take(i as int) =~= sizes@);
    }
    false
}

/// The set that takes the remainder, if one does; an error where two do.
pub fn find_remainder(sizes: &Vec<SetSize>) -> (r: Result<Option<usize>, SampleError>)
    ensures
        remainder_twice(sizes@) <==> r is Err,
        r is Err ==> r == Err::<Option<usize>, SampleError>(SampleError::DuplicateRemainder),
        r is Ok ==> remainder_is(sizes@, r->Ok_0),
{
    let mut slot: Option<usize> = None;
    let mut i: usize = 0;
    while i < sizes.len()
        invariant
            i <= sizes.len(),
            match slot {
                Some(r) => r < i && takes_remainder(sizes@, r as int) && forall|k: int|
                    0 <= k < i && takes_remainder(sizes@, k) ==> k == r,
                None => forall|k: int| 0 <= k < i ==> !takes_remainder(sizes@, k),
            },
        decreases sizes.len() - i,
    {
        match sizes[i] {
            SetSize::Remainder => {
                match slot {
                    Some(r) => {
                        assert(takes_remainder(sizes@, r as int) && takes_remainder(sizes@, i as int));
                        return Err(SampleError::DuplicateRemainder);
                    },
                    None => {
                        slot = Some(i);
                    },
                }
            },
            SetSize::Absolute(_) => {},
        }
        i = i + 1;
    }
    Ok(slot)
}

/// Holds the declared sizes against the number of units, before anything is
/// drawn. Sizes that exceed what can be handed out are refused first: more
/// than `datasize` without replacement, more than a machine word can count
/// with it. Then a second remainder is refused. Otherwise the answer is the
/// set that takes the remainder, if there is one.
pub fn check_sizes(sizes: &Vec<SetSize>, datasize: usize, replace: bool) -> (r: Result<
    Option<usize>,
    SampleError,
>)
    ensures
        total(sizes@) > capacity(datasize, replace) ==> r == Err::<Option<usize>, SampleError>(
            SampleError::Capacity { available: datasize },
        ),
        total(sizes@) <= capacity(datasize, replace) && remainder_twice(sizes@) ==> r == Err::<
            Option<usize>,
            SampleError,
        >(SampleError::DuplicateRemainder),
        total(sizes@) <= capacity(datasize, replace) && !remainder_twice(sizes@) ==> r is Ok
            && remainder_is(sizes@, r->Ok_0),
{
    let limit: usize = if replace {
        usize::MAX
    } else {
        datasize
    };
    if exceeds(sizes, limit) {
        return Err(SampleError::Capacity { available: datasize });
    }
    find_remainder(sizes)
}

} // verus!
