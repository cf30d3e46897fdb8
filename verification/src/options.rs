//! Reading the options that are lists: sizes and names, separated by commas.

use vstd::prelude::*;
use crate::error::SampleError;
use crate::sizes::{read_size, size_of_text, SizeText};
use crate::text::{decimal, digits};
use crate::views::texts;

verus! {

/// The sizes where none are given: one set, which takes everything.
pub const DEFAULT_SIZES: &'static str = "*";

/// The extension of the destinations where none is given.
pub const DEFAULT_EXTENSION: &'static str = "txt";

/// The name that stands for the column that is read from standard input.
pub const STDIN_STEM: &'static str = "out";

/// The entry of a comma-separated list that is under way at the end of a
/// text: what follows the last comma.
pub open spec fn last_field(text: Seq<char>) -> Seq<char>
    decreases text.len(),
{
    if text.len() == 0 {
        Seq::empty()
    } else if text.last() == ',' {
        Seq::empty()
    } else {
        last_field(text.drop_last()).push(text.last())
    }
}

/// The entries of a comma-separated list that a comma has ended.
pub open spec fn closed_fields(text: Seq<char>) -> Seq<Seq<char>>
    decreases text.len(),
{
    if text.len() == 0 {
        Seq::empty()
    } else if text.last() == ',' {
        closed_fields(text.drop_last()).push(last_field(text.drop_last()))
    } else {
        closed_fields(text.drop_last())
    }
}

/// The entries of a comma-separated list: one more than there are commas,
/// empty entries included.
pub open spec fn fields(text: Seq<char>) -> Seq<Seq<char>> {
    closed_fields(text).push(last_field(text))
}

/// Whether every entry of a list of sizes can be read.
pub open spec fn sizes_readable(text: Seq<char>) -> bool {
    forall|k: int| 0 <= k < fields(text).len() ==> size_of_text(#[trigger] fields(text)[k]) is Ok
}

/// The name that a set gets where none was given: `set` and the set's
/// 1-based number.
pub open spec fn default_name(number: nat) -> Seq<char> {
    "set"@ + digits(number)
}

/// The names of `count` sets: the given ones, and default names for the
/// sets that have none.
pub open spec fn filled(names: Seq<Seq<char>>, count: nat) -> Seq<Seq<char>> {
    Seq::new(
        if names.len() >= count {
            names.len()
        } else {
            count
        },
        |i: int|
            if i < names.len() {
                names[i]
            } else {
                default_name((i + 1) as nat)
            },
    )
}

/// Cuts a comma-separated list into its entries.
pub fn split_list(text: &str) -> (entries: Vec<String>)
    ensures
        texts(entries@) == fields(text@),
{
    let n: usize = text.unicode_len();
    let mut entries: Vec<String> = Vec::new();
    let mut from: usize = 0;
    let mut i: usize = 0;
    while i < n
        invariant
            from <= i <= n,
            n == text@.len(),
            texts(entries@) == closed_fields(text@.take(i as int)),
            last_field(text@.take(i as int)) == text@.subrange(from as int, i as int),
        decreases n - i,
    {
        let ghost held: Seq<Seq<char>> = texts(entries@);
        let ghost begun: Seq<char> = text@.subrange(from as int, i as int);
        proof {
            assert(text@.take(i + 1).drop_last() =~= text@.take(i as int));
            assert(text@.take(i + 1).last() == text@[i as int]);
        }
        if text.get_char(i) == ',' {
            entries.push(text.substring_char(from, i).to_owned());
            from = i + 1;
            proof {
                assert(texts(entries@) =~= held.push(begun));
                assert(text@.subrange(from as int, i + 1) =~= Seq::<char>::empty());
            }
        } else {
            proof {
                assert(text@.subrange(from as int, i + 1) =~= begun.push(text@[i as int]));
            }
        }
        i = i + 1;
    }
    let ghost held: Seq<Seq<char>> = texts(entries@);
    proof {
        assert(text@.take(i as int) =~= text@);
    }
    entries.push(text.substring_char(from, n).to_owned());
    proof {
        assert(texts(entries@) =~= held.push(text@.subrange(from as int, n as int)));
    }
    entries
}

/// Reads a comma-separated list of sizes, entry by entry. One entry that
/// cannot be read spoils the list.
pub fn read_sizes(text: &str) -> (r: Result<Vec<SizeText>, SampleError>)
    ensures
        !sizes_readable(text@) ==> r == Err::<Vec<SizeText>, SampleError>(SampleError::BadSize),
        sizes_readable(text@) ==> r is Ok && r->Ok_0.len() == fields(text@).len() && forall|k: int|
            0 <= k < fields(text@).len() ==> Ok::<SizeText, SampleError>(
                #[trigger] r->Ok_0[k],
            ) == size_of_text(fields(text@)[k]),
{
    let entries: Vec<String> = split_list(text);
    let mut sizes: Vec<SizeText> = Vec::new();
    let mut k: usize = 0;
    while k < entries.len()
        invariant
            k <= entries.len(),
            texts(entries@) == fields(text@),
            sizes.len() == k,
            forall|j: int|
                0 <= j < k ==> Ok::<SizeText, SampleError>(#[trigger] sizes[j]) == size_of_text(
                    fields(text@)[j],
                ),
        decreases entries.len() - k,
    {
        proof {
            assert(texts(entries@)[k as int] == entries[k as int]@);
        }
        match read_size(entries[k].as_str()) {
            Ok(size) => {
                sizes.push(size);
            },
            Err(e) => {
                proof {
                    assert(size_of_text(fields(text@)[k as int]) is Err);
                }
                return Err(e);
            },
        }
        k = k + 1;
    }
    proof {
        assert(fields(text@).len() == entries.len());
        assert forall|j: int| 0 <= j < fields(text@).len() implies size_of_text(
            #[trigger] fields(text@)[j],
        ) is Ok by {
            assert(Ok::<SizeText, SampleError>(sizes[j]) == size_of_text(fields(text@)[j]));
        }
    }
    Ok(sizes)
}

/// Gives every set a name: sets without one are called `set1`, `set2` and so
/// on, by their place. The answer says whether there are more names than
/// sets, which is worth a warning and nothing more.
pub fn fill_names(names: &mut Vec<String>, count: usize) -> (surplus: bool)
    ensures
        texts(final(names)@) == filled(texts(old(names)@), count as nat),
        surplus == (old(names).len() > count),
{
    let ghost start: Seq<Seq<char>> = texts(names@);
    while names.len() < count
        invariant
            start.len() <= names.len(),
            names.len() <= count || names.len() == start.len(),
            forall|i: int| 0 <= i < start.len() ==> texts(names@)[i] == start[i],
            forall|i: int|
                start.len() <= i < names.len() ==> texts(names@)[i] == default_name((i + 1) as nat),
        decreases count - names.len(),
    {
        let ghost held: Seq<Seq<char>> = texts(names@);
        let mut name: String = String::new();
        name.append("set");
        let number: String = decimal(names.len() + 1);
        name.append(number.as_str());
        proof {
            assert(name@ =~= default_name((names.len() + 1) as nat));
        }
        names.push(name);
        proof {
            assert(texts(names@) =~= held.push(name@));
        }
    }
    proof {
        assert(texts(names@) =~= filled(start, count as nat));
    }
    names.len() > count
}

} // verus!
