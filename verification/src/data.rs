//! What is checked of the columns before anything is drawn from them.

use vstd::prelude::*;
use crate::error::SampleError;
use crate::views::{columns, texts};

verus! {

/// Whether there is nothing to sample from: no column, or a first column
/// without a unit.
pub open spec fn is_empty_data(data: Seq<Seq<Seq<char>>>) -> bool {
    data.len() == 0 || data[0].len() == 0
}

/// Whether column `i` is the first that differs in length from the column
/// before it.
pub open spec fn first_mismatch(data: Seq<Seq<Seq<char>>>, i: int) -> bool {
    &&& 1 <= i < data.len()
    &&& data[i - 1].len() != data[i].len()
    &&& forall|k: int| 1 <= k < i ==> data[k - 1].len() == (#[trigger] data[k]).len()
}

/// Whether every column holds `n` units.
pub open spec fn aligned(data: Seq<Seq<Seq<char>>>, n: nat) -> bool {
    forall|c: int| 0 <= c < data.len() ==> (#[trigger] data[c]).len() == n
}

/// Holds the columns against each other: there must be something to sample
/// from, and the columns, which are read row by row together, must be of
/// one length. The answer is that length.
pub fn check_data(data: &Vec<Vec<String>>) -> (r: Result<usize, SampleError>)
    ensures
        is_empty_data(columns(data@)) ==> r == Err::<usize, SampleError>(SampleError::EmptyData),
        forall|i: int|
            !is_empty_data(columns(data@)) && first_mismatch(columns(data@), i) ==> r == Err::<
                usize,
                SampleError,
            >(SampleError::ColumnMismatch { column: (i + 1) as usize }),
        r is Ok ==> r->Ok_0 > 0 && aligned(columns(data@), r->Ok_0 as nat),
        r is Err ==> is_empty_data(columns(data@)) || exists|i: int|
            first_mismatch(columns(data@), i),
{
    let ghost d = columns(data@);
    if data.len() == 0 {
        return Err(SampleError::EmptyData);
    }
    assert(d[0] == texts(data[0]@));
    if data[0].len() == 0 {
        return Err(SampleError::EmptyData);
    }
    let datasize: usize = data[0].len();
    let mut i: usize = 1;
    while i < data.len()
        invariant
            1 <= i <= data.len(),
            d == columns(data@),
            datasize == data[0].len(),
            datasize > 0,
            forall|k: int| 0 <= k < i ==> (#[trigger] d[k]).len() == datasize,
        decreases data.len() - i,
    {
        assert(d[i as int] == texts(data[i as int]@));
        assert(d[i - 1].len() == datasize);
        if data[i - 1].len() != data[i].len() {
            proof {
                assert(d[i - 1] == texts(data[i - 1]@));
                assert(first_mismatch(d, i as int));
                assert forall|k: int| first_mismatch(d, k) implies k == i by {
                    if k < i {
                        assert(d[k - 1].len() == datasize && d[k].len() == datasize);
                    }
                }
            }
            return Err(SampleError::ColumnMismatch { column: i + 1 });
        }
        i = i + 1;
    }
    proof {
        assert forall|k: int| !first_mismatch(d, k) by {
            if 1 <= k < d.len() {
                assert(d[k - 1].len() == datasize && d[k].len() == datasize);
            }
        }
    }
    Ok(datasize)
}

} // verus!
