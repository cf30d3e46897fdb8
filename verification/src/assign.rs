//! The assignment of units to sets: from the draws of the generator to the
//! list of sets of each unit.

use vstd::prelude::*;
use rand_pcg::Pcg64;
use crate::error::SampleError;
use crate::random::{draw_below, shuffle};
use crate::sizes::{
    capacity, check_sizes, get_size, remainder_is, remainder_twice, takes_remainder, target, total,
    SetSize,
};
use crate::sizes::{lemma_total_prefix, lemma_total_step};
use crate::views::lists;

verus! {

/// The sets in the order in which they draw: each set's number, as often as
/// its target says, the sets in the order of their declaration.
pub open spec fn slots(sizes: Seq<SetSize>) -> Seq<usize>
    decreases sizes.len(),
{
    if sizes.len() == 0 {
        Seq::empty()
    } else {
        slots(sizes.drop_last()) + Seq::new(
            target(sizes.last()),
            |t: int| (sizes.len() - 1) as usize,
        )
    }
}

/// The sets that drew `unit`, in the order of the draws: draw number `t`
/// belongs to the set `slots[t]` and yields the unit `picks[t]`.
pub open spec fn hits(slots: Seq<usize>, picks: Seq<usize>, unit: usize) -> Seq<usize>
    decreases slots.len(),
{
    if slots.len() == 0 {
        Seq::empty()
    } else {
        let before = hits(slots.drop_last(), picks, unit);
        if picks[slots.len() - 1] == unit {
            before.push(slots.last())
        } else {
            before
        }
    }
}

/// A unit's list once the remainder is handed out: a unit that no set drew
/// goes to the remainder set, where there is one.
pub open spec fn settled(list: Seq<usize>, remainder: Option<usize>) -> Seq<usize> {
    match remainder {
        Some(r) => if list.len() == 0 {
            seq![r]
        } else {
            list
        },
        None => list,
    }
}

/// The assignment of `datasize` units that the draws `picks` lead to.
pub open spec fn plan(
    sizes: Seq<SetSize>,
    datasize: nat,
    picks: Seq<usize>,
    remainder: Option<usize>,
) -> Seq<Seq<usize>> {
    Seq::new(datasize, |j: int| settled(hits(slots(sizes), picks, j as usize), remainder))
}

/// What is taken off the end of a pool by `count` pops, in the order taken.
pub open spec fn popped(pool: Seq<usize>, count: nat) -> Seq<usize> {
    Seq::new(count, |t: int| pool[pool.len() - 1 - t])
}

/// The numbers from 0 up to `n`, in order.
pub open spec fn ascending(n: nat) -> Seq<usize> {
    Seq::new(n, |i: int| i as usize)
}

/// Whether `picks` can be the draws of a run: one below `datasize` for each
/// slot, and no unit twice where units are not replaced.
pub open spec fn draws_fit(
    sizes: Seq<SetSize>,
    datasize: nat,
    replace: bool,
    picks: Seq<usize>,
) -> bool {
    &&& picks.len() == total(sizes)
    &&& forall|t: int| 0 <= t < picks.len() ==> picks[t] < datasize
    &&& !replace ==> picks.no_duplicates()
}

/// Why a run is refused before anything is drawn, if it is.
pub open spec fn refusal(sizes: Seq<SetSize>, datasize: usize, replace: bool) -> Option<
    SampleError,
> {
    if datasize == 0 {
        Some(SampleError::EmptyData)
    } else if total(sizes) > capacity(datasize, replace) {
        Some(SampleError::Capacity { available: datasize })
    } else if remainder_twice(sizes) {
        Some(SampleError::DuplicateRemainder)
    } else {
        None
    }
}

/// How often `set` stands in a unit's list.
pub open spec fn count_in(list: Seq<usize>, set: usize) -> nat
    decreases list.len(),
{
    if list.len() == 0 {
        0
    } else {
        count_in(list.drop_last(), set) + if list.last() == set {
            1nat
        } else {
            0nat
        }
    }
}

/// How often `set` stands in all the lists together: the number of units
/// that the set receives, a unit counted as often as it was drawn.
pub open spec fn occurrences(assignment: Seq<Seq<usize>>, set: usize) -> nat
    decreases assignment.len(),
{
    if assignment.len() == 0 {
        0
    } else {
        occurrences(assignment.drop_last(), set) + count_in(assignment.last(), set)
    }
}

/// The number of units that belong to no set.
pub open spec fn idle(assignment: Seq<Seq<usize>>) -> nat
    decreases assignment.len(),
{
    if assignment.len() == 0 {
        0
    } else {
        idle(assignment.drop_last()) + if assignment.last().len() == 0 {
            1nat
        } else {
            0nat
        }
    }
}

/// The lists after the draws of the given slots, before the remainder is
/// handed out.
pub open spec fn drawn(slots: Seq<usize>, picks: Seq<usize>, datasize: nat) -> Seq<Seq<usize>> {
    Seq::new(datasize, |j: int| hits(slots, picks, j as usize))
}

/// Hands the draws out to the sets: the sets take their turns in the order
/// of their declaration, each as many draws as its target says, and every
/// draw adds the set's number to the list of the unit drawn.
pub fn distribute(sizes: &Vec<SetSize>, datasize: usize, picks: &Vec<usize>) -> (res: Vec<
    Vec<usize>,
>)
    requires
        picks.len() == total(sizes@),
        forall|t: int| 0 <= t < picks.len() ==> picks[t] < datasize,
    ensures
        res.len() == datasize,
        lists(res@) == plan(sizes@, datasize as nat, picks@, None),
{
    let mut res: Vec<Vec<usize>> = Vec::new();
    let mut j: usize = 0;
    while j < datasize
        invariant
            j <= datasize,
            res.len() == j,
            forall|u: int| 0 <= u < j ==> res[u]@ == Seq::<usize>::empty(),
        decreases datasize - j,
    {
        res.push(Vec::new());
        j = j + 1;
    }
    let ghost mut done: Seq<usize> = Seq::empty();
    let mut used: usize = 0;
    let mut i: usize = 0;
    while i < sizes.len()
        invariant
            i <= sizes.len(),
            done == slots(sizes@.take(i as int)),
            used == done.len(),
            used == total(sizes@.take(i as int)),
            picks.len() == total(sizes@),
            forall|t: int| 0 <= t < picks.len() ==> picks[t] < datasize,
            res.len() == datasize,
            forall|u: int| 0 <= u < datasize ==> res[u]@ == hits(done, picks@, u as usize),
        decreases sizes.len() - i,
    {
        let goal: usize = get_size(&sizes[i]);
        let ghost base: Seq<usize> = done;
        proof {
            lemma_total_step(sizes@, i as int);
            lemma_total_prefix(sizes@, i + 1);
            lemma_slots_step(sizes@, i as int);
        }
        let mut c: usize = 0;
        while c < goal
            invariant
                c <= goal,
                i < sizes.len(),
                goal == target(sizes@[i as int]),
                base == slots(sizes@.take(i as int)),
                done == base + Seq::new(c as nat, |t: int| i),
                used == done.len(),
                used == total(sizes@.take(i as int)) + c,
                total(sizes@.take(i as int)) + goal <= picks.len(),
                forall|t: int| 0 <= t < picks.len() ==> picks[t] < datasize,
                res.len() == datasize,
                forall|u: int| 0 <= u < datasize ==> res[u]@ == hits(done, picks@, u as usize),
            decreases goal - c,
        {
            let p: usize = picks[used];
            let ghost before: Seq<Vec<usize>> = res@;
            res[p].push(i);
            proof {
                let next: Seq<usize> = done.push(i);
                assert(next.drop_last() =~= done);
                assert(next =~= base + Seq::new((c + 1) as nat, |t: int| i));
                assert forall|u: int| 0 <= u < datasize implies res[u]@ == hits(
                    next,
                    picks@,
                    u as usize,
                ) by {
                    assert(before[u]@ == hits(done, picks@, u as usize));
                }
                done = next;
            }
            used = used + 1;
            c = c + 1;
        }
        i = i + 1;
    }
    proof {
        assert(sizes@.take(i as int) =~= sizes@);
        assert(lists(res@) =~= plan(sizes@, datasize as nat, picks@, None));
    }
    res
}

/// Hands out the remainder: every unit whose list is still empty goes to
/// the remainder set, where there is one.
pub fn settle(assignment: &mut Vec<Vec<usize>>, remainder: Option<usize>)
    ensures
        lists(final(assignment)@) == Seq::new(
            old(assignment)@.len(),
            |j: int| settled(old(assignment)@[j]@, remainder),
        ),
{
    let ghost start: Seq<Vec<usize>> = assignment@;
    if let Some(r) = remainder {
        let mut j: usize = 0;
        while j < assignment.len()
            invariant
                j <= assignment.len(),
                assignment.len() == start.len(),
                forall|u: int| 0 <= u < j ==> assignment[u]@ == settled(start[u]@, Some(r)),
                forall|u: int| j <= u < assignment.len() ==> assignment[u] == start[u],
            decreases assignment.len() - j,
        {
            if assignment[j].len() == 0 {
                assignment[j].push(r);
                assert(assignment[j as int]@ =~= seq![r]);
            }
            j = j + 1;
        }
    }
    assert(lists(assignment@) =~= Seq::new(
        start.len(),
        |j: int| settled(start[j]@, remainder),
    ));
}

/// The assignment that given draws lead to. Draw number `t` yields the unit
/// `picks[t]`; the sets take the draws in the order of their declaration;
/// the remainder set, if any, takes every unit that was not drawn.
pub fn assign_picks(
    sizes: &Vec<SetSize>,
    datasize: usize,
    picks: &Vec<usize>,
    remainder: Option<usize>,
) -> (res: Vec<Vec<usize>>)
    requires
        picks.len() == total(sizes@),
        forall|t: int| 0 <= t < picks.len() ==> picks[t] < datasize,
    ensures
        res.len() == datasize,
        lists(res@) == plan(sizes@, datasize as nat, picks@, remainder),
{
    let mut res: Vec<Vec<usize>> = distribute(sizes, datasize, picks);
    let ghost drawn: Seq<Vec<usize>> = res@;
    proof {
        assert(lists(drawn).len() == datasize);
    }
    settle(&mut res, remainder);
    proof {
        assert(lists(res@).len() == datasize);
        assert forall|j: int| 0 <= j < datasize implies lists(res@)[j] == settled(
            hits(slots(sizes@), picks@, j as usize),
            remainder,
        ) by {
            assert(lists(drawn)[j] == plan(sizes@, datasize as nat, picks@, None)[j]);
        }
        assert(lists(res@) =~= plan(sizes@, datasize as nat, picks@, remainder));
    }
    res
}

/// The assignment without replacement, from a pool that holds every unit
/// once: the draws are what is popped off the end of the pool.
pub fn assign_from_pool(
    sizes: &Vec<SetSize>,
    datasize: usize,
    pool: Vec<usize>,
    remainder: Option<usize>,
) -> (res: Vec<Vec<usize>>)
    requires
        pool.len() == datasize,
        total(sizes@) <= datasize,
        forall|t: int| 0 <= t < pool.len() ==> pool[t] < datasize,
    ensures
        res.len() == datasize,
        lists(res@) == plan(sizes@, datasize as nat, popped(pool@, total(sizes@)), remainder),
{
    let mut pool: Vec<usize> = pool;
    let ghost start: Seq<usize> = pool@;
    let mut picks: Vec<usize> = Vec::new();
    let mut i: usize = 0;
    while i < sizes.len()
        invariant
            i <= sizes.len(),
            start.len() == datasize,
            total(sizes@) <= datasize,
            picks.len() == total(sizes@.take(i as int)),
            pool@ == start.take(datasize - picks.len()),
            picks@ == popped(start, picks.len() as nat),
        decreases sizes.len() - i,
    {
        let goal: usize = get_size(&sizes[i]);
        proof {
            lemma_total_step(sizes@, i as int);
            lemma_total_prefix(sizes@, i + 1);
        }
        let mut c: usize = 0;
        while c < goal
            invariant
                c <= goal,
                start.len() == datasize,
                total(sizes@.take(i as int)) + goal <= datasize,
                picks.len() == total(sizes@.take(i as int)) + c,
                pool@ == start.take(datasize - picks.len()),
                picks@ == popped(start, picks.len() as nat),
            decreases goal - c,
        {
            let top: Option<usize> = pool.pop();
            match top {
                Some(p) => {
                    picks.push(p);
                },
                None => {
                    assert(false);
                },
            }
            proof {
                assert(pool@ =~= start.take(datasize - picks.len()));
                assert(picks@ =~= popped(start, picks.len() as nat));
            }
            c = c + 1;
        }
        i = i + 1;
    }
    proof {
        assert(sizes@.take(i as int) =~= sizes@);
    }
    assign_picks(sizes, datasize, &picks, remainder)
}

/// Assigns `datasize` units to the declared sets.
///
/// An empty dataset, sizes beyond what can be handed out and a second
/// remainder are refused, in this order, before the generator is touched.
/// Without replacement the units are shuffled and the sets take them off
/// the end of the shuffled pool, so that no unit is drawn twice; with
/// replacement every draw is a fresh unit below `datasize`. Whatever the
/// generator hands out, the result is the plan for draws that fit. So each
/// set but the remainder set receives as many units as its target says;
/// and without replacement no unit belongs to two sets, the remainder set
/// takes every unit that was not drawn, and without a remainder set those
/// units are left over.
pub fn assign(sizes: &Vec<SetSize>, datasize: usize, replace: bool, rng: &mut Pcg64) -> (r:
    Result<Vec<Vec<usize>>, SampleError>)
    ensures
        match refusal(sizes@, datasize, replace) {
            Some(e) => r == Err::<Vec<Vec<usize>>, SampleError>(e),
            None => r is Ok && r->Ok_0.len() == datasize && exists|
                picks: Seq<usize>,
                remainder: Option<usize>,
            |
                {
                    &&& remainder_is(sizes@, remainder)
                    &&& draws_fit(sizes@, datasize as nat, replace, picks)
                    &&& #[trigger] plan(sizes@, datasize as nat, picks, remainder) == lists(
                        r->Ok_0@,
                    )
                },
        },
        r is Ok ==> forall|k: int|
            0 <= k < sizes.len() && sizes[k] != SetSize::Remainder ==> #[trigger] occurrences(
                lists(r->Ok_0@),
                k as usize,
            ) == target(sizes[k]),
        r is Ok && !replace ==> forall|j: int|
            0 <= j < datasize ==> (#[trigger] r->Ok_0[j]).len() <= 1,
        r is Ok && !replace ==> idle(lists(r->Ok_0@)) == (if remainder_is(sizes@, None) {
            datasize - total(sizes@)
        } else {
            0
        }),
{
    if datasize == 0 {
        return Err(SampleError::EmptyData);
    }
    let remainder: Option<usize> = match check_sizes(sizes, datasize, replace) {
        Ok(slot) => slot,
        Err(e) => {
            return Err(e);
        },
    };
    if replace {
        let mut draws: Vec<usize> = Vec::new();
        let mut i: usize = 0;
        while i < sizes.len()
            invariant
                i <= sizes.len(),
                datasize > 0,
                total(sizes@) <= usize::MAX,
                draws.len() == total(sizes@.take(i as int)),
                forall|t: int| 0 <= t < draws.len() ==> draws[t] < datasize,
            decreases sizes.len() - i,
        {
            let goal: usize = get_size(&sizes[i]);
            proof {
                lemma_total_step(sizes@, i as int);
                lemma_total_prefix(sizes@, i + 1);
            }
            let mut c: usize = 0;
            while c < goal
                invariant
                    c <= goal,
                    datasize > 0,
                    draws.len() == total(sizes@.take(i as int)) + c,
                    forall|t: int| 0 <= t < draws.len() ==> draws[t] < datasize,
                decreases goal - c,
            {
                let p: usize = draw_below(rng, datasize);
                draws.push(p);
                c = c + 1;
            }
            i = i + 1;
        }
        proof {
            assert(sizes@.take(i as int) =~= sizes@);
        }
        let res: Vec<Vec<usize>> = assign_picks(sizes, datasize, &draws, remainder);
        proof {
            assert(draws_fit(sizes@, datasize as nat, replace, draws@));
            assert forall|k: int|
                0 <= k < sizes.len() && sizes[k] != SetSize::Remainder implies #[trigger] occurrences(
                lists(res@),
                k as usize,
            ) == target(sizes[k]) by {
                lemma_each_set_gets_its_target(sizes@, datasize as nat, draws@, remainder, k);
            }
        }
        Ok(res)
    } else {
        let mut pool: Vec<usize> = Vec::new();
        let mut j: usize = 0;
        while j < datasize
            invariant
                j <= datasize,
                pool@ == ascending(j as nat),
            decreases datasize - j,
        {
            pool.push(j);
            proof {
                assert(pool@ =~= ascending((j + 1) as nat));
            }
            j = j + 1;
        }
        shuffle(&mut pool, rng);
        proof {
            lemma_rearranged(pool@, datasize as nat);
        }
        let ghost picks: Seq<usize> = popped(pool@, total(sizes@));
        let res: Vec<Vec<usize>> = assign_from_pool(sizes, datasize, pool, remainder);
        proof {
            assert(draws_fit(sizes@, datasize as nat, replace, picks));
            assert forall|k: int|
                0 <= k < sizes.len() && sizes[k] != SetSize::Remainder implies #[trigger] occurrences(
                lists(res@),
                k as usize,
            ) == target(sizes[k]) by {
                lemma_each_set_gets_its_target(sizes@, datasize as nat, picks, remainder, k);
            }
            lemma_no_unit_twice(sizes@, datasize as nat, picks, remainder);
            assert forall|j: int| 0 <= j < datasize implies (#[trigger] res[j]).len() <= 1 by {
                assert(lists(res@)[j] == plan(sizes@, datasize as nat, picks, remainder)[j]);
            }
            if remainder is Some {
                assert(takes_remainder(sizes@, remainder->Some_0 as int));
                assert(!remainder_is(sizes@, None));
            }
        }
        Ok(res)
    }
}

/// Counts the units that belong to no set: they are left out of the output.
pub fn count_unassigned(assignment: &Vec<Vec<usize>>) -> (count: usize)
    ensures
        count == idle(lists(assignment@)),
{
    let mut count: usize = 0;
    let mut j: usize = 0;
    while j < assignment.len()
        invariant
            j <= assignment.len(),
            count <= j,
            count == idle(lists(assignment@).take(j as int)),
        decreases assignment.len() - j,
    {
        proof {
            let now = lists(assignment@).take(j + 1);
            assert(now.drop_last() =~= lists(assignment@).take(j as int));
            assert(now.last() == assignment[j as int]@);
        }
        if assignment[j].len() == 0 {
            count = count + 1;
        }
        j = j + 1;
    }
    proof {
        assert(lists(assignment@).take(j as int) =~= lists(assignment@));
    }
    count
}

/// There are as many slots as the targets add up to.
pub proof fn lemma_slots_len(sizes: Seq<SetSize>)
    ensures
        slots(sizes).len() == total(sizes),
    decreases sizes.len(),
{
    if sizes.len() > 0 {
        lemma_slots_len(sizes.drop_last());
    }
}

/// One more set adds its slots at the end.
proof fn lemma_slots_step(sizes: Seq<SetSize>, i: int)
    requires
        0 <= i < sizes.len(),
    ensures
        slots(sizes.take(i + 1)) == slots(sizes.take(i)) + Seq::new(
            target(sizes[i]),
            |t: int| i as usize,
        ),
{
    assert(sizes.take(i + 1).drop_last() =~= sizes.take(i));
    assert(Seq::new(target(sizes[i]), |t: int| (sizes.take(i + 1).len() - 1) as usize)
        =~= Seq::new(target(sizes[i]), |t: int| i as usize));
}

/// A rearrangement of the numbers below `n` holds each of them once.
pub proof fn lemma_rearranged(pool: Seq<usize>, n: nat)
    requires
        n <= usize::MAX,
        pool.to_multiset() == ascending(n).to_multiset(),
    ensures
        pool.len() == n,
        pool.no_duplicates(),
        forall|t: int| 0 <= t < pool.len() ==> pool[t] < n,
{
    broadcast use vstd::seq_lib::group_to_multiset_ensures;

    let base = ascending(n);
    assert(base.no_duplicates());
    base.lemma_multiset_has_no_duplicates();
    pool.lemma_multiset_has_no_duplicates_conv();
    assert(pool.to_multiset().len() == pool.len());
    assert(base.to_multiset().len() == base.len());
    assert forall|t: int| 0 <= t < pool.len() implies pool[t] < n by {
        assert(pool.contains(pool[t]));
        assert(pool.to_multiset().count(pool[t]) > 0);
        assert(base.to_multiset().count(pool[t]) > 0);
        assert(base.contains(pool[t]));
    }
}

/// A unit that no draw yields belongs to no set.
proof fn lemma_hits_absent(slots: Seq<usize>, picks: Seq<usize>, unit: usize)
    requires
        forall|t: int| 0 <= t < slots.len() ==> picks[t] != unit,
    ensures
        hits(slots, picks, unit).len() == 0,
    decreases slots.len(),
{
    if slots.len() > 0 {
        lemma_hits_absent(slots.drop_last(), picks, unit);
    }
}

/// Where no unit is drawn twice, a unit belongs to one set at most.
proof fn lemma_hits_once(slots: Seq<usize>, picks: Seq<usize>, unit: usize)
    requires
        slots.len() <= picks.len(),
        picks.no_duplicates(),
    ensures
        hits(slots, picks, unit).len() <= 1,
    decreases slots.len(),
{
    if slots.len() > 0 {
        if picks[slots.len() - 1] == unit {
            lemma_hits_absent(slots.drop_last(), picks, unit);
        } else {
            lemma_hits_once(slots.drop_last(), picks, unit);
        }
    }
}

/// Replacing one unit's list changes the number of idle units by that unit
/// alone.
proof fn lemma_idle_update(assignment: Seq<Seq<usize>>, p: int, list: Seq<usize>)
    requires
        0 <= p < assignment.len(),
    ensures
        idle(assignment.update(p, list)) + (if assignment[p].len() == 0 {
            1nat
        } else {
            0nat
        }) == idle(assignment) + (if list.len() == 0 {
            1nat
        } else {
            0nat
        }),
    decreases assignment.len(),
{
    let next = assignment.update(p, list);
    if p == assignment.len() - 1 {
        assert(next.drop_last() =~= assignment.drop_last());
    } else {
        assert(next.drop_last() =~= assignment.drop_last().update(p, list));
        lemma_idle_update(assignment.drop_last(), p, list);
    }
}

/// Where every list is empty, every unit is idle.
proof fn lemma_idle_fresh(assignment: Seq<Seq<usize>>)
    requires
        forall|j: int| 0 <= j < assignment.len() ==> assignment[j].len() == 0,
    ensures
        idle(assignment) == assignment.len(),
    decreases assignment.len(),
{
    if assignment.len() > 0 {
        lemma_idle_fresh(assignment.drop_last());
    }
}

/// Where no list is empty, no unit is idle.
proof fn lemma_idle_none(assignment: Seq<Seq<usize>>)
    requires
        forall|j: int| 0 <= j < assignment.len() ==> assignment[j].len() > 0,
    ensures
        idle(assignment) == 0,
    decreases assignment.len(),
{
    if assignment.len() > 0 {
        lemma_idle_none(assignment.drop_last());
    }
}

/// One more draw adds its set to the list of the unit drawn, and changes
/// no other list.
proof fn lemma_drawn_step(slots: Seq<usize>, picks: Seq<usize>, datasize: nat)
    requires
        0 < slots.len() <= picks.len(),
        datasize <= usize::MAX,
        picks[slots.len() - 1] < datasize,
    ensures
        drawn(slots, picks, datasize) == drawn(slots.drop_last(), picks, datasize).update(
            picks[slots.len() - 1] as int,
            drawn(slots.drop_last(), picks, datasize)[picks[slots.len() - 1] as int].push(
                slots.last(),
            ),
        ),
{
    let before = drawn(slots.drop_last(), picks, datasize);
    let p = picks[slots.len() - 1] as int;
    assert(drawn(slots, picks, datasize) =~= before.update(p, before[p].push(slots.last())));
}

/// Where no unit is drawn twice, every draw takes one unit out of the idle
/// ones.
proof fn lemma_idle_drawn(slots: Seq<usize>, picks: Seq<usize>, datasize: nat)
    requires
        slots.len() <= picks.len(),
        datasize <= usize::MAX,
        picks.no_duplicates(),
        forall|t: int| 0 <= t < picks.len() ==> picks[t] < datasize,
    ensures
        idle(drawn(slots, picks, datasize)) + slots.len() == datasize,
    decreases slots.len(),
{
    if slots.len() == 0 {
        lemma_idle_fresh(drawn(slots, picks, datasize));
    } else {
        let before = drawn(slots.drop_last(), picks, datasize);
        let p = picks[slots.len() - 1];
        lemma_idle_drawn(slots.drop_last(), picks, datasize);
        lemma_drawn_step(slots, picks, datasize);
        lemma_hits_absent(slots.drop_last(), picks, p);
        lemma_idle_update(before, p as int, before[p as int].push(slots.last()));
    }
}

/// One more entry in one list is one more occurrence of its set, and of no
/// other.
proof fn lemma_occurrences_update(assignment: Seq<Seq<usize>>, p: int, s: usize, set: usize)
    requires
        0 <= p < assignment.len(),
    ensures
        occurrences(assignment.update(p, assignment[p].push(s)), set) == occurrences(
            assignment,
            set,
        ) + (if s == set {
            1nat
        } else {
            0nat
        }),
    decreases assignment.len(),
{
    let list = assignment[p].push(s);
    let next = assignment.update(p, list);
    if p == assignment.len() - 1 {
        assert(next.drop_last() =~= assignment.drop_last());
        assert(list.drop_last() =~= assignment[p]);
    } else {
        assert(next.drop_last() =~= assignment.drop_last().update(p, list));
        lemma_occurrences_update(assignment.drop_last(), p, s, set);
    }
}

/// Where every list is empty, no set occurs.
proof fn lemma_occurrences_fresh(assignment: Seq<Seq<usize>>, set: usize)
    requires
        forall|j: int| 0 <= j < assignment.len() ==> assignment[j].len() == 0,
    ensures
        occurrences(assignment, set) == 0,
    decreases assignment.len(),
{
    if assignment.len() > 0 {
        lemma_occurrences_fresh(assignment.drop_last(), set);
    }
}

/// A set occurs in the lists as often as among the slots that were drawn
/// for.
proof fn lemma_occurrences_drawn(slots: Seq<usize>, picks: Seq<usize>, datasize: nat, set: usize)
    requires
        slots.len() <= picks.len(),
        datasize <= usize::MAX,
        forall|t: int| 0 <= t < picks.len() ==> picks[t] < datasize,
    ensures
        occurrences(drawn(slots, picks, datasize), set) == count_in(slots, set),
    decreases slots.len(),
{
    if slots.len() == 0 {
        lemma_occurrences_fresh(drawn(slots, picks, datasize), set);
    } else {
        let before = drawn(slots.drop_last(), picks, datasize);
        let p = picks[slots.len() - 1];
        lemma_occurrences_drawn(slots.drop_last(), picks, datasize, set);
        lemma_drawn_step(slots, picks, datasize);
        lemma_occurrences_update(before, p as int, slots.last(), set);
    }
}

/// Counting in two lists, one after the other, adds up.
proof fn lemma_count_in_concat(a: Seq<usize>, b: Seq<usize>, set: usize)
    ensures
        count_in(a + b, set) == count_in(a, set) + count_in(b, set),
    decreases b.len(),
{
    if b.len() == 0 {
        assert(a + b =~= a);
    } else {
        assert((a + b).drop_last() =~= a + b.drop_last());
        lemma_count_in_concat(a, b.drop_last(), set);
    }
}

/// A list that repeats one value holds that value as often as it is long,
/// and no other.
proof fn lemma_count_in_repeat(value: usize, times: nat, set: usize)
    ensures
        count_in(Seq::new(times, |t: int| value), set) == (if value == set {
            times
        } else {
            0
        }),
    decreases times,
{
    if times > 0 {
        assert(Seq::new(times, |t: int| value).drop_last() =~= Seq::new(
            (times - 1) as nat,
            |t: int| value,
        ));
        lemma_count_in_repeat(value, (times - 1) as nat, set);
    }
}

/// Among the slots each set stands as often as its target says.
proof fn lemma_count_in_slots(sizes: Seq<SetSize>, set: usize)
    requires
        sizes.len() <= usize::MAX,
    ensures
        count_in(slots(sizes), set) == (if set < sizes.len() {
            target(sizes[set as int])
        } else {
            0
        }),
    decreases sizes.len(),
{
    if sizes.len() > 0 {
        let value = (sizes.len() - 1) as usize;
        let tail = Seq::new(target(sizes.last()), |t: int| (sizes.len() - 1) as usize);
        assert(tail =~= Seq::new(target(sizes.last()), |t: int| value));
        lemma_count_in_slots(sizes.drop_last(), set);
        lemma_count_in_concat(slots(sizes.drop_last()), tail, set);
        lemma_count_in_repeat(value, target(sizes.last()), set);
    }
}

/// Handing out the remainder adds occurrences of the remainder set alone.
proof fn lemma_occurrences_settled(assignment: Seq<Seq<usize>>, remainder: Option<usize>, set: usize)
    requires
        remainder != Some(set),
    ensures
        occurrences(Seq::new(assignment.len(), |j: int| settled(assignment[j], remainder)), set)
            == occurrences(assignment, set),
    decreases assignment.len(),
{
    let after = Seq::new(assignment.len(), |j: int| settled(assignment[j], remainder));
    if assignment.len() > 0 {
        assert(after.drop_last() =~= Seq::new(
            assignment.drop_last().len(),
            |j: int| settled(assignment.drop_last()[j], remainder),
        ));
        lemma_occurrences_settled(assignment.drop_last(), remainder, set);
        let last = assignment.last();
        if remainder is Some && last.len() == 0 {
            let r = remainder->Some_0;
            assert(seq![r].drop_last() =~= Seq::<usize>::empty());
            assert(seq![r].last() == r);
            assert(count_in(Seq::<usize>::empty(), set) == 0);
            assert(count_in(seq![r], set) == 0);
            assert(count_in(last, set) == 0);
        }
    }
}

/// Without replacement no unit belongs to more than one set, and to that
/// set once. As many units are assigned as the sets ask for: without a
/// remainder set, the units that belong to no set are all the others; with
/// one, no unit is left over.
pub proof fn lemma_no_unit_twice(
    sizes: Seq<SetSize>,
    datasize: nat,
    picks: Seq<usize>,
    remainder: Option<usize>,
)
    requires
        datasize <= usize::MAX,
        draws_fit(sizes, datasize, false, picks),
    ensures
        forall|j: int|
            0 <= j < datasize ==> (#[trigger] plan(sizes, datasize, picks, remainder)[j]).len()
                <= 1,
        idle(plan(sizes, datasize, picks, None)) + total(sizes) == datasize,
        remainder is Some ==> idle(plan(sizes, datasize, picks, remainder)) == 0,
{
    lemma_slots_len(sizes);
    assert forall|j: int| 0 <= j < datasize implies (#[trigger] plan(
        sizes,
        datasize,
        picks,
        remainder,
    )[j]).len() <= 1 by {
        lemma_hits_once(slots(sizes), picks, j as usize);
    }
    lemma_idle_drawn(slots(sizes), picks, datasize);
    assert(plan(sizes, datasize, picks, None) =~= drawn(slots(sizes), picks, datasize));
    if remainder is Some {
        lemma_idle_none(plan(sizes, datasize, picks, remainder));
    }
}

/// Whatever is drawn, each set receives as many units as its target says,
/// a unit counted as often as the set drew it. This holds with and without
/// replacement; only the remainder set, which takes what is left, is not
/// bound by its target.
pub proof fn lemma_each_set_gets_its_target(
    sizes: Seq<SetSize>,
    datasize: nat,
    picks: Seq<usize>,
    remainder: Option<usize>,
    set: int,
)
    requires
        datasize <= usize::MAX,
        sizes.len() <= usize::MAX,
        picks.len() == total(sizes),
        forall|t: int| 0 <= t < picks.len() ==> picks[t] < datasize,
        0 <= set < sizes.len(),
        remainder != Some(set as usize),
    ensures
        occurrences(plan(sizes, datasize, picks, remainder), set as usize) == target(sizes[set]),
{
    lemma_slots_len(sizes);
    let before = drawn(slots(sizes), picks, datasize);
    lemma_occurrences_drawn(slots(sizes), picks, datasize, set as usize);
    lemma_count_in_slots(sizes, set as usize);
    lemma_occurrences_settled(before, remainder, set as usize);
    assert(plan(sizes, datasize, picks, remainder) =~= Seq::new(
        before.len(),
        |j: int| settled(before[j], remainder),
    ));
}

} // verus!
