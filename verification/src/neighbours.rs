//! Who calls a function and whom it calls, counted over the stacks of all threads.

use vstd::prelude::*;

use crate::order::is_listing;
use crate::order::listing_order;
use crate::order::precedes;
use crate::profile::ResolvedFrame;
use crate::profile::ResolvedSample;
use crate::profile::ResolvedThread;
use crate::profile::sample_stacks;
use crate::profile::stack_names;
use crate::results::CallerCalleeEntry;

verus! {

/// On which side of a frame its neighbour stands.
#[derive(Clone, Copy, Debug, PartialEq, Eq, Structural)]
pub enum Side {
    /// The frame before: what called the function.
    Caller,
    /// The frame after: what the function called.
    Callee,
}

/// The neighbour of the frame at `at`, where it has one.
pub open spec fn neighbour(stack: Seq<Seq<char>>, at: int, side: Side) -> Option<Seq<char>> {
    match side {
        Side::Caller => if at > 0 {
            Some(stack[at - 1])
        } else {
            None
        },
        Side::Callee => if at + 1 < stack.len() {
            Some(stack[at + 1])
        } else {
            None
        },
    }
}

/// The neighbours of `target` on a stack, one for each of its first `n` frames that is for
/// `target` and has a neighbour.
pub open spec fn neighbours_on_stack(
    stack: Seq<Seq<char>>,
    target: Seq<char>,
    side: Side,
    n: nat,
) -> Seq<Seq<char>>
    decreases n,
{
    if n == 0 {
        Seq::empty()
    } else {
        let before = neighbours_on_stack(stack, target, side, (n - 1) as nat);
        if stack[n - 1] == target {
            match neighbour(stack, n - 1, side) {
                Some(name) => before.push(name),
                None => before,
            }
        } else {
            before
        }
    }
}

/// The neighbours of `target` on several stacks.
pub open spec fn neighbours_on_stacks(
    stacks: Seq<Seq<Seq<char>>>,
    target: Seq<char>,
    side: Side,
) -> Seq<Seq<char>>
    decreases stacks.len(),
{
    if stacks.len() == 0 {
        Seq::empty()
    } else {
        neighbours_on_stacks(stacks.drop_last(), target, side) + neighbours_on_stack(
            stacks.last(),
            target,
            side,
            stacks.last().len(),
        )
    }
}

/// The neighbours of `target` in the samples of all threads.
pub open spec fn neighbours(threads: Seq<ResolvedThread>, target: Seq<char>, side: Side) -> Seq<
    Seq<char>,
>
    decreases threads.len(),
{
    if threads.len() == 0 {
        Seq::empty()
    } else {
        neighbours(threads.drop_last(), target, side) + neighbours_on_stacks(
            sample_stacks(threads.last().samples@),
            target,
            side,
        )
    }
}

/// How often `name` is among `names`.
pub open spec fn times_among(names: Seq<Seq<char>>, name: Seq<char>) -> nat
    decreases names.len(),
{
    if names.len() == 0 {
        0
    } else {
        times_among(names.drop_last(), name) + if names.last() == name {
            1nat
        } else {
            0
        }
    }
}

/// One of `entries` is for the function `name`.
pub open spec fn has_entry(entries: Seq<CallerCalleeEntry>, name: Seq<char>) -> bool {
    exists|i: int| 0 <= i < entries.len() && (#[trigger] entries[i]).function_name@ == name
}

/// `entries` counts `names`: one entry for each name that is among them, with how often it is.
pub open spec fn counts(entries: Seq<CallerCalleeEntry>, names: Seq<Seq<char>>) -> bool {
    &&& forall|i: int, j: int|
        #![trigger entries[i], entries[j]]
        0 <= i < j < entries.len() ==> entries[i].function_name@ != entries[j].function_name@
    &&& forall|i: int|
        #![trigger entries[i]]
        0 <= i < entries.len() ==> entries[i].count == times_among(names, entries[i].function_name@)
    &&& forall|name: Seq<char>|
        times_among(names, name) > 0 <==> #[trigger] has_entry(entries, name)
}

/// The entries with the highest counts come first.
pub open spec fn is_descending(entries: Seq<CallerCalleeEntry>) -> bool {
    forall|i: int, j: int|
        #![trigger entries[i], entries[j]]
        0 <= i < j < entries.len() ==> entries[i].count >= entries[j].count
}

proof fn times_among_push(names: Seq<Seq<char>>, last: Seq<char>, name: Seq<char>)
    ensures
        times_among(names.push(last), name) == times_among(names, name) + if last == name {
            1nat
        } else {
            0
        },
{
    assert(names.push(last).drop_last() =~= names);
}

proof fn times_among_add(front: Seq<Seq<char>>, back: Seq<Seq<char>>, name: Seq<char>)
    ensures
        times_among(front + back, name) == times_among(front, name) + times_among(back, name),
    decreases back.len(),
{
    if back.len() == 0 {
        assert(front + back =~= front);
    } else {
        times_among_add(front, back.drop_last(), name);
        assert((front + back).drop_last() =~= front + back.drop_last());
        assert((front + back).last() == back.last());
    }
}

/// Every count of `names` is a machine number.
pub open spec fn countable(names: Seq<Seq<char>>) -> bool {
    forall|name: Seq<char>| #[trigger] times_among(names, name) <= usize::MAX
}

/// Counts `name` once more, unless its count is at the limit of machine numbers.
fn count_name(
    entries: &mut Vec<CallerCalleeEntry>,
    name: &String,
    Ghost(names): Ghost<Seq<Seq<char>>>,
) -> (counted: bool)
    requires
        counts(old(entries)@, names),
    ensures
        counted ==> counts(final(entries)@, names.push(name@)),
        !counted ==> times_among(names.push(name@), name@) > usize::MAX,
{
    let ghost before = entries@;
    let ghost more = names.push(name@);
    proof {
        assert forall|n: Seq<char>| #[trigger]
            times_among(more, n) == times_among(names, n) + if name@ == n {
                1nat
            } else {
                0
            } by {
            times_among_push(names, name@, n);
        }
    }
    let mut at: usize = 0;
    while at < entries.len() && entries[at].function_name != *name
        invariant
            at <= entries@.len(),
            forall|i: int| 0 <= i < at ==> (#[trigger] entries@[i]).function_name@ != name@,
        decreases entries@.len() - at,
    {
        at = at + 1;
    }
    if at < entries.len() {
        if entries[at].count == usize::MAX {
            return false;
        }
        entries[at].count = entries[at].count + 1;
        proof {
            assert forall|n: Seq<char>|
                times_among(more, n) > 0 <==> #[trigger] has_entry(entries@, n) by {
                assert(has_entry(entries@, n) == has_entry(before, n)) by {
                    if has_entry(before, n) {
                        let i = choose|i: int|
                            0 <= i < before.len() && (#[trigger] before[i]).function_name@ == n;
                        assert(entries@[i].function_name@ == n);
                    }
                    if has_entry(entries@, n) {
                        let i = choose|i: int|
                            0 <= i < entries@.len() && (#[trigger] entries@[i]).function_name@ == n;
                        assert(before[i].function_name@ == n);
                    }
                }
                if n == name@ {
                    assert(before[at as int].function_name@ == n);
                }
            }
            assert forall|i: int|
                #![trigger entries@[i]]
                0 <= i < entries@.len() implies entries@[i].count == times_among(
                more,
                entries@[i].function_name@,
            ) by {
                assert(before[i].function_name@ == entries@[i].function_name@);
                if i < at {
                    assert(before[i].function_name@ != before[at as int].function_name@);
                } else if at < i {
                    assert(before[at as int].function_name@ != before[i].function_name@);
                }
            }
            assert forall|i: int, j: int|
                #![trigger entries@[i], entries@[j]]
                0 <= i < j < entries@.len() implies entries@[i].function_name@
                != entries@[j].function_name@ by {
                assert(before[i].function_name@ != before[j].function_name@);
            }
        }
    } else {
        entries.push(CallerCalleeEntry { function_name: name.clone(), count: 1 });
        proof {
            assert(!has_entry(before, name@));
            assert forall|n: Seq<char>|
                times_among(more, n) > 0 <==> #[trigger] has_entry(entries@, n) by {
                if n == name@ {
                    assert(entries@[at as int].function_name@ == n);
                } else {
                    if has_entry(before, n) {
                        let i = choose|i: int|
                            0 <= i < before.len() && (#[trigger] before[i]).function_name@ == n;
                        assert(entries@[i].function_name@ == n);
                    }
                    if has_entry(entries@, n) {
                        let i = choose|i: int|
                            0 <= i < entries@.len() && (#[trigger] entries@[i]).function_name@ == n;
                        assert(before[i].function_name@ == n);
                    }
                }
            }
            assert forall|i: int|
                #![trigger entries@[i]]
                0 <= i < entries@.len() implies entries@[i].count == times_among(
                more,
                entries@[i].function_name@,
            ) by {
                if i < at {
                    assert(before[i] == entries@[i]);
                    assert(before[i].function_name@ != name@);
                }
            }
            assert forall|i: int, j: int|
                #![trigger entries@[i], entries@[j]]
                0 <= i < j < entries@.len() implies entries@[i].function_name@
                != entries@[j].function_name@ by {
                assert(before[i].function_name@ != name@);
                if j < at {
                    assert(before[i].function_name@ != before[j].function_name@);
                }
            }
        }
    }
    true
}

fn count_on_stack(
    entries: &mut Vec<CallerCalleeEntry>,
    stack: &Vec<ResolvedFrame>,
    target: &String,
    side: Side,
    Ghost(names): Ghost<Seq<Seq<char>>>,
) -> (counted: bool)
    requires
        counts(old(entries)@, names),
    ensures
        counted ==> counts(
            final(entries)@,
            names + neighbours_on_stack(stack_names(stack@), target@, side, stack@.len()),
        ),
        !counted ==> !countable(
            names + neighbours_on_stack(stack_names(stack@), target@, side, stack@.len()),
        ),
{
    let ghost frames = stack_names(stack@);
    let ghost all = neighbours_on_stack(frames, target@, side, stack@.len());
    let mut i: usize = 0;
    assert(names + neighbours_on_stack(frames, target@, side, 0) =~= names);
    while i < stack.len()
        invariant
            i <= stack@.len(),
            frames == stack_names(stack@),
            all == neighbours_on_stack(frames, target@, side, stack@.len()),
            counts(entries@, names + neighbours_on_stack(frames, target@, side, i as nat)),
        decreases stack@.len() - i,
    {
        let ghost seen = neighbours_on_stack(frames, target@, side, i as nat);
        let ghost next = neighbours_on_stack(frames, target@, side, i as nat + 1);
        if stack[i].function_name == *target {
            let beside: Option<usize> = match side {
                Side::Caller => if i > 0 {
                    Some(i - 1)
                } else {
                    None
                },
                Side::Callee => if i + 1 < stack.len() {
                    Some(i + 1)
                } else {
                    None
                },
            };
            if let Some(at) = beside {
                let name = &stack[at].function_name;
                proof {
                    assert(next =~= seen.push(name@));
                    assert((names + seen).push(name@) =~= names + next);
                    fewer_on_part_of_a_stack(
                        frames,
                        target@,
                        side,
                        i as nat + 1,
                        stack@.len(),
                        name@,
                    );
                    times_among_add(names, next, name@);
                    times_among_add(names, all, name@);
                }
                if !count_name(entries, name, Ghost(names + seen)) {
                    return false;
                }
            }
        }
        i = i + 1;
    }
    true
}

proof fn fewer_on_part_of_a_stack(
    stack: Seq<Seq<char>>,
    target: Seq<char>,
    side: Side,
    n: nat,
    all: nat,
    name: Seq<char>,
)
    requires
        n <= all,
    ensures
        times_among(neighbours_on_stack(stack, target, side, n), name) <= times_among(
            neighbours_on_stack(stack, target, side, all),
            name,
        ),
    decreases all - n,
{
    if n < all {
        fewer_on_part_of_a_stack(stack, target, side, n + 1, all, name);
        let seen = neighbours_on_stack(stack, target, side, n);
        if stack[n as int] == target && neighbour(stack, n as int, side) is Some {
            times_among_push(seen, neighbour(stack, n as int, side)->0, name);
        }
    }
}

proof fn fewer_on_part_of_the_stacks(
    stacks: Seq<Seq<Seq<char>>>,
    target: Seq<char>,
    side: Side,
    n: int,
    name: Seq<char>,
)
    requires
        0 <= n <= stacks.len(),
    ensures
        times_among(neighbours_on_stacks(stacks.take(n), target, side), name) <= times_among(
            neighbours_on_stacks(stacks, target, side),
            name,
        ),
    decreases stacks.len() - n,
{
    if n < stacks.len() {
        fewer_on_part_of_the_stacks(stacks, target, side, n + 1, name);
        assert(stacks.take(n + 1).drop_last() =~= stacks.take(n));
        times_among_add(
            neighbours_on_stacks(stacks.take(n), target, side),
            neighbours_on_stack(stacks[n], target, side, stacks[n].len()),
            name,
        );
    } else {
        assert(stacks.take(n) =~= stacks);
    }
}

proof fn fewer_in_part_of_the_threads(
    threads: Seq<ResolvedThread>,
    target: Seq<char>,
    side: Side,
    n: int,
    name: Seq<char>,
)
    requires
        0 <= n <= threads.len(),
    ensures
        times_among(neighbours(threads.take(n), target, side), name) <= times_among(
            neighbours(threads, target, side),
            name,
        ),
    decreases threads.len() - n,
{
    if n < threads.len() {
        fewer_in_part_of_the_threads(threads, target, side, n + 1, name);
        assert(threads.take(n + 1).drop_last() =~= threads.take(n));
        times_among_add(
            neighbours(threads.take(n), target, side),
            neighbours_on_stacks(sample_stacks(threads[n].samples@), target, side),
            name,
        );
    } else {
        assert(threads.take(n) =~= threads);
    }
}

fn count_in_samples(
    entries: &mut Vec<CallerCalleeEntry>,
    samples: &Vec<ResolvedSample>,
    target: &String,
    side: Side,
    Ghost(names): Ghost<Seq<Seq<char>>>,
) -> (counted: bool)
    requires
        counts(old(entries)@, names),
    ensures
        counted ==> counts(
            final(entries)@,
            names + neighbours_on_stacks(sample_stacks(samples@), target@, side),
        ),
        !counted ==> !countable(
            names + neighbours_on_stacks(sample_stacks(samples@), target@, side),
        ),
{
    let ghost stacks = sample_stacks(samples@);
    let ghost all = neighbours_on_stacks(stacks, target@, side);
    let mut i: usize = 0;
    assert(names + neighbours_on_stacks(stacks.take(0), target@, side) =~= names);
    while i < samples.len()
        invariant
            i <= samples@.len(),
            stacks == sample_stacks(samples@),
            all == neighbours_on_stacks(stacks, target@, side),
            counts(entries@, names + neighbours_on_stacks(stacks.take(i as int), target@, side)),
        decreases samples@.len() - i,
    {
        let stack = &samples[i].stack;
        let ghost seen = neighbours_on_stacks(stacks.take(i as int), target@, side);
        let ghost here = neighbours_on_stack(stack_names(stack@), target@, side, stack@.len());
        let ghost next = neighbours_on_stacks(stacks.take(i + 1), target@, side);
        proof {
            assert(stacks.take(i + 1).drop_last() =~= stacks.take(i as int));
            assert(stacks[i as int] == stack_names(stack@));
            assert(next =~= seen + here);
            assert((names + seen) + here =~= names + next);
            assert forall|name: Seq<char>| #[trigger]
                times_among(names + next, name) <= times_among(names + all, name) by {
                fewer_on_part_of_the_stacks(stacks, target@, side, i + 1, name);
                times_among_add(names, next, name);
                times_among_add(names, all, name);
            }
        }
        if !count_on_stack(entries, stack, target, side, Ghost(names + seen)) {
            return false;
        }
        i = i + 1;
    }
    assert(stacks.take(i as int) =~= stacks);
    true
}

/// The counts of the callers, or of the callees, of `target`, where they are machine numbers.
fn count_in_threads(threads: &Vec<ResolvedThread>, target: &String, side: Side) -> (entries: Option<
    Vec<CallerCalleeEntry>,
>)
    ensures
        match entries {
            Some(entries) => {
                &&& countable(neighbours(threads@, target@, side))
                &&& counts(entries@, neighbours(threads@, target@, side))
            },
            None => !countable(neighbours(threads@, target@, side)),
        },
{
    let ghost all = neighbours(threads@, target@, side);
    let mut entries: Vec<CallerCalleeEntry> = Vec::new();
    let mut i: usize = 0;
    while i < threads.len()
        invariant
            i <= threads@.len(),
            all == neighbours(threads@, target@, side),
            counts(entries@, neighbours(threads@.take(i as int), target@, side)),
        decreases threads@.len() - i,
    {
        let ghost seen = neighbours(threads@.take(i as int), target@, side);
        let ghost next = neighbours(threads@.take(i + 1), target@, side);
        proof {
            assert(threads@.take(i + 1).drop_last() =~= threads@.take(i as int));
            assert forall|name: Seq<char>| #[trigger]
                times_among(next, name) <= times_among(all, name) by {
                fewer_in_part_of_the_threads(threads@, target@, side, i + 1, name);
            }
        }
        if !count_in_samples(&mut entries, &threads[i].samples, target, side, Ghost(seen)) {
            return None;
        }
        i = i + 1;
    }
    assert(threads@.take(i as int) =~= threads@);
    proof {
        what_is_counted_is_countable(entries@, all);
    }
    Some(entries)
}

proof fn what_is_counted_is_countable(entries: Seq<CallerCalleeEntry>, names: Seq<Seq<char>>)
    requires
        counts(entries, names),
    ensures
        countable(names),
{
    assert forall|name: Seq<char>| #[trigger] times_among(names, name) <= usize::MAX by {
        if times_among(names, name) > 0 {
            assert(has_entry(entries, name));
        }
    }
}

/// Whether the callers, or the callees, of `target` can be counted in machine numbers.
pub fn neighbours_fit(threads: &Vec<ResolvedThread>, target: &String, side: Side) -> (fit: bool)
    ensures
        fit == countable(neighbours(threads@, target@, side)),
{
    count_in_threads(threads, target, side).is_some()
}

/// The callers, or the callees, of `target` in all threads, each with how often it is one, the
/// most frequent first.
pub fn count_neighbours(threads: &Vec<ResolvedThread>, target: &String, side: Side) -> (listed: Vec<
    CallerCalleeEntry,
>)
    requires
        countable(neighbours(threads@, target@, side)),
    ensures
        counts(listed@, neighbours(threads@, target@, side)),
        is_descending(listed@),
{
    let entries = count_in_threads(threads, target, side).unwrap();
    let mut keys: Vec<u64> = Vec::new();
    let mut i: usize = 0;
    while i < entries.len()
        invariant
            i <= entries@.len(),
            keys@.len() == i,
            forall|k: int| 0 <= k < i ==> #[trigger] keys@[k] == entries@[k].count,
        decreases entries@.len() - i,
    {
        keys.push(entries[i].count as u64);
        i = i + 1;
    }
    let order = listing_order(&keys);
    let mut listed: Vec<CallerCalleeEntry> = Vec::new();
    let mut j: usize = 0;
    while j < order.len()
        invariant
            j <= order@.len(),
            keys@.len() == entries@.len(),
            is_listing(keys@, order@),
            listed@.len() == j,
            forall|k: int| 0 <= k < j ==> #[trigger] listed@[k] == entries@[order@[k] as int],
        decreases order@.len() - j,
    {
        let entry = &entries[order[j]];
        listed.push(
            CallerCalleeEntry { function_name: entry.function_name.clone(), count: entry.count },
        );
        j = j + 1;
    }
    proof {
        let names = neighbours(threads@, target@, side);
        assert forall|a: int, b: int|
            #![trigger listed@[a], listed@[b]]
            0 <= a < b < listed@.len() implies listed@[a].function_name@
            != listed@[b].function_name@ && listed@[a].count >= listed@[b].count by {
            assert(precedes(keys@, order@[a] as int, order@[b] as int));
            let (x, y) = (order@[a] as int, order@[b] as int);
            if x < y {
                assert(entries@[x].function_name@ != entries@[y].function_name@);
            } else {
                assert(entries@[y].function_name@ != entries@[x].function_name@);
            }
        }
        assert forall|name: Seq<char>|
            times_among(names, name) > 0 <==> #[trigger] has_entry(listed@, name) by {
            assert(times_among(names, name) > 0 <==> has_entry(entries@, name));
            if has_entry(entries@, name) {
                let x = choose|x: int|
                    0 <= x < entries@.len() && (#[trigger] entries@[x]).function_name@ == name;
                assert(order@.contains(x as usize));
                let k = choose|k: int| 0 <= k < order@.len() && order@[k] == x as usize;
                assert(listed@[k].function_name@ == name);
            }
            if has_entry(listed@, name) {
                let k = choose|k: int|
                    0 <= k < listed@.len() && (#[trigger] listed@[k]).function_name@ == name;
                assert(entries@[order@[k] as int].function_name@ == name);
            }
        }
    }
    listed
}

/// Calls look the same from both ends: `b` is a callee of `a` exactly as often as `a` is a caller
/// of `b`.
pub proof fn callers_mirror_callees(threads: Seq<ResolvedThread>, a: Seq<char>, b: Seq<char>)
    ensures
        times_among(neighbours(threads, a, Side::Callee), b) == times_among(
            neighbours(threads, b, Side::Caller),
            a,
        ),
    decreases threads.len(),
{
    if threads.len() > 0 {
        let front = threads.drop_last();
        let stacks = sample_stacks(threads.last().samples@);
        callers_mirror_callees(front, a, b);
        mirrored_on_stacks(stacks, a, b);
        times_among_add(
            neighbours(front, a, Side::Callee),
            neighbours_on_stacks(stacks, a, Side::Callee),
            b,
        );
        times_among_add(
            neighbours(front, b, Side::Caller),
            neighbours_on_stacks(stacks, b, Side::Caller),
            a,
        );
    }
}

proof fn mirrored_on_stacks(stacks: Seq<Seq<Seq<char>>>, a: Seq<char>, b: Seq<char>)
    ensures
        times_among(neighbours_on_stacks(stacks, a, Side::Callee), b) == times_among(
            neighbours_on_stacks(stacks, b, Side::Caller),
            a,
        ),
    decreases stacks.len(),
{
    if stacks.len() > 0 {
        let front = stacks.drop_last();
        let stack = stacks.last();
        mirrored_on_stacks(front, a, b);
        if stack.len() > 0 {
            mirrored_on_stack(stack, a, b, (stack.len() - 1) as nat);
        }
        times_among_add(
            neighbours_on_stacks(front, a, Side::Callee),
            neighbours_on_stack(stack, a, Side::Callee, stack.len()),
            b,
        );
        times_among_add(
            neighbours_on_stacks(front, b, Side::Caller),
            neighbours_on_stack(stack, b, Side::Caller, stack.len()),
            a,
        );
    }
}

/// The callees of the first `n` frames are the frames behind them, whose callers they are.
proof fn mirrored_on_stack(stack: Seq<Seq<char>>, a: Seq<char>, b: Seq<char>, n: nat)
    requires
        n < stack.len(),
    ensures
        times_among(neighbours_on_stack(stack, a, Side::Callee, n), b) == times_among(
            neighbours_on_stack(stack, b, Side::Caller, n + 1),
            a,
        ),
        n == stack.len() - 1 ==> neighbours_on_stack(stack, a, Side::Callee, n)
            == neighbours_on_stack(stack, a, Side::Callee, stack.len()),
    decreases n,
{
    if n > 0 {
        mirrored_on_stack(stack, a, b, (n - 1) as nat);
        let callees = neighbours_on_stack(stack, a, Side::Callee, (n - 1) as nat);
        let callers = neighbours_on_stack(stack, b, Side::Caller, n);
        times_among_push(callees, stack[n as int], b);
        times_among_push(callers, stack[n - 1], a);
    } else {
        assert(neighbours_on_stack(stack, b, Side::Caller, 0) =~= Seq::empty());
        assert(neighbours_on_stack(stack, b, Side::Caller, 1) =~= Seq::empty());
    }
}

/// The function `name` stands beside the frame at `at`, which is for `target`.
spec fn stands_beside(
    stack: Seq<Seq<char>>,
    at: int,
    target: Seq<char>,
    side: Side,
    name: Seq<char>,
) -> bool {
    &&& 0 <= at < stack.len()
    &&& stack[at] == target
    &&& match side {
        Side::Caller => at > 0 && stack[at - 1] == name,
        Side::Callee => at + 1 < stack.len() && stack[at + 1] == name,
    }
}

proof fn places_on_stack(
    stack: Seq<Seq<char>>,
    target: Seq<char>,
    side: Side,
    name: Seq<char>,
    n: nat,
) -> (places: Seq<int>)
    requires
        n <= stack.len(),
    ensures
        places.no_duplicates(),
        places.len() == times_among(neighbours_on_stack(stack, target, side, n), name),
        forall|at: int| #[trigger]
            places.contains(at) <==> at < n && stands_beside(stack, at, target, side, name),
    decreases n,
{
    if n == 0 {
        Seq::empty()
    } else {
        let last = n - 1;
        let front = places_on_stack(stack, target, side, name, last as nat);
        let before = neighbours_on_stack(stack, target, side, last as nat);
        if stack[last] == target && neighbour(stack, last, side) is Some {
            times_among_push(before, neighbour(stack, last, side)->0, name);
        }
        if stands_beside(stack, last, target, side, name) {
            let places = front.push(last);
            assert forall|at: int| #[trigger] places.contains(at) <==> at < n && stands_beside(
                stack,
                at,
                target,
                side,
                name,
            ) by {
                if front.contains(at) {
                    let k = choose|k: int| 0 <= k < front.len() && front[k] == at;
                    assert(places[k] == at);
                }
                if at == last {
                    assert(places[front.len() as int] == at);
                }
                if places.contains(at) && at != last {
                    let k = choose|k: int| 0 <= k < places.len() && places[k] == at;
                    assert(front[k] == at);
                    assert(front.contains(at));
                }
            }
            assert forall|i: int, j: int|
                0 <= i < places.len() && 0 <= j < places.len() && i != j implies places[i]
                != places[j] by {
                if i == front.len() {
                    assert(front.contains(front[j]));
                } else if j == front.len() {
                    assert(front.contains(front[i]));
                }
            }
            places
        } else {
            front
        }
    }
}

proof fn places_on_stacks(
    stacks: Seq<Seq<Seq<char>>>,
    target: Seq<char>,
    side: Side,
    name: Seq<char>,
) -> (places: Seq<(int, int)>)
    ensures
        places.no_duplicates(),
        places.len() == times_among(neighbours_on_stacks(stacks, target, side), name),
        forall|s: int, f: int| #[trigger]
            places.contains((s, f)) <==> 0 <= s < stacks.len() && stands_beside(
                stacks[s],
                f,
                target,
                side,
                name,
            ),
    decreases stacks.len(),
{
    if stacks.len() == 0 {
        Seq::empty()
    } else {
        let last = stacks.len() - 1;
        let front = places_on_stacks(stacks.drop_last(), target, side, name);
        let here = places_on_stack(stacks[last], target, side, name, stacks[last].len());
        times_among_add(
            neighbours_on_stacks(stacks.drop_last(), target, side),
            neighbours_on_stack(stacks[last], target, side, stacks[last].len()),
            name,
        );
        let places = front + here.map_values(|f: int| (last, f));
        assert forall|s: int, f: int| #[trigger]
            places.contains((s, f)) <==> 0 <= s < stacks.len() && stands_beside(
                stacks[s],
                f,
                target,
                side,
                name,
            ) by {
            if front.contains((s, f)) {
                let k = choose|k: int| 0 <= k < front.len() && front[k] == (s, f);
                assert(places[k] == (s, f));
            }
            if s == last && here.contains(f) {
                let k = choose|k: int| 0 <= k < here.len() && here[k] == f;
                assert(places[front.len() + k] == (s, f));
            }
            if places.contains((s, f)) {
                let k = choose|k: int| 0 <= k < places.len() && places[k] == (s, f);
                if k < front.len() {
                    assert(front[k] == (s, f));
                    assert(front.contains((s, f)));
                } else {
                    assert(here[k - front.len()] == f);
                    assert(here.contains(f));
                }
            }
        }
        assert forall|i: int, j: int|
            0 <= i < places.len() && 0 <= j < places.len() && i != j implies places[i]
            != places[j] by {
            if i < front.len() {
                assert(front.contains((front[i].0, front[i].1)));
            }
            if j < front.len() {
                assert(front.contains((front[j].0, front[j].1)));
            }
            if i >= front.len() && j >= front.len() {
                assert(here[i - front.len()] != here[j - front.len()]);
            }
        }
        places
    }
}

/// A function is a caller of another as often as the other stands behind it on the stacks of the
/// samples, and a callee as often as the other stands before it. The result lists these places,
/// each once: the thread, the sample in it, and the frame of the other function on its stack.
pub proof fn calls_are_counted_where_they_stand(
    threads: Seq<ResolvedThread>,
    target: Seq<char>,
    side: Side,
    name: Seq<char>,
) -> (places: Seq<(int, int, int)>)
    ensures
        times_among(neighbours(threads, target, side), name) == places.len(),
        forall|i: int, j: int|
            #![trigger places[i], places[j]]
            0 <= i < j < places.len() ==> places[i] != places[j],
        forall|t: int, s: int, f: int| #[trigger]
            places.contains((t, s, f)) <==> {
                let stack = threads[t].samples@[s].stack@;
                &&& 0 <= t < threads.len()
                &&& 0 <= s < threads[t].samples@.len()
                &&& 0 <= f < stack.len()
                &&& stack[f].function_name@ == target
                &&& match side {
                    Side::Caller => f > 0 && stack[f - 1].function_name@ == name,
                    Side::Callee => f + 1 < stack.len() && stack[f + 1].function_name@ == name,
                }
            },
    decreases threads.len(),
{
    if threads.len() == 0 {
        Seq::empty()
    } else {
        let last = threads.len() - 1;
        let stacks = sample_stacks(threads[last].samples@);
        let front = calls_are_counted_where_they_stand(threads.drop_last(), target, side, name);
        let here = places_on_stacks(stacks, target, side, name);
        times_among_add(
            neighbours(threads.drop_last(), target, side),
            neighbours_on_stacks(stacks, target, side),
            name,
        );
        let places = front + here.map_values(|p: (int, int)| (last, p.0, p.1));
        assert forall|t: int, s: int, f: int| #[trigger]
            places.contains((t, s, f)) <==> {
                let stack = threads[t].samples@[s].stack@;
                &&& 0 <= t < threads.len()
                &&& 0 <= s < threads[t].samples@.len()
                &&& 0 <= f < stack.len()
                &&& stack[f].function_name@ == target
                &&& match side {
                    Side::Caller => f > 0 && stack[f - 1].function_name@ == name,
                    Side::Callee => f + 1 < stack.len() && stack[f + 1].function_name@ == name,
                }
            } by {
            let stack = threads[t].samples@[s].stack@;
            if 0 <= t < last {
                assert(threads.drop_last()[t] == threads[t]);
            }
            if front.contains((t, s, f)) {
                let k = choose|k: int| 0 <= k < front.len() && front[k] == (t, s, f);
                assert(places[k] == (t, s, f));
            }
            if t == last && 0 <= s < stacks.len() {
                assert(stacks[s] == stack_names(stack));
                assert(stacks[s].len() == stack.len());
                assert(0 <= f < stack.len() ==> stacks[s][f] == stack[f].function_name@);
                assert(0 < f <= stack.len() ==> stacks[s][f - 1] == stack[f - 1].function_name@);
                assert(0 <= f + 1 < stack.len() ==> stacks[s][f + 1]
                    == stack[f + 1].function_name@);
            }
            if t == last && here.contains((s, f)) {
                let k = choose|k: int| 0 <= k < here.len() && here[k] == (s, f);
                assert(places[front.len() + k] == (t, s, f));
            }
            if places.contains((t, s, f)) {
                let k = choose|k: int| 0 <= k < places.len() && places[k] == (t, s, f);
                if k < front.len() {
                    assert(front[k] == (t, s, f));
                    assert(front.contains((t, s, f)));
                } else {
                    assert(here[k - front.len()] == (s, f));
                    assert(here.contains((s, f)));
                }
            }
        }
        assert forall|i: int, j: int|
            #![trigger places[i], places[j]]
            0 <= i < j < places.len() implies places[i] != places[j] by {
            if i < front.len() {
                assert(front.contains((front[i].0, front[i].1, front[i].2)));
                if j < front.len() {
                    assert(front[i] != front[j]);
                }
            } else {
                assert(here[i - front.len()] != here[j - front.len()]);
            }
        }
        places
    }
}

/// Every caller, or every callee, is listed once, with how often it is one, and none comes before
/// one that is one more often.
pub proof fn every_neighbour_is_listed(
    threads: Vec<ResolvedThread>,
    target: String,
    side: Side,
    listed: Vec<CallerCalleeEntry>,
)
    requires
        call_ensures(count_neighbours, (&threads, &target, side), listed),
    ensures
        forall|i: int|
            #![trigger listed@[i]]
            0 <= i < listed@.len() ==> listed@[i].count > 0 && listed@[i].count == times_among(
                neighbours(threads@, target@, side),
                listed@[i].function_name@,
            ),
        forall|name: Seq<char>| #[trigger]
            times_among(neighbours(threads@, target@, side), name) > 0 ==> exists|i: int|
                0 <= i < listed@.len() && (#[trigger] listed@[i]).function_name@ == name,
        forall|i: int, j: int|
            #![trigger listed@[i], listed@[j]]
            0 <= i < j < listed@.len() ==> {
                &&& listed@[i].function_name@ != listed@[j].function_name@
                &&& listed@[i].count >= listed@[j].count
            },
{
    counts_hold_every_name(listed@, neighbours(threads@, target@, side));
}

/// What counts names has an entry for each of them, and for nothing else.
pub proof fn counts_hold_every_name(entries: Seq<CallerCalleeEntry>, names: Seq<Seq<char>>)
    requires
        counts(entries, names),
    ensures
        forall|i: int|
            #![trigger entries[i]]
            0 <= i < entries.len() ==> entries[i].count > 0 && entries[i].count == times_among(
                names,
                entries[i].function_name@,
            ),
        forall|name: Seq<char>| #[trigger]
            times_among(names, name) > 0 ==> exists|i: int|
                0 <= i < entries.len() && (#[trigger] entries[i]).function_name@ == name,
        forall|i: int, j: int|
            #![trigger entries[i], entries[j]]
            0 <= i < j < entries.len() ==> entries[i].function_name@ != entries[j].function_name@,
{
    assert forall|i: int|
        #![trigger entries[i]]
        0 <= i < entries.len() implies entries[i].count > 0 by {
        assert(has_entry(entries, entries[i].function_name@));
    }
    assert forall|name: Seq<char>| #[trigger] times_among(names, name) > 0 implies exists|i: int|
        0 <= i < entries.len() && (#[trigger] entries[i]).function_name@ == name by {
        assert(has_entry(entries, name));
    }
}

/// Neighbours can be counted unless one of them is there more often than a machine number says.
pub proof fn neighbours_fit_machine_numbers(
    threads: Vec<ResolvedThread>,
    target: String,
    side: Side,
    fit: bool,
)
    requires
        call_ensures(neighbours_fit, (&threads, &target, side), fit),
    ensures
        fit <==> forall|name: Seq<char>| #[trigger]
            times_among(neighbours(threads@, target@, side), name) <= usize::MAX,
        fit ==> call_requires(count_neighbours, (&threads, &target, side)),
{
}

} // verus!
