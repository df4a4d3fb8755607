//! Choosing the thread that a request is about.

use vstd::prelude::*;

use crate::profile::ResolvedProfile;
use crate::profile::ResolvedThread;
use crate::text::contains_text;
use crate::text::lowercase;
use crate::text::occurs;
use crate::text::suffix_occurs;
use crate::text::to_lowercase;

verus! {

/// The first position of `items` at which `wanted` holds.
pub open spec fn first_position<T>(items: Seq<T>, wanted: spec_fn(T) -> bool) -> Option<int>
    decreases items.len(),
{
    if items.len() == 0 {
        None
    } else {
        match first_position(items.drop_last(), wanted) {
            Some(at) => Some(at),
            None => if wanted(items.last()) {
                Some(items.len() - 1)
            } else {
                None
            },
        }
    }
}

/// `first_position` finds an item where there is one, and none stands before it.
pub proof fn first_position_is_first<T>(items: Seq<T>, wanted: spec_fn(T) -> bool)
    ensures
        match first_position(items, wanted) {
            Some(at) => 0 <= at < items.len() && wanted(items[at]) && forall|i: int|
                0 <= i < at ==> !wanted(#[trigger] items[i]),
            None => forall|i: int| 0 <= i < items.len() ==> !wanted(#[trigger] items[i]),
        },
    decreases items.len(),
{
    if items.len() > 0 {
        let front = items.drop_last();
        first_position_is_first(front, wanted);
        assert forall|i: int| 0 <= i < front.len() implies items[i] == front[i] by {}
    }
}

/// The main thread with the most samples; of several with as many, the first. A main thread
/// without samples does not count: the profiler itself shows up as one.
pub open spec fn busiest_main_thread(threads: Seq<ResolvedThread>) -> Option<int>
    decreases threads.len(),
{
    if threads.len() == 0 {
        None
    } else {
        let best = busiest_main_thread(threads.drop_last());
        let most = match best {
            Some(at) => threads[at].samples@.len(),
            None => 0,
        };
        if threads.last().is_main && threads.last().samples@.len() > most {
            Some(threads.len() - 1)
        } else {
            best
        }
    }
}

/// The thread to look at where a request names none: the main thread with the most samples, else
/// the first thread with samples, else the first main thread, else the first thread.
pub open spec fn default_position(threads: Seq<ResolvedThread>) -> Option<int> {
    match busiest_main_thread(threads) {
        Some(at) => Some(at),
        None => match first_position(threads, |t: ResolvedThread| t.samples@.len() > 0) {
            Some(at) => Some(at),
            None => match first_position(threads, |t: ResolvedThread| t.is_main) {
                Some(at) => Some(at),
                None => if threads.len() > 0 {
                    Some(0)
                } else {
                    None
                },
            },
        },
    }
}

/// The thread has the name `name`.
pub open spec fn has_name(name: Seq<char>) -> spec_fn(ResolvedThread) -> bool {
    |t: ResolvedThread| t.name@ == name
}

/// The thread's name contains `name` when case is ignored.
pub open spec fn has_name_part(name: Seq<char>) -> spec_fn(ResolvedThread) -> bool {
    |t: ResolvedThread| occurs(lowercase(name), lowercase(t.name@))
}

/// The text contains `needle`.
pub open spec fn has_part(needle: Seq<char>) -> spec_fn(String) -> bool {
    |text: String| occurs(needle, text@)
}

/// The thread that a request means by `name`: the first one of that name, else the first one
/// whose name contains it when case is ignored.
pub open spec fn named_position(threads: Seq<ResolvedThread>, name: Seq<char>) -> Option<int> {
    match first_position(threads, has_name(name)) {
        Some(at) => Some(at),
        None => first_position(threads, has_name_part(name)),
    }
}

/// The position of the thread that a request is about.
pub open spec fn thread_position(
    threads: Seq<ResolvedThread>,
    thread_name: Option<String>,
) -> Option<int> {
    match thread_name {
        Some(name) => named_position(threads, name@),
        None => default_position(threads),
    }
}

/// The thread that a request is about, by the name that it gives, if any.
pub fn find_thread<'a>(
    profile: &'a ResolvedProfile,
    thread_name: &Option<String>,
) -> (thread: Option<&'a ResolvedThread>)
    ensures
        match thread_position(profile.threads@, *thread_name) {
            Some(at) => 0 <= at < profile.threads@.len() && thread == Some(&profile.threads@[at]),
            None => thread is None,
        },
{
    match find_thread_position(profile, thread_name) {
        Some(at) => Some(&profile.threads[at]),
        None => None,
    }
}

/// The position of the thread that a request is about, by the name that it gives, if any.
pub fn find_thread_position(
    profile: &ResolvedProfile,
    thread_name: &Option<String>,
) -> (position: Option<usize>)
    ensures
        match thread_position(profile.threads@, *thread_name) {
            Some(at) => 0 <= at < profile.threads@.len() && position is Some && position->0 == at,
            None => position is None,
        },
{
    match thread_name {
        Some(name) => find_named(&profile.threads, name),
        None => find_default(&profile.threads),
    }
}

fn find_named(threads: &Vec<ResolvedThread>, name: &String) -> (position: Option<usize>)
    ensures
        match named_position(threads@, name@) {
            Some(at) => 0 <= at < threads@.len() && position is Some && position->0 == at,
            None => position is None,
        },
{
    let ghost exact = has_name(name@);
    let mut i: usize = 0;
    while i < threads.len()
        invariant
            i <= threads@.len(),
            exact == has_name(name@),
            first_position(threads@.take(i as int), exact) is None,
        decreases threads@.len() - i,
    {
        proof {
            first_position_of_longer(threads@, exact, i as int);
        }
        if threads[i].name == *name {
            proof {
                first_position_stays(threads@, exact, i + 1);
            }
            return Some(i);
        }
        i = i + 1;
    }
    assert(threads@.take(i as int) =~= threads@);
    let needle = to_lowercase(name.as_str());
    let mut lowered: Vec<String> = Vec::new();
    let mut j: usize = 0;
    while j < threads.len()
        invariant
            j <= threads@.len(),
            lowered@.len() == j,
            forall|k: int|
                0 <= k < j ==> (#[trigger] lowered@[k])@ == lowercase(threads@[k].name@),
        decreases threads@.len() - j,
    {
        lowered.push(to_lowercase(threads[j].name.as_str()));
        j = j + 1;
    }
    let position = first_containing(&lowered, &needle);
    proof {
        let in_name = has_name_part(name@);
        let in_lowered = has_part(needle@);
        first_position_is_first(threads@, in_name);
        first_position_is_first(lowered@, in_lowered);
        assert forall|k: int| 0 <= k < threads@.len() implies in_name(threads@[k])
            == in_lowered(lowered@[k]) by {}
    }
    position
}

/// The first of `texts` that contains `needle`.
pub fn first_containing(texts: &Vec<String>, needle: &String) -> (position: Option<usize>)
    ensures
        match first_position(texts@, has_part(needle@)) {
            Some(at) => 0 <= at < texts@.len() && position is Some && position->0 == at,
            None => position is None,
        },
{
    let ghost wanted = has_part(needle@);
    let mut i: usize = 0;
    while i < texts.len()
        invariant
            i <= texts@.len(),
            wanted == has_part(needle@),
            first_position(texts@.take(i as int), wanted) is None,
        decreases texts@.len() - i,
    {
        proof {
            first_position_of_longer(texts@, wanted, i as int);
        }
        if contains_text(texts[i].as_str(), needle.as_str()) {
            proof {
                first_position_stays(texts@, wanted, i + 1);
            }
            return Some(i);
        }
        i = i + 1;
    }
    assert(texts@.take(i as int) =~= texts@);
    None
}

pub(crate) proof fn first_position_of_longer<T>(items: Seq<T>, wanted: spec_fn(T) -> bool, n: int)
    requires
        0 <= n < items.len(),
    ensures
        first_position(items.take(n + 1), wanted) == match first_position(items.take(n), wanted) {
            Some(at) => Some(at),
            None => if wanted(items[n]) {
                Some(n)
            } else {
                None
            },
        },
{
    assert(items.take(n + 1).drop_last() =~= items.take(n));
}

/// What is found in the first items is what is found in all.
pub(crate) proof fn first_position_stays<T>(items: Seq<T>, wanted: spec_fn(T) -> bool, n: int)
    requires
        0 <= n <= items.len(),
        first_position(items.take(n), wanted) is Some,
    ensures
        first_position(items, wanted) == first_position(items.take(n), wanted),
    decreases items.len() - n,
{
    if n < items.len() {
        first_position_of_longer(items, wanted, n);
        first_position_stays(items, wanted, n + 1);
    } else {
        assert(items.take(n) =~= items);
    }
}

fn find_default(threads: &Vec<ResolvedThread>) -> (position: Option<usize>)
    ensures
        match default_position(threads@) {
            Some(at) => 0 <= at < threads@.len() && position is Some && position->0 == at,
            None => position is None,
        },
{
    let ghost sampled = |t: ResolvedThread| t.samples@.len() > 0;
    let ghost main = |t: ResolvedThread| t.is_main;
    let mut busiest: Option<usize> = None;
    let mut first_sampled: Option<usize> = None;
    let mut first_main: Option<usize> = None;
    let mut i: usize = 0;
    while i < threads.len()
        invariant
            i <= threads@.len(),
            sampled == (|t: ResolvedThread| t.samples@.len() > 0),
            main == (|t: ResolvedThread| t.is_main),
            match busiest_main_thread(threads@.take(i as int)) {
                Some(at) => 0 <= at < i && busiest is Some && busiest->0 == at,
                None => busiest is None,
            },
            match first_position(threads@.take(i as int), sampled) {
                Some(at) => 0 <= at < i && first_sampled is Some && first_sampled->0 == at,
                None => first_sampled is None,
            },
            match first_position(threads@.take(i as int), main) {
                Some(at) => 0 <= at < i && first_main is Some && first_main->0 == at,
                None => first_main is None,
            },
        decreases threads@.len() - i,
    {
        proof {
            first_position_of_longer(threads@, sampled, i as int);
            first_position_of_longer(threads@, main, i as int);
            assert(threads@.take(i + 1).drop_last() =~= threads@.take(i as int));
        }
        let thread = &threads[i];
        let most: usize = match busiest {
            Some(at) => threads[at].samples.len(),
            None => 0,
        };
        if thread.is_main && thread.samples.len() > most {
            busiest = Some(i);
        }
        if first_sampled.is_none() && thread.samples.len() > 0 {
            first_sampled = Some(i);
        }
        if first_main.is_none() && thread.is_main {
            first_main = Some(i);
        }
        i = i + 1;
    }
    assert(threads@.take(i as int) =~= threads@);
    if busiest.is_some() {
        busiest
    } else if first_sampled.is_some() {
        first_sampled
    } else if first_main.is_some() {
        first_main
    } else if threads.len() > 0 {
        Some(0)
    } else {
        None
    }
}

/// Where a request names no thread, one is chosen exactly where the profile has any. It has
/// samples where any thread has.
pub proof fn default_thread_has_samples(threads: Seq<ResolvedThread>)
    ensures
        default_position(threads) is Some <==> threads.len() > 0,
        match default_position(threads) {
            Some(at) => 0 <= at < threads.len() && ((exists|i: int|
                0 <= i < threads.len() && (#[trigger] threads[i]).samples@.len() > 0)
                ==> threads[at].samples@.len() > 0),
            None => true,
        },
{
    busiest_main_thread_is_busiest(threads);
    first_position_is_first(threads, |t: ResolvedThread| t.samples@.len() > 0);
    first_position_is_first(threads, |t: ResolvedThread| t.is_main);
}

/// The busiest main thread is a main thread with samples, no main thread has more, and of those
/// with as many it is the first. There is none only where no main thread has samples.
pub proof fn busiest_main_thread_is_busiest(threads: Seq<ResolvedThread>)
    ensures
        match busiest_main_thread(threads) {
            Some(at) => {
                &&& 0 <= at < threads.len()
                &&& threads[at].is_main
                &&& threads[at].samples@.len() > 0
                &&& forall|i: int|
                    #![trigger threads[i]]
                    0 <= i < threads.len() && threads[i].is_main ==> threads[i].samples@.len()
                        <= threads[at].samples@.len()
                &&& forall|i: int|
                    #![trigger threads[i]]
                    0 <= i < at && threads[i].is_main ==> threads[i].samples@.len()
                        < threads[at].samples@.len()
            },
            None => forall|i: int|
                #![trigger threads[i]]
                0 <= i < threads.len() && threads[i].is_main ==> threads[i].samples@.len() == 0,
        },
    decreases threads.len(),
{
    if threads.len() > 0 {
        let front = threads.drop_last();
        busiest_main_thread_is_busiest(front);
        assert forall|i: int|
            #![trigger threads[i]]
            0 <= i < front.len() implies threads[i] == front[i] by {}
    }
}

/// A thread of exactly the name asked for is found before any whose name contains it.
pub proof fn exact_name_comes_first(threads: Seq<ResolvedThread>, name: Seq<char>, at: int)
    requires
        0 <= at < threads.len(),
        threads[at].name@ == name,
    ensures
        named_position(threads, name) is Some,
        0 <= named_position(threads, name)->0 <= at,
        threads[named_position(threads, name)->0].name@ == name,
{
    let exact = has_name(name);
    first_position_is_first(threads, exact);
    assert(exact(threads[at]));
    assert(first_position(threads, exact) is Some);
}

/// A named thread is found exactly where the name occurs, case ignored, in that of some thread.
pub proof fn named_thread_is_found_where_it_occurs(threads: Seq<ResolvedThread>, name: Seq<char>)
    ensures
        named_position(threads, name) is Some <==> exists|i: int|
            0 <= i < threads.len() && occurs(
                lowercase(name),
                lowercase((#[trigger] threads[i]).name@),
            ),
        match named_position(threads, name) {
            Some(at) => 0 <= at < threads.len() && occurs(
                lowercase(name),
                lowercase(threads[at].name@),
            ),
            None => true,
        },
{
    let exact = has_name(name);
    let part = has_name_part(name);
    first_position_is_first(threads, exact);
    first_position_is_first(threads, part);
    suffix_occurs(Seq::empty(), lowercase(name));
    match first_position(threads, exact) {
        Some(at) => {
            assert(exact(threads[at]));
        },
        None => match first_position(threads, part) {
            Some(at) => {
                assert(part(threads[at]));
            },
            None => {
                assert forall|i: int| 0 <= i < threads.len() implies !occurs(
                    lowercase(name),
                    lowercase((#[trigger] threads[i]).name@),
                ) by {
                    assert(!part(threads[i]));
                }
            },
        },
    }
}

/// Where a request names no thread, a main thread with samples is chosen if there is one: the one
/// with the most, and of several with as many the first. Else the first thread with samples is,
/// else the first main thread, else the first thread.
pub proof fn busiest_main_thread_is_the_default(profile: ResolvedProfile, position: Option<usize>)
    requires
        call_ensures(find_thread_position, (&profile, &None), position),
    ensures
        position is Some <==> profile.threads@.len() > 0,
        position is Some ==> position->0 < profile.threads@.len(),
        forall|i: int|
            #![trigger profile.threads@[i]]
            0 <= i < profile.threads@.len() && profile.threads@[i].is_main
                && profile.threads@[i].samples@.len() > 0 ==> {
                let chosen = profile.threads@[position->0 as int];
                &&& chosen.is_main
                &&& chosen.samples@.len() > 0
                &&& chosen.samples@.len() >= profile.threads@[i].samples@.len()
                &&& i < position->0 ==> chosen.samples@.len() > profile.threads@[i].samples@.len()
            },
        forall|i: int|
            #![trigger profile.threads@[i]]
            0 <= i < profile.threads@.len() && profile.threads@[i].samples@.len() > 0 ==> {
                let chosen = profile.threads@[position->0 as int];
                &&& chosen.samples@.len() > 0
                &&& chosen.is_main || position->0 <= i
            },
        (forall|i: int|
            0 <= i < profile.threads@.len() ==> (#[trigger] profile.threads@[i]).samples@.len()
                == 0) ==> {
            &&& forall|i: int|
                0 <= i < profile.threads@.len() && (#[trigger] profile.threads@[i]).is_main
                    ==> profile.threads@[position->0 as int].is_main && position->0 <= i
            &&& (forall|i: int|
                0 <= i < profile.threads@.len() ==> !(#[trigger] profile.threads@[i]).is_main)
                && profile.threads@.len() > 0 ==> position->0 == 0
        },
{
    let threads = profile.threads@;
    let sampled = |t: ResolvedThread| t.samples@.len() > 0;
    let main = |t: ResolvedThread| t.is_main;
    busiest_main_thread_is_busiest(threads);
    first_position_is_first(threads, sampled);
    first_position_is_first(threads, main);
    assert forall|i: int|
        #![trigger threads[i]]
        0 <= i < threads.len() && sampled(threads[i]) implies first_position(
        threads,
        sampled,
    ) is Some && first_position(threads, sampled)->0 <= i by {}
    assert forall|i: int|
        #![trigger threads[i]]
        0 <= i < threads.len() && main(threads[i]) implies first_position(threads, main) is Some
        && first_position(threads, main)->0 <= i by {}
    if let Some(at) = first_position(threads, sampled) {
        assert(sampled(threads[at]));
    }
    if let Some(at) = first_position(threads, main) {
        assert(main(threads[at]));
    }
}

/// Where a request names a thread, the first one of exactly that name is chosen. Where there is
/// none, the first one is whose name contains what was given, both in lower case; and where there
/// is none of these either, no thread is.
pub proof fn named_thread_is_chosen(
    profile: ResolvedProfile,
    name: String,
    position: Option<usize>,
)
    requires
        call_ensures(find_thread_position, (&profile, &Some(name)), position),
    ensures
        forall|i: int|
            #![trigger profile.threads@[i]]
            0 <= i < profile.threads@.len() && profile.threads@[i].name@ == name@ ==> {
                &&& position is Some
                &&& profile.threads@[position->0 as int].name@ == name@
                &&& position->0 <= i
            },
        forall|i: int|
            #![trigger profile.threads@[i]]
            0 <= i < profile.threads@.len() && occurs(
                lowercase(name@),
                lowercase(profile.threads@[i].name@),
            ) ==> {
                &&& position is Some
                &&& profile.threads@[position->0 as int].name@ == name@ || position->0 <= i
            },
        position is Some ==> {
            let chosen = profile.threads@[position->0 as int];
            &&& position->0 < profile.threads@.len()
            &&& chosen.name@ == name@ || occurs(lowercase(name@), lowercase(chosen.name@))
        },
{
    let threads = profile.threads@;
    let exact = has_name(name@);
    let part = has_name_part(name@);
    first_position_is_first(threads, exact);
    first_position_is_first(threads, part);
    assert forall|i: int|
        #![trigger threads[i]]
        0 <= i < threads.len() && threads[i].name@ == name@ implies first_position(
        threads,
        exact,
    ) is Some && first_position(threads, exact)->0 <= i by {
        assert(exact(threads[i]));
    }
    assert forall|i: int|
        #![trigger threads[i]]
        0 <= i < threads.len() && occurs(
            lowercase(name@),
            lowercase(threads[i].name@),
        ) implies first_position(threads, part) is Some && first_position(threads, part)->0
        <= i by {
        assert(part(threads[i]));
    }
    if let Some(at) = first_position(threads, exact) {
        assert(exact(threads[at]));
    } else if let Some(at) = first_position(threads, part) {
        assert(part(threads[at]));
    }
}

/// The thread that is found is the one at the position that is found.
pub proof fn thread_is_found_at_its_position(
    profile: ResolvedProfile,
    thread_name: Option<String>,
    thread: Option<&ResolvedThread>,
    position: Option<usize>,
)
    requires
        call_ensures(find_thread, (&profile, &thread_name), thread),
        call_ensures(find_thread_position, (&profile, &thread_name), position),
    ensures
        thread is Some <==> position is Some,
        thread is Some ==> position->0 < profile.threads@.len() && *thread->0
            == profile.threads@[position->0 as int],
{
}

/// Of several texts the first that contains another is found, where there is one.
pub proof fn first_text_that_contains_another_is_found(
    texts: Vec<String>,
    needle: String,
    position: Option<usize>,
)
    requires
        call_ensures(first_containing, (&texts, &needle), position),
    ensures
        position is Some ==> position->0 < texts@.len() && occurs(
            needle@,
            texts@[position->0 as int]@,
        ),
        forall|i: int|
            #![trigger texts@[i]]
            0 <= i < texts@.len() && occurs(needle@, texts@[i]@) ==> position is Some && position->0
                <= i,
{
    let wanted = has_part(needle@);
    first_position_is_first(texts@, wanted);
    assert forall|i: int|
        #![trigger texts@[i]]
        0 <= i < texts@.len() && occurs(needle@, texts@[i]@) implies first_position(
        texts@,
        wanted,
    ) is Some && first_position(texts@, wanted)->0 <= i by {
        assert(wanted(texts@[i]));
    }
    if let Some(at) = first_position(texts@, wanted) {
        assert(wanted(texts@[at]));
    }
}

} // verus!
