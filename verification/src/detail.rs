//! What a profile knows of one function, over all its threads.

use vstd::prelude::*;
use vstd::string::*;

use crate::cache::AnalysisCache;
use crate::cache::FunctionStats;
use crate::neighbours::Side;
use crate::neighbours::count_neighbours;
use crate::neighbours::countable;
use crate::neighbours::counts;
use crate::neighbours::counts_hold_every_name;
use crate::neighbours::is_descending;
use crate::neighbours::neighbours;
use crate::neighbours::neighbours_fit;
use crate::neighbours::times_among;
use crate::profile::ResolvedThread;
use crate::results::CallerCalleeEntry;
use crate::results::FunctionDetailResult;
use crate::text::contains_text;
use crate::text::ends_with_text;
use crate::text::has_ending;
use crate::text::occurs;
use crate::text::suffix_occurs;
use crate::threads::first_position;
use crate::threads::first_position_is_first;
use crate::threads::first_position_of_longer;
use crate::threads::first_position_stays;

verus! {

/// The names of the functions with statistics, thread after thread.
pub open spec fn known_names(stats: Seq<Vec<FunctionStats>>) -> Seq<Seq<char>>
    decreases stats.len(),
{
    if stats.len() == 0 {
        Seq::empty()
    } else {
        known_names(stats.drop_last()) + stats.last()@.map_values(|s: FunctionStats| s.name@)
    }
}

/// The name ends in `::` and `wanted`.
pub open spec fn qualifies(wanted: Seq<char>) -> spec_fn(Seq<char>) -> bool {
    |name: Seq<char>| has_ending(name, "::"@ + wanted)
}

/// The name contains `wanted`.
pub open spec fn contains(wanted: Seq<char>) -> spec_fn(Seq<char>) -> bool {
    |name: Seq<char>| occurs(wanted, name)
}

/// The statistics are those of `target`.
pub open spec fn are_of(target: Seq<char>) -> spec_fn(FunctionStats) -> bool {
    |s: FunctionStats| s.name@ == target
}

/// The function that a request means by `wanted`: the one of that name, else the first one that
/// ends in `::` and that name, else the first one whose name contains it. Where there is none,
/// the name is taken as it is.
pub open spec fn resolved_name(names: Seq<Seq<char>>, wanted: Seq<char>) -> Seq<char> {
    if names.contains(wanted) {
        wanted
    } else {
        match first_position(names, qualifies(wanted)) {
            Some(at) => names[at],
            None => match first_position(names, contains(wanted)) {
                Some(at) => names[at],
                None => wanted,
            },
        }
    }
}

/// The views of some names.
pub open spec fn views(names: Seq<String>) -> Seq<Seq<char>> {
    names.map_values(|name: String| name@)
}

fn collect_names(cache: &AnalysisCache) -> (names: Vec<String>)
    ensures
        views(names@) == known_names(cache.function_stats@),
{
    let ghost all = cache.function_stats@;
    let mut names: Vec<String> = Vec::new();
    assert(views(names@) =~= known_names(all.take(0)));
    let mut i: usize = 0;
    while i < cache.function_stats.len()
        invariant
            i <= all.len(),
            all == cache.function_stats@,
            views(names@) == known_names(all.take(i as int)),
        decreases all.len() - i,
    {
        let stats = &cache.function_stats[i];
        let ghost before = names@;
        let ghost named = stats@.map_values(|s: FunctionStats| s.name@);
        let mut j: usize = 0;
        assert(views(names@) =~= views(before) + named.take(0));
        while j < stats.len()
            invariant
                j <= stats@.len(),
                named == stats@.map_values(|s: FunctionStats| s.name@),
                views(names@) == views(before) + named.take(j as int),
            decreases stats@.len() - j,
        {
            let ghost so_far = names@;
            names.push(stats[j].name.clone());
            proof {
                assert(views(names@) =~= views(so_far).push(named[j as int]));
                assert(named.take(j + 1) =~= named.take(j as int).push(named[j as int]));
                assert(views(names@) =~= views(before) + named.take(j + 1));
            }
            j = j + 1;
        }
        proof {
            assert(named.take(j as int) =~= named);
            assert(all.take(i + 1).drop_last() =~= all.take(i as int));
        }
        i = i + 1;
    }
    assert(all.take(i as int) =~= all);
    names
}

/// The name, among `names`, of the function that a request means by `wanted`.
pub fn resolve_name(names: &Vec<String>, wanted: &String) -> (name: String)
    ensures
        name@ == resolved_name(views(names@), wanted@),
{
    let ghost all = views(names@);
    let ghost qualified = qualifies(wanted@);
    let ghost containing = contains(wanted@);
    let mut ending = String::from_str("::");
    ending.append(wanted.as_str());
    let mut first_qualified: Option<usize> = None;
    let mut first_containing: Option<usize> = None;
    let mut i: usize = 0;
    while i < names.len()
        invariant
            i <= names@.len(),
            all == views(names@),
            ending@ == "::"@ + wanted@,
            qualified == qualifies(wanted@),
            containing == contains(wanted@),
            forall|k: int| 0 <= k < i ==> (#[trigger] names@[k])@ != wanted@,
            match first_position(all.take(i as int), qualified) {
                Some(at) => 0 <= at < i && first_qualified is Some && first_qualified->0 == at,
                None => first_qualified is None,
            },
            match first_position(all.take(i as int), containing) {
                Some(at) => 0 <= at < i && first_containing is Some && first_containing->0 == at,
                None => first_containing is None,
            },
        decreases names@.len() - i,
    {
        proof {
            assert(all[i as int] == names@[i as int]@);
            first_position_of_longer(all, qualified, i as int);
            first_position_of_longer(all, containing, i as int);
        }
        let name = &names[i];
        if *name == *wanted {
            assert(all.contains(wanted@));
            return name.clone();
        }
        if first_qualified.is_none() && ends_with_text(name.as_str(), ending.as_str()) {
            first_qualified = Some(i);
        }
        if first_containing.is_none() && contains_text(name.as_str(), wanted.as_str()) {
            first_containing = Some(i);
        }
        i = i + 1;
    }
    proof {
        assert(all.take(i as int) =~= all);
        assert forall|k: int| 0 <= k < all.len() implies #[trigger] all[k] != wanted@ by {
            assert(all[k] == names@[k]@);
        }
    }
    match first_qualified {
        Some(at) => names[at].clone(),
        None => match first_containing {
            Some(at) => names[at].clone(),
            None => wanted.clone(),
        },
    }
}

/// The full name of the function that a request means by `wanted`.
pub fn resolve_function_name(cache: &AnalysisCache, wanted: &String) -> (name: String)
    ensures
        name@ == resolved_name(known_names(cache.function_stats@), wanted@),
{
    let names = collect_names(cache);
    resolve_name(&names, wanted)
}

/// Where a function was found: the name of the thread, and the function's statistics there.
/// `stats` are those of the threads, in their order.
pub open spec fn findings(
    threads: Seq<ResolvedThread>,
    stats: Seq<Vec<FunctionStats>>,
    target: Seq<char>,
) -> Seq<(String, FunctionStats)>
    decreases threads.len(),
{
    if threads.len() == 0 {
        Seq::empty()
    } else {
        let before = findings(threads.drop_last(), stats, target);
        let here = stats[threads.len() - 1]@;
        match first_position(here, are_of(target)) {
            Some(at) => before.push((threads.last().name, here[at])),
            None => before,
        }
    }
}

/// The samples of several findings together.
pub open spec fn samples_in(found: Seq<(String, FunctionStats)>) -> nat
    decreases found.len(),
{
    if found.len() == 0 {
        0
    } else {
        samples_in(found.drop_last()) + found.last().1.sample_count as nat
    }
}

/// The first of some optional values that is there.
pub open spec fn first_given<T>(values: Seq<Option<T>>) -> Option<T>
    decreases values.len(),
{
    if values.len() == 0 {
        None
    } else {
        match first_given(values.drop_last()) {
            Some(value) => Some(value),
            None => values.last(),
        }
    }
}

/// `detail` holds what the findings say: the terms of each quantity, the number of samples, the
/// names of the threads, and the first library, file and line that is given.
pub open spec fn sums_up(
    detail: FunctionDetailResult,
    found: Seq<(String, FunctionStats)>,
) -> bool {
    &&& detail.self_time_ms@ == found.map_values(
        |f: (String, FunctionStats)| f.1.self_time_ms,
    )
    &&& detail.total_time_ms@ == found.map_values(
        |f: (String, FunctionStats)| f.1.total_time_ms,
    )
    &&& detail.self_percent@ == found.map_values(|f: (String, FunctionStats)| f.1.self_percent)
    &&& detail.total_percent@ == found.map_values(|f: (String, FunctionStats)| f.1.total_percent)
    &&& detail.sample_count == samples_in(found)
    &&& detail.library == first_given(
        found.map_values(|f: (String, FunctionStats)| f.1.library),
    )
    &&& detail.file == first_given(found.map_values(|f: (String, FunctionStats)| f.1.file))
    &&& detail.line == first_given(found.map_values(|f: (String, FunctionStats)| f.1.line))
    &&& detail.threads@ == found.map_values(|f: (String, FunctionStats)| f.0)
}

/// The numbers of samples and of calls that belong to `target` are machine numbers.
pub open spec fn fits(
    threads: Seq<ResolvedThread>,
    stats: Seq<Vec<FunctionStats>>,
    target: Seq<char>,
) -> bool {
    &&& samples_in(findings(threads, stats, target)) <= usize::MAX
    &&& countable(neighbours(threads, target, Side::Caller))
    &&& countable(neighbours(threads, target, Side::Callee))
}

fn find_stats(stats: &Vec<FunctionStats>, target: &String) -> (position: Option<usize>)
    ensures
        match first_position(stats@, are_of(target@)) {
            Some(at) => 0 <= at < stats@.len() && position is Some && position->0 == at,
            None => position is None,
        },
{
    let ghost wanted = are_of(target@);
    let mut i: usize = 0;
    while i < stats.len()
        invariant
            i <= stats@.len(),
            wanted == are_of(target@),
            first_position(stats@.take(i as int), wanted) is None,
        decreases stats@.len() - i,
    {
        proof {
            first_position_of_longer(stats@, wanted, i as int);
        }
        if stats[i].name == *target {
            proof {
                first_position_stays(stats@, wanted, i + 1);
            }
            return Some(i);
        }
        i = i + 1;
    }
    assert(stats@.take(i as int) =~= stats@);
    None
}

proof fn fewer_samples_in_part(
    threads: Seq<ResolvedThread>,
    stats: Seq<Vec<FunctionStats>>,
    target: Seq<char>,
    n: int,
)
    requires
        0 <= n <= threads.len(),
    ensures
        samples_in(findings(threads.take(n), stats, target)) <= samples_in(
            findings(threads, stats, target),
        ),
    decreases threads.len() - n,
{
    if n < threads.len() {
        fewer_samples_in_part(threads, stats, target, n + 1);
        assert(threads.take(n + 1).drop_last() =~= threads.take(n));
        let before = findings(threads.take(n), stats, target);
        let after = findings(threads.take(n + 1), stats, target);
        if after.len() > before.len() {
            assert(after.drop_last() =~= before);
        }
    } else {
        assert(threads.take(n) =~= threads);
    }
}

fn empty_detail(function_name: String) -> (detail: FunctionDetailResult)
    ensures
        detail.function_name == function_name,
        sums_up(detail, Seq::empty()),
{
    let detail = FunctionDetailResult {
        function_name,
        self_time_ms: Vec::new(),
        total_time_ms: Vec::new(),
        self_percent: Vec::new(),
        total_percent: Vec::new(),
        sample_count: 0,
        library: None,
        file: None,
        line: None,
        callers: Vec::new(),
        callees: Vec::new(),
        threads: Vec::new(),
    };
    proof {
        let none = Seq::<(String, FunctionStats)>::empty();
        assert(detail.self_time_ms@ =~= none.map_values(
            |f: (String, FunctionStats)| f.1.self_time_ms,
        ));
        assert(detail.total_time_ms@ =~= none.map_values(
            |f: (String, FunctionStats)| f.1.total_time_ms,
        ));
        assert(detail.self_percent@ =~= none.map_values(
            |f: (String, FunctionStats)| f.1.self_percent,
        ));
        assert(detail.total_percent@ =~= none.map_values(
            |f: (String, FunctionStats)| f.1.total_percent,
        ));
        assert(detail.threads@ =~= none.map_values(|f: (String, FunctionStats)| f.0));
    }
    detail
}

fn add_finding(
    detail: &mut FunctionDetailResult,
    thread_name: &String,
    stats: &FunctionStats,
    Ghost(found): Ghost<Seq<(String, FunctionStats)>>,
)
    requires
        sums_up(*old(detail), found),
        samples_in(found) + stats.sample_count <= usize::MAX,
    ensures
        sums_up(*final(detail), found.push((*thread_name, *stats))),
        final(detail).function_name == old(detail).function_name,
{
    let ghost more = found.push((*thread_name, *stats));
    detail.self_time_ms.push(stats.self_time_ms);
    detail.total_time_ms.push(stats.total_time_ms);
    detail.self_percent.push(stats.self_percent);
    detail.total_percent.push(stats.total_percent);
    detail.sample_count = detail.sample_count + stats.sample_count;
    if detail.library.is_none() {
        detail.library = stats.library.clone();
    }
    if detail.file.is_none() {
        detail.file = stats.file.clone();
    }
    if detail.line.is_none() {
        detail.line = stats.line;
    }
    detail.threads.push(thread_name.clone());
    proof {
        assert(more.drop_last() =~= found);
        let library = |f: (String, FunctionStats)| f.1.library;
        let file = |f: (String, FunctionStats)| f.1.file;
        let line = |f: (String, FunctionStats)| f.1.line;
        assert(more.map_values(library).drop_last() =~= found.map_values(library));
        assert(more.map_values(file).drop_last() =~= found.map_values(file));
        assert(more.map_values(line).drop_last() =~= found.map_values(line));
        assert(detail.self_time_ms@ =~= more.map_values(
            |f: (String, FunctionStats)| f.1.self_time_ms,
        ));
        assert(detail.total_time_ms@ =~= more.map_values(
            |f: (String, FunctionStats)| f.1.total_time_ms,
        ));
        assert(detail.self_percent@ =~= more.map_values(
            |f: (String, FunctionStats)| f.1.self_percent,
        ));
        assert(detail.total_percent@ =~= more.map_values(
            |f: (String, FunctionStats)| f.1.total_percent,
        ));
        assert(detail.threads@ =~= more.map_values(|f: (String, FunctionStats)| f.0));
    }
}

/// Whether the numbers of samples and of calls that belong to `target` are machine numbers.
pub fn detail_fits(
    threads: &Vec<ResolvedThread>,
    cache: &AnalysisCache,
    target: &String,
) -> (answer: bool)
    requires
        cache.function_stats@.len() == threads@.len(),
    ensures
        answer == fits(threads@, cache.function_stats@, target@),
{
    let ghost all = cache.function_stats@;
    let mut samples: usize = 0;
    let mut i: usize = 0;
    while i < threads.len()
        invariant
            i <= threads@.len(),
            all == cache.function_stats@,
            all.len() == threads@.len(),
            samples == samples_in(findings(threads@.take(i as int), all, target@)),
        decreases threads@.len() - i,
    {
        let ghost before = findings(threads@.take(i as int), all, target@);
        let ghost after = findings(threads@.take(i + 1), all, target@);
        proof {
            assert(threads@.take(i + 1).drop_last() =~= threads@.take(i as int));
            fewer_samples_in_part(threads@, all, target@, i + 1);
        }
        let stats = &cache.function_stats[i];
        if let Some(at) = find_stats(stats, target) {
            assert(after == before.push((threads@[i as int].name, stats@[at as int])));
            assert(after.drop_last() =~= before);
            match samples.checked_add(stats[at].sample_count) {
                Some(more) => {
                    samples = more;
                },
                None => {
                    return false;
                },
            }
        }
        i = i + 1;
    }
    assert(threads@.take(i as int) =~= threads@);
    neighbours_fit(threads, target, Side::Caller) && neighbours_fit(threads, target, Side::Callee)
}

/// What the threads know of the function `target`, or nothing where none has statistics of it.
pub fn function_detail(
    threads: &Vec<ResolvedThread>,
    cache: &AnalysisCache,
    target: &String,
) -> (detail: Option<FunctionDetailResult>)
    requires
        cache.function_stats@.len() == threads@.len(),
        fits(threads@, cache.function_stats@, target@),
    ensures
        match detail {
            Some(detail) => {
                let found = findings(threads@, cache.function_stats@, target@);
                &&& found.len() > 0
                &&& detail.function_name@ == target@
                &&& sums_up(detail, found)
                &&& counts(detail.callers@, neighbours(threads@, target@, Side::Caller))
                &&& is_descending(detail.callers@)
                &&& counts(detail.callees@, neighbours(threads@, target@, Side::Callee))
                &&& is_descending(detail.callees@)
            },
            None => findings(threads@, cache.function_stats@, target@).len() == 0,
        },
{
    let ghost all = cache.function_stats@;
    let mut detail = empty_detail(target.clone());
    let mut i: usize = 0;
    assert(findings(threads@.take(0), all, target@) =~= Seq::empty());
    while i < threads.len()
        invariant
            i <= threads@.len(),
            all == cache.function_stats@,
            all.len() == threads@.len(),
            samples_in(findings(threads@, all, target@)) <= usize::MAX,
            detail.function_name@ == target@,
            sums_up(detail, findings(threads@.take(i as int), all, target@)),
        decreases threads@.len() - i,
    {
        let ghost before = findings(threads@.take(i as int), all, target@);
        let ghost after = findings(threads@.take(i + 1), all, target@);
        proof {
            assert(threads@.take(i + 1).drop_last() =~= threads@.take(i as int));
            fewer_samples_in_part(threads@, all, target@, i + 1);
        }
        let stats = &cache.function_stats[i];
        if let Some(at) = find_stats(stats, target) {
            assert(after == before.push((threads@[i as int].name, stats@[at as int])));
            assert(after.drop_last() =~= before);
            add_finding(&mut detail, &threads[i].name, &stats[at], Ghost(before));
        }
        i = i + 1;
    }
    assert(threads@.take(i as int) =~= threads@);
    if detail.threads.len() == 0 {
        return None;
    }
    detail.callers = count_neighbours(threads, target, Side::Caller);
    detail.callees = count_neighbours(threads, target, Side::Callee);
    Some(detail)
}

/// A function of exactly the name asked for is the one that is meant, whatever else contains it.
pub proof fn exact_function_name_comes_first(names: Seq<Seq<char>>, wanted: Seq<char>)
    requires
        names.contains(wanted),
    ensures
        resolved_name(names, wanted) == wanted,
{
}

/// A function is meant by a part of its name: some known name is, exactly where one contains what
/// was asked for.
pub proof fn function_is_known_where_its_name_occurs(names: Seq<Seq<char>>, wanted: Seq<char>)
    ensures
        names.contains(resolved_name(names, wanted)) <==> exists|i: int|
            0 <= i < names.len() && occurs(wanted, #[trigger] names[i]),
        occurs(wanted, resolved_name(names, wanted)),
{
    let qualified = qualifies(wanted);
    let containing = contains(wanted);
    first_position_is_first(names, qualified);
    first_position_is_first(names, containing);
    suffix_occurs(Seq::empty(), wanted);
    if names.contains(wanted) {
        let i = choose|i: int| 0 <= i < names.len() && names[i] == wanted;
        assert(occurs(wanted, names[i]));
    } else if first_position(names, qualified) is Some {
        let at = first_position(names, qualified)->0;
        assert(qualified(names[at]));
        qualified_name_contains(names[at], wanted);
        assert(names.contains(names[at]));
    } else if first_position(names, containing) is Some {
        let at = first_position(names, containing)->0;
        assert(containing(names[at]));
        assert(names.contains(names[at]));
    } else {
        assert forall|i: int| 0 <= i < names.len() implies !occurs(
            wanted,
            #[trigger] names[i],
        ) by {
            assert(!containing(names[i]));
        }
    }
}

proof fn qualified_name_contains(name: Seq<char>, wanted: Seq<char>)
    requires
        has_ending(name, "::"@ + wanted),
    ensures
        occurs(wanted, name),
{
    let ending = "::"@ + wanted;
    let start = name.len() - ending.len();
    let before = name.take(start) + "::"@;
    assert(name =~= name.take(start) + name.subrange(start, start + ending.len()));
    assert(name =~= before + wanted);
    suffix_occurs(before, wanted);
}

/// A function has findings exactly where it is one of the known ones: a request is refused only
/// where no known function was meant.
pub proof fn known_functions_have_findings(
    threads: Seq<ResolvedThread>,
    stats: Seq<Vec<FunctionStats>>,
    target: Seq<char>,
)
    requires
        stats.len() == threads.len(),
    ensures
        findings(threads, stats, target).len() > 0 <==> known_names(stats).contains(target),
{
    known_in_the_first_threads(threads, stats, target, threads.len());
    assert(threads.take(threads.len() as int) =~= threads);
    assert(stats.take(stats.len() as int) =~= stats);
}

proof fn known_in_the_first_threads(
    threads: Seq<ResolvedThread>,
    stats: Seq<Vec<FunctionStats>>,
    target: Seq<char>,
    n: nat,
)
    requires
        n <= threads.len(),
        stats.len() == threads.len(),
    ensures
        findings(threads.take(n as int), stats, target).len() > 0 <==> known_names(
            stats.take(n as int),
        ).contains(target),
    decreases n,
{
    if n > 0 {
        known_in_the_first_threads(threads, stats, target, (n - 1) as nat);
        assert(threads.take(n as int).drop_last() =~= threads.take(n - 1));
        assert(stats.take(n as int).drop_last() =~= stats.take(n - 1));
        let before = known_names(stats.take(n - 1));
        let here = stats[n - 1]@;
        let wanted = are_of(target);
        let all = before + here.map_values(|s: FunctionStats| s.name@);
        first_position_is_first(here, wanted);
        if before.contains(target) {
            let i = choose|i: int| 0 <= i < before.len() && before[i] == target;
            assert(all[i] == target);
        }
        match first_position(here, wanted) {
            Some(at) => {
                assert(wanted(here[at]));
                assert(all[before.len() + at] == target);
            },
            None => {
                if all.contains(target) {
                    let i = choose|i: int| 0 <= i < all.len() && all[i] == target;
                    if i >= before.len() {
                        assert(!wanted(here[i - before.len()]));
                    } else {
                        assert(before[i] == target);
                    }
                }
            },
        }
    }
}

/// Each thread counts with its own statistics, once, whatever the threads are called.
pub proof fn names_of_threads_do_not_matter(
    threads: Seq<ResolvedThread>,
    renamed: Seq<ResolvedThread>,
    stats: Seq<Vec<FunctionStats>>,
    target: Seq<char>,
)
    requires
        threads.len() == renamed.len(),
        threads.len() <= stats.len(),
    ensures
        findings(threads, stats, target).map_values(|f: (String, FunctionStats)| f.1) == findings(
            renamed,
            stats,
            target,
        ).map_values(|f: (String, FunctionStats)| f.1),
        samples_in(findings(threads, stats, target)) == samples_in(
            findings(renamed, stats, target),
        ),
    decreases threads.len(),
{
    if threads.len() > 0 {
        let own = |f: (String, FunctionStats)| f.1;
        let a = findings(threads.drop_last(), stats, target);
        let b = findings(renamed.drop_last(), stats, target);
        let here = stats[threads.len() - 1]@;
        names_of_threads_do_not_matter(
            threads.drop_last(),
            renamed.drop_last(),
            stats,
            target,
        );
        if let Some(at) = first_position(here, are_of(target)) {
            let x = (threads.last().name, here[at]);
            let y = (renamed.last().name, here[at]);
            assert(a.push(x).drop_last() =~= a);
            assert(b.push(y).drop_last() =~= b);
            assert(a.push(x).map_values(own) =~= a.map_values(own).push(here[at]));
            assert(b.push(y).map_values(own) =~= b.map_values(own).push(here[at]));
        }
    }
}

/// The findings of a function, thread by thread. Every thread whose own statistics hold the
/// function is there, once, in the order of the threads, and no other is; each with its name and
/// with the first of its statistics that are of the function. The result gives the positions of
/// these threads, and of the statistics in each.
pub proof fn every_thread_that_knows_a_function_is_found(
    threads: Seq<ResolvedThread>,
    stats: Seq<Vec<FunctionStats>>,
    target: Seq<char>,
) -> (positions: (Seq<int>, Seq<int>))
    requires
        threads.len() <= stats.len(),
    ensures
        ({
            let (at, own) = positions;
            let found = findings(threads, stats, target);
            &&& at.len() == found.len()
            &&& own.len() == found.len()
            &&& forall|k: int, l: int|
                #![trigger at[k], at[l]]
                0 <= k < l < at.len() ==> at[k] < at[l]
            &&& forall|k: int|
                #![trigger at[k]]
                #![trigger found[k]]
                0 <= k < at.len() ==> {
                    &&& 0 <= at[k] < threads.len()
                    &&& 0 <= own[k] < stats[at[k]]@.len()
                    &&& found[k].0 == threads[at[k]].name
                    &&& found[k].1 == stats[at[k]]@[own[k]]
                    &&& stats[at[k]]@[own[k]].name@ == target
                    &&& forall|j: int|
                        0 <= j < own[k] ==> (#[trigger] stats[at[k]]@[j]).name@ != target
                }
            &&& forall|i: int, j: int|
                #![trigger stats[i]@[j]]
                0 <= i < threads.len() && 0 <= j < stats[i]@.len() && stats[i]@[j].name@ == target
                    ==> at.contains(i)
        }),
    decreases threads.len(),
{
    if threads.len() == 0 {
        (Seq::empty(), Seq::empty())
    } else {
        let last = threads.len() - 1;
        let front = threads.drop_last();
        let before = findings(front, stats, target);
        let (at, own) = every_thread_that_knows_a_function_is_found(front, stats, target);
        let here = stats[last]@;
        let wanted = are_of(target);
        first_position_is_first(here, wanted);
        match first_position(here, wanted) {
            Some(first) => {
                let (more, more_own) = (at.push(last), own.push(first));
                assert(wanted(here[first]));
                assert forall|j: int| 0 <= j < first implies (#[trigger] here[j]).name@
                    != target by {
                    assert(!wanted(here[j]));
                }
                assert forall|k: int| 0 <= k < at.len() implies #[trigger] more[k] == at[k]
                    && more_own[k] == own[k] && front[at[k]] == threads[at[k]] by {}
                assert forall|i: int, j: int|
                    #![trigger stats[i]@[j]]
                    0 <= i < threads.len() && 0 <= j < stats[i]@.len() && stats[i]@[j].name@
                        == target implies more.contains(i) by {
                    if i == last {
                        assert(more[at.len() as int] == i);
                    } else {
                        let k = choose|k: int| 0 <= k < at.len() && at[k] == i;
                        assert(more[k] == i);
                    }
                }
                (more, more_own)
            },
            None => {
                assert forall|j: int| 0 <= j < here.len() implies (#[trigger] here[j]).name@
                    != target by {
                    assert(!wanted(here[j]));
                }
                assert forall|k: int| 0 <= k < at.len() implies front[#[trigger] at[k]]
                    == threads[at[k]] by {}
                (at, own)
            },
        }
    }
}

/// The samples of several findings are the sum of those of each. The result is the sum of the
/// first ones, for every number of them.
pub proof fn samples_of_findings_add_up(found: Seq<(String, FunctionStats)>) -> (sums: Seq<nat>)
    ensures
        sums.len() == found.len() + 1,
        sums[0] == 0,
        forall|k: int|
            0 <= k < found.len() ==> #[trigger] sums[k] + found[k].1.sample_count == sums[k + 1],
        samples_in(found) == sums[found.len() as int],
    decreases found.len(),
{
    if found.len() == 0 {
        seq![0nat]
    } else {
        let front = found.drop_last();
        let sums = samples_of_findings_add_up(front);
        let more = sums.push(samples_in(found));
        assert forall|k: int| 0 <= k < found.len() implies #[trigger] more[k]
            + found[k].1.sample_count == more[k + 1] by {
            assert(more[k] == sums[k]);
            if k < front.len() {
                assert(sums[k] + front[k].1.sample_count == sums[k + 1]);
                assert(more[k + 1] == sums[k + 1]);
            }
        }
        more
    }
}

/// The first value that is given is one that is, and none is before it.
pub proof fn first_given_value_is_first<T>(values: Seq<Option<T>>)
    ensures
        forall|k: int|
            #![trigger values[k]]
            0 <= k < values.len() && values[k] is Some && (forall|j: int|
                0 <= j < k ==> (#[trigger] values[j]) is None) ==> first_given(values) == values[k],
        (forall|k: int| 0 <= k < values.len() ==> (#[trigger] values[k]) is None) ==> first_given(
            values,
        ) is None,
        first_given(values) is Some ==> values.contains(first_given(values)),
    decreases values.len(),
{
    if values.len() > 0 {
        let front = values.drop_last();
        first_given_value_is_first(front);
        assert forall|j: int| 0 <= j < front.len() implies #[trigger] front[j] == values[j] by {}
        assert forall|k: int|
            #![trigger values[k]]
            0 <= k < values.len() && values[k] is Some && (forall|j: int|
                0 <= j < k ==> (#[trigger] values[j]) is None) implies first_given(values)
            == values[k] by {
            if k < front.len() {
                assert(front[k] is Some);
            }
        }
        if first_given(front) is Some {
            let k = choose|k: int| 0 <= k < front.len() && front[k] == first_given(front);
            assert(values[k] == first_given(values));
        } else if first_given(values) is Some {
            assert(values[values.len() - 1] == first_given(values));
        }
    }
}

/// What the threads together know of a function. There is an answer exactly where some thread has
/// statistics of it. Every such thread counts, once, in the order of the threads, with the first
/// of its statistics that are of the function: they give the terms of times and shares, and their
/// samples add up. Library, file and line are each the first that is given. The result gives the
/// positions of these threads, of the statistics in each, and the samples of the first ones.
pub proof fn detail_is_what_all_threads_know(
    threads: Vec<ResolvedThread>,
    cache: AnalysisCache,
    target: String,
    detail: Option<FunctionDetailResult>,
) -> (found: (Seq<int>, Seq<int>, Seq<nat>))
    requires
        threads@.len() == cache.function_stats@.len(),
        call_ensures(function_detail, (&threads, &cache, &target), detail),
    ensures
        ({
            let stats = cache.function_stats@;
            let (at, own, sums) = found;
            &&& at.len() == own.len()
            &&& forall|k: int, l: int|
                #![trigger at[k], at[l]]
                0 <= k < l < at.len() ==> at[k] < at[l]
            &&& forall|k: int|
                #![trigger at[k]]
                0 <= k < at.len() ==> {
                    &&& 0 <= at[k] < threads@.len()
                    &&& 0 <= own[k] < stats[at[k]]@.len()
                    &&& stats[at[k]]@[own[k]].name@ == target@
                    &&& forall|j: int|
                        0 <= j < own[k] ==> (#[trigger] stats[at[k]]@[j]).name@ != target@
                }
            &&& forall|i: int, j: int|
                #![trigger stats[i]@[j]]
                0 <= i < threads@.len() && 0 <= j < stats[i]@.len() && stats[i]@[j].name@ == target@
                    ==> at.contains(i)
            &&& detail is Some <==> at.len() > 0
            &&& sums.len() == at.len() + 1
            &&& sums[0] == 0
            &&& forall|k: int|
                0 <= k < at.len() ==> #[trigger] sums[k] + stats[at[k]]@[own[k]].sample_count
                    == sums[k + 1]
        }),
        detail is Some ==> {
            let stats = cache.function_stats@;
            let (at, own, sums) = found;
            let answer = detail->0;
            &&& answer.function_name@ == target@
            &&& answer.sample_count == sums[at.len() as int]
            &&& answer.threads@.len() == at.len()
            &&& answer.self_time_ms@.len() == at.len()
            &&& answer.total_time_ms@.len() == at.len()
            &&& answer.self_percent@.len() == at.len()
            &&& answer.total_percent@.len() == at.len()
            &&& forall|k: int|
                #![trigger at[k]]
                #![trigger answer.threads@[k]]
                0 <= k < at.len() ==> {
                    let here = stats[at[k]]@[own[k]];
                    &&& answer.threads@[k] == threads@[at[k]].name
                    &&& answer.self_time_ms@[k] == here.self_time_ms
                    &&& answer.total_time_ms@[k] == here.total_time_ms
                    &&& answer.self_percent@[k] == here.self_percent
                    &&& answer.total_percent@[k] == here.total_percent
                }
            &&& forall|k: int|
                #![trigger at[k]]
                0 <= k < at.len() && stats[at[k]]@[own[k]].library is Some && (forall|j: int|
                    #![trigger at[j]]
                    0 <= j < k ==> stats[at[j]]@[own[j]].library is None) ==> answer.library
                    == stats[at[k]]@[own[k]].library
            &&& forall|k: int|
                #![trigger at[k]]
                0 <= k < at.len() && stats[at[k]]@[own[k]].file is Some && (forall|j: int|
                    #![trigger at[j]]
                    0 <= j < k ==> stats[at[j]]@[own[j]].file is None) ==> answer.file
                    == stats[at[k]]@[own[k]].file
            &&& forall|k: int|
                #![trigger at[k]]
                0 <= k < at.len() && stats[at[k]]@[own[k]].line is Some && (forall|j: int|
                    #![trigger at[j]]
                    0 <= j < k ==> stats[at[j]]@[own[j]].line is None) ==> answer.line
                    == stats[at[k]]@[own[k]].line
            &&& (forall|k: int|
                #![trigger at[k]]
                0 <= k < at.len() ==> stats[at[k]]@[own[k]].library is None) ==> answer.library
                is None
            &&& (forall|k: int|
                #![trigger at[k]]
                0 <= k < at.len() ==> stats[at[k]]@[own[k]].file is None) ==> answer.file is None
            &&& (forall|k: int|
                #![trigger at[k]]
                0 <= k < at.len() ==> stats[at[k]]@[own[k]].line is None) ==> answer.line is None
        },
{
    let stats = cache.function_stats@;
    let all = findings(threads@, stats, target@);
    let (at, own) = every_thread_that_knows_a_function_is_found(threads@, stats, target@);
    let sums = samples_of_findings_add_up(all);
    assert forall|k: int| 0 <= k < at.len() implies #[trigger] sums[k]
        + stats[at[k]]@[own[k]].sample_count == sums[k + 1] by {
        assert(all[k].1 == stats[at[k]]@[own[k]]);
    }
    if detail is Some {
        let libraries = all.map_values(|f: (String, FunctionStats)| f.1.library);
        let files = all.map_values(|f: (String, FunctionStats)| f.1.file);
        let lines = all.map_values(|f: (String, FunctionStats)| f.1.line);
        first_given_value_is_first(libraries);
        first_given_value_is_first(files);
        first_given_value_is_first(lines);
        assert forall|k: int|
            #![trigger at[k]]
            #![trigger libraries[k]]
            #![trigger files[k]]
            #![trigger lines[k]]
            0 <= k < at.len() implies libraries[k] == stats[at[k]]@[own[k]].library && files[k]
            == stats[at[k]]@[own[k]].file && lines[k] == stats[at[k]]@[own[k]].line by {
            assert(all[k].1 == stats[at[k]]@[own[k]]);
        }
        assert forall|k: int|
            #![trigger at[k]]
            0 <= k < at.len() && stats[at[k]]@[own[k]].library is Some && (forall|j: int|
                #![trigger at[j]]
                0 <= j < k ==> stats[at[j]]@[own[j]].library is None) implies detail->0.library
            == stats[at[k]]@[own[k]].library by {
            assert(libraries[k] is Some);
            assert forall|j: int| 0 <= j < k implies (#[trigger] libraries[j]) is None by {
                assert(stats[at[j]]@[own[j]].library is None);
            }
        }
        assert forall|k: int|
            #![trigger at[k]]
            0 <= k < at.len() && stats[at[k]]@[own[k]].file is Some && (forall|j: int|
                #![trigger at[j]]
                0 <= j < k ==> stats[at[j]]@[own[j]].file is None) implies detail->0.file
            == stats[at[k]]@[own[k]].file by {
            assert(files[k] is Some);
            assert forall|j: int| 0 <= j < k implies (#[trigger] files[j]) is None by {
                assert(stats[at[j]]@[own[j]].file is None);
            }
        }
        assert forall|k: int|
            #![trigger at[k]]
            0 <= k < at.len() && stats[at[k]]@[own[k]].line is Some && (forall|j: int|
                #![trigger at[j]]
                0 <= j < k ==> stats[at[j]]@[own[j]].line is None) implies detail->0.line
            == stats[at[k]]@[own[k]].line by {
            assert(lines[k] is Some);
            assert forall|j: int| 0 <= j < k implies (#[trigger] lines[j]) is None by {
                assert(stats[at[j]]@[own[j]].line is None);
            }
        }
    }
    (at, own, sums)
}

/// The callers and the callees of a function are those that are counted in all threads: every one
/// is there, once, with its count, and none comes before one that is counted more often.
pub proof fn detail_lists_callers_and_callees(
    threads: Vec<ResolvedThread>,
    cache: AnalysisCache,
    target: String,
    detail: Option<FunctionDetailResult>,
    side: Side,
    listed: Seq<CallerCalleeEntry>,
)
    requires
        call_ensures(function_detail, (&threads, &cache, &target), detail),
        detail is Some,
        side == Side::Caller ==> listed == detail->0.callers@,
        side == Side::Callee ==> listed == detail->0.callees@,
    ensures
        forall|i: int|
            #![trigger listed[i]]
            0 <= i < listed.len() ==> listed[i].count > 0 && listed[i].count == times_among(
                neighbours(threads@, target@, side),
                listed[i].function_name@,
            ),
        forall|name: Seq<char>| #[trigger]
            times_among(neighbours(threads@, target@, side), name) > 0 ==> exists|i: int|
                0 <= i < listed.len() && (#[trigger] listed[i]).function_name@ == name,
        forall|i: int, j: int|
            #![trigger listed[i], listed[j]]
            0 <= i < j < listed.len() ==> {
                &&& listed[i].function_name@ != listed[j].function_name@
                &&& listed[i].count >= listed[j].count
            },
{
    counts_hold_every_name(listed, neighbours(threads@, target@, side));
}

/// What is asked for is known by exactly its name, else as the end of a name behind `::`, else as
/// a part of one; in each of these the first name is taken. Where no name contains it, it is taken
/// as it is. The result says which of the names was taken, where one was.
pub proof fn names_resolve_exactly_then_by_ending_then_by_part(
    names: Vec<String>,
    wanted: String,
    name: String,
) -> (at: Option<int>)
    requires
        call_ensures(resolve_name, (&names, &wanted), name),
    ensures
        match at {
            Some(k) => {
                &&& 0 <= k < names@.len()
                &&& name@ == names@[k]@
                &&& names@[k]@ != wanted@ ==> forall|i: int|
                    0 <= i < names@.len() ==> (#[trigger] names@[i])@ != wanted@
                &&& names@[k]@ != wanted@ && has_ending(names@[k]@, "::"@ + wanted@) ==> forall|
                    i: int,
                |
                    0 <= i < k ==> !has_ending((#[trigger] names@[i])@, "::"@ + wanted@)
                &&& names@[k]@ != wanted@ && !has_ending(names@[k]@, "::"@ + wanted@) ==> {
                    &&& occurs(wanted@, names@[k]@)
                    &&& forall|i: int|
                        0 <= i < names@.len() ==> !has_ending(
                            (#[trigger] names@[i])@,
                            "::"@ + wanted@,
                        )
                    &&& forall|i: int| 0 <= i < k ==> !occurs(wanted@, (#[trigger] names@[i])@)
                }
            },
            None => {
                &&& name@ == wanted@
                &&& forall|i: int|
                    0 <= i < names@.len() ==> !occurs(wanted@, (#[trigger] names@[i])@)
            },
        },
{
    let all = views(names@);
    let qualified = qualifies(wanted@);
    let containing = contains(wanted@);
    first_position_is_first(all, qualified);
    first_position_is_first(all, containing);
    assert forall|i: int| 0 <= i < all.len() implies #[trigger] names@[i]@ == all[i] by {}
    if all.contains(wanted@) {
        let k = choose|k: int| 0 <= k < all.len() && all[k] == wanted@;
        assert(names@[k]@ == wanted@);
        Some(k)
    } else {
        assert forall|i: int| 0 <= i < names@.len() implies (#[trigger] names@[i])@ != wanted@ by {
            assert(all.contains(all[i]));
        }
        match first_position(all, qualified) {
            Some(k) => {
                assert(qualified(all[k]));
                assert forall|i: int| 0 <= i < k implies !has_ending(
                    (#[trigger] names@[i])@,
                    "::"@ + wanted@,
                ) by {
                    assert(!qualified(all[i]));
                }
                assert(names@[k]@ == all[k]);
                Some(k)
            },
            None => {
                assert forall|i: int| 0 <= i < names@.len() implies !has_ending(
                    (#[trigger] names@[i])@,
                    "::"@ + wanted@,
                ) by {
                    assert(!qualified(all[i]));
                }
                match first_position(all, containing) {
                    Some(k) => {
                        assert(containing(all[k]));
                        assert(names@[k]@ == all[k]);
                        assert forall|i: int| 0 <= i < k implies !occurs(
                            wanted@,
                            (#[trigger] names@[i])@,
                        ) by {
                            assert(!containing(all[i]));
                        }
                        Some(k)
                    },
                    None => {
                        assert forall|i: int| 0 <= i < names@.len() implies !occurs(
                            wanted@,
                            (#[trigger] names@[i])@,
                        ) by {
                            assert(!containing(all[i]));
                        }
                        None
                    },
                }
            },
        }
    }
}

/// A function of a cache is resolved among the names of all its functions, thread after thread.
pub proof fn functions_resolve_by_their_names(
    cache: AnalysisCache,
    names: Vec<String>,
    wanted: String,
    name: String,
    function: String,
)
    requires
        names@.map_values(|n: String| n@) == cache.function_stats@.map_values(
            |stats: Vec<FunctionStats>| stats@.map_values(|s: FunctionStats| s.name@),
        ).flatten(),
        call_ensures(resolve_name, (&names, &wanted), name),
        call_ensures(resolve_function_name, (&cache, &wanted), function),
    ensures
        function@ == name@,
{
    let parts = cache.function_stats@.map_values(
        |stats: Vec<FunctionStats>| stats@.map_values(|s: FunctionStats| s.name@),
    );
    known_names_are_those_of_all_threads(cache.function_stats@);
    parts.lemma_flatten_and_flatten_alt_are_equivalent();
    assert(views(names@) =~= names@.map_values(|n: String| n@));
}

proof fn known_names_are_those_of_all_threads(stats: Seq<Vec<FunctionStats>>)
    ensures
        known_names(stats) == stats.map_values(
            |stats: Vec<FunctionStats>| stats@.map_values(|s: FunctionStats| s.name@),
        ).flatten_alt(),
    decreases stats.len(),
{
    let parts = stats.map_values(
        |stats: Vec<FunctionStats>| stats@.map_values(|s: FunctionStats| s.name@),
    );
    if stats.len() > 0 {
        let front = stats.drop_last();
        known_names_are_those_of_all_threads(front);
        assert(parts.drop_last() =~= front.map_values(
            |stats: Vec<FunctionStats>| stats@.map_values(|s: FunctionStats| s.name@),
        ));
        assert(parts.last() =~= stats.last()@.map_values(|s: FunctionStats| s.name@));
    }
}

/// A function can be looked up unless its samples, or its calls to or from some other, are more
/// than a machine number says.
pub proof fn details_fit_machine_numbers(
    threads: Vec<ResolvedThread>,
    cache: AnalysisCache,
    target: String,
    fit: bool,
)
    requires
        threads@.len() == cache.function_stats@.len(),
        call_ensures(detail_fits, (&threads, &cache, &target), fit),
    ensures
        fit <==> {
            &&& samples_in(findings(threads@, cache.function_stats@, target@)) <= usize::MAX
            &&& forall|name: Seq<char>| #[trigger]
                times_among(neighbours(threads@, target@, Side::Caller), name) <= usize::MAX
            &&& forall|name: Seq<char>| #[trigger]
                times_among(neighbours(threads@, target@, Side::Callee), name) <= usize::MAX
        },
        fit ==> call_requires(function_detail, (&threads, &cache, &target)),
{
}

} // verus!
