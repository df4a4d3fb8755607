//! The function statistics of the threads of a profile.

use vstd::prelude::*;
use vstd::seq_lib::group_to_multiset_ensures;

use crate::binary64::Binary64;
use crate::profile::ResolvedProfile;
use crate::profile::ResolvedThread;

verus! {

/// What one function took in one thread.
#[derive(Debug)]
pub struct FunctionStats {
    pub name: String,
    pub self_time_ms: Binary64,
    pub total_time_ms: Binary64,
    pub self_percent: Binary64,
    pub total_percent: Binary64,
    pub sample_count: usize,
    pub library: Option<String>,
    pub file: Option<String>,
    pub line: Option<u32>,
}

/// The function statistics of each thread, in the order of the threads.
#[derive(Debug)]
pub struct AnalysisCache {
    pub function_stats: Vec<Vec<FunctionStats>>,
}

/// `stats` are what `compute` gives for each of `threads`, in their order.
pub open spec fn are_computed<F: Fn(&ResolvedThread) -> Vec<FunctionStats>>(
    stats: Seq<Vec<FunctionStats>>,
    threads: Seq<ResolvedThread>,
    compute: F,
) -> bool {
    &&& stats.len() == threads.len()
    &&& forall|i: int|
        0 <= i < threads.len() ==> call_ensures(compute, (&threads[i],), #[trigger] stats[i])
}

impl AnalysisCache {
    /// The cache of a profile, with the statistics that `compute` gives for each thread. Each
    /// thread has its own, also where threads share a name.
    pub fn build<F: Fn(&ResolvedThread) -> Vec<FunctionStats>>(
        profile: &ResolvedProfile,
        compute: F,
    ) -> (cache: AnalysisCache)
        requires
            forall|i: int|
                0 <= i < profile.threads@.len() ==> call_requires(
                    compute,
                    (&#[trigger] profile.threads@[i],),
                ),
        ensures
            are_computed(cache.function_stats@, profile.threads@, compute),
    {
        let threads = &profile.threads;
        let mut function_stats: Vec<Vec<FunctionStats>> = Vec::new();
        let mut i: usize = 0;
        while i < threads.len()
            invariant
                i <= threads@.len(),
                forall|k: int|
                    0 <= k < threads@.len() ==> call_requires(
                        compute,
                        (&#[trigger] threads@[k],),
                    ),
                function_stats@.len() == i,
                forall|k: int|
                    0 <= k < i ==> call_ensures(
                        compute,
                        (&threads@[k],),
                        #[trigger] function_stats@[k],
                    ),
            decreases threads@.len() - i,
        {
            function_stats.push(compute(&threads[i]));
            i = i + 1;
        }
        AnalysisCache { function_stats }
    }
}

/// The same thread always gets the same statistics.
pub open spec fn is_determined<F: Fn(&ResolvedThread) -> Vec<FunctionStats>>(compute: F) -> bool {
    forall|thread: ResolvedThread, a: Vec<FunctionStats>, b: Vec<FunctionStats>|
        #[trigger] call_ensures(compute, (&thread,), a) && #[trigger] call_ensures(
            compute,
            (&thread,),
            b,
        ) ==> a@ == b@
}

/// Some thread has this name.
pub open spec fn names_a_thread(threads: Seq<ResolvedThread>, name: Seq<char>) -> bool {
    exists|i: int| 0 <= i < threads.len() && (#[trigger] threads[i]).name@ == name
}

/// Threads in another order get the same statistics: where names are distinct, the same names
/// have statistics, and each name has the same.
pub proof fn order_of_threads_does_not_matter<F: Fn(&ResolvedThread) -> Vec<FunctionStats>>(
    p: Seq<ResolvedThread>,
    q: Seq<ResolvedThread>,
    of_p: Seq<Vec<FunctionStats>>,
    of_q: Seq<Vec<FunctionStats>>,
    compute: F,
)
    requires
        is_determined(compute),
        are_computed(of_p, p, compute),
        are_computed(of_q, q, compute),
        p.to_multiset() == q.to_multiset(),
        forall|i: int, j: int|
            #![trigger p[i], p[j]]
            0 <= i < j < p.len() ==> p[i].name@ != p[j].name@,
    ensures
        of_p.len() == of_q.len(),
        forall|name: Seq<char>| #[trigger] names_a_thread(p, name) == names_a_thread(q, name),
        forall|i: int, j: int|
            #![trigger p[i], q[j]]
            0 <= i < p.len() && 0 <= j < q.len() && p[i].name@ == q[j].name@ ==> of_p[i]@
                == of_q[j]@,
{
    broadcast use group_to_multiset_ensures;

    assert(p.len() == p.to_multiset().len() && q.len() == q.to_multiset().len());
    assert forall|name: Seq<char>| #[trigger]
        names_a_thread(p, name) == names_a_thread(q, name) by {
        if names_a_thread(p, name) {
            let i = choose|i: int| 0 <= i < p.len() && (#[trigger] p[i]).name@ == name;
            assert(p.contains(p[i]));
            assert(p.to_multiset().count(p[i]) > 0);
            assert(q.contains(p[i]));
        }
        if names_a_thread(q, name) {
            let j = choose|j: int| 0 <= j < q.len() && (#[trigger] q[j]).name@ == name;
            assert(q.contains(q[j]));
            assert(q.to_multiset().count(q[j]) > 0);
            assert(p.contains(q[j]));
        }
    }
    assert forall|i: int, j: int|
        #![trigger p[i], q[j]]
        0 <= i < p.len() && 0 <= j < q.len() && p[i].name@ == q[j].name@ implies of_p[i]@
        == of_q[j]@ by {
        assert(q.contains(q[j]));
        assert(q.to_multiset().count(q[j]) > 0);
        assert(p.contains(q[j]));
        let k = choose|k: int| 0 <= k < p.len() && p[k] == q[j];
        assert(k == i);
        assert(call_ensures(compute, (&p[i],), of_p[i]));
        assert(call_ensures(compute, (&q[j],), of_q[j]));
    }
}

/// Every thread has its own statistics in the cache, at its own position.
pub proof fn every_thread_has_its_statistics<F: Fn(&ResolvedThread) -> Vec<FunctionStats>>(
    profile: ResolvedProfile,
    compute: F,
    cache: AnalysisCache,
)
    requires
        call_ensures(AnalysisCache::build::<F>, (&profile, compute), cache),
    ensures
        cache.function_stats@.len() == profile.threads@.len(),
        forall|i: int|
            #![trigger cache.function_stats@[i]]
            0 <= i < profile.threads@.len() ==> call_ensures(
                compute,
                (&profile.threads@[i],),
                cache.function_stats@[i],
            ),
{
}

/// A cache can be built wherever the statistics of each thread can be computed.
pub proof fn caches_can_be_built<F: Fn(&ResolvedThread) -> Vec<FunctionStats>>(
    profile: ResolvedProfile,
    compute: F,
)
    requires
        forall|i: int|
            0 <= i < profile.threads@.len() ==> call_requires(
                compute,
                (&#[trigger] profile.threads@[i],),
            ),
    ensures
        call_requires(AnalysisCache::build::<F>, (&profile, compute)),
{
}

} // verus!
