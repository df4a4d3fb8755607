//! The profiles that the server has loaded.

use std::sync::Arc;

use vstd::prelude::*;
use vstd::string::*;

use crate::cache::AnalysisCache;
use crate::cache::FunctionStats;
use crate::cache::are_computed;
use crate::profile::ResolvedProfile;
use crate::profile::ResolvedThread;

verus! {

/// A loaded profile with its cache.
pub struct CachedProfile {
    pub profile: ResolvedProfile,
    pub cache: AnalysisCache,
}

impl CachedProfile {
    /// Each thread of the profile has its statistics in the cache.
    pub open spec fn well_formed(&self) -> bool {
        self.cache.function_stats@.len() == self.profile.threads@.len()
    }

    /// A profile with the statistics that `compute` gives for each of its threads.
    pub fn new<F: Fn(&ResolvedThread) -> Vec<FunctionStats>>(
        profile: ResolvedProfile,
        compute: F,
    ) -> (cached: CachedProfile)
        requires
            forall|i: int|
                0 <= i < profile.threads@.len() ==> call_requires(
                    compute,
                    (&#[trigger] profile.threads@[i],),
                ),
        ensures
            cached.profile == profile,
            are_computed(cached.cache.function_stats@, profile.threads@, compute),
            cached.well_formed(),
    {
        let cache = AnalysisCache::build(&profile, compute);
        CachedProfile { profile, cache }
    }
}

struct ProfileEntry {
    path: Vec<u8>,
    cached: Arc<CachedProfile>,
}

/// The loaded profiles, by the bytes of their canonical paths.
pub struct ProfileServer {
    profiles: Vec<ProfileEntry>,
}

/// `Arc::clone`: another pointer to the same value.
#[verifier::external_body]
fn share(cached: &Arc<CachedProfile>) -> (shared: Arc<CachedProfile>)
    ensures
        shared == *cached,
{
    Arc::clone(cached)
}

/// What a request with an unusable path is answered.
pub open spec fn invalid_path_message(path: Seq<char>, reason: Seq<char>) -> Seq<char> {
    "Invalid path '"@ + path + "': "@ + reason
}

/// What a request for a profile that cannot be loaded is answered.
pub open spec fn failed_load_message(path: Seq<char>, reason: Seq<char>) -> Seq<char> {
    "Failed to load profile '"@ + path + "': "@ + reason
}

/// The four texts, one behind the other.
pub(crate) fn message(before: &str, subject: &str, between: &str, after: &str) -> (text: String)
    ensures
        text@ == before@ + subject@ + between@ + after@,
{
    let mut text = String::new();
    text.append(before);
    text.append(subject);
    text.append(between);
    text.append(after);
    assert(text@ =~= before@ + subject@ + between@ + after@);
    text
}

/// What is loaded under a canonical path.
pub open spec fn loaded_under(
    loaded: Map<Seq<u8>, Arc<CachedProfile>>,
    canonical: Seq<u8>,
) -> Option<Arc<CachedProfile>> {
    if loaded.contains_key(canonical) {
        Some(loaded[canonical])
    } else {
        None
    }
}

impl ProfileServer {
    /// No two entries are for the same path, and each holds a well-formed profile.
    pub closed spec fn well_formed(&self) -> bool {
        &&& forall|i: int, j: int|
            #![trigger self.profiles@[i], self.profiles@[j]]
            0 <= i < j < self.profiles@.len() ==> self.profiles@[i].path@
                != self.profiles@[j].path@
        &&& forall|i: int|
            0 <= i < self.profiles@.len() ==> (#[trigger] self.profiles@[i]).cached.well_formed()
    }

    spec fn is_at(&self, path: Seq<u8>, at: int) -> bool {
        0 <= at < self.profiles@.len() && self.profiles@[at].path@ == path
    }

    /// The loaded profiles, by path.
    pub closed spec fn view(&self) -> Map<Seq<u8>, Arc<CachedProfile>> {
        Map::new(
            |path: Seq<u8>| exists|at: int| self.is_at(path, at),
            |path: Seq<u8>| self.profiles@[choose|at: int| self.is_at(path, at)].cached,
        )
    }

    proof fn entry_is_in_view(&self, path: Seq<u8>, at: int)
        requires
            self.well_formed(),
            self.is_at(path, at),
        ensures
            self.view().contains_key(path),
            self.view()[path] == self.profiles@[at].cached,
    {
        let chosen = choose|i: int| self.is_at(path, i);
        assert(self.is_at(path, chosen));
        if chosen < at {
            assert(self.profiles@[chosen].path@ != self.profiles@[at].path@);
        } else if at < chosen {
            assert(self.profiles@[at].path@ != self.profiles@[chosen].path@);
        }
    }

    /// A server that has loaded nothing.
    pub fn new() -> (server: ProfileServer)
        ensures
            server.well_formed(),
            server.view() == Map::<Seq<u8>, Arc<CachedProfile>>::empty(),
    {
        let server = ProfileServer { profiles: Vec::new() };
        assert(server.view() =~= Map::<Seq<u8>, Arc<CachedProfile>>::empty());
        server
    }

    fn position(&self, path: &Vec<u8>) -> (position: Option<usize>)
        ensures
            match position {
                Some(at) => self.is_at(path@, at as int),
                None => forall|at: int| !self.is_at(path@, at),
            },
    {
        let mut i: usize = 0;
        while i < self.profiles.len()
            invariant
                i <= self.profiles@.len(),
                forall|at: int| 0 <= at < i ==> !self.is_at(path@, at),
            decreases self.profiles@.len() - i,
        {
            if self.profiles[i].path == *path {
                assert(self.profiles@[i as int].path@ =~= path@);
                return Some(i);
            }
            i = i + 1;
        }
        None
    }

    /// The profile that a request for `path` is about, where it is loaded already. `canonical` is
    /// the canonical form of `path`, or why there is none.
    pub fn get_profile(&self, path: &str, canonical: &Result<Vec<u8>, String>) -> (found: Result<
        Option<Arc<CachedProfile>>,
        String,
    >)
        requires
            self.well_formed(),
        ensures
            match *canonical {
                Ok(canonical) => {
                    &&& found == Ok::<Option<Arc<CachedProfile>>, String>(
                        loaded_under(self.view(), canonical@),
                    )
                    &&& found->Ok_0 is Some ==> found->Ok_0->0.well_formed()
                },
                Err(reason) => found is Err && found->Err_0@ == invalid_path_message(
                    path@,
                    reason@,
                ),
            },
    {
        match canonical {
            Ok(canonical) => match self.position(canonical) {
                Some(at) => Ok(Some(share(&self.profiles[at].cached))),
                None => Ok(None),
            },
            Err(reason) => Err(message("Invalid path '", path, "': ", reason.as_str())),
        }
    }

    /// Takes in what loading the profile at `path` gave: the profile with its cache, or why it
    /// cannot be loaded. A profile is kept under its canonical path, in place
    /// of one that was kept there before.
    pub fn add_profile(
        &mut self,
        path: &str,
        canonical: Vec<u8>,
        loaded: Result<CachedProfile, String>,
    ) -> (added: Result<Arc<CachedProfile>, String>)
        requires
            old(self).well_formed(),
            loaded is Ok ==> loaded->Ok_0.well_formed(),
        ensures
            final(self).well_formed(),
            match loaded {
                Ok(cached) => {
                    &&& added is Ok
                    &&& *added->Ok_0 == cached
                    &&& final(self).view() == old(self).view().insert(canonical@, added->Ok_0)
                },
                Err(reason) => {
                    &&& added is Err
                    &&& added->Err_0@ == failed_load_message(path@, reason@)
                    &&& final(self).view() == old(self).view()
                },
            },
    {
        match loaded {
            Ok(cached) => {
                let cached = Arc::new(cached);
                self.insert(canonical, share(&cached));
                Ok(cached)
            },
            Err(reason) => Err(message("Failed to load profile '", path, "': ", reason.as_str())),
        }
    }

    fn insert(&mut self, path: Vec<u8>, cached: Arc<CachedProfile>)
        requires
            old(self).well_formed(),
            cached.well_formed(),
        ensures
            final(self).well_formed(),
            final(self).view() == old(self).view().insert(path@, cached),
    {
        let ghost before = *self;
        let ghost kept = path@;
        match self.position(&path) {
            Some(at) => {
                self.profiles[at].cached = cached;
                proof {
                    assert(self.is_at(kept, at as int));
                    assert forall|p: Seq<u8>, i: int| #[trigger]
                        self.is_at(p, i) == before.is_at(p, i) by {}
                }
            },
            None => {
                let at: usize = self.profiles.len();
                self.profiles.push(ProfileEntry { path, cached });
                proof {
                    assert(self.is_at(kept, at as int));
                    assert forall|p: Seq<u8>, i: int| #[trigger]
                        self.is_at(p, i) == (before.is_at(p, i) || (p == kept && i == at)) by {}
                    assert forall|i: int, j: int|
                        #![trigger self.profiles@[i], self.profiles@[j]]
                        0 <= i < j < self.profiles@.len() implies self.profiles@[i].path@
                        != self.profiles@[j].path@ by {
                        if j == at {
                            assert(!before.is_at(kept, i));
                        } else {
                            assert(before.profiles@[i].path@ != before.profiles@[j].path@);
                        }
                    }
                }
            },
        }
        proof {
            let after = before.view().insert(kept, cached);
            assert forall|p: Seq<u8>| self.view().contains_key(p) == after.contains_key(p) by {
                if before.view().contains_key(p) {
                    let i = choose|i: int| before.is_at(p, i);
                    assert(self.is_at(p, i));
                }
            }
            assert forall|p: Seq<u8>| self.view().contains_key(p) implies #[trigger] self.view()[p]
                == after[p] by {
                let i = choose|i: int| self.is_at(p, i);
                if p != kept {
                    before.entry_is_in_view(p, i);
                }
            }
            assert(self.view() =~= after);
        }
    }
}

/// A profile is loaded once: after it was taken in, a request for its path finds it, and a
/// request for any other path finds what it found before.
pub proof fn loaded_profile_is_found_again(
    before: Map<Seq<u8>, Arc<CachedProfile>>,
    after: Map<Seq<u8>, Arc<CachedProfile>>,
    path: Seq<u8>,
    other: Seq<u8>,
    cached: Arc<CachedProfile>,
)
    requires
        after == before.insert(path, cached),
        other != path,
    ensures
        loaded_under(after, path) == Some(cached),
        loaded_under(after, other) == loaded_under(before, other),
{
}

/// A profile is cached as it is, and each of its threads with its own statistics.
pub proof fn profile_is_cached_as_it_is<F: Fn(&ResolvedThread) -> Vec<FunctionStats>>(
    profile: ResolvedProfile,
    compute: F,
    cached: CachedProfile,
)
    requires
        call_ensures(CachedProfile::new::<F>, (profile, compute), cached),
    ensures
        cached.profile == profile,
        cached.cache.function_stats@.len() == profile.threads@.len(),
        forall|i: int|
            #![trigger cached.cache.function_stats@[i]]
            0 <= i < profile.threads@.len() ==> call_ensures(
                compute,
                (&profile.threads@[i],),
                cached.cache.function_stats@[i],
            ),
{
}

/// A request finds what is loaded under the canonical form of its path, and nothing where nothing
/// is. Where the path has none, the answer gives the path as it was asked for and the reason.
pub proof fn request_finds_what_is_loaded(
    server: ProfileServer,
    path: &str,
    canonical: Result<Vec<u8>, String>,
    found: Result<Option<Arc<CachedProfile>>, String>,
)
    requires
        call_ensures(ProfileServer::get_profile, (&server, path, &canonical), found),
    ensures
        match canonical {
            Ok(canonical) => {
                &&& found is Ok
                &&& found->Ok_0 is Some <==> server.view().contains_key(canonical@)
                &&& found->Ok_0 is Some ==> found->Ok_0->0 == server.view()[canonical@]
            },
            Err(reason) => found is Err && found->Err_0@ == "Invalid path '"@ + path@ + "': "@
                + reason@,
        },
{
}

/// A server starts with nothing loaded.
pub proof fn new_server_has_nothing_loaded(server: ProfileServer, path: Seq<u8>)
    requires
        call_ensures(ProfileServer::new, (), server),
    ensures
        !server.view().contains_key(path),
        loaded_under(server.view(), path) is None,
{
}

/// A profile that was loaded is kept under its canonical path, in place of what was there, and
/// whatever is kept under another path stays. A load that failed changes nothing that is kept, and
/// is answered with the path as it was asked for and the reason.
pub proof fn loaded_profile_is_kept(
    server: &mut ProfileServer,
    path: &str,
    canonical: Vec<u8>,
    loaded: Result<CachedProfile, String>,
    added: Result<Arc<CachedProfile>, String>,
    other: Seq<u8>,
)
    requires
        call_ensures(ProfileServer::add_profile, (server, path, canonical, loaded), added),
        other != canonical@,
    ensures
        match loaded {
            Ok(cached) => {
                &&& added is Ok
                &&& *added->Ok_0 == cached
                &&& final(server).view().contains_key(canonical@)
                &&& final(server).view()[canonical@] == added->Ok_0
            },
            Err(reason) => {
                &&& added is Err
                &&& added->Err_0@ == "Failed to load profile '"@ + path@ + "': "@ + reason@
                &&& final(server).view() == old(server).view()
            },
        },
        final(server).view().contains_key(other) <==> old(server).view().contains_key(other),
        old(server).view().contains_key(other) ==> final(server).view()[other] == old(
            server,
        ).view()[other],
{
}

/// A server can be asked for any path, and take in any profile whose threads have their
/// statistics: from its start on, and after whatever it took in.
pub proof fn server_can_be_asked_at_any_time(
    fresh: ProfileServer,
    server: &mut ProfileServer,
    path: &str,
    canonical: Result<Vec<u8>, String>,
    place: Vec<u8>,
    loaded: Result<CachedProfile, String>,
    added: Result<Arc<CachedProfile>, String>,
    next: (&mut ProfileServer, &mut ProfileServer),
)
    requires
        call_ensures(ProfileServer::new, (), fresh),
        call_ensures(ProfileServer::add_profile, (server, path, place, loaded), added),
        *next.0 == fresh,
        *next.1 == *final(server),
        loaded is Ok ==> loaded->Ok_0.cache.function_stats@.len()
            == loaded->Ok_0.profile.threads@.len(),
    ensures
        call_requires(ProfileServer::get_profile, (&fresh, path, &canonical)),
        call_requires(ProfileServer::get_profile, (&*final(server), path, &canonical)),
        call_requires(ProfileServer::add_profile, (next.0, path, place, loaded)),
        call_requires(ProfileServer::add_profile, (next.1, path, place, loaded)),
{
}

} // verus!
