//! Runscripts: which store entries to fetch and run on each platform.

use vstd::prelude::*;
use vstd::string::*;
use std::collections::VecDeque;
use crate::cache::{Server, Client, roots_view, copy_servers, identities_view};
use crate::error::{Error, ErrorView};
use crate::paths::{RuntimePaths, path_join, join_path};
use crate::platform::Platform;
use crate::store::StoreIdentity;
use crate::text::{chars_of, push_char};

verus! {

/// The store entry to run and the path of the executable within it.
#[derive(Debug)]
pub struct Entrypoint {
    pub derivation: StoreIdentity,
    pub path: String,
}

/// What a runscript needs on one platform: the entries to fetch and,
/// optionally, the entrypoint to run.
#[derive(Debug)]
pub struct PlatformExec {
    pub entrypoint: Option<Entrypoint>,
    pub requirements: Vec<StoreIdentity>,
}

/// Whether a saved runscript installs runix itself when it is missing.
#[derive(Debug, Clone, Copy, PartialEq, Eq, Structural)]
pub enum ScriptType {
    Standard,
    AutoBootstrap,
}

/// The argument that a command line must supply next: `arg`, or an error
/// naming what was expected.
pub fn mandatory_arg<T>(desc: &str, arg: Option<T>) -> (r: Result<T, Error>)
    ensures
        arg matches Some(a) ==> r == Ok::<T, Error>(a),
        arg is None ==> (r matches Err(e) && e@ == ErrorView::NotEnoughArguments(desc@)),
{
    match arg {
        Some(a) => Ok(a),
        None => Err(Error::NotEnoughArguments(desc.to_owned())),
    }
}

/// Takes the next argument off the front of `args`, or fails naming what was expected.
pub fn mandatory_next_arg(desc: &str, args: &mut VecDeque<String>) -> (r: Result<String, Error>)
    ensures
        old(args)@.len() > 0 ==> r == Ok::<String, Error>(old(args)@[0]) && final(args)@ == old(args)@.drop_first(),
        old(args)@.len() == 0 ==> (r matches Err(e) && e@ == ErrorView::NotEnoughArguments(desc@))
            && final(args)@ == old(args)@,
{
    mandatory_arg(desc, args.pop_front())
}

/// The entries that a platform needs: its requirements, then the entry of
/// its entrypoint if it has one.
pub open spec fn roots_of(pe: PlatformExec) -> Seq<StoreIdentity> {
    pe.requirements@ + match pe.entrypoint {
        Some(e) => seq![e.derivation],
        None => Seq::empty(),
    }
}

impl PlatformExec {
    /// The requirements, followed by the entrypoint's entry if there is one.
    pub fn roots(&self) -> (r: Vec<&StoreIdentity>)
        ensures
            r@.len() == roots_of(*self).len(),
            forall|i: int| 0 <= i < r@.len() ==> *#[trigger] r@[i] == roots_of(*self)[i],
    {
        let mut r: Vec<&StoreIdentity> = Vec::new();
        let mut i: usize = 0;
        while i < self.requirements.len()
            invariant
                i <= self.requirements@.len(),
                r@.len() == i,
                forall|j: int| 0 <= j < i ==> *#[trigger] r@[j] == self.requirements@[j],
            decreases self.requirements@.len() - i,
        {
            r.push(&self.requirements[i]);
            i = i + 1;
        }
        match &self.entrypoint {
            Some(e) => { r.push(&e.derivation); },
            None => {},
        }
        r
    }
}

/// The script text that installs runix when it is missing and then runs
/// runix on the script itself.
pub const BOOTSTRAP_PRELUDE: &'static str = "#!/bin/sh\nset -eu\nRUNIX_ROOT=\"${RUNIX_ROOT:-$HOME/.cache/runix}\"\nRUNIX_BIN=\"$RUNIX_ROOT/current/bin/runix\"\nif ! test -x \"$RUNIX_BIN\"; then\n\techo >&2 'Note: runix not detected; bootstrapping ...'\n\texport RUNIX_ROOT\n\tcurl -sSL https://raw.githubusercontent.com/timbertson/runix/main/bootstrap.sh | bash\nfi\nexec \"$RUNIX_BIN\" \"$0\" \"$@\"\n\n";

/// The line that makes a runscript run with runix, and the blank line after it.
pub const RUNIX_SHEBANG: &'static str = "#!/usr/bin/env runix\n\n";

/// The text before the JSON body of a saved runscript.
pub open spec fn header_text(script_type: ScriptType) -> Seq<char> {
    match script_type {
        ScriptType::Standard => RUNIX_SHEBANG@,
        ScriptType::AutoBootstrap => BOOTSTRAP_PRELUDE@ + RUNIX_SHEBANG@,
    }
}

/// Where the JSON body of a runscript begins, searching from `i`: the first
/// line break that is followed by `{`.
pub open spec fn json_start_from(s: Seq<char>, i: int) -> Option<int>
    decreases s.len() - i,
{
    if i < 0 || i + 1 >= s.len() {
        None
    } else if s[i] == '\n' && s[i + 1] == '{' {
        Some(i)
    } else {
        json_start_from(s, i + 1)
    }
}

/// A runscript: the caches to fetch from and what to run on each platform.
#[derive(Debug)]
pub struct RunScript {
    caches: Vec<Server>,
    platform: Vec<(Platform, PlatformExec)>,
}

/// The map that a list of (platform, implementation) pairs describes, later
/// pairs taking precedence.
pub open spec fn platform_map(v: Seq<(Platform, PlatformExec)>) -> Map<Platform, PlatformExec>
    decreases v.len(),
{
    if v.len() == 0 {
        Map::empty()
    } else {
        platform_map(v.drop_last()).insert(v.last().0, v.last().1)
    }
}

/// `caches` with each of `more` appended unless an equal root is already there.
pub open spec fn merged_caches(caches: Seq<Seq<char>>, more: Seq<Seq<char>>) -> Seq<Seq<char>>
    decreases more.len(),
{
    if more.len() == 0 {
        caches
    } else {
        let base = merged_caches(caches, more.drop_last());
        if base.contains(more.last()) {
            base
        } else {
            base.push(more.last())
        }
    }
}

impl RunScript {
    /// Each platform has at most one implementation listed.
    pub closed spec fn wf(&self) -> bool {
        forall|i: int, j: int|
            0 <= i < j < self.platform@.len() ==> self.platform@[i].0 != self.platform@[j].0
    }

    /// The root URLs of the caches, in order.
    pub closed spec fn caches(&self) -> Seq<Seq<char>> {
        roots_view(self.caches@)
    }

    /// The implementation for each platform.
    pub closed spec fn impls(&self) -> Map<Platform, PlatformExec> {
        platform_map(self.platform@)
    }

    /// The public NixOS binary cache.
    pub fn default_cache() -> (r: Server)
        ensures
            r.root@ == "https://cache.nixos.org/"@,
    {
        Server { root: String::from_str("https://cache.nixos.org/") }
    }


    /// Adds a cache after the others.
    pub fn add_cache(&mut self, server: Server)
        requires
            old(self).wf(),
        ensures
            final(self).wf(),
            final(self).caches() == old(self).caches().push(server.root@),
            final(self).impls() == old(self).impls(),
    {
        let ghost before = self.caches@;
        self.caches.push(server);
        assert(roots_view(self.caches@) =~= roots_view(before).push(server.root@));
    }
}

/// No platform is listed twice.
pub open spec fn distinct_keys(v: Seq<(Platform, PlatformExec)>) -> bool {
    forall|i: int, j: int| 0 <= i < j < v.len() ==> v[i].0 != v[j].0
}

proof fn lemma_map_contains(v: Seq<(Platform, PlatformExec)>, p: Platform)
    ensures
        platform_map(v).contains_key(p) <==> exists|i: int| 0 <= i < v.len() && #[trigger] v[i].0 == p,
    decreases v.len(),
{
    if v.len() > 0 {
        lemma_map_contains(v.drop_last(), p);
        if platform_map(v.drop_last()).contains_key(p) {
            let i = choose|i: int| 0 <= i < v.drop_last().len() && #[trigger] v.drop_last()[i].0 == p;
            assert(v[i].0 == p);
        }
        if exists|i: int| 0 <= i < v.len() && #[trigger] v[i].0 == p {
            let i = choose|i: int| 0 <= i < v.len() && #[trigger] v[i].0 == p;
            if i < v.len() - 1 {
                assert(v.drop_last()[i].0 == p);
            }
        }
    }
}

proof fn lemma_map_index(v: Seq<(Platform, PlatformExec)>, i: int)
    requires
        distinct_keys(v),
        0 <= i < v.len(),
    ensures
        platform_map(v).contains_key(v[i].0),
        platform_map(v)[v[i].0] == v[i].1,
    decreases v.len(),
{
    if i < v.len() - 1 {
        assert(v.drop_last()[i] == v[i]);
        lemma_map_index(v.drop_last(), i);
        assert(v[i].0 != v.last().0);
    }
}

proof fn lemma_map_update(v: Seq<(Platform, PlatformExec)>, i: int, e: PlatformExec)
    requires
        distinct_keys(v),
        0 <= i < v.len(),
    ensures
        platform_map(v.update(i, (v[i].0, e))) == platform_map(v).insert(v[i].0, e),
    decreases v.len(),
{
    let k = v[i].0;
    let w = v.update(i, (k, e));
    if i == v.len() - 1 {
        assert(w.drop_last() =~= v.drop_last());
        assert(platform_map(w) =~= platform_map(v).insert(k, e));
    } else {
        assert(w.drop_last() =~= v.drop_last().update(i, (k, e)));
        assert(v.drop_last()[i].0 == k);
        lemma_map_update(v.drop_last(), i, e);
        assert(k != v.last().0);
        assert(platform_map(w) =~= platform_map(v).insert(k, e));
    }
}

impl RunScript {
    /// Where `platform` is listed, if it is.
    fn find_platform(&self, platform: Platform) -> (r: Option<usize>)
        ensures
            r matches Some(i) ==> i < self.platform@.len() && self.platform@[i as int].0 == platform,
            r is None ==> forall|i: int| 0 <= i < self.platform@.len() ==> self.platform@[i].0 != platform,
    {
        let mut i: usize = 0;
        while i < self.platform.len()
            invariant
                i <= self.platform@.len(),
                forall|j: int| 0 <= j < i ==> self.platform@[j].0 != platform,
            decreases self.platform@.len() - i,
        {
            if self.platform[i].0 == platform {
                return Some(i);
            }
            i = i + 1;
        }
        None
    }

    /// Adds the implementation for `platform`; a platform can be added only once.
    pub fn add_platform(&mut self, platform: Platform, exec: PlatformExec) -> (r: Result<(), Error>)
        requires
            old(self).wf(),
        ensures
            final(self).wf(),
            final(self).caches() == old(self).caches(),
            r is Ok <==> !old(self).impls().contains_key(platform),
            r is Ok ==> final(self).impls() == old(self).impls().insert(platform, exec),
            r matches Err(e) ==> e@ == ErrorView::PlatformAddedTwice(platform)
                && final(self).impls() == old(self).impls(),
    {
        proof { lemma_map_contains(self.platform@, platform); }
        match self.find_platform(platform) {
            Some(i) => {
                assert(self.platform@[i as int].0 == platform);
                Err(Error::PlatformAddedTwice(platform))
            },
            None => {
                let ghost before = self.platform@;
                self.platform.push((platform, exec));
                assert(self.platform@.drop_last() =~= before);
                Ok(())
            },
        }
    }

    /// The implementation for `platform`.
    pub fn get_platform(&self, platform: Platform) -> (r: Result<&PlatformExec, Error>)
        requires
            self.wf(),
        ensures
            r is Ok <==> self.impls().contains_key(platform),
            r matches Ok(pe) ==> *pe == self.impls()[platform],
            r matches Err(e) ==> e@ == ErrorView::PlatformNotFound(platform),
    {
        proof { lemma_map_contains(self.platform@, platform); }
        match self.find_platform(platform) {
            Some(i) => {
                proof { lemma_map_index(self.platform@, i as int); }
                Ok(&self.platform[i].1)
            },
            None => Err(Error::PlatformNotFound(platform)),
        }
    }

    /// Each platform with its implementation, once.
    pub fn platforms(&self) -> (r: Vec<(Platform, &PlatformExec)>)
        requires
            self.wf(),
        ensures
            forall|i: int| 0 <= i < r@.len() ==> self.impls().contains_key(#[trigger] r@[i].0)
                && *r@[i].1 == self.impls()[r@[i].0],
            forall|p: Platform| #[trigger] self.impls().contains_key(p) ==>
                exists|i: int| 0 <= i < r@.len() && r@[i].0 == p,
            r@.len() == self.impls().dom().len(),
    {
        let mut r: Vec<(Platform, &PlatformExec)> = Vec::new();
        let mut i: usize = 0;
        while i < self.platform.len()
            invariant
                self.wf(),
                i <= self.platform@.len(),
                r@.len() == i,
                forall|j: int| 0 <= j < i ==> (#[trigger] r@[j]).0 == self.platform@[j].0 && *r@[j].1 == self.platform@[j].1,
            decreases self.platform@.len() - i,
        {
            r.push((self.platform[i].0, &self.platform[i].1));
            i = i + 1;
        }
        proof {
            assert forall|j: int| 0 <= j < r@.len() implies self.impls().contains_key(#[trigger] r@[j].0)
                && *r@[j].1 == self.impls()[r@[j].0] by {
                lemma_map_index(self.platform@, j);
            }
            assert forall|p: Platform| #[trigger] self.impls().contains_key(p) implies
                exists|i: int| 0 <= i < r@.len() && r@[i].0 == p by {
                lemma_map_contains(self.platform@, p);
                let k = choose|k: int| 0 <= k < self.platform@.len() && #[trigger] self.platform@[k].0 == p;
                assert(r@[k].0 == p);
            }
            lemma_map_dom_len(self.platform@);
        }
        r
    }

    /// A client for the caches of this runscript, keeping its store under `paths`.
    pub fn client(&self, paths: RuntimePaths) -> (r: Client)
        ensures
            roots_view(r.servers@) == self.caches(),
            r.paths == paths,
    {
        Client { paths, servers: copy_servers(&self.caches) }
    }
}

proof fn lemma_map_dom_len(v: Seq<(Platform, PlatformExec)>)
    requires
        distinct_keys(v),
    ensures
        platform_map(v).dom().len() == v.len(),
        platform_map(v).dom().finite(),
    decreases v.len(),
{
    if v.len() > 0 {
        lemma_map_dom_len(v.drop_last());
        lemma_map_contains(v.drop_last(), v.last().0);
        if platform_map(v.drop_last()).contains_key(v.last().0) {
            let i = choose|i: int| 0 <= i < v.drop_last().len() && #[trigger] v.drop_last()[i].0 == v.last().0;
            assert(v[i].0 == v[v.len() - 1].0);
        }
    }
}

impl RunScript {
    /// Whether a cache with the same root is already listed.
    fn has_cache(&self, server: &Server) -> (r: bool)
        ensures
            r == self.caches().contains(server.root@),
    {
        let mut i: usize = 0;
        while i < self.caches.len()
            invariant
                i <= self.caches@.len(),
                forall|j: int| 0 <= j < i ==> self.caches@[j].root@ != server.root@,
            decreases self.caches@.len() - i,
        {
            if self.caches[i].root == server.root {
                assert(self.caches()[i as int] == server.root@);
                return true;
            }
            i = i + 1;
        }
        proof {
            if self.caches().contains(server.root@) {
                let k = choose|k: int| 0 <= k < self.caches().len() && self.caches()[k] == server.root@;
                assert(self.caches@[k].root@ == server.root@);
            }
        }
        false
    }

    /// Adds the caches of `other` that are not already listed, and takes the
    /// implementations of `other`, which replace those for the same platforms.
    pub fn merge(&mut self, other: RunScript)
        requires
            old(self).wf(),
            other.wf(),
        ensures
            final(self).wf(),
            final(self).caches() == merged_caches(old(self).caches(), other.caches()),
            final(self).impls() == old(self).impls().union_prefer_right(other.impls()),
    {
        let RunScript { caches, platform: platforms } = other;
        let ghost other_caches = roots_view(caches@);
        let ghost other_platforms = platforms@;
        let mut i: usize = 0;
        while i < caches.len()
            invariant
                i <= caches@.len(),
                other_caches == roots_view(caches@),
                self.wf(),
                self.impls() == old(self).impls(),
                self.caches() == merged_caches(old(self).caches(), other_caches.take(i as int)),
            decreases caches@.len() - i,
        {
            let ghost prev = self.caches();
            assert(other_caches.take(i + 1).drop_last() =~= other_caches.take(i as int));
            assert(other_caches.take(i + 1).last() == caches@[i as int].root@);
            if !self.has_cache(&caches[i]) {
                self.add_cache(caches[i].copy_server());
            }
            i = i + 1;
        }
        assert(other_caches.take(i as int) =~= other_caches);
        let mut platforms = platforms;
        let mut k: usize = 0;
        let n = platforms.len();
        while platforms.len() > 0
            invariant
                k + platforms@.len() == n,
                n == other_platforms.len(),
                platforms@ == other_platforms.skip(k as int),
                self.wf(),
                self.caches() == merged_caches(old(self).caches(), other_caches),
                self.impls() == old(self).impls().union_prefer_right(platform_map(other_platforms.take(k as int))),
            decreases platforms@.len(),
        {
            let ghost rest = platforms@;
            let (p, pe) = platforms.remove(0);
            assert(other_platforms.take(k + 1).drop_last() =~= other_platforms.take(k as int));
            assert(other_platforms.take(k + 1).last() == (p, pe));
            assert(platforms@ =~= other_platforms.skip(k + 1));
            self.insert_platform(p, pe);
            assert(self.impls() =~= old(self).impls().union_prefer_right(platform_map(other_platforms.take(k + 1))));
            k = k + 1;
        }
        assert(other_platforms.take(k as int) =~= other_platforms);
    }

    /// Sets the implementation for `platform`, replacing any earlier one.
    fn insert_platform(&mut self, platform: Platform, exec: PlatformExec)
        requires
            old(self).wf(),
        ensures
            final(self).wf(),
            final(self).caches() == old(self).caches(),
            final(self).impls() == old(self).impls().insert(platform, exec),
    {
        match self.find_platform(platform) {
            Some(i) => {
                let ghost before = self.platform@;
                self.platform.set(i, (platform, exec));
                proof { lemma_map_update(before, i as int, exec); }
                assert(self.platform@ == before.update(i as int, (before[i as int].0, exec)));
            },
            None => {
                let ghost before = self.platform@;
                self.platform.push((platform, exec));
                assert(self.platform@.drop_last() =~= before);
            },
        }
    }
}

impl Default for RunScript {
    /// A runscript with the default cache and no platforms.
    fn default() -> (r: RunScript)
        ensures
            r.wf(),
            r.caches() == seq!["https://cache.nixos.org/"@],
            r.impls() == Map::<Platform, PlatformExec>::empty(),
    {
        let mut caches: Vec<Server> = Vec::new();
        caches.push(RunScript::default_cache());
        let r = RunScript { caches, platform: Vec::new() };
        assert(r.caches() =~= seq!["https://cache.nixos.org/"@]);
        r
    }
}

impl RunScript {
    /// The text written before the JSON body of a saved runscript: the
    /// bootstrap prelude for a self-bootstrapping script, then the line that
    /// runs the script with runix and a blank line.
    pub fn header(script_type: ScriptType) -> (r: String)
        ensures
            r@ == header_text(script_type),
    {
        let mut r = String::new();
        match script_type {
            ScriptType::Standard => {},
            ScriptType::AutoBootstrap => { r.append(BOOTSTRAP_PRELUDE); },
        }
        r.append(RUNIX_SHEBANG);
        assert(r@ =~= header_text(script_type));
        r
    }

    /// The JSON body of a runscript file: everything from the first line break
    /// that is followed by `{`, skipping any front matter.
    pub fn json_body(contents: &str) -> (r: Result<&str, Error>)
        ensures
            json_start_from(contents@, 0) matches Some(i) ==> (r matches Ok(b) && b@ == contents@.skip(i)),
            json_start_from(contents@, 0) is None ==> (r matches Err(e) && e@ == ErrorView::MissingLeadingBrace),
    {
        let v = chars_of(contents);
        let n = v.len();
        let mut i: usize = 0;
        while n > 0 && i < n - 1
            invariant
                i <= n,
                n == v@.len(),
                v@ == contents@,
                json_start_from(contents@, 0) == json_start_from(contents@, i as int),
            decreases n - i,
        {
            if v[i] == '\n' && v[i + 1] == '{' {
                return Ok(contents.substring_char(i, n));
            }
            i = i + 1;
        }
        Err(Error::MissingLeadingBrace)
    }

    /// A runscript from its caches and its implementations; where a platform
    /// is listed more than once, the last implementation listed is kept.
    pub fn from_parts(caches: Vec<Server>, platforms: Vec<(Platform, PlatformExec)>) -> (r: RunScript)
        ensures
            r.wf(),
            r.caches() == roots_view(caches@),
            r.impls() == platform_map(platforms@),
    {
        let ghost ps = platforms@;
        let n = platforms.len();
        let mut rest = platforms;
        let mut rs = RunScript { caches, platform: Vec::new() };
        let mut k: usize = 0;
        assert(ps.skip(0) =~= ps);
        assert(ps.take(0) =~= Seq::<(Platform, PlatformExec)>::empty());
        while rest.len() > 0
            invariant
                k <= ps.len(),
                rest@ == ps.skip(k as int),
                rest@.len() == ps.len() - k,
                ps.len() == n,
                rs.wf(),
                rs.caches() == roots_view(caches@),
                rs.impls() == platform_map(ps.take(k as int)),
            decreases rest@.len(),
        {
            let (p, e) = rest.remove(0);
            proof {
                assert(ps[k as int] == (p, e));
                assert(ps.take(k + 1).drop_last() =~= ps.take(k as int));
                assert(ps.skip(k + 1) =~= ps.skip(k as int).drop_first());
            }
            rs.insert_platform(p, e);
            k = k + 1;
        }
        assert(ps.take(k as int) =~= ps);
        rs
    }

    /// The caches and the implementations, one per platform.
    pub fn into_parts(self) -> (r: (Vec<Server>, Vec<(Platform, PlatformExec)>))
        requires
            self.wf(),
        ensures
            roots_view(r.0@) == self.caches(),
            distinct_keys(r.1@),
            platform_map(r.1@) == self.impls(),
    {
        (self.caches, self.platform)
    }
}

/// Merging caches keeps the existing ones first and in order, adds every
/// cache of the other runscript, adds nothing else, and lists no root twice
/// when the existing list did not.
pub proof fn lemma_merged_caches(caches: Seq<Seq<char>>, more: Seq<Seq<char>>)
    ensures
        caches.is_prefix_of(merged_caches(caches, more)),
        forall|x: Seq<char>| #[trigger] merged_caches(caches, more).contains(x)
            <==> caches.contains(x) || more.contains(x),
        caches.no_duplicates() ==> merged_caches(caches, more).no_duplicates(),
    decreases more.len(),
{
    if more.len() > 0 {
        let base = merged_caches(caches, more.drop_last());
        lemma_merged_caches(caches, more.drop_last());
        assert forall|x: Seq<char>| #[trigger] merged_caches(caches, more).contains(x)
            <==> caches.contains(x) || more.contains(x) by {
            if more.drop_last().contains(x) {
                let i = choose|i: int| 0 <= i < more.drop_last().len() && more.drop_last()[i] == x;
                assert(more[i] == x);
            }
            if more.contains(x) {
                let i = choose|i: int| 0 <= i < more.len() && more[i] == x;
                if i < more.len() - 1 {
                    assert(more.drop_last()[i] == x);
                }
            }
            if !base.contains(more.last()) {
                if base.push(more.last()).contains(x) {
                    let i = choose|i: int| 0 <= i < base.push(more.last()).len() && base.push(more.last())[i] == x;
                    if i < base.len() {
                        assert(base[i] == x);
                    }
                }
                if base.contains(x) {
                    let i = choose|i: int| 0 <= i < base.len() && base[i] == x;
                    assert(base.push(more.last())[i] == x);
                }
                assert(base.push(more.last())[base.len() as int] == more.last());
            }
        }
        if !base.contains(more.last()) {
            assert(caches =~= base.push(more.last()).subrange(0, caches.len() as int));
        }
    }
}

/// What `add_platform` stored is what `get_platform` then gives: the
/// implementations after adding `exec` for `platform` hold `exec` for it.
pub proof fn lemma_get_after_add(impls: Map<Platform, PlatformExec>, platform: Platform, exec: PlatformExec)
    ensures
        impls.insert(platform, exec).contains_key(platform),
        impls.insert(platform, exec)[platform] == exec,
{
}

/// After a merge, a platform of the other runscript has the other's
/// implementation, and any other platform keeps its own.
pub proof fn lemma_merge_prefers_other(
    mine: Map<Platform, PlatformExec>,
    theirs: Map<Platform, PlatformExec>,
    platform: Platform,
)
    ensures
        theirs.contains_key(platform) ==> mine.union_prefer_right(theirs)[platform] == theirs[platform],
        !theirs.contains_key(platform) && mine.contains_key(platform)
            ==> mine.union_prefer_right(theirs)[platform] == mine[platform],
        mine.union_prefer_right(theirs).contains_key(platform)
            <==> mine.contains_key(platform) || theirs.contains_key(platform),
{
}

/// An implementation as character sequences: its entrypoint (entry and
/// path) and its requirements.
pub open spec fn exec_view(pe: PlatformExec) -> (Option<(Seq<char>, Seq<char>)>, Seq<Seq<char>>) {
    (
        match pe.entrypoint {
            Some(e) => Some((e.derivation@, e.path@)),
            None => None,
        },
        identities_view(pe.requirements@),
    )
}

/// Copies of `ids`, in order.
pub fn copy_identities(ids: &Vec<StoreIdentity>) -> (r: Vec<StoreIdentity>)
    ensures
        identities_view(r@) == identities_view(ids@),
{
    let mut r: Vec<StoreIdentity> = Vec::new();
    let mut i: usize = 0;
    while i < ids.len()
        invariant
            i <= ids@.len(),
            r@.len() == i,
            forall|k: int| 0 <= k < i ==> #[trigger] r@[k]@ == ids@[k]@,
        decreases ids@.len() - i,
    {
        let c = ids[i].copy_identity();
        r.push(c);
        i = i + 1;
    }
    assert(identities_view(r@) =~= identities_view(ids@));
    r
}

impl PlatformExec {
    /// The executable to run: the entrypoint's path inside its store
    /// directory, or `None` when the command line names the executable.
    pub fn exe_path(&self, paths: &RuntimePaths) -> (r: Option<String>)
        ensures
            self.entrypoint is None ==> r is None,
            self.entrypoint matches Some(e) ==> (r matches Some(p)
                && p@ == path_join(path_join(paths.store_path@, e.derivation@), e.path@)),
    {
        match &self.entrypoint {
            None => None,
            Some(e) => {
                let dir = paths.store_path_for(&e.derivation);
                Some(join_path(dir.as_str(), e.path.as_str()))
            },
        }
    }
}

impl RunScript {
    /// The entry that a bootstrap runscript installs: the entrypoint of its
    /// implementation for `platform`.
    pub fn bootstrap_entry(&self, platform: Platform) -> (r: Result<&StoreIdentity, Error>)
        requires
            self.wf(),
        ensures
            !self.impls().contains_key(platform) ==> (r matches Err(e) && e@ == ErrorView::PlatformNotFound(platform)),
            self.impls().contains_key(platform) && self.impls()[platform].entrypoint is None
                ==> (r matches Err(e) && e@ == ErrorView::MissingEntrypoint),
            (self.impls().contains_key(platform) && self.impls()[platform].entrypoint is Some)
                ==> r == Ok::<&StoreIdentity, Error>(&self.impls()[platform].entrypoint.unwrap().derivation),
    {
        let pe = self.get_platform(platform)?;
        match &pe.entrypoint {
            Some(e) => Ok(&e.derivation),
            None => Err(Error::MissingEntrypoint),
        }
    }
}

/// `parts` joined by `:`.
pub open spec fn colon_joined(parts: Seq<Seq<char>>) -> Seq<char>
    decreases parts.len(),
{
    if parts.len() == 0 {
        seq![]
    } else if parts.len() == 1 {
        parts[0]
    } else {
        colon_joined(parts.drop_last()) + seq![':'] + parts.last()
    }
}

/// The search path for the program: the given directories, then the
/// inherited search path if there is one, joined by `:`.
pub fn search_path(dirs: &Vec<String>, inherited: Option<&str>) -> (r: String)
    ensures
        r@ == colon_joined(dirs@.map_values(|d: String| d@) + match inherited {
            Some(p) => seq![p@],
            None => Seq::<Seq<char>>::empty(),
        }),
{
    let ghost parts = dirs@.map_values(|d: String| d@) + match inherited {
        Some(p) => seq![p@],
        None => Seq::<Seq<char>>::empty(),
    };
    let mut r = String::new();
    let mut i: usize = 0;
    while i < dirs.len()
        invariant
            i <= dirs@.len(),
            parts == dirs@.map_values(|d: String| d@) + match inherited {
                Some(p) => seq![p@],
                None => Seq::<Seq<char>>::empty(),
            },
            r@ == colon_joined(parts.take(i as int)),
        decreases dirs@.len() - i,
    {
        assert(parts.take(i + 1).drop_last() =~= parts.take(i as int));
        assert(parts[i as int] == dirs@[i as int]@);
        if i > 0 {
            push_char(&mut r, ':');
        }
        r.append(dirs[i].as_str());
        i = i + 1;
        proof {
            if i == 1 {
                assert(r@ =~= parts.take(1)[0]);
            }
        }
    }
    match inherited {
        Some(p) => {
            assert(parts.take(i + 1).drop_last() =~= parts.take(i as int));
            if i > 0 {
                push_char(&mut r, ':');
            }
            r.append(p);
            assert(parts.take(i + 1) =~= parts);
        },
        None => {
            assert(parts.take(i as int) =~= parts);
        },
    }
    r
}

/// The indentation before an entry at depth `indent` in the dependency
/// tree: `| ` for each level above, then `+ `.
pub open spec fn tree_prefix_text(indent: nat) -> Seq<char>
    decreases indent,
{
    if indent == 0 {
        seq![]
    } else if indent == 1 {
        seq!['+', ' ']
    } else {
        seq!['|', ' '] + tree_prefix_text((indent - 1) as nat)
    }
}

/// The indentation before an entry at depth `indent` in the dependency tree.
pub fn tree_prefix(indent: usize) -> (r: String)
    ensures
        r@ == tree_prefix_text(indent as nat),
{
    let mut r = String::new();
    let mut i: usize = 0;
    while i < indent
        invariant
            i <= indent,
            r@ + tree_prefix_text((indent - i) as nat) == tree_prefix_text(indent as nat),
        decreases indent - i,
    {
        if i == indent - 1 {
            r.append("+ ");
            proof { reveal_strlit("+ "); }
        } else {
            r.append("| ");
            proof { reveal_strlit("| "); }
        }
        i = i + 1;
    }
    r
}

/// The header of a saved runscript has no line that begins with `{`, and
/// ends with a line break.
proof fn lemma_header_has_no_body(t: ScriptType)
    ensures
        json_start_from(header_text(t), 0) is None,
        header_text(t).len() > 0,
        header_text(t).last() == '\n',
{
    reveal_strlit("#!/usr/bin/env runix\n\n");
    reveal_strlit("#!/bin/sh\nset -eu\nRUNIX_ROOT=\"${RUNIX_ROOT:-$HOME/.cache/runix}\"\nRUNIX_BIN=\"$RUNIX_ROOT/current/bin/runix\"\nif ! test -x \"$RUNIX_BIN\"; then\n\techo >&2 'Note: runix not detected; bootstrapping ...'\n\texport RUNIX_ROOT\n\tcurl -sSL https://raw.githubusercontent.com/timbertson/runix/main/bootstrap.sh | bash\nfi\nexec \"$RUNIX_BIN\" \"$0\" \"$@\"\n\n");
    reveal_with_fuel(json_start_from, 25);
    let h = header_text(t);
    assert(RUNIX_SHEBANG@.len() == 22);
    assert(BOOTSTRAP_PRELUDE@.len() == 333);
    assert(json_start_from(h, 350) is None);
    assert(json_start_from(h, 330) is None);
    assert(json_start_from(h, 310) is None);
    assert(json_start_from(h, 290) is None);
    assert(json_start_from(h, 270) is None);
    assert(json_start_from(h, 250) is None);
    assert(json_start_from(h, 230) is None);
    assert(json_start_from(h, 210) is None);
    assert(json_start_from(h, 190) is None);
    assert(json_start_from(h, 170) is None);
    assert(json_start_from(h, 150) is None);
    assert(json_start_from(h, 130) is None);
    assert(json_start_from(h, 110) is None);
    assert(json_start_from(h, 90) is None);
    assert(json_start_from(h, 70) is None);
    assert(json_start_from(h, 50) is None);
    assert(json_start_from(h, 30) is None);
    assert(json_start_from(h, 10) is None);
    assert(json_start_from(h, 0) is None);
}

/// The body of `a + b`, searching from `i` within `a`, when `a` holds no
/// body from `i` on and ends with a line break, and `b` begins with `{`.
proof fn lemma_json_start_concat(a: Seq<char>, b: Seq<char>, i: int)
    requires
        0 <= i < a.len(),
        json_start_from(a, i) is None,
        a.last() == '\n',
        b.len() > 0,
        b[0] == '{',
    ensures
        json_start_from(a + b, i) == Some(a.len() - 1),
    decreases a.len() - i,
{
    assert((a + b)[i] == a[i]);
    if i + 1 < a.len() {
        assert((a + b)[i + 1] == a[i + 1]);
        lemma_json_start_concat(a, b, i + 1);
    } else {
        assert((a + b)[i + 1] == b[0]);
    }
}

/// What a runscript file holds after its header is found again when it is
/// read back: for a header written by `header` followed by a JSON text that
/// begins with `{`, the body that `json_body` gives is that text, after the
/// header's final line break.
pub proof fn lemma_body_after_header(t: ScriptType, json: Seq<char>)
    requires
        json.len() > 0,
        json[0] == '{',
    ensures
        json_start_from(header_text(t) + json, 0) == Some(header_text(t).len() - 1),
        (header_text(t) + json).skip(header_text(t).len() - 1) == seq!['\n'] + json,
{
    let h = header_text(t);
    lemma_header_has_no_body(t);
    lemma_json_start_concat(h, json, 0);
    assert((h + json).skip(h.len() - 1) =~= seq!['\n'] + json);
}

/// Taking a runscript apart and putting it together again gives it back:
/// parts that `into_parts` can give for `rs`, put together by `from_parts`,
/// make a runscript with the caches and implementations of `rs`.
pub proof fn lemma_parts_round_trip(
    rs: RunScript,
    caches: Seq<Server>,
    platforms: Seq<(Platform, PlatformExec)>,
    back: RunScript,
)
    requires
        rs.wf(),
        roots_view(caches) == rs.caches(),
        distinct_keys(platforms),
        platform_map(platforms) == rs.impls(),
        back.caches() == roots_view(caches),
        back.impls() == platform_map(platforms),
    ensures
        back.caches() == rs.caches(),
        back.impls() == rs.impls(),
{
}

} // verus!
