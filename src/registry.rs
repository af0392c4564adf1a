//! The registry: the live state of every watched repository, keyed by its
//! canonical path, and the four operations that change it.

use vstd::prelude::*;
use crate::config::{views_of, Configuration, RepositoryConfig, RepositoryConfigView};
use crate::events::{event_qualifies, is_change, is_change_kind, qualifies, EventClass};
use crate::ignore_filter::{path_is_ignored, relative_part, relative_to};
use ignore::gitignore::Gitignore;

verus! {

/// The mathematical value of one repository's live state. Time stamps are
/// counted in seconds from a fixed origin.
pub struct RepoView {
    pub path: Seq<char>,
    pub debounce_time: u64,
    pub commit_msg: Seq<char>,
    /// `None` while clean; `Some(t)` while a change seen at or after `t` waits
    /// for a commit.
    pub dirty_since: Option<u64>,
}

/// No two entries share a path.
pub open spec fn unique_paths(s: Seq<RepoView>) -> bool {
    forall|i: int, j: int| 0 <= i < s.len() && 0 <= j < s.len() && i != j ==> s[i].path != s[j].path
}

/// Some entry has path `p`.
pub open spec fn has_path(s: Seq<RepoView>, p: Seq<char>) -> bool {
    exists|i: int| 0 <= i < s.len() && s[i].path == p
}

/// The dirty mark after a change seen at `at`: the later of the two.
pub open spec fn refreshed(d: Option<u64>, at: u64) -> Option<u64> {
    match d {
        None => Some(at),
        Some(t) => Some(if t >= at { t } else { at }),
    }
}

/// The quiet period of `v` has elapsed at `now`.
pub open spec fn is_due(v: RepoView, now: u64) -> bool {
    match v.dirty_since {
        None => false,
        Some(t) => now as int - t as int >= v.debounce_time as int,
    }
}

/// `v` with its dirty mark set to `d`.
pub open spec fn with_mark(v: RepoView, d: Option<u64>) -> RepoView {
    RepoView { path: v.path, debounce_time: v.debounce_time, commit_msg: v.commit_msg, dirty_since: d }
}

/// The registry after a change to `p` seen at `at`.
pub open spec fn marked(s: Seq<RepoView>, p: Seq<char>, at: u64) -> Seq<RepoView> {
    Seq::new(
        s.len(),
        |i: int|
            if s[i].path == p {
                with_mark(s[i], refreshed(s[i].dirty_since, at))
            } else {
                s[i]
            },
    )
}

/// The registry after a sweep at `now`: every due entry is clean.
pub open spec fn swept(s: Seq<RepoView>, now: u64) -> Seq<RepoView> {
    Seq::new(s.len(), |i: int| if is_due(s[i], now) { with_mark(s[i], None) } else { s[i] })
}

/// What a sweep at `now` hands out: path and message of each due entry, in
/// registry order.
pub open spec fn due(s: Seq<RepoView>, now: u64) -> Seq<(Seq<char>, Seq<char>)>
    decreases s.len(),
{
    if s.len() == 0 {
        Seq::empty()
    } else {
        let rest = due(s.drop_last(), now);
        if is_due(s.last(), now) {
            rest.push((s.last().path, s.last().commit_msg))
        } else {
            rest
        }
    }
}

/// A freshly registered entry: dirty from `now`.
pub open spec fn registered(p: Seq<char>, debounce_time: u64, commit_msg: Seq<char>, now: u64) -> RepoView {
    RepoView { path: p, debounce_time, commit_msg, dirty_since: Some(now) }
}

/// The registry built from a configuration at `now`.
pub open spec fn from_config(c: Seq<RepositoryConfigView>, now: u64) -> Seq<RepoView> {
    c.map_values(|r: RepositoryConfigView| registered(r.path, r.debounce_time, r.commit_msg, now))
}

/// `answers[i]` is what the ignore rules said of `paths[i]`: one answer per
/// path, and a path outside the directory `root` is never ignored.
pub open spec fn answers_fit(root: Seq<char>, paths: Seq<Seq<char>>, answers: Seq<bool>) -> bool {
    &&& answers.len() == paths.len()
    &&& forall|i: int| 0 <= i < paths.len() && relative_part(root, #[trigger] paths[i]) is None ==> !answers[i]
}

/// No two entries of a configuration share a path.
pub open spec fn config_paths_unique(c: Seq<RepositoryConfigView>) -> bool {
    forall|i: int, j: int| 0 <= i < c.len() && 0 <= j < c.len() && i != j ==> c[i].path != c[j].path
}

/// Why a registration was refused.
#[derive(Clone, Copy, Debug, PartialEq, Eq, Structural)]
pub enum RegistryError {
    /// The path is registered already.
    DuplicateIdentity,
}

/// A commit to start: the repository and its message template.
pub struct Dispatch {
    pub path: String,
    pub commit_msg: String,
}

impl View for Dispatch {
    type V = (Seq<char>, Seq<char>);

    open spec fn view(&self) -> (Seq<char>, Seq<char>) {
        (self.path@, self.commit_msg@)
    }
}

/// The live state of one watched repository.
pub struct RepositoryState {
    path: String,
    gitignore_matcher: Gitignore,
    debounce_time: u64,
    commit_msg: String,
    last_change_at: Option<u64>,
}

impl View for RepositoryState {
    type V = RepoView;

    closed spec fn view(&self) -> RepoView {
        RepoView {
            path: self.path@,
            debounce_time: self.debounce_time,
            commit_msg: self.commit_msg@,
            dirty_since: self.last_change_at,
        }
    }
}

impl RepositoryState {
    /// A new state, dirty from `now`.
    pub fn new(path: String, gitignore_matcher: Gitignore, debounce_time: u64, commit_msg: &str, now: u64) -> (r: Self)
        ensures
            r@ == registered(path@, debounce_time, commit_msg@, now),
    {
        RepositoryState {
            path,
            gitignore_matcher,
            debounce_time,
            commit_msg: commit_msg.to_string(),
            last_change_at: Some(now),
        }
    }
}

/// The live states of all watched repositories.
pub struct Registry {
    entries: Vec<RepositoryState>,
}

impl View for Registry {
    type V = Seq<RepoView>;

    closed spec fn view(&self) -> Seq<RepoView> {
        self.entries@.map_values(|e: RepositoryState| e@)
    }
}

impl Registry {
    /// The registry is well formed: paths are unique.
    pub open spec fn wf(&self) -> bool {
        unique_paths(self@)
    }

    /// An empty registry.
    pub fn new() -> (r: Self)
        ensures
            r.wf(),
            r@ == Seq::<RepoView>::empty(),
    {
        let r = Registry { entries: Vec::new() };
        assert(r@ =~= Seq::<RepoView>::empty());
        r
    }

    /// The number of registered repositories.
    pub fn len(&self) -> (r: usize)
        ensures
            r == self@.len(),
    {
        self.entries.len()
    }

    /// The position of the entry for `identity`.
    fn find(&self, identity: &str) -> (r: Option<usize>)
        ensures
            match r {
                Some(k) => k < self@.len() && self@[k as int].path == identity@,
                None => !has_path(self@, identity@),
            },
    {
        let key = identity.to_string();
        let mut j: usize = 0;
        while j < self.entries.len()
            invariant
                key@ == identity@,
                j <= self@.len(),
                self@.len() == self.entries@.len(),
                forall|m: int| 0 <= m < j ==> self@[m].path != identity@,
            decreases self.entries@.len() - j,
        {
            if self.entries[j].path == key {
                return Some(j);
            }
            j = j + 1;
        }
        None
    }

    /// Whether `identity` is registered.
    pub fn is_registered(&self, identity: &str) -> (r: bool)
        ensures
            r == has_path(self@, identity@),
    {
        self.find(identity).is_some()
    }

    /// The dirty mark of `identity`; `None` when it is clean or not registered.
    pub fn dirty_since(&self, identity: &str) -> (r: Option<u64>)
        requires
            self.wf(),
        ensures
            !has_path(self@, identity@) ==> r is None,
            forall|k: int| 0 <= k < self@.len() && self@[k].path == identity@ ==> r == self@[k].dirty_since,
    {
        match self.find(identity) {
            None => None,
            Some(k) => self.entries[k].last_change_at,
        }
    }

    /// The paths of all registered repositories, in registry order.
    pub fn identities(&self) -> (r: Vec<String>)
        ensures
            r@.map_values(|s: String| s@) == self@.map_values(|v: RepoView| v.path),
    {
        let mut r: Vec<String> = Vec::new();
        let mut i: usize = 0;
        while i < self.entries.len()
            invariant
                i <= self.entries@.len(),
                self@.len() == self.entries@.len(),
                r@.map_values(|s: String| s@) =~= self@.map_values(|v: RepoView| v.path).subrange(0, i as int),
            decreases self.entries@.len() - i,
        {
            let ghost before = r@.map_values(|s: String| s@);
            let p = self.entries[i].path.clone();
            assert(self@[i as int].path == p@);
            r.push(p);
            assert(r@.map_values(|s: String| s@) =~= before.push(p@));
            i = i + 1;
        }
        assert(self@.map_values(|v: RepoView| v.path).subrange(0, i as int) =~= self@.map_values(|v: RepoView| v.path));
        r
    }

    /// Adds a repository, dirty from `now`. Refused when its path is
    /// registered already; the registry is then unchanged.
    pub fn register(&mut self, identity: String, debounce_time: u64, commit_msg: &str, gitignore_matcher: Gitignore, now: u64) -> (r: Result<(), RegistryError>)
        requires
            old(self).wf(),
        ensures
            final(self).wf(),
            r is Err <==> has_path(old(self)@, identity@),
            r is Err ==> final(self)@ == old(self)@ && r == Err::<(), RegistryError>(RegistryError::DuplicateIdentity),
            r is Ok ==> final(self)@ == old(self)@.push(registered(identity@, debounce_time, commit_msg@, now)),
    {
        if self.find(identity.as_str()).is_some() {
            return Err(RegistryError::DuplicateIdentity);
        }
        let ghost prev = self@;
        let state = RepositoryState::new(identity, gitignore_matcher, debounce_time, commit_msg, now);
        let ghost added = state@;
        self.entries.push(state);
        assert(self@ =~= prev.push(added));
        Ok(())
    }

    /// Records a change to `identity` seen at `at`: the dirty mark becomes the
    /// later of the old mark and `at`. Nothing happens when `identity` is not
    /// registered.
    pub fn mark_dirty(&mut self, identity: &str, at: u64)
        requires
            old(self).wf(),
        ensures
            final(self).wf(),
            final(self)@ == marked(old(self)@, identity@, at),
    {
        let ghost prev = self@;
        match self.find(identity) {
            None => {
                assert(self@ =~= marked(prev, identity@, at));
            },
            Some(k) => {
                let next = match self.entries[k].last_change_at {
                    None => at,
                    Some(t) => if t >= at { t } else { at },
                };
                self.entries[k].last_change_at = Some(next);
                assert(self@ =~= marked(prev, identity@, at));
            },
        }
    }

    /// The sweep: every entry whose quiet period has elapsed at `now` is made
    /// clean and handed out, in registry order.
    pub fn take_due(&mut self, now: u64) -> (r: Vec<Dispatch>)
        requires
            old(self).wf(),
        ensures
            final(self).wf(),
            final(self)@ == swept(old(self)@, now),
            r@.map_values(|d: Dispatch| d@) == due(old(self)@, now),
    {
        let ghost prev = self@;
        let mut r: Vec<Dispatch> = Vec::new();
        let mut i: usize = 0;
        while i < self.entries.len()
            invariant
                i <= self.entries@.len(),
                self@.len() == prev.len(),
                self@.len() == self.entries@.len(),
                forall|j: int| 0 <= j < i ==> self@[j] == swept(prev, now)[j],
                forall|j: int| i <= j < prev.len() ==> self@[j] == prev[j],
                r@.map_values(|d: Dispatch| d@) == due(prev.subrange(0, i as int), now),
            decreases self.entries@.len() - i,
        {
            let ghost before = self@;
            let ghost r_before = r@.map_values(|d: Dispatch| d@);
            assert(prev.subrange(0, i as int + 1).drop_last() =~= prev.subrange(0, i as int));
            assert(self@[i as int] == prev[i as int]);
            let is_now_due = match self.entries[i].last_change_at {
                None => false,
                Some(t) => now >= t && now - t >= self.entries[i].debounce_time,
            };
            if is_now_due {
                let d = Dispatch { path: self.entries[i].path.clone(), commit_msg: self.entries[i].commit_msg.clone() };
                r.push(d);
                self.entries[i].last_change_at = None;
                assert(r@.map_values(|d: Dispatch| d@) =~= r_before.push((prev[i as int].path, prev[i as int].commit_msg)));
            }
            assert(self@ =~= before.update(i as int, swept(prev, now)[i as int]));
            i = i + 1;
        }
        assert(prev.subrange(0, i as int) =~= prev);
        assert(self@ =~= swept(prev, now));
        r
    }

    /// Applies an event on `identity` seen at `now`, of `kind`, whose paths are
    /// ignored as `ignored` says: a qualifying event marks the repository
    /// dirty, any other leaves the registry as it is.
    pub fn record_event(&mut self, identity: &str, kind: EventClass, ignored: &Vec<bool>, now: u64)
        requires
            old(self).wf(),
        ensures
            final(self).wf(),
            final(self)@ == if event_qualifies(kind, ignored@) {
                marked(old(self)@, identity@, now)
            } else {
                old(self)@
            },
            (forall|i: int| 0 <= i < ignored@.len() ==> ignored@[i]) ==> final(self)@ == old(self)@,
    {
        if qualifies(kind, ignored) {
            self.mark_dirty(identity, now);
        }
    }

    /// Handles a filesystem event on the repository `identity` seen at `now`:
    /// `paths` are the paths it touches and `dirs[i]` tells whether `paths[i]`
    /// is a directory. Each path below the repository is held, relative to
    /// it, against the repository's ignore rules; any other path counts as
    /// not ignored. The event then counts as `record_event` says, for the
    /// answers that came back. An event that is no change, touches no path, or
    /// names an unregistered repository leaves the registry as it is; a change
    /// that touches a path outside the repository marks it dirty.
    pub fn handle_watch_event(&mut self, identity: &str, kind: EventClass, paths: &Vec<String>, dirs: &Vec<bool>, now: u64)
        requires
            old(self).wf(),
            dirs@.len() == paths@.len(),
        ensures
            final(self).wf(),
            exists|answers: Seq<bool>|
                answers_fit(identity@, views_of(paths@), answers) && final(self)@ == (if event_qualifies(kind, answers) {
                    marked(old(self)@, identity@, now)
                } else {
                    old(self)@
                }),
            !is_change(kind) ==> final(self)@ == old(self)@,
            paths@.len() == 0 ==> final(self)@ == old(self)@,
            !has_path(old(self)@, identity@) ==> final(self)@ == old(self)@,
            is_change(kind) && (exists|i: int| 0 <= i < paths@.len() && relative_part(identity@, paths@[i]@) is None)
                ==> final(self)@ == marked(old(self)@, identity@, now),
    {
        let ghost prev = self@;
        let ghost none_ignored = Seq::new(paths@.len(), |i: int| false);
        assert(answers_fit(identity@, views_of(paths@), none_ignored));
        if !is_change_kind(kind) {
            return;
        }
        let k = match self.find(identity) {
            None => {
                assert(marked(prev, identity@, now) =~= prev);
                return;
            },
            Some(k) => k,
        };
        let mut ignored: Vec<bool> = Vec::new();
        let mut i: usize = 0;
        while i < paths.len()
            invariant
                i <= paths@.len(),
                dirs@.len() == paths@.len(),
                k < self.entries@.len(),
                ignored@.len() == i,
                forall|a: int| 0 <= a < i && relative_part(identity@, paths@[a]@) is None ==> !ignored@[a],
            decreases paths@.len() - i,
        {
            let hit = match relative_to(identity, paths[i].as_str()) {
                Some(rel) => path_is_ignored(&self.entries[k].gitignore_matcher, rel.as_str(), dirs[i]),
                None => false,
            };
            ignored.push(hit);
            i = i + 1;
        }
        assert(answers_fit(identity@, views_of(paths@), ignored@));
        proof {
            if exists|j: int| 0 <= j < paths@.len() && relative_part(identity@, paths@[j]@) is None {
                let j = choose|j: int| 0 <= j < paths@.len() && relative_part(identity@, paths@[j]@) is None;
                assert(!ignored@[j]);
            }
        }
        self.record_event(identity, kind, &ignored, now);
    }

    /// A reload: the registry is rebuilt from `cfg` at `now` (see
    /// `parse_config`) and the paths to watch from now on are returned. When
    /// two configured entries share a path the reload is refused and the
    /// registry is left as it was.
    pub fn reload(&mut self, cfg: &Configuration, matchers: Vec<Gitignore>, now: u64) -> (r: Result<Vec<String>, RegistryError>)
        requires
            old(self).wf(),
            matchers@.len() == cfg@.len(),
        ensures
            final(self).wf(),
            r is Ok <==> config_paths_unique(cfg@),
            match r {
                Ok(ids) => final(self)@ == from_config(cfg@, now)
                    && ids@.map_values(|s: String| s@) == cfg@.map_values(|c: RepositoryConfigView| c.path),
                Err(e) => final(self)@ == old(self)@ && e == RegistryError::DuplicateIdentity,
            },
    {
        match parse_config(cfg, matchers, now) {
            Err(e) => Err(e),
            Ok(fresh) => {
                self.replace_all(fresh);
                let ids = self.identities();
                assert(self@.map_values(|v: RepoView| v.path) =~= cfg@.map_values(|c: RepositoryConfigView| c.path));
                Ok(ids)
            },
        }
    }

    /// Replaces the whole registry by `fresh`.
    pub fn replace_all(&mut self, fresh: Registry)
        requires
            fresh.wf(),
        ensures
            final(self).wf(),
            final(self)@ == fresh@,
    {
        *self = fresh;
    }
}

/// Builds a fresh registry from a configuration at `now`: one entry per
/// configured repository, in order, each dirty from `now`, with the ignore
/// rules `matchers[i]` for entry `i`. Refused when two entries share a path.
pub fn parse_config(cfg: &Configuration, matchers: Vec<Gitignore>, now: u64) -> (r: Result<Registry, RegistryError>)
    requires
        matchers@.len() == cfg@.len(),
    ensures
        r is Ok <==> config_paths_unique(cfg@),
        match r {
            Ok(reg) => reg.wf() && reg@ == from_config(cfg@, now),
            Err(e) => e == RegistryError::DuplicateIdentity,
        },
{
    let mut matchers = matchers;
    let mut reg = Registry::new();
    let mut i: usize = 0;
    while i < cfg.repositories.len()
        invariant
            i <= cfg@.len(),
            cfg@.len() == cfg.repositories@.len(),
            matchers@.len() == cfg@.len() - i,
            reg.wf(),
            reg@ == from_config(cfg@.subrange(0, i as int), now),
            config_paths_unique(cfg@.subrange(0, i as int)),
        decreases cfg@.len() - i,
    {
        let ghost prev = reg@;
        let entry: &RepositoryConfig = &cfg.repositories[i];
        assert(entry@ == cfg@[i as int]);
        let m = matchers.remove(0);
        let res = reg.register(entry.path.clone(), entry.debounce_time, entry.commit_msg.as_str(), m, now);
        if res.is_err() {
            proof {
                let j = choose|j: int| 0 <= j < prev.len() && prev[j].path == cfg@[i as int].path;
                assert(cfg@.subrange(0, i as int)[j] == cfg@[j]);
                assert(!config_paths_unique(cfg@));
            }
            return Err(RegistryError::DuplicateIdentity);
        }
        assert(from_config(cfg@.subrange(0, i as int + 1), now) =~= prev.push(
            registered(cfg@[i as int].path, cfg@[i as int].debounce_time, cfg@[i as int].commit_msg, now),
        ));
        let ghost next = cfg@.subrange(0, i as int + 1);
        let ghost pre = cfg@.subrange(0, i as int);
        assert forall|a: int, b: int| 0 <= a < i + 1 && 0 <= b < i + 1 && a != b implies
            #[trigger] next[a].path != #[trigger] next[b].path by {
            if a < i && b < i {
                assert(pre[a] == cfg@[a]);
                assert(pre[b] == cfg@[b]);
            } else if a == i {
                assert(prev[b].path == cfg@[b].path);
            } else {
                assert(prev[a].path == cfg@[a].path);
            }
        }
        i = i + 1;
    }
    assert(cfg@.subrange(0, i as int) =~= cfg@);
    Ok(reg)
}

} // verus!
