//! The list of watched repositories, and the edits that add or remove entries.

use vstd::prelude::*;

verus! {

/// One watched repository as it is kept in the configuration.
pub struct RepositoryConfig {
    /// Canonical absolute path of the working copy.
    pub path: String,
    /// Quiet period, in seconds, after the last change before a commit.
    pub debounce_time: u64,
    /// Commit message template; a timestamp is appended when committing.
    pub commit_msg: String,
}

/// The mathematical value of a `RepositoryConfig`.
pub struct RepositoryConfigView {
    pub path: Seq<char>,
    pub debounce_time: u64,
    pub commit_msg: Seq<char>,
}

impl View for RepositoryConfig {
    type V = RepositoryConfigView;

    open spec fn view(&self) -> RepositoryConfigView {
        RepositoryConfigView {
            path: self.path@,
            debounce_time: self.debounce_time,
            commit_msg: self.commit_msg@,
        }
    }
}

impl RepositoryConfig {
    pub fn new(path: &str, debounce_time: u64, msg: &str) -> (r: Self)
        ensures
            r@ == (RepositoryConfigView { path: path@, debounce_time, commit_msg: msg@ }),
    {
        RepositoryConfig { path: path.to_string(), debounce_time, commit_msg: msg.to_string() }
    }
}


/// All watched repositories.
pub struct Configuration {
    pub repositories: Vec<RepositoryConfig>,
}

impl View for Configuration {
    type V = Seq<RepositoryConfigView>;

    open spec fn view(&self) -> Seq<RepositoryConfigView> {
        self.repositories@.map_values(|r: RepositoryConfig| r@)
    }
}

impl Configuration {
    /// A configuration that watches nothing.
    pub fn empty() -> (r: Self)
        ensures
            r@ == Seq::<RepositoryConfigView>::empty(),
    {
        let r = Configuration { repositories: Vec::new() };
        assert(r@ =~= Seq::<RepositoryConfigView>::empty());
        r
    }
}

/// Why an edit of the configuration was refused. `index` is the position, in
/// the list of paths handed in, of the path that was refused.
#[derive(Clone, Copy, Debug, PartialEq, Eq, Structural)]
pub enum ConfigError {
    /// The path holds no `.git` directory.
    NotARepository { index: usize },
    /// The path is watched already.
    AlreadyWatched { index: usize },
    /// The path is not in the configuration.
    NotWatched { index: usize },
}

/// `p` is the path of some entry of `repos`.
pub open spec fn is_watched(repos: Seq<RepositoryConfigView>, p: Seq<char>) -> bool {
    exists|k: int| 0 <= k < repos.len() && repos[k].path == p
}

/// `k` is the first entry of `repos` whose path is `p`.
pub open spec fn first_entry_at(repos: Seq<RepositoryConfigView>, p: Seq<char>, k: int) -> bool {
    &&& 0 <= k < repos.len()
    &&& repos[k].path == p
    &&& forall|j: int| 0 <= j < k ==> repos[j].path != p
}

/// The outcome of adding `paths[i..]`, in order, to `repos`: a path that is no
/// repository or that is watched already (possibly by an entry added earlier in
/// the same list) refuses the whole edit.
pub open spec fn add_outcome(
    repos: Seq<RepositoryConfigView>,
    paths: Seq<Seq<char>>,
    is_repo: Seq<bool>,
    debounce_time: u64,
    msg: Seq<char>,
    i: int,
) -> Result<Seq<RepositoryConfigView>, ConfigError>
    decreases paths.len() - i,
{
    if i < 0 || i >= paths.len() {
        Ok(repos)
    } else if !is_repo[i] {
        Err(ConfigError::NotARepository { index: i as usize })
    } else if is_watched(repos, paths[i]) {
        Err(ConfigError::AlreadyWatched { index: i as usize })
    } else {
        add_outcome(
            repos.push(RepositoryConfigView { path: paths[i], debounce_time, commit_msg: msg }),
            paths,
            is_repo,
            debounce_time,
            msg,
            i + 1,
        )
    }
}

/// The outcome of removing `paths[i..]`, in order, from `repos`: each removes
/// the first entry with that path; a path that is not watched refuses the
/// whole edit.
pub open spec fn remove_outcome(repos: Seq<RepositoryConfigView>, paths: Seq<Seq<char>>, i: int) -> Result<
    Seq<RepositoryConfigView>,
    ConfigError,
>
    decreases paths.len() - i,
{
    if i < 0 || i >= paths.len() {
        Ok(repos)
    } else if !is_watched(repos, paths[i]) {
        Err(ConfigError::NotWatched { index: i as usize })
    } else {
        let k = choose|k: int| first_entry_at(repos, paths[i], k);
        remove_outcome(repos.remove(k), paths, i + 1)
    }
}

/// The views of a list of strings.
pub open spec fn views_of(v: Seq<String>) -> Seq<Seq<char>> {
    v.map_values(|s: String| s@)
}

/// The same `Result` with the configuration replaced by its view.
pub open spec fn outcome_view(r: Result<Configuration, ConfigError>) -> Result<
    Seq<RepositoryConfigView>,
    ConfigError,
> {
    match r {
        Ok(c) => Ok(c@),
        Err(e) => Err(e),
    }
}

/// Finds the first entry of `repos` whose path is `p`.
fn find_repo(repos: &Vec<RepositoryConfig>, p: &String) -> (r: Option<usize>)
    ensures
        match r {
            Some(k) => first_entry_at(repos@.map_values(|c: RepositoryConfig| c@), p@, k as int),
            None => !is_watched(repos@.map_values(|c: RepositoryConfig| c@), p@),
        },
{
    let ghost view = repos@.map_values(|c: RepositoryConfig| c@);
    let mut j: usize = 0;
    while j < repos.len()
        invariant
            j <= repos.len(),
            view == repos@.map_values(|c: RepositoryConfig| c@),
            forall|m: int| 0 <= m < j ==> view[m].path != p@,
        decreases repos.len() - j,
    {
        if repos[j].path == *p {
            return Some(j);
        }
        j = j + 1;
    }
    None
}

/// Adds each of `path` to the configuration, with the given debounce time
/// and message. `is_repo[i]` tells whether `path[i]` is a working copy. The
/// edit is all or nothing: the first refused path ends it with an error.
pub fn add_repo(cfg: Configuration, path: &Vec<String>, is_repo: &Vec<bool>, debounce_time: u64, msg: &str) -> (r: Result<
    Configuration,
    ConfigError,
>)
    requires
        is_repo@.len() == path@.len(),
    ensures
        outcome_view(r) == add_outcome(cfg@, views_of(path@), is_repo@, debounce_time, msg@, 0),
{
    let ghost start = cfg@;
    let mut current = cfg;
    let mut i: usize = 0;
    while i < path.len()
        invariant
            i <= path@.len(),
            is_repo@.len() == path@.len(),
            start == cfg@,
            add_outcome(current@, views_of(path@), is_repo@, debounce_time, msg@, i as int) == add_outcome(
                start,
                views_of(path@),
                is_repo@,
                debounce_time,
                msg@,
                0,
            ),
        decreases path@.len() - i,
    {
        assert(views_of(path@)[i as int] == path@[i as int]@);
        if !is_repo[i] {
            return Err(ConfigError::NotARepository { index: i });
        }
        if find_repo(&current.repositories, &path[i]).is_some() {
            return Err(ConfigError::AlreadyWatched { index: i });
        }
        let ghost prev = current@;
        let entry = RepositoryConfig::new(path[i].as_str(), debounce_time, msg);
        let ghost added = entry@;
        current.repositories.push(entry);
        assert(current@ =~= prev.push(added));
        i = i + 1;
    }
    Ok(current)
}

/// There is at most one first entry with a given path.
proof fn lemma_first_entry_unique(repos: Seq<RepositoryConfigView>, p: Seq<char>, k1: int, k2: int)
    requires
        first_entry_at(repos, p, k1),
        first_entry_at(repos, p, k2),
    ensures
        k1 == k2,
{
}

/// Removes each of `path` from the configuration. The edit is all or
/// nothing: a path that is not watched ends it with an error.
pub fn remove_repo(cfg: Configuration, path: &Vec<String>) -> (r: Result<Configuration, ConfigError>)
    ensures
        outcome_view(r) == remove_outcome(cfg@, views_of(path@), 0),
{
    let ghost start = cfg@;
    let mut current = cfg;
    let mut i: usize = 0;
    while i < path.len()
        invariant
            i <= path@.len(),
            start == cfg@,
            remove_outcome(current@, views_of(path@), i as int) == remove_outcome(start, views_of(path@), 0),
        decreases path@.len() - i,
    {
        assert(views_of(path@)[i as int] == path@[i as int]@);
        match find_repo(&current.repositories, &path[i]) {
            None => {
                return Err(ConfigError::NotWatched { index: i });
            },
            Some(k) => {
                let ghost prev = current@;
                proof {
                    let c = choose|c: int| first_entry_at(prev, path@[i as int]@, c);
                    lemma_first_entry_unique(prev, path@[i as int]@, c, k as int);
                }
                current.repositories.remove(k);
                assert(current@ =~= prev.remove(k as int));
            },
        }
        i = i + 1;
    }
    Ok(current)
}

} // verus!
