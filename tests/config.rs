use git_afk::config::{add_repo, remove_repo, ConfigError, Configuration, RepositoryConfig};

fn paths(c: &Configuration) -> Vec<String> {
    c.repositories.iter().map(|r| r.path.clone()).collect()
}

fn strings(v: &[&str]) -> Vec<String> {
    v.iter().map(|s| s.to_string()).collect()
}

#[test]
fn new_repository_config_keeps_fields() {
    let c = RepositoryConfig::new("/home/u/r", 360, "Autocommited by git_afk");
    assert_eq!(c.path, "/home/u/r");
    assert_eq!(c.debounce_time, 360);
    assert_eq!(c.commit_msg, "Autocommited by git_afk");
}

#[test]
fn add_appends_in_order() {
    let c = add_repo(Configuration::empty(), &strings(&["/a", "/b"]), &vec![true, true], 30, "m").unwrap();
    assert_eq!(paths(&c), strings(&["/a", "/b"]));
    assert_eq!(c.repositories[1].debounce_time, 30);
    assert_eq!(c.repositories[1].commit_msg, "m");
}

#[test]
fn add_refuses_non_repository() {
    let r = add_repo(Configuration::empty(), &strings(&["/a", "/b"]), &vec![true, false], 30, "m");
    assert!(matches!(r, Err(ConfigError::NotARepository { index: 1 })));
}

#[test]
fn add_refuses_watched_path() {
    let c = add_repo(Configuration::empty(), &strings(&["/a"]), &vec![true], 30, "m").unwrap();
    let r = add_repo(c, &strings(&["/b", "/a"]), &vec![true, true], 30, "m");
    assert!(matches!(r, Err(ConfigError::AlreadyWatched { index: 1 })));
}

#[test]
fn add_refuses_path_repeated_in_one_call() {
    let r = add_repo(Configuration::empty(), &strings(&["/a", "/a"]), &vec![true, true], 30, "m");
    assert!(matches!(r, Err(ConfigError::AlreadyWatched { index: 1 })));
}

#[test]
fn remove_drops_entries() {
    let c = add_repo(Configuration::empty(), &strings(&["/a", "/b", "/c"]), &vec![true; 3], 30, "m").unwrap();
    let c = remove_repo(c, &strings(&["/b", "/a"])).unwrap();
    assert_eq!(paths(&c), strings(&["/c"]));
}

#[test]
fn remove_refuses_unknown_path() {
    let c = add_repo(Configuration::empty(), &strings(&["/a"]), &vec![true], 30, "m").unwrap();
    let r = remove_repo(c, &strings(&["/a", "/a"]));
    assert!(matches!(r, Err(ConfigError::NotWatched { index: 1 })));
}
