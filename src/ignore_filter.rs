//! The ignore rules of a working copy, as compiled by the `ignore` crate, and
//! the paths they are held against.

use vstd::prelude::*;

verus! {

/// A compiled set of gitignore rules; opaque to proofs.
#[verifier::external_type_specification]
#[verifier::external_body]
pub struct ExGitignore(ignore::gitignore::Gitignore);

/// A relative path in plain form: it does not start with `/`, holds no
/// empty component (`//`) and no backslash (a separator on some systems).
pub open spec fn is_plain_relative(p: Seq<char>) -> bool {
    &&& (p.len() == 0 || p[0] != '/')
    &&& forall|i: int| 0 <= i < p.len() ==> #[trigger] p[i] != '\\'
    &&& forall|i: int| 0 <= i < p.len() - 1 ==> !(#[trigger] p[i] == '/' && p[i + 1] == '/')
}

/// The part of `path` below the directory `root`, when `path` is
/// `root/rest` with `rest` in plain relative form.
pub open spec fn relative_part(root: Seq<char>, path: Seq<char>) -> Option<Seq<char>> {
    if path.len() > root.len() && path.subrange(0, root.len() as int) == root && path[root.len() as int] == '/'
        && is_plain_relative(path.subrange(root.len() as int + 1, path.len() as int)) {
        Some(path.subrange(root.len() as int + 1, path.len() as int))
    } else {
        None
    }
}

/// The path of `path` relative to the directory `root` (see `relative_part`).
pub fn relative_to(root: &str, path: &str) -> (r: Option<String>)
    ensures
        match r {
            Some(s) => relative_part(root@, path@) == Some(s@),
            None => relative_part(root@, path@) is None,
        },
{
    let n = root.unicode_len();
    let m = path.unicode_len();
    if m <= n {
        return None;
    }
    let mut i: usize = 0;
    while i < n
        invariant
            n == root@.len(),
            m == path@.len(),
            n < m,
            i <= n,
            forall|j: int| 0 <= j < i ==> path@[j] == root@[j],
        decreases n - i,
    {
        if path.get_char(i) != root.get_char(i) {
            assert(path@.subrange(0, n as int)[i as int] != root@[i as int]);
            return None;
        }
        i = i + 1;
    }
    assert(path@.subrange(0, n as int) =~= root@);
    if path.get_char(n) != '/' {
        return None;
    }
    let rest = path.substring_char(n + 1, m);
    let k = rest.unicode_len();
    if k > 0 && rest.get_char(0) == '/' {
        return None;
    }
    let mut j: usize = 0;
    while j < k
        invariant
            n < m,
            m == path@.len(),
            k == rest@.len(),
            rest@ == path@.subrange(n + 1, m as int),
            j <= k,
            n == root@.len(),
            path@.subrange(0, n as int) == root@,
            path@[n as int] == '/',
            forall|a: int| 0 <= a < j ==> #[trigger] rest@[a] != '\\',
            forall|a: int| 0 <= a < j - 1 ==> !(#[trigger] rest@[a] == '/' && rest@[a + 1] == '/'),
        decreases k - j,
    {
        let c = rest.get_char(j);
        if c == '\\' {
            assert(!is_plain_relative(rest@));
            return None;
        }
        if j > 0 && rest.get_char(j - 1) == '/' && c == '/' {
            let ghost w: int = j - 1;
            assert(rest@[w] == '/' && rest@[w + 1] == '/');
            assert(!is_plain_relative(rest@));
            return None;
        }
        j = j + 1;
    }
    Some(rest.to_string())
}

/// Relies on `ignore::gitignore::Gitignore::matched_path_or_any_parents`
/// (read through `Match::is_ignore`): whether the rules exclude `path` or one
/// of its parent directories; `is_dir` tells whether `path` is a directory.
/// That call panics on a path that keeps a root once the rules' root is
/// stripped; a plain relative path never does. Nothing is promised of the
/// answer.
#[verifier::external_body]
pub(crate) fn path_is_ignored(rules: &ignore::gitignore::Gitignore, path: &str, is_dir: bool) -> (r: bool)
    requires
        is_plain_relative(path@),
{
    rules.matched_path_or_any_parents(path, is_dir).is_ignore()
}

} // verus!
