use vstd::prelude::*;
use crate::objects::{
    Commit, CommitView, GitError, Object, ObjectView, opt_view, read_object, stored_object_of,
};
use std::path::Path;

verus! {

/// What `Path::parent` gives for a path: the path without its final
/// component, or nothing for a root, a prefix or the empty path.
pub uninterp spec fn parent_path(p: Seq<char>) -> Option<Seq<char>>;

/// What `Path::join` gives for a base path and a path to adjoin to it.
pub uninterp spec fn joined_path(base: Seq<char>, tail: Seq<char>) -> Seq<char>;

/// Relies on `std::path::Path::parent`: the path without its final
/// component, which is therefore shorter than the path itself.
#[verifier::external_body]
fn parent_dir(p: &str) -> (r: Option<String>)
    ensures
        match r {
            Some(q) => parent_path(p@) == Some(q@) && q@.len() < p@.len(),
            None => parent_path(p@).is_none(),
        },
{
    Path::new(p).parent().map(|q| q.to_string_lossy().into_owned())
}

/// Relies on `std::path::Path::join`: `tail` adjoined to `base`.
#[verifier::external_body]
fn join_path(base: &str, tail: &str) -> (r: String)
    ensures
        r@ == joined_path(base@, tail@),
{
    Path::new(base).join(tail).to_string_lossy().into_owned()
}

/// The name of the directory that marks a repository.
pub open spec fn marker_name() -> Seq<char> {
    seq!['.', 'g', 'i', 't']
}

/// The `k`-th directory above `p`, walking up one parent at a time.
pub open spec fn ancestor(p: Seq<char>, k: nat) -> Option<Seq<char>>
    decreases k,
{
    if k == 0 {
        Some(p)
    } else {
        match ancestor(p, (k - 1) as nat) {
            Some(a) => parent_path(a),
            None => None,
        }
    }
}

/// The marker directory beneath the `k`-th directory above `p`.
pub open spec fn marker_at(p: Seq<char>, k: nat) -> Seq<char> {
    joined_path(ancestor(p, k)->Some_0, marker_name())
}

/// `has_marker` may answer `b` when asked about the marker directory beneath
/// the `k`-th directory above `p`.
pub open spec fn answers<F: Fn(&str) -> bool>(has_marker: F, p: Seq<char>, k: nat, b: bool) -> bool {
    exists|s: &str| s@ == marker_at(p, k) && #[trigger] has_marker.ensures((s,), b)
}

/// The search from `p` ends at the marker directory beneath its `k`-th
/// ancestor: that one was found, none below it was.
pub open spec fn found_at<F: Fn(&str) -> bool>(has_marker: F, p: Seq<char>, k: nat) -> bool {
    &&& ancestor(p, k) is Some
    &&& answers(has_marker, p, k, true)
    &&& forall|j: nat| j < k ==> #[trigger] answers(has_marker, p, j, false)
}

/// The search from `p` reached the top without finding a marker directory.
pub open spec fn found_none<F: Fn(&str) -> bool>(has_marker: F, p: Seq<char>) -> bool {
    exists|k: nat|
        {
            &&& #[trigger] ancestor(p, k) is Some
            &&& ancestor(p, k + 1) is None
            &&& forall|j: nat| j <= k ==> #[trigger] answers(has_marker, p, j, false)
        }
}

/// Starting from `path`, walks up the directory tree and returns the first
/// marker directory found beneath a directory on the way. `has_marker`
/// tells whether a marker directory exists at a given path.
pub fn find_git_directory<F: Fn(&str) -> bool>(path: &str, has_marker: F) -> (r: Option<String>)
    requires
        forall|s: &str| has_marker.requires((s,)),
    ensures
        match r {
            Some(g) => exists|k: nat| found_at(has_marker, path@, k) && g@ == marker_at(path@, k),
            None => found_none(has_marker, path@),
        },
{
    let mut dir = path.to_string();
    let ghost mut k: nat = 0;
    loop
        invariant
            forall|s: &str| has_marker.requires((s,)),
            ancestor(path@, k) == Some(dir@),
            forall|j: nat| j < k ==> #[trigger] answers(has_marker, path@, j, false),
        decreases dir@.len(),
    {
        let candidate = join_path(dir.as_str(), ".git");
        proof {
            reveal_strlit(".git");
            assert(".git"@ =~= marker_name());
        }
        let s = candidate.as_str();
        let present = has_marker(s);
        assert(answers(has_marker, path@, k, present));
        if present {
            return Some(candidate);
        }
        match parent_dir(dir.as_str()) {
            Some(q) => {
                dir = q;
                proof {
                    k = k + 1;
                }
            },
            None => {
                assert(ancestor(path@, k + 1) is None);
                return None;
            },
        }
    }
}


/// A repository, known by its marker directory.
pub struct Repository {
    directory: String,
}

impl View for Repository {
    type V = Seq<char>;

    closed spec fn view(&self) -> Seq<char> {
        self.directory@
    }
}

/// Where the object named `sha` is stored beneath the directory `dir`:
/// `objects`, then the first two characters of the name, then the rest.
pub open spec fn object_path(dir: Seq<char>, sha: Seq<char>) -> Seq<char> {
    joined_path(
        joined_path(joined_path(dir, seq!['o', 'b', 'j', 'e', 'c', 't', 's']), sha.subrange(0, 2)),
        sha.subrange(2, sha.len() as int),
    )
}

/// The object that a stored file gives, or `NotFound` where none is stored.
pub open spec fn lookup_of(sha: Seq<char>, stored: Option<Seq<u8>>) -> Result<ObjectView, GitError> {
    match stored {
        Some(c) => stored_object_of(sha, c),
        None => Err(GitError::NotFound),
    }
}

/// The bytes of an optional buffer.
pub open spec fn bytes_view(o: Option<Vec<u8>>) -> Option<Seq<u8>> {
    match o {
        Some(v) => Some(v@),
        None => None,
    }
}

/// The decoded form of a lookup's outcome.
pub open spec fn object_result(r: Result<Object, GitError>) -> Result<ObjectView, GitError> {
    match r {
        Ok(o) => Ok(o@),
        Err(e) => Err(e),
    }
}

/// The commit that a lookup gives, or why there is none.
pub open spec fn commit_lookup_of(found: Result<ObjectView, GitError>) -> Result<CommitView, GitError> {
    match found {
        Ok(ObjectView::Commit(c)) => Ok(c),
        Ok(_) => Err(GitError::NotACommit),
        Err(e) => Err(e),
    }
}

/// `read` may hand back `got` when asked for the file of the object `sha`.
pub open spec fn reads<F: Fn(&str) -> Option<Vec<u8>>>(
    read: F,
    dir: Seq<char>,
    sha: Seq<char>,
    got: Option<Vec<u8>>,
) -> bool {
    exists|p: &str| p@ == object_path(dir, sha) && #[trigger] read.ensures((p,), got)
}

impl Repository {
    /// Opens the repository whose marker directory is found from `path`
    /// upward; `has_marker` tells whether a marker directory exists.
    pub fn open<F: Fn(&str) -> bool>(path: &str, has_marker: F) -> (r: Result<Repository, GitError>)
        requires
            forall|s: &str| has_marker.requires((s,)),
        ensures
            match r {
                Ok(repo) => exists|k: nat|
                    found_at(has_marker, path@, k) && repo@ == marker_at(path@, k),
                Err(e) => e == GitError::NoRepository && found_none(has_marker, path@),
            },
    {
        match find_git_directory(path, has_marker) {
            Some(directory) => Ok(Repository { directory }),
            None => Err(GitError::NoRepository),
        }
    }

    /// Looks up the object named `sha`. `read` hands back the bytes of the
    /// file at a given path, or nothing where there is no such file.
    pub fn find_object<F: Fn(&str) -> Option<Vec<u8>>>(&self, sha: &str, read: F) -> (r: Result<
        Object,
        GitError,
    >)
        requires
            sha@.len() >= 2,
            forall|p: &str| read.requires((p,)),
        ensures
            exists|got: Option<Vec<u8>>|
                reads(read, self@, sha@, got) && object_result(r) == lookup_of(
                    sha@,
                    bytes_view(got),
                ),
    {
        let objects = join_path(self.directory.as_str(), "objects");
        let prefix = join_path(objects.as_str(), sha.substring_char(0, 2));
        let path = join_path(prefix.as_str(), sha.substring_char(2, sha.unicode_len()));
        proof {
            reveal_strlit("objects");
            assert("objects"@ =~= seq!['o', 'b', 'j', 'e', 'c', 't', 's']);
        }
        let got = read(path.as_str());
        assert(reads(read, self@, sha@, got));
        match got {
            Some(bytes) => read_object(sha, bytes.as_slice()),
            None => Err(GitError::NotFound),
        }
    }

    /// Looks up the object named `sha` and fails unless it is a commit.
    pub fn find_commit<F: Fn(&str) -> Option<Vec<u8>>>(&self, sha: &str, read: F) -> (r: Result<
        Commit,
        GitError,
    >)
        requires
            sha@.len() >= 2,
            forall|p: &str| read.requires((p,)),
        ensures
            exists|got: Option<Vec<u8>>|
                reads(read, self@, sha@, got) && commit_result(r) == commit_lookup_of(
                    lookup_of(sha@, bytes_view(got)),
                ),
    {
        match self.find_object(sha, read) {
            Ok(Object::Commit(c)) => Ok(c),
            Ok(_) => Err(GitError::NotACommit),
            Err(e) => Err(e),
        }
    }

    /// One step of the history walk: looks up the commit `sha`, appends it to
    /// `history`, and hands back its parent, where the walk goes on; `None`
    /// where the commit has no parent and the walk is over.
    pub fn log_step<F: Fn(&str) -> Option<Vec<u8>>>(
        &self,
        history: &mut Vec<Commit>,
        sha: &str,
        read: F,
    ) -> (r: Result<Option<String>, GitError>)
        requires
            sha@.len() >= 2,
            forall|p: &str| read.requires((p,)),
        ensures
            exists|got: Option<Vec<u8>>|
                #![trigger reads(read, self@, sha@, got)]
                reads(read, self@, sha@, got) && match commit_lookup_of(
                    lookup_of(sha@, bytes_view(got)),
                ) {
                    Ok(c) => r matches Ok(next) && opt_view(next) == c.parent && commit_views(
                        final(history)@,
                    ) == commit_views(old(history)@).push(c),
                    Err(e) => r == Err::<Option<String>, GitError>(e) && final(history)@ == old(
                        history,
                    )@,
                },
    {
        let commit = self.find_commit(sha, read)?;
        let next = match &commit.parent {
            Some(p) => Some(p.clone()),
            None => None,
        };
        history.push(commit);
        proof {
            assert(commit_views(history@) =~= commit_views(old(history)@).push(commit@));
        }
        Ok(next)
    }
}

/// The decoded fields of each commit, in order.
pub open spec fn commit_views(v: Seq<Commit>) -> Seq<CommitView> {
    v.map_values(|c: Commit| c@)
}

/// The history from the commit `sha` down to a commit without parent, in
/// that order, as far as `n` steps reach; the objects are those that `store`
/// gives for each path beneath `dir`. It fails with the first lookup that
/// gives no commit.
pub open spec fn history_of(
    dir: Seq<char>,
    store: spec_fn(Seq<char>) -> Option<Seq<u8>>,
    sha: Seq<char>,
    n: nat,
) -> Option<Result<Seq<CommitView>, GitError>>
    decreases n,
{
    if n == 0 {
        None
    } else {
        match commit_lookup_of(lookup_of(sha, store(object_path(dir, sha)))) {
            Err(e) => Some(Err(e)),
            Ok(c) => match c.parent {
                None => Some(Ok(seq![c])),
                Some(p) => match history_of(dir, store, p, (n - 1) as nat) {
                    None => None,
                    Some(Err(e)) => Some(Err(e)),
                    Some(Ok(h)) => Some(Ok(seq![c] + h)),
                },
            },
        }
    }
}

/// The history that follows from a commit: the commit itself, then what the
/// walk from its parent gives.
pub open spec fn prepend(
    c: CommitView,
    rest: Option<Result<Seq<CommitView>, GitError>>,
) -> Option<Result<Seq<CommitView>, GitError>> {
    match rest {
        None => None,
        Some(Err(e)) => Some(Err(e)),
        Some(Ok(h)) => Some(Ok(seq![c] + h)),
    }
}

/// Each step of `log_step` is one step of the history: where the lookup of
/// `sha` gives commit `c` with parent `p`, as `log_step` reports it, the
/// history from `sha` is `c` followed by the history from `p`; where `c` has
/// no parent it is `c` alone; where the lookup fails, the history fails
/// the same way.
pub proof fn history_step(
    dir: Seq<char>,
    store: spec_fn(Seq<char>) -> Option<Seq<u8>>,
    sha: Seq<char>,
    n: nat,
)
    ensures
        match commit_lookup_of(lookup_of(sha, store(object_path(dir, sha)))) {
            Err(e) => history_of(dir, store, sha, n + 1) == Some(
                Err::<Seq<CommitView>, GitError>(e),
            ),
            Ok(c) => match c.parent {
                Some(p) => history_of(dir, store, sha, n + 1) == prepend(
                    c,
                    history_of(dir, store, p, n),
                ),
                None => history_of(dir, store, sha, n + 1) == Some(
                    Ok::<Seq<CommitView>, GitError>(seq![c]),
                ),
            },
        },
{
}

/// The history walk follows the parent chain in order: from a commit whose
/// parent is a second commit, whose parent is a third commit without parent,
/// the history is exactly those three commits, newest first.
pub proof fn history_follows_chain(
    dir: Seq<char>,
    store: spec_fn(Seq<char>) -> Option<Seq<u8>>,
    start: Seq<char>,
    c0: CommitView,
    c1: CommitView,
    c2: CommitView,
)
    requires
        commit_lookup_of(lookup_of(start, store(object_path(dir, start)))) == Ok::<
            CommitView,
            GitError,
        >(c0),
        c0.parent matches Some(p1) && commit_lookup_of(lookup_of(p1, store(object_path(dir, p1))))
            == Ok::<CommitView, GitError>(c1),
        c1.parent matches Some(p2) && commit_lookup_of(lookup_of(p2, store(object_path(dir, p2))))
            == Ok::<CommitView, GitError>(c2),
        c2.parent is None,
    ensures
        history_of(dir, store, start, 3) == Some(
            Ok::<Seq<CommitView>, GitError>(seq![c0, c1, c2]),
        ),
{
    let p1 = c0.parent->Some_0;
    let p2 = c1.parent->Some_0;
    assert(history_of(dir, store, p2, 1) == Some(Ok::<Seq<CommitView>, GitError>(seq![c2])));
    assert(history_of(dir, store, p1, 2) == Some(
        Ok::<Seq<CommitView>, GitError>(seq![c1] + seq![c2]),
    ));
    assert(seq![c0] + (seq![c1] + seq![c2]) =~= seq![c0, c1, c2]);
}

/// A history walk that starts at an object which is not a commit fails with
/// `NotACommit` and yields no commit at all.
pub proof fn history_rejects_non_commit(
    dir: Seq<char>,
    store: spec_fn(Seq<char>) -> Option<Seq<u8>>,
    start: Seq<char>,
    n: nat,
)
    requires
        n > 0,
        lookup_of(start, store(object_path(dir, start))) matches Ok(o) && !(o is Commit),
    ensures
        history_of(dir, store, start, n) == Some(
            Err::<Seq<CommitView>, GitError>(GitError::NotACommit),
        ),
{
}

/// The decoded form of a commit lookup's outcome.
pub open spec fn commit_result(r: Result<Commit, GitError>) -> Result<CommitView, GitError> {
    match r {
        Ok(c) => Ok(c@),
        Err(e) => Err(e),
    }
}

} // verus!
