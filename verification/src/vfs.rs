//! Virtual file system: Paradox games look a file up in the mod first, then in the
//! DLCs, then in the game itself.
//!
//! The file system itself is reached by the caller; this module holds the search
//! order, the choice among the places where a file was found, and the check that a
//! relative path cannot leave its base directory.
use vstd::prelude::*;
use std::path::PathBuf;
use crate::text::has_char;

verus! {

/// `std::path::PathBuf`, carried through as it is.
#[verifier::external_type_specification]
#[verifier::external_body]
pub struct ExPathBuf(PathBuf);

/// One component of a path, as `std::path::Path::components` reads it.
#[derive(Debug, Clone, Copy, PartialEq, Eq, Structural)]
pub enum PathPart {
    /// A Windows drive or share prefix.
    Prefix,
    /// The root `/`.
    RootDir,
    /// `.`
    CurDir,
    /// `..`
    ParentDir,
    /// Any other name.
    Normal,
}

/// Whether a path with these components is relative and stays below its base:
/// it is not absolute and has no `..`, root or prefix component.
pub open spec fn safe_parts(is_absolute: bool, parts: Seq<PathPart>) -> bool {
    &&& !is_absolute
    &&& forall|i: int| 0 <= i < parts.len() ==> {
        let p = #[trigger] parts[i];
        p != PathPart::ParentDir && p != PathPart::RootDir && p != PathPart::Prefix
    }
}

/// Whether `s` is a plain relative path on every platform: no backslash, no `:` (so
/// no Windows prefix), no leading `/` (so no root) and no `..` segment.
pub open spec fn plain_relative(s: Seq<char>) -> bool {
    &&& !has_char(s, '\\')
    &&& !has_char(s, ':')
    &&& !(s.len() > 0 && s[0] == '/')
    &&& !has_parent_segment(s)
}

/// Whether `path` is absolute; calls `std::path::Path::is_absolute`. Claimed, as the
/// standard library documents it (absolute takes a root on Unix, a prefix on
/// Windows): a plain relative path is not absolute. The rest the platform's path
/// rules decide.
#[verifier::external_body]
fn path_is_absolute(path: &str) -> (r: bool)
    ensures
        plain_relative(path@) ==> !r,
{
    std::path::Path::new(path).is_absolute()
}

/// Whether `s` has a `..` segment: `..` with a `/` or an end of the text on each side.
pub open spec fn has_parent_segment(s: Seq<char>) -> bool {
    exists|i: int|
        0 <= i && i + 2 <= s.len() && #[trigger] s[i] == '.' && s[i + 1] == '.' && (i == 0 || s[i - 1] == '/') && (
        i + 2 == s.len() || s[i + 2] == '/')
}

/// Whether `s` holds the text `..` anywhere.
pub open spec fn contains_dotdot(s: Seq<char>) -> bool {
    exists|i: int| 0 <= i && i + 1 < s.len() && #[trigger] s[i] == '.' && s[i + 1] == '.'
}

/// Whether the text `path` holds `..` anywhere.
pub fn text_contains_dotdot(path: &str) -> (r: bool)
    ensures
        r == contains_dotdot(path@),
{
    let cs = crate::text::chars_of(path);
    let n = cs.len();
    let mut i: usize = 0;
    while i < n && i + 1 < n
        invariant
            n == cs@.len(),
            i <= n,
            cs@ == path@,
            forall|j: int| 0 <= j < i && j + 1 < n ==> !(#[trigger] cs@[j] == '.' && cs@[j + 1] == '.'),
        decreases n - i,
    {
        if cs[i] == '.' && cs[i + 1] == '.' {
            return true;
        }
        i = i + 1;
    }
    proof {
        if contains_dotdot(path@) {
            let j = choose|j: int| 0 <= j && j + 1 < path@.len() && #[trigger] path@[j] == '.' && path@[j + 1] == '.';
            assert(cs@[j] == '.');
        }
    }
    false
}

/// Whether the path `path` has a `..` component, as the platform's path rules read it.
/// A path whose text holds no `..` has none; a path that [`climbs_up`] has one.
pub fn has_parent_component(path: &str) -> (r: bool)
    ensures
        !contains_dotdot(path@) ==> !r,
        climbs_up(path@) ==> r,
{
    let parts = path_parts(path);
    let n = parts.len();
    for i in 0..n
        invariant
            n == parts@.len(),
            !contains_dotdot(path@) ==> !parts@.contains(PathPart::ParentDir),
            forall|j: int| 0 <= j < i ==> parts@[j] != PathPart::ParentDir,
    {
        if parts[i] == PathPart::ParentDir {
            assert(parts@.contains(PathPart::ParentDir)) by {
                assert(parts@[i as int] == PathPart::ParentDir);
            }
            return true;
        }
    }
    proof {
        if climbs_up(path@) {
            let j = choose|j: int| 0 <= j < parts@.len() && parts@[j] == PathPart::ParentDir;
            assert(parts@[j] == PathPart::ParentDir);
        }
    }
    false
}

/// Whether `s` starts with two `/` (on Windows, the start of a share prefix).
pub open spec fn starts_with_two_slashes(s: Seq<char>) -> bool {
    s.len() > 1 && s[0] == '/' && s[1] == '/'
}

/// Whether `s` starts with one `/` (not two).
pub open spec fn starts_at_root(s: Seq<char>) -> bool {
    s.len() > 0 && s[0] == '/' && !starts_with_two_slashes(s)
}

/// Whether `s` has no backslash and a `..` segment that no share prefix can take in:
/// it does not start with two `/`.
pub open spec fn climbs_up(s: Seq<char>) -> bool {
    !has_char(s, '\\') && !starts_with_two_slashes(s) && has_parent_segment(s)
}

/// Whether `s` is, on every platform, a path that could leave its base directory: it
/// has no backslash and starts with a single `/`, or it has a `..` segment (see
/// [`climbs_up`]).
pub open spec fn escapes(s: Seq<char>) -> bool {
    (!has_char(s, '\\') && starts_at_root(s)) || climbs_up(s)
}

/// The components of `path`; calls `std::path::Path::components`, and names each
/// component's kind. Claimed, as the standard library documents the components, of a
/// path without a backslash: one that starts with a single `/` starts with a root
/// component; when it does not start with two `/` (on Windows two separators begin a
/// share prefix, which takes the next names in, `..` too), a `..` segment is a parent
/// component; a plain relative path has no prefix, root or parent component; and a
/// parent component is read from the text `..` only, so a path without it has none.
/// The rest the platform's path rules decide.
#[verifier::external_body]
fn path_parts(path: &str) -> (parts: Vec<PathPart>)
    ensures
        plain_relative(path@) ==> forall|i: int| 0 <= i < parts@.len() ==> {
            let p = #[trigger] parts@[i];
            p != PathPart::ParentDir && p != PathPart::RootDir && p != PathPart::Prefix
        },
        !has_char(path@, '\\') && starts_at_root(path@) ==> parts@.len() > 0 && parts@[0] == PathPart::RootDir,
        climbs_up(path@) ==> parts@.contains(PathPart::ParentDir),
        !contains_dotdot(path@) ==> !parts@.contains(PathPart::ParentDir),
{
    std::path::Path::new(path).components().map(|c| match c {
        std::path::Component::Prefix(_) => PathPart::Prefix,
        std::path::Component::RootDir => PathPart::RootDir,
        std::path::Component::CurDir => PathPart::CurDir,
        std::path::Component::ParentDir => PathPart::ParentDir,
        std::path::Component::Normal(_) => PathPart::Normal,
    }).collect()
}

/// Whether a path with these components is safe to join to a base directory.
pub fn parts_are_safe(is_absolute: bool, parts: &[PathPart]) -> (r: bool)
    ensures
        r == safe_parts(is_absolute, parts@),
{
    if is_absolute {
        return false;
    }
    let n = parts.len();
    for i in 0..n
        invariant
            n == parts@.len(),
            forall|j: int| 0 <= j < i ==> {
                let p = #[trigger] parts@[j];
                p != PathPart::ParentDir && p != PathPart::RootDir && p != PathPart::Prefix
            },
    {
        let p = parts[i];
        match p {
            PathPart::ParentDir | PathPart::RootDir | PathPart::Prefix => {
                return false;
            },
            _ => {},
        }
    }
    true
}

/// Whether the relative path `path` cannot leave the directory it is joined to
/// (guarding against path traversal): it is not absolute and has no `..`, root or
/// prefix component, as the platform's path rules read it. In particular a path that
/// [`escapes`] is refused, and a plain relative path is accepted.
pub fn is_safe_relative_path(path: &str) -> (r: bool)
    ensures
        plain_relative(path@) ==> r,
        escapes(path@) ==> !r,
{
    let absolute = path_is_absolute(path);
    let parts = path_parts(path);
    let r = parts_are_safe(absolute, parts.as_slice());
    proof {
        if climbs_up(path@) {
            let i = choose|i: int| 0 <= i < parts@.len() && parts@[i] == PathPart::ParentDir;
            assert(parts@[i] == PathPart::ParentDir);
        }
        if !has_char(path@, '\\') && starts_at_root(path@) {
            assert(parts@[0] == PathPart::RootDir);
        }
    }
    r
}

/// Why a file could not be resolved.
#[derive(Debug, Clone, PartialEq, Eq)]
pub enum ResolveError {
    /// No search path holds the file (or the path is not a safe relative path).
    NotFound { relative_path: String },
}

/// The position of the first `Some` in `found`, if any.
pub open spec fn first_found(found: Seq<Option<PathBuf>>) -> Option<int> {
    if exists|i: int| 0 <= i < found.len() && found[i] is Some && forall|j: int| 0 <= j < i ==> found[j] is None {
        Some(choose|i: int| 0 <= i < found.len() && found[i] is Some && forall|j: int| 0 <= j < i ==> found[j] is None)
    } else {
        None
    }
}

/// The search order of a Paradox game: the first search path holding a file wins.
#[derive(Debug, Clone)]
pub struct ParadoxPathResolver {
    /// Search paths, the most preferred first (mod, DLCs, game).
    search_paths: Vec<PathBuf>,
}

impl ParadoxPathResolver {
    /// The search paths, the most preferred first.
    pub closed spec fn paths(&self) -> Seq<PathBuf> {
        self.search_paths@
    }

    /// A resolver with the given search paths, the most preferred first.
    pub fn new(search_paths: Vec<PathBuf>) -> (r: Self)
        ensures
            r.paths() == search_paths@,
    {
        ParadoxPathResolver { search_paths }
    }

    /// A resolver that looks only in the game directory.
    pub fn vanilla_only(game_dir: PathBuf) -> (r: Self)
        ensures
            r.paths() == seq![game_dir],
    {
        ParadoxPathResolver { search_paths: vec![game_dir] }
    }

    /// A resolver that looks in the mod directory first, then in the game directory.
    pub fn with_mod(mod_dir: PathBuf, game_dir: PathBuf) -> (r: Self)
        ensures
            r.paths() == seq![mod_dir, game_dir],
    {
        ParadoxPathResolver { search_paths: vec![mod_dir, game_dir] }
    }

    /// The search paths, the most preferred first.
    pub fn search_paths(&self) -> (r: &[PathBuf])
        ensures
            r@ == self.paths(),
    {
        self.search_paths.as_slice()
    }

    /// Chooses among the places where a file was found: `found[i]` is the file's
    /// path under search path `i`, when it is there; the most preferred one wins.
    pub fn pick_resolved(&self, found: Vec<Option<PathBuf>>) -> (r: Option<PathBuf>)
        ensures
            match first_found(found@) {
                Some(i) => r == found@[i],
                None => r is None && forall|j: int| 0 <= j < found@.len() ==> found@[j] is None,
            },
    {
        let ghost all = found@;
        let mut candidates = found;
        let n = candidates.len();
        let mut i: usize = 0;
        while i < n
            invariant
                n == all.len(),
                all == found@,
                i <= n,
                candidates@ == all,
                forall|j: int| 0 <= j < i ==> all[j] is None,
            decreases n - i,
        {
            if candidates[i].is_some() {
                let ghost k = i as int;
                assert(all[k] is Some && forall|j: int| 0 <= j < k ==> all[j] is None);
                proof {
                    let c = choose|c: int| 0 <= c < all.len() && all[c] is Some && forall|j: int| 0 <= j < c ==> all[j] is None;
                    if c < k {
                        assert(all[c] is None);
                    }
                    if k < c {
                        assert(all[k] is None);
                    }
                    assert(first_found(all) == Some(k));
                }
                let p = candidates.swap_remove(i);
                assert(p == all[k]);
                return p;
            }
            i = i + 1;
        }
        None
    }

    /// The file `relative_path` under the most preferred search path that holds it:
    /// `found[i]` is its path under search path `i`, when it is there. `None` when no
    /// search path holds it, and when the path could leave its base directory.
    pub fn resolve(&self, relative_path: &str, found: Vec<Option<PathBuf>>) -> (r: Option<PathBuf>)
        ensures
            r is Some ==> (first_found(found@) matches Some(i) && r == found@[i]),
            first_found(found@) is None ==> r is None,
            plain_relative(relative_path@) ==> (first_found(found@) matches Some(i) ==> r == found@[i]),
            escapes(relative_path@) ==> r is None,
    {
        if !is_safe_relative_path(relative_path) {
            return None;
        }
        self.pick_resolved(found)
    }

    /// Like [`Self::resolve`], with an error naming the file when it is not resolved.
    pub fn resolve_required(&self, relative_path: &str, found: Vec<Option<PathBuf>>) -> (r: Result<PathBuf, ResolveError>)
        ensures
            r matches Ok(p) ==> (first_found(found@) matches Some(i) && Some(p) == found@[i]),
            r matches Err(ResolveError::NotFound { relative_path: p }) ==> p@ == relative_path@,
            first_found(found@) is None ==> r is Err,
            plain_relative(relative_path@) ==> (first_found(found@) matches Some(i) ==> (r matches Ok(p) && Some(p) == found@[i])),
            escapes(relative_path@) ==> r is Err,
    {
        match self.resolve(relative_path, found) {
            Some(p) => Ok(p),
            None => Err(ResolveError::NotFound { relative_path: relative_path.to_owned() }),
        }
    }

    /// Every place where the file `relative_path` was found, the most preferred first:
    /// the paths of `found` that are there, in order. None when the path could leave
    /// its base directory.
    pub fn resolve_all(&self, relative_path: &str, found: Vec<Option<PathBuf>>) -> (r: Vec<PathBuf>)
        ensures
            r@ == found_paths(found@) || r@.len() == 0,
            plain_relative(relative_path@) ==> r@ == found_paths(found@),
            escapes(relative_path@) ==> r@.len() == 0,
    {
        if !is_safe_relative_path(relative_path) {
            return Vec::new();
        }
        collect_found(found)
    }
}

/// The paths of `found` that are there, in order.
pub open spec fn found_paths(found: Seq<Option<PathBuf>>) -> Seq<PathBuf>
    decreases found.len(),
{
    if found.len() == 0 {
        Seq::empty()
    } else {
        let rest = found_paths(found.drop_last());
        match found.last() {
            Some(p) => rest.push(p),
            None => rest,
        }
    }
}

/// The paths of `found` that are there, in order.
pub fn collect_found(found: Vec<Option<PathBuf>>) -> (r: Vec<PathBuf>)
    ensures
        r@ == found_paths(found@),
{
    let ghost all = found@;
    let mut out: Vec<PathBuf> = Vec::new();
    let mut rest = found;
    let n = rest.len();
    let mut k: usize = 0;
    while k < n
        invariant
            n == all.len(),
            k <= n,
            rest@ == all.skip(k as int),
            out@ == found_paths(all.take(k as int)),
        decreases n - k,
    {
        let item = rest.remove(0);
        assert(item == all[k as int]);
        assert(all.skip(k + 1) =~= all.skip(k as int).drop_first());
        assert(all.take(k + 1).drop_last() =~= all.take(k as int));
        match item {
            Some(p) => {
                out.push(p);
            },
            None => {},
        }
        k = k + 1;
    }
    assert(all.take(n as int) =~= all);
    out
}

/// A file found under a more preferred search path hides the same file under a less
/// preferred one (a mod overrides the game).
pub proof fn law_preferred_path_wins(found: Seq<Option<PathBuf>>, i: int)
    requires
        0 <= i < found.len(),
        found[i] is Some,
        forall|j: int| 0 <= j < i ==> found[j] is None,
    ensures
        first_found(found) == Some(i),
{
    let c = choose|c: int| 0 <= c < found.len() && found[c] is Some && forall|j: int| 0 <= j < c ==> found[j] is None;
    if c < i {
        assert(found[c] is None);
    }
    if i < c {
        assert(found[i] is None);
    }
}

} // verus!
