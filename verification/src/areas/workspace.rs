//! The working tree: the user's files beside the repository directory.
//!
//! Reading, writing and listing files is left to the caller; the workspace
//! decides which paths it ignores and turns file contents into blobs.
use crate::artifacts::index::entry_mode::FileMode;
use crate::artifacts::index::index_entry::IndexEntryError;
use crate::artifacts::log::path_filter::{components_of, path_components};
use crate::artifacts::objects::blob::Blob;
use crate::text::str_eq;
use vstd::prelude::*;

verus! {

/// Errors of the working tree.
#[derive(Debug)]
pub enum WorkspaceError {
    /// The metadata of a file could not be read into an index entry.
    IndexEntry(IndexEntryError),
    /// `path does not exist: {0}`.
    PathNotFound(String),
    /// `path is not a directory: {0}`.
    NotADirectory(String),
    /// `invalid action type`.
    InvalidActionType,
    /// `invalid action and entry combination`.
    InvalidActionEntry,
    /// `{operation} failed for {path}`, with the reason.
    FileOperation {
        /// The operation that failed.
        operation: String,
        /// The path it failed for.
        path: String,
        /// Why it failed.
        reason: String,
    },
    /// An input or output error, with its message.
    Io(String),
    /// Another error, with its message.
    Internal(String),
}

/// Whether a component of a path is a name (`Component::Normal`), not the
/// root, `.` or `..`.
pub open spec fn is_normal_component(c: Seq<char>) -> bool {
    c != seq!['/'] && c != seq!['.'] && c != seq!['.', '.']
}

/// The names that are never part of the working tree: `.git`, `.`, `..`.
pub open spec fn is_ignored_name(c: Seq<char>) -> bool {
    c == seq!['.', 'g', 'i', 't'] || c == seq!['.'] || c == seq!['.', '.']
}

/// Whether some name in a path is one of the ignored names.
pub open spec fn is_ignored_path(path: Seq<char>) -> bool {
    exists|i: int|
        0 <= i < path_components(path).len() && is_normal_component(
            #[trigger] path_components(path)[i],
        ) && is_ignored_name(path_components(path)[i])
}

/// The components joined with `/` between them.
pub open spec fn joined_components(cs: Seq<Seq<char>>) -> Seq<char>
    decreases cs.len(),
{
    if cs.len() == 0 {
        Seq::empty()
    } else if cs.len() == 1 {
        cs[0]
    } else {
        joined_components(cs.drop_last()) + seq!['/'] + cs.last()
    }
}

/// A path relative to a base (`Path::strip_prefix`): when the base's
/// components start the path's, the remaining components joined with `/`.
pub open spec fn relative_path(path: Seq<char>, base: Seq<char>) -> Option<Seq<char>> {
    let pc = path_components(path);
    let bc = path_components(base);
    if bc.len() <= pc.len() && pc.subrange(0, bc.len() as int) == bc {
        Some(joined_components(pc.skip(bc.len() as int)))
    } else {
        None
    }
}

/// The working tree rooted at a directory.
#[derive(Debug)]
pub struct Workspace {
    path: String,
}

impl Workspace {
    /// The working tree rooted at `path`.
    pub fn new(path: String) -> (r: Self)
        ensures
            r.path_spec() == path@,
    {
        Workspace { path }
    }

    /// The root directory.
    pub closed spec fn path_spec(&self) -> Seq<char> {
        self.path@
    }

    /// The root directory.
    pub fn path(&self) -> (r: &str)
        ensures
            r@ == self.path_spec(),
    {
        self.path.as_str()
    }

    /// The blob of a file's content, with the regular file mode.
    pub fn parse_blob(&self, data: String) -> (r: Blob)
        ensures
            r.content_spec() == data@,
            r.mode_spec() == FileMode::Regular,
    {
        Blob::new(data, FileMode::Regular)
    }

    /// Whether a path is left out of the working tree: one of its names is
    /// `.git` (or `.` or `..`, which never occur as names).
    pub fn is_ignored(path: &str) -> (r: bool)
        ensures
            r == is_ignored_path(path@),
    {
        let comps = components_of(path);
        let ghost cv = comps@.map_values(|c: String| c@);
        assert(cv == path_components(path@));
        proof {
            reveal_strlit("/");
            reveal_strlit(".");
            reveal_strlit("..");
            reveal_strlit(".git");
        }
        assert("/"@ =~= seq!['/']);
        assert("."@ =~= seq!['.']);
        assert(".."@ =~= seq!['.', '.']);
        assert(".git"@ =~= seq!['.', 'g', 'i', 't']);
        let mut i: usize = 0;
        while i < comps.len()
            invariant
                i <= comps@.len(),
                cv == comps@.map_values(|c: String| c@),
                cv == path_components(path@),
                forall|j: int|
                    0 <= j < i ==> !(is_normal_component(#[trigger] cv[j]) && is_ignored_name(
                        cv[j],
                    )),
            decreases comps@.len() - i,
        {
            proof {
                reveal_strlit("/");
                reveal_strlit(".");
                reveal_strlit("..");
                reveal_strlit(".git");
            }
            assert("/"@ =~= seq!['/']);
            assert("."@ =~= seq!['.']);
            assert(".."@ =~= seq!['.', '.']);
            assert(".git"@ =~= seq!['.', 'g', 'i', 't']);
            let c = comps[i].as_str();
            assert(c@ == cv[i as int]);
            let normal = !str_eq(c, "/") && !str_eq(c, ".") && !str_eq(c, "..");
            let ignored = str_eq(c, ".git") || str_eq(c, ".") || str_eq(c, "..");
            if normal && ignored {
                assert(is_normal_component(path_components(path@)[i as int]));
                return true;
            }
            i = i + 1;
        }
        false
    }

    /// A path under the root relative to it, unless the path is ignored or
    /// does not lie under the root.
    pub fn check_if_not_ignored_path(&self, path: &str) -> (r: Option<String>)
        ensures
            r matches Some(x) ==> !is_ignored_path(path@) && relative_path(path@, self.path_spec())
                == Some(x@),
            r is None ==> is_ignored_path(path@) || relative_path(path@, self.path_spec()) is None,
    {
        if Self::is_ignored(path) {
            return None;
        }
        strip_path_prefix(path, self.path.as_str())
    }

    /// A file's path under the root relative to it, unless it is not a file
    /// (as the caller found), is ignored, or does not lie under the root.
    pub fn check_if_not_ignored_file_path(&self, path: &str, is_file: bool) -> (r: Option<String>)
        ensures
            r matches Some(x) ==> is_file && !is_ignored_path(path@) && relative_path(
                path@,
                self.path_spec(),
            ) == Some(x@),
            r is None ==> !is_file || is_ignored_path(path@) || relative_path(
                path@,
                self.path_spec(),
            ) is None,
    {
        if !is_file {
            return None;
        }
        self.check_if_not_ignored_path(path)
    }
}

/// `path` relative to `base`, when the components of `base` start those of
/// `path`.
fn strip_path_prefix(path: &str, base: &str) -> (r: Option<String>)
    ensures
        r matches Some(x) ==> relative_path(path@, base@) == Some(x@),
        r is None ==> relative_path(path@, base@) is None,
{
    let pc = components_of(path);
    let bc = components_of(base);
    let ghost pv = pc@.map_values(|c: String| c@);
    let ghost bv = bc@.map_values(|c: String| c@);
    if bc.len() > pc.len() {
        return None;
    }
    let mut i: usize = 0;
    while i < bc.len()
        invariant
            bc@.len() <= pc@.len(),
            i <= bc@.len(),
            pv == pc@.map_values(|c: String| c@),
            bv == bc@.map_values(|c: String| c@),
            pv == path_components(path@),
            bv == path_components(base@),
            forall|j: int| 0 <= j < i ==> pv[j] == bv[j],
        decreases bc@.len() - i,
    {
        if !str_eq(pc[i].as_str(), bc[i].as_str()) {
            assert(pv[i as int] == pc@[i as int]@);
            assert(bv[i as int] == bc@[i as int]@);
            assert(pv.subrange(0, bv.len() as int)[i as int] != bv[i as int]);
            return None;
        }
        i = i + 1;
    }
    assert(pv.subrange(0, bv.len() as int) =~= bv);
    let mut out = String::new();
    let mut k: usize = bc.len();
    let ghost rest = pv.skip(bv.len() as int);
    assert(rest.take(0) =~= Seq::<Seq<char>>::empty());
    while k < pc.len()
        invariant
            bc@.len() <= k <= pc@.len(),
            pv == pc@.map_values(|c: String| c@),
            rest == pv.skip(bc@.len() as int),
            out@ == joined_components(rest.take(k - bc@.len())),
        decreases pc@.len() - k,
    {
        let ghost pre = rest.take(k - bc@.len());
        assert(rest.take(k - bc@.len() + 1).drop_last() =~= pre);
        assert(rest.take(k - bc@.len() + 1).last() == pv[k as int]);
        if k > bc.len() {
            crate::text::push_char(&mut out, '/');
        } else {
            assert(pre =~= Seq::<Seq<char>>::empty());
        }
        crate::text::push_str(&mut out, pc[k].as_str());
        proof {
            if k > bc@.len() {
                assert(out@ =~= joined_components(pre) + seq!['/'] + pv[k as int]);
            } else {
                assert(out@ =~= pv[k as int]);
            }
        }
        k = k + 1;
    }
    assert(rest.take(rest.len() as int) =~= rest);
    Some(out)
}

} // verus!
