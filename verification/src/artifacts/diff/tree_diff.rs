//! Tree diffs: the files added, deleted and modified between two trees.
//!
//! Two trees are compared one directory level at a time. `compare_entries`
//! takes the entries of both trees at a level, records the changes of the
//! files found there and returns the subtree comparisons still to be made;
//! the caller loads those subtrees and hands their entries back in turn.
use crate::artifacts::database::database_entry::DatabaseEntry;
use crate::artifacts::index::entry_mode::EntryMode;
use crate::artifacts::log::path_filter::{join_path, PathFilter};
use crate::artifacts::objects::object_id::ObjectId;
use crate::keyed::{
    find_key, has_key, keys_unique, lemma_has_key, lemma_map_of, lemma_map_of_remove, lemma_map_of_update, map_of,
};
use crate::path_order::{insert_sorted, key_set, strictly_sorted};
use crate::text::{chars_of, str_eq};
use vstd::prelude::*;

verus! {

/// The view of a tree entry: its object identifier and its mode.
pub type EntryView = (Seq<char>, EntryMode);

/// The view of a change: the entry before and the entry after.
pub type ChangeView = (Option<EntryView>, Option<EntryView>);

/// Which kinds of change a diff shows.
#[derive(Debug, Clone, Copy, PartialEq, Eq, Structural)]
pub struct DiffFilter {
    /// Show added files.
    pub added: bool,
    /// Show deleted files.
    pub deleted: bool,
    /// Show modified files.
    pub modified: bool,
    /// Show renamed files.
    pub renamed: bool,
}

/// The letters a diff filter is written with.
pub open spec fn is_filter_letter(c: char) -> bool {
    c == 'A' || c == 'D' || c == 'M' || c == 'R'
}

impl DiffFilter {
    /// The filter that shows nothing.
    pub fn empty() -> (r: Self)
        ensures
            !r.added && !r.deleted && !r.modified && !r.renamed,
    {
        DiffFilter { added: false, deleted: false, modified: false, renamed: false }
    }

    /// The filter that shows every kind of change.
    pub fn all() -> (r: Self)
        ensures
            r.added && r.deleted && r.modified && r.renamed,
    {
        DiffFilter { added: true, deleted: true, modified: true, renamed: true }
    }

    /// Whether every kind that `other` shows is shown by this filter.
    pub fn contains(&self, other: &DiffFilter) -> (r: bool)
        ensures
            r == ((other.added ==> self.added) && (other.deleted ==> self.deleted) && (
            other.modified ==> self.modified) && (other.renamed ==> self.renamed)),
    {
        (!other.added || self.added) && (!other.deleted || self.deleted) && (!other.modified
            || self.modified) && (!other.renamed || self.renamed)
    }

    /// Parses a filter written as letters: `A` added, `D` deleted, `M`
    /// modified, `R` renamed. Any other letter makes the text invalid.
    pub fn try_parse(s: &str) -> (r: Option<Self>)
        ensures
            r is Some <==> forall|i: int| 0 <= i < s@.len() ==> is_filter_letter(#[trigger] s@[i]),
            r matches Some(f) ==> {
                &&& f.added == s@.contains('A')
                &&& f.deleted == s@.contains('D')
                &&& f.modified == s@.contains('M')
                &&& f.renamed == s@.contains('R')
            },
    {
        let cs = chars_of(s);
        let mut f = DiffFilter::empty();
        let mut i: usize = 0;
        while i < cs.len()
            invariant
                i <= cs@.len(),
                cs@ == s@,
                forall|j: int| 0 <= j < i ==> is_filter_letter(#[trigger] cs@[j]),
                f.added == cs@.take(i as int).contains('A'),
                f.deleted == cs@.take(i as int).contains('D'),
                f.modified == cs@.take(i as int).contains('M'),
                f.renamed == cs@.take(i as int).contains('R'),
            decreases cs@.len() - i,
        {
            let c = cs[i];
            let ghost pre = cs@.take(i as int);
            let ghost next = cs@.take(i + 1);
            assert(next =~= pre.push(c));
            assert forall|x: char| #[trigger] next.contains(x) == (pre.contains(x) || x == c) by {
                if next.contains(x) {
                    let k = choose|k: int| 0 <= k < next.len() && next[k] == x;
                    if k < pre.len() {
                        assert(pre[k] == x);
                    }
                }
                if pre.contains(x) {
                    let k = choose|k: int| 0 <= k < pre.len() && pre[k] == x;
                    assert(next[k] == x);
                }
                if x == c {
                    assert(next[i as int] == x);
                }
            }
            if c == 'A' {
                f.added = true;
            } else if c == 'D' {
                f.deleted = true;
            } else if c == 'M' {
                f.modified = true;
            } else if c == 'R' {
                f.renamed = true;
            } else {
                return None;
            }
            i = i + 1;
        }
        assert(cs@.take(cs@.len() as int) =~= cs@);
        Some(f)
    }
}

/// The view of an optional entry.
pub open spec fn opt_view(o: Option<DatabaseEntry>) -> Option<EntryView> {
    match o {
        Some(e) => Some(e@),
        None => None,
    }
}

/// Type of change detected in a tree diff.
#[derive(Debug)]
pub enum TreeChangeType {
    /// The file was added.
    Added(DatabaseEntry),
    /// The file was deleted.
    Deleted(DatabaseEntry),
    /// The file was modified.
    Modified { old: DatabaseEntry, new: DatabaseEntry },
}

impl View for TreeChangeType {
    type V = ChangeView;

    open spec fn view(&self) -> ChangeView {
        match self {
            TreeChangeType::Added(e) => (None, Some(e@)),
            TreeChangeType::Deleted(e) => (Some(e@), None),
            TreeChangeType::Modified { old, new } => (Some(old@), Some(new@)),
        }
    }
}

impl Clone for TreeChangeType {
    fn clone(&self) -> (r: Self)
        ensures
            r@ == self@,
    {
        match self {
            TreeChangeType::Added(e) => TreeChangeType::Added(e.clone()),
            TreeChangeType::Deleted(e) => TreeChangeType::Deleted(e.clone()),
            TreeChangeType::Modified { old, new } => TreeChangeType::Modified {
                old: old.clone(),
                new: new.clone(),
            },
        }
    }
}

impl TreeChangeType {
    /// The change from `old` to `new`: none when both are absent or equal.
    pub fn from_entries(old: Option<DatabaseEntry>, new: Option<DatabaseEntry>) -> (r: Option<
        Self,
    >)
        ensures
            r is Some <==> opt_view(old) != opt_view(new),
            r matches Some(c) ==> c@ == (opt_view(old), opt_view(new)),
    {
        match (old, new) {
            (None, Some(new)) => Some(TreeChangeType::Added(new)),
            (Some(old), None) => Some(TreeChangeType::Deleted(old)),
            (Some(old), Some(new)) => {
                if old != new {
                    Some(TreeChangeType::Modified { old, new })
                } else {
                    None
                }
            },
            (None, None) => None,
        }
    }

    /// Whether the filter shows this kind of change.
    pub fn matches_filter(&self, filter: DiffFilter) -> (r: bool)
        ensures
            r == match self {
                TreeChangeType::Added(_) => filter.added,
                TreeChangeType::Deleted(_) => filter.deleted,
                TreeChangeType::Modified { .. } => filter.modified,
            },
    {
        match self {
            TreeChangeType::Added(_) => filter.added,
            TreeChangeType::Deleted(_) => filter.deleted,
            TreeChangeType::Modified { .. } => filter.modified,
        }
    }

    /// The entry before the change, if the file existed.
    pub fn old_entry(&self) -> (r: Option<&DatabaseEntry>)
        ensures
            match r {
                Some(e) => self@.0 == Some(e@),
                None => self@.0 is None,
            },
    {
        match self {
            TreeChangeType::Deleted(entry) => Some(entry),
            TreeChangeType::Modified { old, .. } => Some(old),
            TreeChangeType::Added(_) => None,
        }
    }

    /// The entry after the change, if the file still exists.
    pub fn new_entry(&self) -> (r: Option<&DatabaseEntry>)
        ensures
            match r {
                Some(e) => self@.1 == Some(e@),
                None => self@.1 is None,
            },
    {
        match self {
            TreeChangeType::Added(entry) => Some(entry),
            TreeChangeType::Modified { new, .. } => Some(new),
            TreeChangeType::Deleted(_) => None,
        }
    }

    /// The letter of the change: `A`, `D` or `M`.
    pub fn status_char(&self) -> (r: char)
        ensures
            r == match self {
                TreeChangeType::Added(_) => 'A',
                TreeChangeType::Deleted(_) => 'D',
                TreeChangeType::Modified { .. } => 'M',
            },
    {
        match self {
            TreeChangeType::Added(_) => 'A',
            TreeChangeType::Deleted(_) => 'D',
            TreeChangeType::Modified { .. } => 'M',
        }
    }
}

/// The view of a list of changes keyed by path.
pub open spec fn changes_view(s: Seq<(String, TreeChangeType)>) -> Seq<(Seq<char>, ChangeView)> {
    s.map_values(|p: (String, TreeChangeType)| (p.0@, p.1@))
}

/// The view of a list of tree entries keyed by name.
pub open spec fn entries_view(s: Seq<(String, DatabaseEntry)>) -> Seq<(Seq<char>, EntryView)> {
    s.map_values(|p: (String, DatabaseEntry)| (p.0@, p.1@))
}

/// The entry stored under `name`, if any.
pub open spec fn lookup<V>(s: Seq<(Seq<char>, V)>, name: Seq<char>) -> Option<V> {
    if has_key(s, name) {
        Some(map_of(s)[name])
    } else {
        None
    }
}

/// Whether an entry view names a tree.
pub open spec fn is_tree_view(e: EntryView) -> bool {
    e.1 == EntryMode::Directory
}

/// The entry as a file: absent when it names a tree.
pub open spec fn as_file(o: Option<EntryView>) -> Option<EntryView> {
    match o {
        Some(e) => if is_tree_view(e) {
            None
        } else {
            Some(e)
        },
        None => None,
    }
}

/// The object of the entry as a tree: absent when it names a file.
pub open spec fn as_tree(o: Option<EntryView>) -> Option<Seq<char>> {
    match o {
        Some(e) => if is_tree_view(e) {
            Some(e.0)
        } else {
            None
        },
        None => None,
    }
}

/// The change recorded for the entry `(name, e)` of the old tree: a file
/// that is gone or differs from the new tree's entry of the same name is
/// recorded under its path.
pub open spec fn deletion_step(
    m: Map<Seq<char>, ChangeView>,
    f: PathFilter,
    name: Seq<char>,
    e: EntryView,
    news: Seq<(Seq<char>, EntryView)>,
) -> Map<Seq<char>, ChangeView> {
    let o = lookup(news, name);
    if !f.lets_through(name) || o == Some(e) || as_file(Some(e)) == as_file(o) {
        m
    } else {
        m.insert(join_path(f.root_path()@, name), (as_file(Some(e)), as_file(o)))
    }
}

/// The subtree comparison left by the entry `(name, e)` of the old tree:
/// the old and new tree objects under `name`, when they differ.
pub open spec fn deletion_pending_step(
    f: PathFilter,
    name: Seq<char>,
    e: EntryView,
    news: Seq<(Seq<char>, EntryView)>,
) -> Option<(Option<Seq<char>>, Option<Seq<char>>, Seq<char>)> {
    let o = lookup(news, name);
    if !f.lets_through(name) || o == Some(e) || as_tree(Some(e)) == as_tree(o) {
        None
    } else {
        Some((as_tree(Some(e)), as_tree(o), name))
    }
}

/// The change recorded for the entry `(name, e)` of the new tree: a file
/// whose name the old tree lacks is added.
pub open spec fn addition_step(
    m: Map<Seq<char>, ChangeView>,
    f: PathFilter,
    name: Seq<char>,
    e: EntryView,
    olds: Seq<(Seq<char>, EntryView)>,
) -> Map<Seq<char>, ChangeView> {
    if f.lets_through(name) && lookup(olds, name) is None && !is_tree_view(e) {
        m.insert(join_path(f.root_path()@, name), (None, Some(e)))
    } else {
        m
    }
}

/// The subtree comparison left by the entry `(name, e)` of the new tree: a
/// subtree whose name the old tree lacks.
pub open spec fn addition_pending_step(
    f: PathFilter,
    name: Seq<char>,
    e: EntryView,
    olds: Seq<(Seq<char>, EntryView)>,
) -> Option<(Option<Seq<char>>, Option<Seq<char>>, Seq<char>)> {
    if f.lets_through(name) && lookup(olds, name) is None && is_tree_view(e) {
        Some((None, Some(e.0), name))
    } else {
        None
    }
}

/// The changes recorded for the entries of the old tree, in order.
pub open spec fn deletions_map(
    m: Map<Seq<char>, ChangeView>,
    f: PathFilter,
    olds: Seq<(Seq<char>, EntryView)>,
    news: Seq<(Seq<char>, EntryView)>,
) -> Map<Seq<char>, ChangeView>
    decreases olds.len(),
{
    if olds.len() == 0 {
        m
    } else {
        deletion_step(
            deletions_map(m, f, olds.drop_last(), news),
            f,
            olds.last().0,
            olds.last().1,
            news,
        )
    }
}

/// The changes recorded for the entries of the new tree, in order.
pub open spec fn additions_map(
    m: Map<Seq<char>, ChangeView>,
    f: PathFilter,
    olds: Seq<(Seq<char>, EntryView)>,
    news: Seq<(Seq<char>, EntryView)>,
) -> Map<Seq<char>, ChangeView>
    decreases news.len(),
{
    if news.len() == 0 {
        m
    } else {
        addition_step(
            additions_map(m, f, olds, news.drop_last()),
            f,
            news.last().0,
            news.last().1,
            olds,
        )
    }
}

/// Appends the comparison, if there is one.
pub open spec fn push_opt<T>(s: Seq<T>, o: Option<T>) -> Seq<T> {
    match o {
        Some(x) => s.push(x),
        None => s,
    }
}

/// The subtree comparisons left by the entries of the old tree, in order.
pub open spec fn deletion_pending(
    f: PathFilter,
    olds: Seq<(Seq<char>, EntryView)>,
    news: Seq<(Seq<char>, EntryView)>,
) -> Seq<(Option<Seq<char>>, Option<Seq<char>>, Seq<char>)>
    decreases olds.len(),
{
    if olds.len() == 0 {
        seq![]
    } else {
        push_opt(
            deletion_pending(f, olds.drop_last(), news),
            deletion_pending_step(f, olds.last().0, olds.last().1, news),
        )
    }
}

/// The subtree comparisons left by the entries of the new tree, in order.
pub open spec fn addition_pending(
    f: PathFilter,
    olds: Seq<(Seq<char>, EntryView)>,
    news: Seq<(Seq<char>, EntryView)>,
) -> Seq<(Option<Seq<char>>, Option<Seq<char>>, Seq<char>)>
    decreases news.len(),
{
    if news.len() == 0 {
        seq![]
    } else {
        push_opt(
            addition_pending(f, olds, news.drop_last()),
            addition_pending_step(f, news.last().0, news.last().1, olds),
        )
    }
}

/// `sub` is the filter for the entries below the directory `name` of `f`.
pub open spec fn is_subfilter(sub: PathFilter, f: PathFilter, name: Seq<char>) -> bool {
    &&& sub.root_path()@ == join_path(f.root_path()@, name)
    &&& forall|q: Seq<Seq<char>>| #[trigger]
        sub.matches_path(q) == if f.matches_path(Seq::empty()) {
            f.matches_path(q)
        } else {
            f.matches_path(seq![name] + q)
        }
}

/// A comparison of two subtrees that is still to be made.
#[derive(Debug)]
pub struct PendingComparison {
    /// The old tree, if there is one.
    pub old: Option<ObjectId>,
    /// The new tree, if there is one.
    pub new: Option<ObjectId>,
    /// The filter for the entries below the subtree.
    pub filter: PathFilter,
}

/// The view of an optional object identifier.
pub open spec fn oid_view(o: Option<ObjectId>) -> Option<Seq<char>> {
    match o {
        Some(x) => Some(x@),
        None => None,
    }
}

/// The pending comparisons are those described by `spec`: the same trees,
/// and for each the filter below the named directory of `f`.
pub open spec fn pending_matches(
    p: Seq<PendingComparison>,
    spec: Seq<(Option<Seq<char>>, Option<Seq<char>>, Seq<char>)>,
    f: PathFilter,
) -> bool {
    &&& p.len() == spec.len()
    &&& forall|k: int|
        0 <= k < p.len() ==> {
            &&& oid_view(#[trigger] p[k].old) == spec[k].0
            &&& oid_view(p[k].new) == spec[k].1
            &&& is_subfilter(p[k].filter, f, spec[k].2)
        }
}

/// Changes between two trees, keyed by path.
#[derive(Debug)]
pub struct TreeDiff {
    change_set: Vec<(String, TreeChangeType)>,
}

impl View for TreeDiff {
    type V = Map<Seq<char>, ChangeView>;

    closed spec fn view(&self) -> Map<Seq<char>, ChangeView> {
        map_of(changes_view(self.change_set@))
    }
}

impl TreeDiff {
    /// No path is recorded twice, and the paths are in path order.
    #[verifier::type_invariant]
    spec fn inv(self) -> bool {
        &&& keys_unique(changes_view(self.change_set@))
        &&& crate::path_order::ordered(crate::keyed::pair_keys(self.change_set@), true)
    }

    /// A diff with no changes.
    pub fn new() -> (r: Self)
        ensures
            r@ == Map::<Seq<char>, ChangeView>::empty(),
    {
        let v: Vec<(String, TreeChangeType)> = Vec::new();
        assert(changes_view(v@) =~= Seq::empty());
        assert(crate::keyed::pair_keys(v@) =~= Seq::<Seq<char>>::empty());
        TreeDiff { change_set: v }
    }

    /// The recorded changes, each path once, in path order.
    pub fn changes(&self) -> (r: &Vec<(String, TreeChangeType)>)
        ensures
            keys_unique(changes_view(r@)),
            crate::path_order::ordered(crate::keyed::pair_keys(r@), true),
            map_of(changes_view(r@)) == self@,
    {
        proof {
            use_type_invariant(self);
        }
        &self.change_set
    }

    /// The entries before and after the change recorded for `path`.
    pub fn get_entries(&self, path: &str) -> (r: (Option<&DatabaseEntry>, Option<&DatabaseEntry>))
        ensures
            self@.contains_key(path@) ==> {
                &&& match r.0 {
                    Some(e) => self@[path@].0 == Some(e@),
                    None => self@[path@].0 is None,
                }
                &&& match r.1 {
                    Some(e) => self@[path@].1 == Some(e@),
                    None => self@[path@].1 is None,
                }
            },
            !self@.contains_key(path@) ==> r.0 is None && r.1 is None,
    {
        proof {
            use_type_invariant(self);
            lemma_map_of(changes_view(self.change_set@));
        }
        let i = find_key(&self.change_set, path);
        if i < self.change_set.len() {
            let change = &self.change_set[i].1;
            let ghost cv = changes_view(self.change_set@);
            assert(cv[i as int] == (path@, change@));
            assert(cv.len() == self.change_set@.len());
            proof {
                lemma_has_key(cv, i as int);
            }
            assert(map_of(cv)[cv[i as int].0] == change@);
            assert(self@.contains_key(path@));
            (change.old_entry(), change.new_entry())
        } else {
            proof {
                if has_key(changes_view(self.change_set@), path@) {
                    let k = choose|k: int|
                        0 <= k < changes_view(self.change_set@).len() && #[trigger] changes_view(
                            self.change_set@,
                        )[k].0 == path@;
                    assert(self.change_set@[k].0@ == path@);
                }
            }
            (None, None)
        }
    }

    /// The change recorded for `path`, if any.
    pub fn get_change(&self, path: &str) -> (r: Option<&TreeChangeType>)
        ensures
            match r {
                Some(c) => self@.contains_key(path@) && self@[path@] == c@,
                None => !self@.contains_key(path@),
            },
    {
        proof {
            use_type_invariant(self);
            lemma_map_of(changes_view(self.change_set@));
        }
        let i = find_key(&self.change_set, path);
        if i < self.change_set.len() {
            let change = &self.change_set[i].1;
            let ghost cv = changes_view(self.change_set@);
            assert(cv[i as int] == (path@, change@));
            assert(cv.len() == self.change_set@.len());
            proof {
                lemma_has_key(cv, i as int);
            }
            assert(map_of(cv)[cv[i as int].0] == change@);
            Some(change)
        } else {
            proof {
                if has_key(changes_view(self.change_set@), path@) {
                    let k = choose|k: int|
                        0 <= k < changes_view(self.change_set@).len() && #[trigger] changes_view(
                            self.change_set@,
                        )[k].0 == path@;
                    assert(self.change_set@[k].0@ == path@);
                }
            }
            None
        }
    }

    /// Records `change` under `path`, replacing any change recorded there.
    pub fn insert_change(&mut self, path: String, change: TreeChangeType)
        ensures
            final(self)@ == old(self)@.insert(path@, change@),
    {
        proof {
            use_type_invariant(&*self);
        }
        let mut v: Vec<(String, TreeChangeType)> = Vec::new();
        std::mem::swap(&mut v, &mut self.change_set);
        let ghost before = changes_view(v@);
        let ghost ks = crate::keyed::pair_keys(v@);
        let ghost pv = path@;
        let ghost cv = change@;
        let mut j: usize = 0;
        while j < v.len() && crate::path_order::order_less(v[j].0.as_str(), path.as_str(), true)
            invariant
                j <= v@.len(),
                ks == crate::keyed::pair_keys(v@),
                pv == path@,
                forall|m: int| 0 <= m < j ==> crate::path_order::order_lt(#[trigger] ks[m], pv, true),
            decreases v@.len() - j,
        {
            j = j + 1;
        }
        if j < v.len() && str_eq(v[j].0.as_str(), path.as_str()) {
            assert(before[j as int].0 == pv);
            v.set(j, (path, change));
            proof {
                assert(changes_view(v@) =~= before.update(j as int, (before[j as int].0, cv)));
                lemma_map_of_update(before, j as int, cv);
                assert(crate::keyed::pair_keys(v@) =~= ks);
            }
        } else {
            proof {
                if j < ks.len() {
                    assert(ks[j as int] != pv);
                    crate::path_order::lemma_order_total(ks[j as int], pv, true);
                }
                crate::path_order::lemma_ordered_insert(ks, j as int, pv, true);
                assert(!has_key(before, pv)) by {
                    if has_key(before, pv) {
                        let i = choose|i: int| 0 <= i < before.len() && #[trigger] before[i].0 == pv;
                        assert(ks[i] == pv);
                        if i < j {
                            crate::path_order::lemma_order_irreflexive(pv, true);
                        } else if i > j {
                            assert(crate::path_order::order_lt(ks[j as int], ks[i], true));
                            crate::path_order::lemma_order_transitive(pv, ks[j as int], ks[i], true);
                            crate::path_order::lemma_order_irreflexive(pv, true);
                        }
                    }
                }
                crate::keyed::lemma_map_of_insert(before, j as int, pv, cv);
            }
            v.insert(j, (path, change));
            proof {
                assert(changes_view(v@) =~= before.insert(j as int, (pv, cv)));
                assert(crate::keyed::pair_keys(v@) =~= ks.insert(j as int, pv));
            }
        }
        proof {
            crate::keyed::lemma_ordered_unique(v@, true);
            assert forall|a: int, b: int|
                0 <= a < b < changes_view(v@).len() implies #[trigger] changes_view(v@)[a].0
                != #[trigger] changes_view(v@)[b].0 by {
                assert(crate::keyed::pairs_view(v@)[a].0 != crate::keyed::pairs_view(v@)[b].0);
            }
        }
        self.change_set = v;
    }

    /// Forgets the change recorded for `path`, if any.
    pub fn remove_change(&mut self, path: &str)
        ensures
            final(self)@ == old(self)@.remove(path@),
    {
        proof {
            use_type_invariant(&*self);
            lemma_map_of(changes_view(self.change_set@));
        }
        let mut v: Vec<(String, TreeChangeType)> = Vec::new();
        std::mem::swap(&mut v, &mut self.change_set);
        let ghost before = changes_view(v@);
        let i = find_key(&v, path);
        if i < v.len() {
            assert(before[i as int].0 == path@);
            let ghost ks = crate::keyed::pair_keys(v@);
            v.remove(i);
            proof {
                assert(changes_view(v@) =~= before.remove(i as int));
                lemma_map_of_remove(before, i as int);
                assert(crate::keyed::pair_keys(v@) =~= ks.remove(i as int));
                crate::path_order::lemma_ordered_remove(ks, i as int, true);
            }
        } else {
            proof {
                if has_key(before, path@) {
                    let k = choose|k: int| 0 <= k < before.len() && #[trigger] before[k].0 == path@;
                    assert(v@[k].0@ == path@);
                }
                assert(map_of(before).remove(path@) =~= map_of(before));
            }
        }
        self.change_set = v;
    }

    /// Adds the recorded paths to a strictly sorted list of paths.
    pub fn add_paths_to(&self, v: &mut Vec<String>)
        requires
            strictly_sorted(old(v)@.map_values(|s: String| s@)),
        ensures
            strictly_sorted(final(v)@.map_values(|s: String| s@)),
            key_set(final(v)@.map_values(|s: String| s@)) == key_set(
                old(v)@.map_values(|s: String| s@),
            ) + self@.dom(),
    {
        proof {
            use_type_invariant(self);
            lemma_map_of(changes_view(self.change_set@));
        }
        let ghost start = key_set(v@.map_values(|s: String| s@));
        let ghost cv = changes_view(self.change_set@);
        let mut i: usize = 0;
        while i < self.change_set.len()
            invariant
                i <= self.change_set@.len(),
                cv == changes_view(self.change_set@),
                strictly_sorted(v@.map_values(|s: String| s@)),
                key_set(v@.map_values(|s: String| s@)) == start + Set::new(
                    |k: Seq<char>| exists|j: int| 0 <= j < i && #[trigger] cv[j].0 == k,
                ),
            decreases self.change_set@.len() - i,
        {
            insert_sorted(v, self.change_set[i].0.as_str());
            proof {
                assert(cv[i as int].0 == self.change_set@[i as int].0@);
                assert(key_set(v@.map_values(|s: String| s@)) =~= start + Set::new(
                    |k: Seq<char>| exists|j: int| 0 <= j < i + 1 && #[trigger] cv[j].0 == k,
                ));
            }
            i = i + 1;
        }
        proof {
            assert forall|k: Seq<char>| #[trigger] self@.dom().contains(k) == (exists|j: int|
                0 <= j < cv.len() && #[trigger] cv[j].0 == k) by {
                assert(self@.dom().contains(k) == has_key(cv, k));
            }
            assert(key_set(v@.map_values(|s: String| s@)) =~= start + self@.dom());
        }
    }

    /// The comparison to make between two trees: none when they are the same
    /// tree or both absent.
    pub fn compare_oids(old: Option<&ObjectId>, new: Option<&ObjectId>, path_filter: &PathFilter) -> (r:
        Option<PendingComparison>)
        ensures
            r is None <==> match (old, new) {
                (Some(a), Some(b)) => a@ == b@,
                (None, None) => true,
                _ => false,
            },
            r matches Some(p) ==> {
                &&& oid_view(p.old) == match old {
                    Some(a) => Some(a@),
                    None => None::<Seq<char>>,
                }
                &&& oid_view(p.new) == match new {
                    Some(b) => Some(b@),
                    None => None::<Seq<char>>,
                }
                &&& p.filter.root_path()@ == path_filter.root_path()@
                &&& forall|q: Seq<Seq<char>>| #[trigger]
                    p.filter.matches_path(q) == path_filter.matches_path(q)
            },
    {
        let same = match (old, new) {
            (Some(a), Some(b)) => *a == *b,
            (None, None) => true,
            _ => false,
        };
        if same {
            None
        } else {
            let o = match old {
                Some(a) => Some(a.clone()),
                None => None,
            };
            let n = match new {
                Some(b) => Some(b.clone()),
                None => None,
            };
            Some(PendingComparison { old: o, new: n, filter: path_filter.clone() })
        }
    }
}

impl TreeDiff {
    /// Handles the entry `(name, entry)` of the old tree.
    fn detect_deletion(
        &mut self,
        name: &String,
        entry: &DatabaseEntry,
        news_in: &Vec<(String, DatabaseEntry)>,
        path_filter: &PathFilter,
        pending: &mut Vec<PendingComparison>,
    )
        requires
            keys_unique(entries_view(news_in@)),
        ensures
            final(self)@ == deletion_step(
                old(self)@,
                *path_filter,
                name@,
                entry@,
                entries_view(news_in@),
            ),
            final(pending)@.len() == old(pending)@.len() + if deletion_pending_step(
                *path_filter,
                name@,
                entry@,
                entries_view(news_in@),
            ) is Some {
                1int
            } else {
                0int
            },
            forall|k: int| 0 <= k < old(pending)@.len() ==> #[trigger] final(pending)@[k] == old(pending)@[k],
            deletion_pending_step(*path_filter, name@, entry@, entries_view(news_in@)) matches Some(t) ==> {
                let p = final(pending)@[old(pending)@.len() as int];
                &&& oid_view(p.old) == t.0
                &&& oid_view(p.new) == t.1
                &&& is_subfilter(p.filter, *path_filter, t.2)
            },
    {
        if !path_filter.lets_through_exec(name) {
            return ;
        }
        let other = lookup_exec(news_in, name.as_str());
        let same = match other {
            Some(o) => *o == *entry,
            None => false,
        };
        if same {
            return ;
        }
        let subfilter = path_filter.join_subpath_filter(name);
        let tree_a = if entry.is_tree() {
            Some(&entry.oid)
        } else {
            None
        };
        let tree_b = match other {
            Some(o) => if o.is_tree() {
                Some(&o.oid)
            } else {
                None
            },
            None => None,
        };
        match TreeDiff::compare_oids(tree_a, tree_b, &subfilter) {
            Some(p) => pending.push(p),
            None => {},
        }
        let blob_a = if entry.is_tree() {
            None
        } else {
            Some(entry.clone())
        };
        let blob_b = match other {
            Some(o) => if o.is_tree() {
                None
            } else {
                Some(o.clone())
            },
            None => None,
        };
        match TreeChangeType::from_entries(blob_a, blob_b) {
            Some(change) => {
                let path = subfilter.path().to_owned();
                self.insert_change(path, change);
            },
            None => {},
        }
    }

    /// Handles the entry `(name, entry)` of the new tree.
    fn detect_addition(
        &mut self,
        name: &String,
        entry: &DatabaseEntry,
        olds_in: &Vec<(String, DatabaseEntry)>,
        path_filter: &PathFilter,
        pending: &mut Vec<PendingComparison>,
    )
        requires
            keys_unique(entries_view(olds_in@)),
        ensures
            final(self)@ == addition_step(
                old(self)@,
                *path_filter,
                name@,
                entry@,
                entries_view(olds_in@),
            ),
            final(pending)@.len() == old(pending)@.len() + if addition_pending_step(
                *path_filter,
                name@,
                entry@,
                entries_view(olds_in@),
            ) is Some {
                1int
            } else {
                0int
            },
            forall|k: int| 0 <= k < old(pending)@.len() ==> #[trigger] final(pending)@[k] == old(pending)@[k],
            addition_pending_step(*path_filter, name@, entry@, entries_view(olds_in@)) matches Some(t) ==> {
                let p = final(pending)@[old(pending)@.len() as int];
                &&& oid_view(p.old) == t.0
                &&& oid_view(p.new) == t.1
                &&& is_subfilter(p.filter, *path_filter, t.2)
            },
    {
        if !path_filter.lets_through_exec(name) {
            return ;
        }
        let other = lookup_exec(olds_in, name.as_str());
        if other.is_some() {
            return ;
        }
        let subfilter = path_filter.join_subpath_filter(name);
        if entry.is_tree() {
            match TreeDiff::compare_oids(None, Some(&entry.oid), &subfilter) {
                Some(p) => pending.push(p),
                None => {},
            }
        } else {
            let path = subfilter.path().to_owned();
            self.insert_change(path, TreeChangeType::Added(entry.clone()));
        }
    }

    /// Compares the entries of an old and a new tree at one directory level
    /// below the filter's directory.
    ///
    /// Each entry of the old tree that the filter lets through and that
    /// differs from the new tree's entry of the same name gives a change for
    /// its file and a comparison of its subtrees; each entry of the new tree
    /// whose name the old tree lacks gives an added file or a comparison with
    /// a new subtree. The changes are recorded; the comparisons are returned,
    /// those of the old entries first, each with the filter for its directory.
    pub fn compare_entries(
        &mut self,
        olds_in: &Vec<(String, DatabaseEntry)>,
        news_in: &Vec<(String, DatabaseEntry)>,
        path_filter: &PathFilter,
    ) -> (r: Vec<PendingComparison>)
        requires
            keys_unique(entries_view(olds_in@)),
            keys_unique(entries_view(news_in@)),
        ensures
            final(self)@ == additions_map(
                deletions_map(old(self)@, *path_filter, entries_view(olds_in@), entries_view(news_in@)),
                *path_filter,
                entries_view(olds_in@),
                entries_view(news_in@),
            ),
            pending_matches(
                r@,
                deletion_pending(*path_filter, entries_view(olds_in@), entries_view(news_in@))
                    + addition_pending(*path_filter, entries_view(olds_in@), entries_view(news_in@)),
                *path_filter,
            ),
    {
        let ghost f = *path_filter;
        let ghost olds = entries_view(olds_in@);
        let ghost news = entries_view(news_in@);
        let ghost m0 = self@;
        let mut pending: Vec<PendingComparison> = Vec::new();
        let mut i: usize = 0;
        while i < olds_in.len()
            invariant
                i <= olds_in@.len(),
                f == *path_filter,
                olds == entries_view(olds_in@),
                news == entries_view(news_in@),
                keys_unique(news),
                self@ == deletions_map(m0, f, olds.take(i as int), news),
                pending_matches(pending@, deletion_pending(f, olds.take(i as int), news), f),
            decreases olds_in@.len() - i,
        {
            let ghost pre = pending@;
            let ghost dp = deletion_pending(f, olds.take(i as int), news);
            assert(olds.take(i + 1).drop_last() =~= olds.take(i as int));
            assert(olds[i as int] == (olds_in@[i as int].0@, olds_in@[i as int].1@));
            self.detect_deletion(&olds_in[i].0, &olds_in[i].1, news_in, path_filter, &mut pending);
            proof {
                let step = deletion_pending_step(f, olds[i as int].0, olds[i as int].1, news);
                let dp2 = deletion_pending(f, olds.take(i + 1), news);
                assert(dp2 == push_opt(dp, step));
                assert forall|k: int| 0 <= k < pending@.len() implies {
                    &&& oid_view(#[trigger] pending@[k].old) == dp2[k].0
                    &&& oid_view(pending@[k].new) == dp2[k].1
                    &&& is_subfilter(pending@[k].filter, f, dp2[k].2)
                } by {
                    if k < pre.len() {
                        assert(pending@[k] == pre[k]);
                        assert(dp2[k] == dp[k]);
                    }
                }
            }
            i = i + 1;
        }
        assert(olds.take(olds_in@.len() as int) =~= olds);
        let ghost m1 = self@;
        let ghost dpall = deletion_pending(f, olds, news);
        let mut j: usize = 0;
        while j < news_in.len()
            invariant
                j <= news_in@.len(),
                f == *path_filter,
                olds == entries_view(olds_in@),
                news == entries_view(news_in@),
                keys_unique(olds),
                self@ == additions_map(m1, f, olds, news.take(j as int)),
                pending_matches(pending@, dpall + addition_pending(f, olds, news.take(j as int)), f),
            decreases news_in@.len() - j,
        {
            let ghost pre = pending@;
            let ghost ap = addition_pending(f, olds, news.take(j as int));
            assert(news.take(j + 1).drop_last() =~= news.take(j as int));
            assert(news[j as int] == (news_in@[j as int].0@, news_in@[j as int].1@));
            self.detect_addition(&news_in[j].0, &news_in[j].1, olds_in, path_filter, &mut pending);
            proof {
                let step = addition_pending_step(f, news[j as int].0, news[j as int].1, olds);
                let ap2 = addition_pending(f, olds, news.take(j + 1));
                assert(ap2 == push_opt(ap, step));
                let all2 = dpall + ap2;
                assert forall|k: int| 0 <= k < pending@.len() implies {
                    &&& oid_view(#[trigger] pending@[k].old) == all2[k].0
                    &&& oid_view(pending@[k].new) == all2[k].1
                    &&& is_subfilter(pending@[k].filter, f, all2[k].2)
                } by {
                    if k < pre.len() {
                        assert(pending@[k] == pre[k]);
                        assert(all2[k] == (dpall + ap)[k]);
                    }
                }
            }
            j = j + 1;
        }
        assert(news.take(news_in@.len() as int) =~= news);
        pending
    }
}

/// The entry stored under `name` in a list of tree entries.
fn lookup_exec<'a>(s: &'a Vec<(String, DatabaseEntry)>, name: &str) -> (r: Option<&'a DatabaseEntry>)
    requires
        keys_unique(entries_view(s@)),
    ensures
        match r {
            Some(e) => lookup(entries_view(s@), name@) == Some(e@),
            None => lookup(entries_view(s@), name@) is None,
        },
{
    proof {
        lemma_map_of(entries_view(s@));
    }
    let i = find_key(s, name);
    if i < s.len() {
        let ghost ev = entries_view(s@);
        assert(ev[i as int] == (name@, s@[i as int].1@));
        assert(ev.len() == s@.len());
        proof {
            lemma_has_key(ev, i as int);
        }
        assert(map_of(ev)[ev[i as int].0] == s@[i as int].1@);
        Some(&s[i].1)
    } else {
        proof {
            if has_key(entries_view(s@), name@) {
                let k = choose|k: int|
                    0 <= k < entries_view(s@).len() && #[trigger] entries_view(s@)[k].0 == name@;
                assert(s@[k].0@ == name@);
            }
        }
        None
    }
}

/// Whether a name starts with the separator, so that joining it to a
/// directory gives the name itself.
pub open spec fn is_rooted(name: Seq<char>) -> bool {
    name.len() > 0 && name[0] == '/'
}

/// No name of the list starts with the separator.
pub open spec fn names_unrooted(s: Seq<(Seq<char>, EntryView)>) -> bool {
    forall|i: int| 0 <= i < s.len() ==> !is_rooted(#[trigger] s[i].0)
}

/// Below one directory, distinct names that do not start with the separator
/// give distinct paths.
pub proof fn lemma_join_path_injective(a: Seq<char>, b1: Seq<char>, b2: Seq<char>)
    requires
        !is_rooted(b1),
        !is_rooted(b2),
        join_path(a, b1) == join_path(a, b2),
    ensures
        b1 == b2,
{
    if a.len() > 0 {
        let pre = if a.last() == '/' { a } else { a + seq!['/'] };
        assert(join_path(a, b1) == pre + b1);
        assert(join_path(a, b2) == pre + b2);
        assert((pre + b1).subrange(pre.len() as int, (pre + b1).len() as int) =~= b1);
        assert((pre + b2).subrange(pre.len() as int, (pre + b2).len() as int) =~= b2);
    }
}

/// The entry under a name is that of the last pair when the name is its key,
/// and is otherwise found among the pairs before it.
proof fn lemma_lookup_drop_last(s: Seq<(Seq<char>, EntryView)>, name: Seq<char>)
    requires
        s.len() > 0,
        keys_unique(s),
        names_unrooted(s),
    ensures
        keys_unique(s.drop_last()),
        names_unrooted(s.drop_last()),
        lookup(s, name) == if s.last().0 == name {
            Some(s.last().1)
        } else {
            lookup(s.drop_last(), name)
        },
        s.last().0 == name ==> !has_key(s.drop_last(), name),
{
    let t = s.drop_last();
    assert(forall|i: int| 0 <= i < t.len() ==> #[trigger] t[i] == s[i]);
    assert(map_of(s) == map_of(t).insert(s.last().0, s.last().1));
    if has_key(s, name) && s.last().0 != name {
        let i = choose|i: int| 0 <= i < s.len() && #[trigger] s[i].0 == name;
        assert(t[i].0 == name);
    }
    if has_key(t, name) {
        let i = choose|i: int| 0 <= i < t.len() && #[trigger] t[i].0 == name;
        assert(s[i].0 == name);
        assert(s[i].0 != s[s.len() - 1].0);
    }
    if s.last().0 == name {
        lemma_has_key(s, s.len() - 1);
    }
}

/// What the entries of the old tree record under the path of `name`: the
/// change of the file there, when the old tree holds `name` and its file
/// differs from the new tree's; otherwise what was there before.
proof fn lemma_deletions_at(
    m: Map<Seq<char>, ChangeView>,
    f: PathFilter,
    olds: Seq<(Seq<char>, EntryView)>,
    news: Seq<(Seq<char>, EntryView)>,
    name: Seq<char>,
)
    requires
        keys_unique(olds),
        names_unrooted(olds),
        !is_rooted(name),
    ensures
        ({
            let k = join_path(f.root_path()@, name);
            let r = deletions_map(m, f, olds, news);
            let o = lookup(olds, name);
            let n = lookup(news, name);
            if o is Some && f.lets_through(name) && as_file(o) != as_file(n) {
                r.contains_key(k) && r[k] == (as_file(o), as_file(n))
            } else {
                r.contains_key(k) == m.contains_key(k) && (m.contains_key(k) ==> r[k] == m[k])
            }
        }),
    decreases olds.len(),
{
    if olds.len() > 0 {
        let t = olds.drop_last();
        lemma_lookup_drop_last(olds, name);
        lemma_deletions_at(m, f, t, news, name);
        let last = olds.last();
        if last.0 != name {
            assert(!is_rooted(olds[olds.len() - 1].0));
            if join_path(f.root_path()@, last.0) == join_path(f.root_path()@, name) {
                lemma_join_path_injective(f.root_path()@, last.0, name);
            }
        }
    }
}

/// What the entries of the new tree record under the path of `name`: an
/// added file, when the old tree lacks `name` and the new one holds a file
/// there; otherwise what was there before.
proof fn lemma_additions_at(
    m: Map<Seq<char>, ChangeView>,
    f: PathFilter,
    olds: Seq<(Seq<char>, EntryView)>,
    news: Seq<(Seq<char>, EntryView)>,
    name: Seq<char>,
)
    requires
        keys_unique(news),
        names_unrooted(news),
        !is_rooted(name),
    ensures
        ({
            let k = join_path(f.root_path()@, name);
            let r = additions_map(m, f, olds, news);
            let o = lookup(olds, name);
            let n = lookup(news, name);
            if o is None && f.lets_through(name) && as_file(n) is Some {
                r.contains_key(k) && r[k] == (None::<EntryView>, as_file(n))
            } else {
                r.contains_key(k) == m.contains_key(k) && (m.contains_key(k) ==> r[k] == m[k])
            }
        }),
    decreases news.len(),
{
    if news.len() > 0 {
        let t = news.drop_last();
        lemma_lookup_drop_last(news, name);
        lemma_additions_at(m, f, olds, t, name);
        let last = news.last();
        if last.0 != name {
            assert(!is_rooted(news[news.len() - 1].0));
            if join_path(f.root_path()@, last.0) == join_path(f.root_path()@, name) {
                lemma_join_path_injective(f.root_path()@, last.0, name);
            }
        }
    }
}

/// What a comparison of two directory levels records under the path of an
/// entry name: where the filter lets the name through and the file under it
/// differs between the trees (a file on one side only, a file replaced by a
/// tree or the other way round, or a file whose entry changed), the change
/// from the old tree's file to the new tree's, each absent where that tree
/// holds no file under the name; otherwise the path keeps what it had.
pub proof fn lemma_compared_file_change(
    m: Map<Seq<char>, ChangeView>,
    f: PathFilter,
    olds: Seq<(Seq<char>, EntryView)>,
    news: Seq<(Seq<char>, EntryView)>,
    name: Seq<char>,
)
    requires
        keys_unique(olds),
        keys_unique(news),
        names_unrooted(olds),
        names_unrooted(news),
        !is_rooted(name),
    ensures
        ({
            let k = join_path(f.root_path()@, name);
            let r = additions_map(deletions_map(m, f, olds, news), f, olds, news);
            let o = as_file(lookup(olds, name));
            let n = as_file(lookup(news, name));
            if f.lets_through(name) && o != n {
                r.contains_key(k) && r[k] == (o, n)
            } else {
                r.contains_key(k) == m.contains_key(k) && (m.contains_key(k) ==> r[k] == m[k])
            }
        }),
{
    lemma_deletions_at(m, f, olds, news, name);
    lemma_additions_at(deletions_map(m, f, olds, news), f, olds, news, name);
}

/// A file present in both trees under the same name, with entries that
/// differ, is recorded as modified from the old entry to the new one.
pub proof fn lemma_modified_file_recorded(
    m: Map<Seq<char>, ChangeView>,
    f: PathFilter,
    olds: Seq<(Seq<char>, EntryView)>,
    news: Seq<(Seq<char>, EntryView)>,
    name: Seq<char>,
    old_entry: EntryView,
    new_entry: EntryView,
)
    requires
        keys_unique(olds),
        keys_unique(news),
        names_unrooted(olds),
        names_unrooted(news),
        !is_rooted(name),
        lookup(olds, name) == Some(old_entry),
        lookup(news, name) == Some(new_entry),
        !is_tree_view(old_entry),
        !is_tree_view(new_entry),
        old_entry != new_entry,
        f.lets_through(name),
    ensures
        additions_map(deletions_map(m, f, olds, news), f, olds, news).contains_key(
            join_path(f.root_path()@, name),
        ),
        additions_map(deletions_map(m, f, olds, news), f, olds, news)[join_path(f.root_path()@, name)]
            == (Some(old_entry), Some(new_entry)),
{
    lemma_compared_file_change(m, f, olds, news, name);
}

/// The subtree comparisons left by the entries of the old tree: one for
/// `name` exactly when the old tree holds `name`, the filter lets it through
/// and the tree objects under it differ between the trees.
proof fn lemma_deletion_pending_at(
    f: PathFilter,
    olds: Seq<(Seq<char>, EntryView)>,
    news: Seq<(Seq<char>, EntryView)>,
    name: Seq<char>,
)
    requires
        keys_unique(olds),
        names_unrooted(olds),
    ensures
        ({
            let ps = deletion_pending(f, olds, news);
            let o = lookup(olds, name);
            let n = lookup(news, name);
            &&& (exists|k: int| 0 <= k < ps.len() && #[trigger] ps[k].2 == name) <==> (o is Some
                && f.lets_through(name) && as_tree(o) != as_tree(n))
            &&& forall|k: int|
                0 <= k < ps.len() && #[trigger] ps[k].2 == name ==> ps[k] == (as_tree(o), as_tree(n), name)
        }),
    decreases olds.len(),
{
    if olds.len() > 0 {
        let t = olds.drop_last();
        lemma_lookup_drop_last(olds, name);
        lemma_deletion_pending_at(f, t, news, name);
        let prev = deletion_pending(f, t, news);
        let ps = deletion_pending(f, olds, news);
        let last = olds.last();
        let step = deletion_pending_step(f, last.0, last.1, news);
        if step is Some {
            let x = step->0;
            assert(ps == prev.push(x));
            assert forall|k: int| 0 <= k < prev.len() implies #[trigger] ps[k] == prev[k] by {}
            if exists|k: int| 0 <= k < prev.len() && #[trigger] prev[k].2 == name {
                let k = choose|k: int| 0 <= k < prev.len() && #[trigger] prev[k].2 == name;
                assert(ps[k].2 == name);
            }
            if last.0 == name {
                assert(ps[prev.len() as int].2 == name);
            }
        } else {
            assert(ps == prev);
        }
    }
}

/// The subtree comparisons left by the entries of the new tree: one for
/// `name` exactly when the old tree lacks `name`, the filter lets it through
/// and the new tree holds a tree under it.
proof fn lemma_addition_pending_at(
    f: PathFilter,
    olds: Seq<(Seq<char>, EntryView)>,
    news: Seq<(Seq<char>, EntryView)>,
    name: Seq<char>,
)
    requires
        keys_unique(news),
        names_unrooted(news),
    ensures
        ({
            let ps = addition_pending(f, olds, news);
            let o = lookup(olds, name);
            let n = lookup(news, name);
            &&& (exists|k: int| 0 <= k < ps.len() && #[trigger] ps[k].2 == name) <==> (o is None
                && f.lets_through(name) && as_tree(n) is Some)
            &&& forall|k: int|
                0 <= k < ps.len() && #[trigger] ps[k].2 == name ==> ps[k] == (None::<Seq<char>>, as_tree(n), name)
        }),
    decreases news.len(),
{
    if news.len() > 0 {
        let t = news.drop_last();
        lemma_lookup_drop_last(news, name);
        lemma_addition_pending_at(f, olds, t, name);
        let prev = addition_pending(f, olds, t);
        let ps = addition_pending(f, olds, news);
        let last = news.last();
        let step = addition_pending_step(f, last.0, last.1, olds);
        if step is Some {
            let x = step->0;
            assert(ps == prev.push(x));
            assert forall|k: int| 0 <= k < prev.len() implies #[trigger] ps[k] == prev[k] by {}
            if exists|k: int| 0 <= k < prev.len() && #[trigger] prev[k].2 == name {
                let k = choose|k: int| 0 <= k < prev.len() && #[trigger] prev[k].2 == name;
                assert(ps[k].2 == name);
            }
            if last.0 == name {
                assert(ps[prev.len() as int].2 == name);
            }
        } else {
            assert(ps == prev);
        }
    }
}

/// Law of subtree comparisons: a comparison of two directory levels leaves
/// a comparison below an entry name exactly when the filter lets the name
/// through and the tree under it differs between the trees (a tree on one
/// side only, a tree replaced by a file or the other way round, or a tree
/// whose object changed); the comparison is between the old tree's object
/// and the new tree's, each absent where that side holds no tree there.
pub proof fn lemma_subtree_comparison_left(
    f: PathFilter,
    olds: Seq<(Seq<char>, EntryView)>,
    news: Seq<(Seq<char>, EntryView)>,
    name: Seq<char>,
)
    requires
        keys_unique(olds),
        keys_unique(news),
        names_unrooted(olds),
        names_unrooted(news),
    ensures
        ({
            let ps = deletion_pending(f, olds, news) + addition_pending(f, olds, news);
            let o = as_tree(lookup(olds, name));
            let n = as_tree(lookup(news, name));
            &&& (exists|k: int| 0 <= k < ps.len() && #[trigger] ps[k].2 == name) <==> (
            f.lets_through(name) && o != n)
            &&& forall|k: int| 0 <= k < ps.len() && #[trigger] ps[k].2 == name ==> ps[k] == (o, n, name)
        }),
{
    lemma_deletion_pending_at(f, olds, news, name);
    lemma_addition_pending_at(f, olds, news, name);
    let d = deletion_pending(f, olds, news);
    let a = addition_pending(f, olds, news);
    let ps = d + a;
    assert forall|k: int| 0 <= k < ps.len() implies #[trigger] ps[k] == if k < d.len() {
        d[k]
    } else {
        a[k - d.len()]
    } by {}
    if exists|k: int| 0 <= k < d.len() && #[trigger] d[k].2 == name {
        let k = choose|k: int| 0 <= k < d.len() && #[trigger] d[k].2 == name;
        assert(ps[k].2 == name);
    }
    if exists|k: int| 0 <= k < a.len() && #[trigger] a[k].2 == name {
        let k = choose|k: int| 0 <= k < a.len() && #[trigger] a[k].2 == name;
        assert(ps[k + d.len()].2 == name);
    }
    if exists|k: int| 0 <= k < ps.len() && #[trigger] ps[k].2 == name {
        let k = choose|k: int| 0 <= k < ps.len() && #[trigger] ps[k].2 == name;
        if k < d.len() {
            assert(d[k].2 == name);
        } else {
            assert(a[k - d.len()].2 == name);
        }
    }
    let o = as_tree(lookup(olds, name));
    let n = as_tree(lookup(news, name));
    assert forall|k: int| 0 <= k < ps.len() && #[trigger] ps[k].2 == name implies ps[k] == (o, n, name) by {
        if k < d.len() {
            assert(d[k].2 == name);
        } else {
            assert(a[k - d.len()].2 == name);
        }
    }
}

} // verus!
