//! Path filters backed by a trie of path components.
//!
//! A trie holds a set of paths (sequences of keys). A path filter holds a
//! trie of path components and the directory it has descended to; it keeps
//! the tree entries that lead to, or lie below, one of its paths.
use crate::text::{chars_of, push_char, push_str, string_from_chars};
use vstd::prelude::*;

verus! {

/// Keys of a trie: they can be compared and copied by their views.
pub trait TrieKey: Sized + View {
    /// Whether two keys are equal.
    fn key_eq(&self, other: &Self) -> (r: bool)
        ensures
            r == (self@ == other@),
    ;

    /// A copy of the key.
    fn key_clone(&self) -> (r: Self)
        ensures
            r@ == self@,
    ;
}

impl TrieKey for String {
    fn key_eq(&self, other: &Self) -> (r: bool) {
        *self == *other
    }

    fn key_clone(&self) -> (r: Self) {
        self.clone()
    }
}

impl<'a> TrieKey for &'a str {
    fn key_eq(&self, other: &Self) -> (r: bool) {
        crate::text::str_eq(*self, *other)
    }

    fn key_clone(&self) -> (r: Self) {
        *self
    }
}

impl TrieKey for i32 {
    fn key_eq(&self, other: &Self) -> (r: bool) {
        *self == *other
    }

    fn key_clone(&self) -> (r: Self) {
        *self
    }
}

impl TrieKey for i64 {
    fn key_eq(&self, other: &Self) -> (r: bool) {
        *self == *other
    }

    fn key_clone(&self) -> (r: Self) {
        *self
    }
}

impl TrieKey for u32 {
    fn key_eq(&self, other: &Self) -> (r: bool) {
        *self == *other
    }

    fn key_clone(&self) -> (r: Self) {
        *self
    }
}

impl TrieKey for u64 {
    fn key_eq(&self, other: &Self) -> (r: bool) {
        *self == *other
    }

    fn key_clone(&self) -> (r: Self) {
        *self
    }
}

impl TrieKey for usize {
    fn key_eq(&self, other: &Self) -> (r: bool) {
        *self == *other
    }

    fn key_clone(&self) -> (r: Self) {
        *self
    }
}

/// The views of a sequence of keys.
pub open spec fn key_seq<K: View>(path: Seq<K>) -> Seq<K::V> {
    path.map_values(|k: K| k@)
}

/// A node of a trie: whether a path ends here, and the children by key.
#[derive(Debug)]
#[verifier::reject_recursive_types(K)]
pub struct TrieNode<K: TrieKey> {
    is_end: bool,
    children: Vec<(K, TrieNode<K>)>,
}

impl<K: TrieKey> TrieNode<K> {
    /// Whether the path `p` (from this node) is in the trie.
    pub closed spec fn has_path(self, p: Seq<K::V>) -> bool
        decreases p.len(),
    {
        if p.len() == 0 {
            self.is_end
        } else {
            exists|i: int|
                0 <= i < self.children@.len() && #[trigger] self.children@[i].0@ == p[0]
                    && self.children@[i].1.has_path(p.drop_first())
        }
    }

    /// Whether a path ends here or the node has a child.
    pub closed spec fn live(self) -> bool {
        self.is_end || self.children@.len() > 0
    }

    /// Well-formedness: the keys of the children are distinct, and every
    /// child is live and well formed.
    pub closed spec fn wf(self) -> bool
        decreases self,
    {
        &&& forall|i: int, j: int|
            0 <= i < j < self.children@.len() ==> #[trigger] self.children@[i].0@
                != #[trigger] self.children@[j].0@
        &&& forall|i: int|
            0 <= i < self.children@.len() ==> (#[trigger] self.children@[i]).1.wf()
                && self.children@[i].1.live()
    }

    /// A node without children.
    pub fn new() -> (r: Self)
        ensures
            r.wf(),
            forall|p: Seq<K::V>| !r.has_path(p),
    {
        TrieNode { is_end: false, children: Vec::new() }
    }

    /// A node without children, where a path ends when `is_matching` holds.
    pub fn with_matching(is_matching: bool) -> (r: Self)
        ensures
            r.wf(),
            forall|p: Seq<K::V>| r.has_path(p) == (p.len() == 0 && is_matching),
    {
        TrieNode { is_end: is_matching, children: Vec::new() }
    }

    proof fn lemma_live_has_path(self)
        requires
            self.wf(),
            self.live(),
        ensures
            exists|p: Seq<K::V>| self.has_path(p),
        decreases self,
    {
        if self.is_end {
            assert(self.has_path(Seq::empty()));
        } else {
            let c = self.children@[0].1;
            assert(c.wf() && c.live());
            c.lemma_live_has_path();
            let p = choose|p: Seq<K::V>| c.has_path(p);
            let q = seq![self.children@[0].0@] + p;
            assert(q.drop_first() =~= p);
            assert(self.has_path(q));
        }
    }

    proof fn lemma_has_path_child(self, q: Seq<K::V>, j: int)
        requires
            self.wf(),
            q.len() > 0,
            0 <= j < self.children@.len(),
            self.children@[j].0@ == q[0],
        ensures
            self.has_path(q) == self.children@[j].1.has_path(q.drop_first()),
    {
        if self.has_path(q) {
            let i = choose|i: int|
                0 <= i < self.children@.len() && #[trigger] self.children@[i].0@ == q[0]
                    && self.children@[i].1.has_path(q.drop_first());
            if i != j {
                if i < j {
                    assert(self.children@[i].0@ != self.children@[j].0@);
                } else {
                    assert(self.children@[j].0@ != self.children@[i].0@);
                }
            }
        }
    }

    proof fn lemma_has_path_no_child(self, q: Seq<K::V>)
        requires
            q.len() > 0,
            forall|j: int| 0 <= j < self.children@.len() ==> #[trigger] self.children@[j].0@ != q[0],
        ensures
            !self.has_path(q),
    {
    }

    /// Paths that do not start with the key of child `j` are unaffected by
    /// replacing that child or adding a child with a new key.
    proof fn lemma_same_other_children(self, other: Self, q: Seq<K::V>, key: K::V)
        requires
            q.len() > 0,
            q[0] != key,
            forall|i: int|
                0 <= i < other.children@.len() && #[trigger] other.children@[i].0@ != key ==> (
                i < self.children@.len() && self.children@[i] == other.children@[i]),
            forall|i: int|
                0 <= i < self.children@.len() && #[trigger] self.children@[i].0@ != key ==> (
                i < other.children@.len() && self.children@[i] == other.children@[i]),
        ensures
            self.has_path(q) == other.has_path(q),
    {
        if self.has_path(q) {
            let w = choose|w: int|
                0 <= w < self.children@.len() && #[trigger] self.children@[w].0@ == q[0]
                    && self.children@[w].1.has_path(q.drop_first());
            assert(other.children@[w].0@ == q[0]);
        }
        if other.has_path(q) {
            let w = choose|w: int|
                0 <= w < other.children@.len() && #[trigger] other.children@[w].0@ == q[0]
                    && other.children@[w].1.has_path(q.drop_first());
            assert(self.children@[w].0@ == q[0]);
        }
    }

    fn find_child(&self, key: &K) -> (r: usize)
        ensures
            r <= self.children@.len(),
            r < self.children@.len() ==> self.children@[r as int].0@ == key@,
            forall|j: int| 0 <= j < r ==> #[trigger] self.children@[j].0@ != key@,
    {
        let mut j: usize = 0;
        while j < self.children.len()
            invariant
                j <= self.children@.len(),
                forall|k: int| 0 <= k < j ==> #[trigger] self.children@[k].0@ != key@,
            decreases self.children@.len() - j,
        {
            if self.children[j].0.key_eq(key) {
                return j;
            }
            j = j + 1;
        }
        j
    }

    /// Adds the path `path[i..]` below this node.
    fn insert_from(&mut self, path: &[K], i: usize)
        requires
            old(self).wf(),
            i <= path@.len(),
        ensures
            final(self).wf(),
            final(self).live(),
            forall|q: Seq<K::V>|
                #[trigger] final(self).has_path(q) == (old(self).has_path(q) || q == key_seq(
                    path@,
                ).subrange(i as int, path@.len() as int)),
        decreases path@.len() - i,
    {
        let ghost r = key_seq(path@).subrange(i as int, path@.len() as int);
        if i == path.len() {
            self.is_end = true;
            assert forall|q: Seq<K::V>| #[trigger]
                self.has_path(q) == (old(self).has_path(q) || q == r) by {
                if q.len() > 0 {
                    assert(self.children@ == old(self).children@);
                } else {
                    assert(q =~= r);
                }
            }
            return;
        }
        let j = self.find_child(&path[i]);
        let ghost old_self = *self;
        let ghost rest = key_seq(path@).subrange(i + 1, path@.len() as int);
        assert(r.drop_first() =~= rest);
        assert(r[0] == path@[i as int]@);
        let ghost key_v = path@[i as int]@;
        let ghost new_index: int;
        if j < self.children.len() {
            let (k, mut child) = self.children.remove(j);
            assert(old_self.children@[j as int].1.wf());
            child.insert_from(path, i + 1);
            self.children.insert(j, (k, child));
            assert(self.children@ =~= old_self.children@.update(j as int, (k, child)));
            proof {
                new_index = j as int;
            }
        } else {
            let mut child: TrieNode<K> = TrieNode::new();
            child.insert_from(path, i + 1);
            let key = path[i].key_clone();
            self.children.push((key, child));
            assert(self.children@ =~= old_self.children@.push((key, child)));
            proof {
                new_index = old_self.children@.len() as int;
            }
        }
        let ghost cur = *self;
        assert(cur.children@[new_index].0@ == key_v);
        assert(forall|q: Seq<K::V>|
            #[trigger] cur.children@[new_index].1.has_path(q) == ((new_index
                < old_self.children@.len() && old_self.children@[new_index].1.has_path(q)) || q
                == rest));
        assert(forall|a: int|
            0 <= a < cur.children@.len() && a != new_index ==> #[trigger] cur.children@[a]
                == old_self.children@[a]);
        assert forall|a: int, b: int|
            0 <= a < b < cur.children@.len() implies #[trigger] cur.children@[a].0@
            != #[trigger] cur.children@[b].0@ by {
            if b < old_self.children@.len() {
                assert(old_self.children@[a].0@ != old_self.children@[b].0@);
            }
        }
        assert forall|a: int| 0 <= a < cur.children@.len() implies (
        #[trigger] cur.children@[a]).1.wf() && cur.children@[a].1.live() by {
            if a != new_index {
                assert(old_self.children@[a].1.wf());
            }
        }
        assert(cur.wf());
        assert forall|q: Seq<K::V>| #[trigger] cur.has_path(q) == (old_self.has_path(q) || q == r) by {
            if q.len() > 0 {
                if q[0] == key_v {
                    cur.lemma_has_path_child(q, new_index);
                    if new_index < old_self.children@.len() {
                        old_self.lemma_has_path_child(q, new_index);
                    } else {
                        old_self.lemma_has_path_no_child(q);
                    }
                    if q == r {
                        assert(q.drop_first() == rest);
                    }
                    if q.drop_first() == rest {
                        assert(q.len() == r.len());
                        assert forall|m: int| 0 <= m < q.len() implies q[m] == r[m] by {
                            if m > 0 {
                                assert(q[m] == q.drop_first()[m - 1]);
                                assert(r[m] == r.drop_first()[m - 1]);
                            }
                        }
                        assert(q =~= r);
                    }
                } else {
                    cur.lemma_same_other_children(old_self, q, key_v);
                    assert(q != r);
                }
            }
        }
    }

    /// Whether the path `path[i..]` is in the trie below this node.
    fn contains_from(&self, path: &[K], i: usize) -> (r: bool)
        requires
            self.wf(),
            i <= path@.len(),
        ensures
            r == self.has_path(key_seq(path@).subrange(i as int, path@.len() as int)),
        decreases path@.len() - i,
    {
        let ghost q = key_seq(path@).subrange(i as int, path@.len() as int);
        if i == path.len() {
            return self.is_end;
        }
        let j = self.find_child(&path[i]);
        if j < self.children.len() {
            proof {
                self.lemma_has_path_child(q, j as int);
                assert(q.drop_first() =~= key_seq(path@).subrange(i + 1, path@.len() as int));
            }
            self.children[j].1.contains_from(path, i + 1)
        } else {
            proof {
                self.lemma_has_path_no_child(q);
            }
            false
        }
    }

    /// Whether a path ends here or some path starts with `part`.
    fn partly_contains_node(&self, part: &K) -> (r: bool)
        requires
            self.wf(),
        ensures
            r == (self.has_path(Seq::empty()) || exists|p: Seq<K::V>|
                #[trigger] self.has_path(p) && p.len() > 0 && p[0] == part@),
    {
        if self.is_end {
            return true;
        }
        let j = self.find_child(part);
        if j < self.children.len() {
            proof {
                let c = self.children@[j as int].1;
                assert(c.wf() && c.live());
                c.lemma_live_has_path();
                let p = choose|p: Seq<K::V>| c.has_path(p);
                let q = seq![part@] + p;
                assert(q.drop_first() =~= p);
                self.lemma_has_path_child(q, j as int);
                assert(self.has_path(q));
            }
            true
        } else {
            proof {
                assert forall|p: Seq<K::V>| #[trigger]
                    self.has_path(p) && p.len() > 0 implies p[0] != part@ by {
                    if p[0] == part@ {
                        self.lemma_has_path_no_child(p);
                    }
                }
            }
            false
        }
    }

    /// A copy of the subtree below this node.
    fn deep_clone(&self) -> (r: Self)
        requires
            self.wf(),
        ensures
            r.wf(),
            r.live() == self.live(),
            forall|q: Seq<K::V>| #[trigger] r.has_path(q) == self.has_path(q),
        decreases self,
    {
        let mut children: Vec<(K, TrieNode<K>)> = Vec::new();
        let mut i: usize = 0;
        while i < self.children.len()
            invariant
                self.wf(),
                i <= self.children@.len(),
                children@.len() == i,
                forall|a: int| 0 <= a < i ==> (#[trigger] children@[a]).0@ == self.children@[a].0@,
                forall|a: int| 0 <= a < i ==> (#[trigger] children@[a]).1.wf() && children@[a].1.live(),
                forall|a: int, q: Seq<K::V>|
                    0 <= a < i ==> #[trigger] children@[a].1.has_path(q)
                        == self.children@[a].1.has_path(q),
            decreases self.children@.len() - i,
        {
            assert(self.children@[i as int].1.wf());
            let key = self.children[i].0.key_clone();
            let sub = self.children[i].1.deep_clone();
            children.push((key, sub));
            i = i + 1;
        }
        let r = TrieNode { is_end: self.is_end, children };
        assert forall|q: Seq<K::V>| #[trigger] r.has_path(q) == self.has_path(q) by {
            if q.len() > 0 {
                if r.has_path(q) {
                    let w = choose|w: int|
                        0 <= w < r.children@.len() && #[trigger] r.children@[w].0@ == q[0]
                            && r.children@[w].1.has_path(q.drop_first());
                    assert(self.children@[w].0@ == q[0]);
                    assert(self.children@[w].1.has_path(q.drop_first()));
                }
                if self.has_path(q) {
                    let w = choose|w: int|
                        0 <= w < self.children@.len() && #[trigger] self.children@[w].0@ == q[0]
                            && self.children@[w].1.has_path(q.drop_first());
                    assert(r.children@[w].0@ == q[0]);
                    assert(r.children@[w].1.has_path(q.drop_first()));
                }
            }
        }
        assert forall|a: int, b: int|
            0 <= a < b < r.children@.len() implies #[trigger] r.children@[a].0@
            != #[trigger] r.children@[b].0@ by {
            assert(self.children@[a].0@ != self.children@[b].0@);
        }
        r
    }
}

/// A trie of paths; each path is a sequence of keys.
#[derive(Debug)]
#[verifier::reject_recursive_types(K)]
pub struct SharedTrie<K: TrieKey> {
    root: TrieNode<K>,
}

impl<K: TrieKey> SharedTrie<K> {
    /// The root node is well formed.
    #[verifier::type_invariant]
    spec fn inv(self) -> bool {
        self.root.wf()
    }

    /// Whether the trie holds the path `p`.
    pub closed spec fn contains_spec(self, p: Seq<K::V>) -> bool {
        self.root.has_path(p)
    }

    /// An empty trie.
    pub fn new() -> (r: Self)
        ensures
            forall|p: Seq<K::V>| !r.contains_spec(p),
    {
        SharedTrie { root: TrieNode::new() }
    }

    /// A trie that holds the empty path exactly when `is_matching` holds.
    pub fn with_matching(is_matching: bool) -> (r: Self)
        ensures
            forall|p: Seq<K::V>| r.contains_spec(p) == (p.len() == 0 && is_matching),
    {
        SharedTrie { root: TrieNode::with_matching(is_matching) }
    }

    /// Whether the trie holds the empty path, so that every path matches below it.
    pub fn is_root_matching(&self) -> (r: bool)
        ensures
            r == self.contains_spec(Seq::empty()),
    {
        self.root.is_end
    }

    /// Adds a path.
    pub fn insert(&mut self, path: &[K])
        ensures
            forall|q: Seq<K::V>|
                #[trigger] final(self).contains_spec(q) == (old(self).contains_spec(q) || q
                    == key_seq(path@)),
    {
        proof {
            use_type_invariant(&*self);
        }
        let mut root = TrieNode::new();
        std::mem::swap(&mut root, &mut self.root);
        root.insert_from(path, 0);
        assert(key_seq(path@).subrange(0, path@.len() as int) =~= key_seq(path@));
        self.root = root;
    }

    /// Whether the trie holds a path.
    pub fn contains(&self, path: &[K]) -> (r: bool)
        ensures
            r == self.contains_spec(key_seq(path@)),
    {
        proof {
            use_type_invariant(self);
        }
        assert(key_seq(path@).subrange(0, path@.len() as int) =~= key_seq(path@));
        self.root.contains_from(path, 0)
    }

    /// Whether the trie holds the empty path or a path that starts with `path_part`.
    pub fn partly_contains(&self, path_part: &K) -> (r: bool)
        ensures
            r == (self.contains_spec(Seq::empty()) || exists|p: Seq<K::V>|
                #[trigger] self.contains_spec(p) && p.len() > 0 && p[0] == path_part@),
    {
        proof {
            use_type_invariant(self);
        }
        let r = self.root.partly_contains_node(path_part);
        proof {
            if r && !self.root.has_path(Seq::empty()) {
                let p = choose|p: Seq<K::V>|
                    #[trigger] self.root.has_path(p) && p.len() > 0 && p[0] == path_part@;
                assert(self.contains_spec(p));
            }
            if !r {
                assert forall|p: Seq<K::V>| #[trigger]
                    self.contains_spec(p) && p.len() > 0 implies p[0] != path_part@ by {
                    assert(self.root.has_path(p));
                }
            }
        }
        r
    }

    /// The trie of the paths that continue a path starting with `key`.
    pub fn subtrie(&self, key: &K) -> (r: Self)
        ensures
            forall|q: Seq<K::V>| #[trigger] r.contains_spec(q) == self.contains_spec(seq![key@] + q),
    {
        proof {
            use_type_invariant(self);
        }
        let j = self.root.find_child(key);
        if j < self.root.children.len() {
            assert(self.root.children@[j as int].1.wf());
            let sub = self.root.children[j].1.deep_clone();
            let r = SharedTrie { root: sub };
            assert forall|q: Seq<K::V>| #[trigger]
                r.contains_spec(q) == self.contains_spec(seq![key@] + q) by {
                let full = seq![key@] + q;
                assert(full.drop_first() =~= q);
                self.root.lemma_has_path_child(full, j as int);
            }
            r
        } else {
            let r = SharedTrie::new();
            assert forall|q: Seq<K::V>| #[trigger]
                r.contains_spec(q) == self.contains_spec(seq![key@] + q) by {
                self.root.lemma_has_path_no_child(seq![key@] + q);
            }
            r
        }
    }
}

impl<K: TrieKey> Clone for SharedTrie<K> {
    fn clone(&self) -> (r: Self)
        ensures
            forall|q: Seq<K::V>| #[trigger] r.contains_spec(q) == self.contains_spec(q),
    {
        proof {
            use_type_invariant(self);
        }
        SharedTrie { root: self.root.deep_clone() }
    }
}

/// Whether a path piece is kept as a component: it is not empty, and it is
/// not `.` unless it is the first piece of a relative path.
pub open spec fn keep_piece(piece: Seq<char>, index: nat, absolute: bool) -> bool {
    piece.len() > 0 && !(piece == seq!['.'] && (index > 0 || absolute))
}

/// The components found so far, the current piece and its index.
pub open spec fn split_state(s: Seq<char>) -> (Seq<Seq<char>>, Seq<char>, nat)
    decreases s.len(),
{
    if s.len() == 0 {
        (seq![], seq![], 0)
    } else {
        let prev = split_state(s.drop_last());
        if s.last() == '/' {
            (
                if keep_piece(prev.1, prev.2, s[0] == '/') {
                    prev.0.push(prev.1)
                } else {
                    prev.0
                },
                seq![],
                prev.2 + 1,
            )
        } else {
            (prev.0, prev.1.push(s.last()), prev.2)
        }
    }
}

/// The pieces that a path is split into hold no `/`.
pub proof fn lemma_split_pieces_plain(s: Seq<char>)
    ensures
        forall|k: int|
            0 <= k < split_state(s).0.len() ==> !(#[trigger] split_state(s).0[k]).contains('/'),
        !split_state(s).1.contains('/'),
    decreases s.len(),
{
    if s.len() > 0 {
        lemma_split_pieces_plain(s.drop_last());
        let prev = split_state(s.drop_last());
        if s.last() != '/' {
            assert forall|i: int| 0 <= i < prev.1.push(s.last()).len() implies prev.1.push(
                s.last(),
            )[i] != '/' by {
                if i < prev.1.len() {
                    assert(prev.1.push(s.last())[i] == prev.1[i]);
                }
            }
        } else {
            assert forall|k: int| 0 <= k < split_state(s).0.len() implies !(
            #[trigger] split_state(s).0[k]).contains('/') by {
                if k < prev.0.len() {
                    assert(split_state(s).0[k] == prev.0[k]);
                }
            }
        }
    }
}

/// Every component of a path other than a leading `/` holds no `/`.
pub proof fn lemma_components_plain(s: Seq<char>)
    ensures
        forall|k: int|
            0 <= k < path_components(s).len() && path_components(s)[k] != seq!['/'] ==> !(
            #[trigger] path_components(s)[k]).contains('/'),
{
    lemma_split_pieces_plain(s);
    let st = split_state(s);
    let absolute = s.len() > 0 && s[0] == '/';
    let comps = if keep_piece(st.1, st.2, absolute) {
        st.0.push(st.1)
    } else {
        st.0
    };
    assert forall|k: int| 0 <= k < comps.len() implies !(#[trigger] comps[k]).contains('/') by {
        if k < st.0.len() {
            assert(comps[k] == st.0[k]);
        }
    }
    if absolute {
        assert forall|k: int|
            0 <= k < path_components(s).len() && path_components(s)[k] != seq!['/'] implies !(
            #[trigger] path_components(s)[k]).contains('/') by {
            if k > 0 {
                assert(path_components(s)[k] == comps[k - 1]);
            }
        }
    }
}

/// The components of a path (`Path::components`): a leading `/` for an
/// absolute path, then the non-empty pieces between `/` separators, where `.`
/// is kept only as the first piece of a relative path.
pub open spec fn path_components(s: Seq<char>) -> Seq<Seq<char>> {
    let st = split_state(s);
    let absolute = s.len() > 0 && s[0] == '/';
    let comps = if keep_piece(st.1, st.2, absolute) {
        st.0.push(st.1)
    } else {
        st.0
    };
    if absolute {
        seq![seq!['/']] + comps
    } else {
        comps
    }
}

/// `a` joined with `b` (`PathBuf::push`): `b` when it is absolute or `a` is
/// empty, `a` and `b` with a `/` between them otherwise.
pub open spec fn join_path(a: Seq<char>, b: Seq<char>) -> Seq<char> {
    if (b.len() > 0 && b[0] == '/') || a.len() == 0 {
        b
    } else if a.last() == '/' {
        a + b
    } else {
        a + seq!['/'] + b
    }
}

/// The components of a path.
pub fn components_of(path: &str) -> (r: Vec<String>)
    ensures
        r@.map_values(|c: String| c@) == path_components(path@),
{
    let cs = chars_of(path);
    let absolute = cs.len() > 0 && cs[0] == '/';
    let mut done: Vec<String> = Vec::new();
    let mut cur: Vec<char> = Vec::new();
    let mut idx: usize = 0;
    let mut i: usize = 0;
    while i < cs.len()
        invariant
            i <= cs@.len(),
            cs@ == path@,
            absolute == (cs@.len() > 0 && cs@[0] == '/'),
            idx <= i,
            (done@.map_values(|c: String| c@), cur@, idx as nat) == split_state(
                cs@.take(i as int),
            ),
        decreases cs@.len() - i,
    {
        let ghost pre = cs@.take(i + 1);
        assert(pre.drop_last() =~= cs@.take(i as int));
        assert(pre.last() == cs@[i as int]);
        assert(pre[0] == cs@[0]);
        if cs[i] == '/' {
            let is_dot = cur.len() == 1 && cur[0] == '.';
            proof {
                if is_dot {
                    assert(cur@ =~= seq!['.']);
                }
            }
            if cur.len() > 0 && !(is_dot && (idx > 0 || absolute)) {
                let ghost before = done@.map_values(|c: String| c@);
                let piece = string_from_chars(cur.as_slice());
                done.push(piece);
                assert(done@.map_values(|c: String| c@) =~= before.push(cur@));
            }
            cur = Vec::new();
            idx = idx + 1;
        } else {
            cur.push(cs[i]);
        }
        i = i + 1;
    }
    assert(cs@.take(cs@.len() as int) =~= cs@);
    let is_dot = cur.len() == 1 && cur[0] == '.';
    proof {
        if is_dot {
            assert(cur@ =~= seq!['.']);
        }
    }
    if cur.len() > 0 && !(is_dot && (idx > 0 || absolute)) {
        let ghost before = done@.map_values(|c: String| c@);
        let piece = string_from_chars(cur.as_slice());
        done.push(piece);
        assert(done@.map_values(|c: String| c@) =~= before.push(cur@));
    }
    if absolute {
        let mut out: Vec<String> = Vec::new();
        let mut root = String::new();
        push_char(&mut root, '/');
        out.push(root);
        let ghost tail = done@.map_values(|c: String| c@);
        let mut k: usize = 0;
        while k < done.len()
            invariant
                k <= done@.len(),
                tail == done@.map_values(|c: String| c@),
                out@.map_values(|c: String| c@) == seq![seq!['/']] + tail.take(k as int),
            decreases done@.len() - k,
        {
            let ghost before = out@;
            out.push(done[k].clone());
            assert(out@ =~= before.push(done@[k as int]));
            assert(tail[k as int] == done@[k as int]@);
            assert(out@.map_values(|c: String| c@) =~= before.map_values(|c: String| c@).push(
                done@[k as int]@,
            ));
            assert(tail.take(k + 1) =~= tail.take(k as int).push(tail[k as int]));
            assert(out@.map_values(|c: String| c@) =~= seq![seq!['/']] + tail.take(k + 1));
            k = k + 1;
        }
        assert(tail.take(done@.len() as int) =~= tail);
        out
    } else {
        done
    }
}

/// A filter over tree entries by a set of paths, descended to a directory.
#[derive(Debug)]
pub struct PathFilter {
    path_trie: SharedTrie<String>,
    root_path: String,
}

impl Clone for PathFilter {
    fn clone(&self) -> (r: Self)
        ensures
            r.root_path()@ == self.root_path()@,
            forall|q: Seq<Seq<char>>| #[trigger] r.matches_path(q) == self.matches_path(q),
    {
        PathFilter { path_trie: self.path_trie.clone(), root_path: self.root_path.clone() }
    }
}

/// Keeps the entries whose names a filter lets through.
pub open spec fn filter_entries_spec<'e, E>(f: PathFilter, s: Seq<(&'e String, &'e E)>) -> Seq<
    (&'e String, &'e E),
>
    decreases s.len(),
{
    if s.len() == 0 {
        s
    } else {
        let rest = filter_entries_spec(f, s.drop_last());
        if f.lets_through(s.last().0@) {
            rest.push(s.last())
        } else {
            rest
        }
    }
}

impl PathFilter {
    /// Whether the filter holds the path `q` (below its current directory).
    pub closed spec fn matches_path(self, q: Seq<Seq<char>>) -> bool {
        self.path_trie.contains_spec(q)
    }

    /// The directory the filter has descended to.
    pub closed spec fn root_path(self) -> String {
        self.root_path
    }

    /// Whether the filter lets an entry named `name` through: every entry
    /// passes once a path has been matched in full, and otherwise an entry
    /// passes when some path continues with it.
    pub open spec fn lets_through(self, name: Seq<char>) -> bool {
        self.matches_path(Seq::empty()) || exists|p: Seq<Seq<char>>|
            #[trigger] self.matches_path(p) && p.len() > 0 && p[0] == name
    }

    /// A filter that lets every entry through.
    pub fn empty() -> (r: Self)
        ensures
            r.root_path()@ == Seq::<char>::empty(),
            forall|q: Seq<Seq<char>>| #[trigger] r.matches_path(q) == (q.len() == 0),
    {
        PathFilter { path_trie: SharedTrie::with_matching(true), root_path: String::new() }
    }

    /// A filter for the given paths, split into components.
    pub fn new(paths: Vec<String>) -> (r: Self)
        ensures
            r.root_path()@ == Seq::<char>::empty(),
            forall|q: Seq<Seq<char>>| #[trigger]
                r.matches_path(q) == exists|i: int|
                    0 <= i < paths@.len() && q == path_components(#[trigger] paths@[i]@),
    {
        let mut trie: SharedTrie<String> = SharedTrie::new();
        let mut i: usize = 0;
        while i < paths.len()
            invariant
                i <= paths@.len(),
                forall|q: Seq<Seq<char>>| #[trigger]
                    trie.contains_spec(q) == exists|j: int|
                        0 <= j < i && q == path_components(#[trigger] paths@[j]@),
            decreases paths@.len() - i,
        {
            let comps = components_of(paths[i].as_str());
            assert(key_seq(comps@) == comps@.map_values(|c: String| c@));
            let ghost before = trie;
            trie.insert(comps.as_slice());
            assert forall|q: Seq<Seq<char>>| #[trigger]
                trie.contains_spec(q) == exists|j: int|
                    0 <= j < i + 1 && q == path_components(#[trigger] paths@[j]@) by {
                if q == path_components(paths@[i as int]@) {
                    assert(trie.contains_spec(q));
                }
                if trie.contains_spec(q) && q != path_components(paths@[i as int]@) {
                    assert(before.contains_spec(q));
                }
            }
            i = i + 1;
        }
        PathFilter { path_trie: trie, root_path: String::new() }
    }

    /// The directory the filter has descended to.
    pub fn path(&self) -> (r: &str)
        ensures
            r@ == self.root_path()@,
    {
        self.root_path.as_str()
    }

    /// Whether the filter lets an entry named `name` through.
    pub fn lets_through_exec(&self, name: &String) -> (r: bool)
        ensures
            r == self.lets_through(name@),
    {
        let r = self.path_trie.partly_contains(name);
        proof {
            if r && !self.matches_path(Seq::empty()) {
                let p = choose|p: Seq<Seq<char>>|
                    #[trigger] self.path_trie.contains_spec(p) && p.len() > 0 && p[0] == name@;
                assert(self.matches_path(p));
            }
            if !r {
                assert forall|p: Seq<Seq<char>>| #[trigger]
                    self.matches_path(p) && p.len() > 0 implies p[0] != name@ by {
                    assert(self.path_trie.contains_spec(p));
                }
            }
        }
        r
    }

    /// The entries whose names the filter lets through, in order.
    pub fn filter_matching_entries<'e, E>(&self, entries: Vec<(&'e String, &'e E)>) -> (r: Vec<
        (&'e String, &'e E),
    >)
        ensures
            r@ == filter_entries_spec(*self, entries@),
    {
        let mut out: Vec<(&'e String, &'e E)> = Vec::new();
        let mut i: usize = 0;
        while i < entries.len()
            invariant
                i <= entries@.len(),
                out@ == filter_entries_spec(*self, entries@.take(i as int)),
            decreases entries@.len() - i,
        {
            let ghost pre = entries@.take(i + 1);
            assert(pre.drop_last() =~= entries@.take(i as int));
            let e = entries[i];
            if self.lets_through_exec(e.0) {
                out.push(e);
            }
            i = i + 1;
        }
        assert(entries@.take(entries@.len() as int) =~= entries@);
        out
    }

    /// The filter for the entries below the subdirectory `subpath`.
    ///
    /// Once a path has been matched in full, everything below passes;
    /// otherwise the filter keeps the paths that continue with `subpath`.
    pub fn join_subpath_filter(&self, subpath: &String) -> (r: Self)
        ensures
            r.root_path()@ == join_path(self.root_path()@, subpath@),
            forall|q: Seq<Seq<char>>| #[trigger]
                r.matches_path(q) == if self.matches_path(Seq::empty()) {
                    self.matches_path(q)
                } else {
                    self.matches_path(seq![subpath@] + q)
                },
    {
        let new_trie = if self.path_trie.is_root_matching() {
            self.path_trie.clone()
        } else {
            self.path_trie.subtrie(subpath)
        };
        let new_root_path = join_path_exec(self.root_path.as_str(), subpath.as_str());
        PathFilter { path_trie: new_trie, root_path: new_root_path }
    }
}

/// `a` joined with `b` as `PathBuf::push` does it.
pub fn join_path_exec(a: &str, b: &str) -> (r: String)
    ensures
        r@ == join_path(a@, b@),
{
    let ca = chars_of(a);
    let cb = chars_of(b);
    if (cb.len() > 0 && cb[0] == '/') || ca.len() == 0 {
        return string_from_chars(cb.as_slice());
    }
    let mut out = string_from_chars(ca.as_slice());
    if ca[ca.len() - 1] != '/' {
        push_char(&mut out, '/');
    }
    push_str(&mut out, b);
    out
}

/// Law of entry filtering: the entries kept are exactly those whose names
/// the filter lets through, in their order.
pub proof fn lemma_filter_entries_keeps_let_through<'e, E>(f: PathFilter, s: Seq<(&'e String, &'e E)>)
    ensures
        filter_entries_spec(f, s) == s.filter(|x: (&'e String, &'e E)| f.lets_through(x.0@)),
    decreases s.len(),
{
    reveal(Seq::filter);
    if s.len() > 0 {
        lemma_filter_entries_keeps_let_through(f, s.drop_last());
    }
}

} // verus!
