//! The commits that `log` shows: those reachable from the included
//! revisions, newest first, leaving out those reachable from the excluded
//! ones, and, when files are given, the commits that do not change them.
//!
//! The traversal works over a set of commits given by their identifiers,
//! parents and times (every commit that it may reach), and over whether the
//! changes between a commit and each parent touch the given files. A queue
//! holds the commits seen and not yet taken; the newest is taken first.
//! When revisions are excluded or files given, the history is scanned at
//! once and the commits kept are then handed out newest first; otherwise
//! the parents of each commit are queued as it is handed out.
use crate::artifacts::merge::bca_finder::{
    closed_under_parents, graph_wf, lemma_closed_holds_reachable, lemma_reachable_extend,
    lemma_reachable_self, newer_spec, parents_known, parents_table, reachable, reaches_from_targets, BCAFinder,
    SlimCommit,
};
use crate::areas::refs::HEAD_REF_NAME;
use crate::artifacts::branch::revision::{parse_revision, revision_view, Revision, RevisionError, RevisionView};
use crate::artifacts::objects::object_id::ObjectId;
use crate::commands::log::{log_target_view, LogRevisionTargets, LogTargetView};
use crate::path_order::{lemma_order_irreflexive, lemma_order_transitive};
use vstd::prelude::*;

verus! {

/// The number of `false` entries.
pub open spec fn count_false(s: Seq<bool>) -> nat
    decreases s.len(),
{
    if s.len() == 0 {
        0
    } else {
        count_false(s.drop_last()) + if s.last() {
            0nat
        } else {
            1nat
        }
    }
}

/// Setting a `false` entry lowers the count by one.
proof fn lemma_count_false_set(s: Seq<bool>, i: int)
    requires
        0 <= i < s.len(),
        !s[i],
    ensures
        count_false(s.update(i, true)) + 1 == count_false(s),
    decreases s.len(),
{
    let u = s.update(i, true);
    if i == s.len() - 1 {
        assert(u.drop_last() =~= s.drop_last());
    } else {
        assert(u.drop_last() =~= s.drop_last().update(i, true));
        lemma_count_false_set(s.drop_last(), i);
    }
}

/// Being newer is transitive.
proof fn lemma_newer_transitive(times: Seq<i64>, oids: Seq<Seq<char>>, a: int, b: int, c: int)
    requires
        newer_spec(times, oids, a, b),
        newer_spec(times, oids, b, c),
    ensures
        newer_spec(times, oids, a, c),
{
    if times[a] == times[b] && times[b] == times[c] {
        lemma_order_transitive(oids[c], oids[b], oids[a], false);
    }
}

/// No commit is newer than itself.
proof fn lemma_newer_irreflexive(times: Seq<i64>, oids: Seq<Seq<char>>, a: int)
    ensures
        !newer_spec(times, oids, a, a),
{
    lemma_order_irreflexive(oids[a], false);
}

/// Whether commit `i` is in the list `q`.
pub open spec fn listed(q: Seq<usize>, i: int) -> bool {
    exists|k: int| 0 <= k < q.len() && q[k] as int == i
}

/// Whether no entry occurs twice.
pub open spec fn distinct(s: Seq<usize>) -> bool {
    forall|a: int, b: int| 0 <= a < b < s.len() ==> #[trigger] s[a] != #[trigger] s[b]
}

/// How building the list fails.
#[derive(Debug)]
pub enum RevListError {
    /// A parent of some commit is not among the commits given.
    UnknownParent,
    /// A starting commit is not among the commits given.
    CommitNotFound(ObjectId),
}

/// The traversal of the commit history for `log`.
pub struct RevList {
    graph: BCAFinder,
    unchanged: Vec<Vec<bool>>,
    filtering: bool,
    fetched: Vec<bool>,
    seen: Vec<bool>,
    added: Vec<bool>,
    uninteresting: Vec<bool>,
    tree_same: Vec<bool>,
    queue: Vec<usize>,
    is_limited: bool,
    output: Vec<usize>,
    included: Ghost<Seq<usize>>,
    excluded: Ghost<Seq<usize>>,
}

impl RevList {
    /// The parents of each commit, by position.
    pub closed spec fn graph_view(self) -> Seq<Seq<usize>> {
        self.graph.graph()
    }

    /// The identifiers of the commits, by position.
    pub closed spec fn oids(self) -> Seq<Seq<char>> {
        self.graph.oids()
    }

    /// The times of the commits, by position.
    pub closed spec fn times(self) -> Seq<i64> {
        self.graph.times()
    }

    /// The included starting commits, by position.
    pub closed spec fn included(self) -> Seq<usize> {
        self.included@
    }

    /// The excluded starting commits, by position.
    pub closed spec fn excluded(self) -> Seq<usize> {
        self.excluded@
    }

    /// The commits waiting to be handed out.
    pub closed spec fn queue_view(self) -> Seq<usize> {
        self.queue@
    }

    /// Whether the history was scanned at once (revisions excluded or files
    /// given).
    pub closed spec fn limited(self) -> bool {
        self.is_limited
    }

    /// Whether the traversal is consistent: the marks and queues range over
    /// the commits, every queued or kept commit was seen and read, none is
    /// listed twice, and each is reachable from an included start unless it
    /// is marked uninteresting. Without limiting nothing is uninteresting and
    /// nothing is kept.
    pub closed spec fn wf_core(self) -> bool {
        let n = self.graph.oids().len();
        let g = self.graph.graph();
        &&& graph_wf(g)
        &&& g.len() == n
        &&& self.graph.times().len() == n
        &&& self.fetched@.len() == n
        &&& self.seen@.len() == n
        &&& self.added@.len() == n
        &&& self.uninteresting@.len() == n
        &&& self.tree_same@.len() == n
        &&& forall|t: int| 0 <= t < self.included@.len() ==> #[trigger] self.included@[t] < n
        &&& forall|k: int|
            0 <= k < self.queue@.len() ==> #[trigger] self.queue@[k] < n && self.seen@[self.queue@[k] as int]
        &&& forall|k: int|
            0 <= k < self.output@.len() ==> #[trigger] self.output@[k] < n && self.seen@[self.output@[k] as int]
        &&& forall|i: int| 0 <= i < n && #[trigger] self.seen@[i] ==> self.fetched@[i]
        &&& distinct(self.queue@)
        &&& distinct(self.output@)
        &&& forall|a: int, b: int|
            0 <= a < self.queue@.len() && 0 <= b < self.output@.len() ==> #[trigger] self.queue@[a]
                != #[trigger] self.output@[b]
        &&& forall|k: int|
            0 <= k < self.queue@.len() ==> self.uninteresting@[#[trigger] self.queue@[k] as int]
                || reaches_from_targets(g, self.included@, self.queue@[k] as int)
        &&& forall|k: int|
            0 <= k < self.output@.len() ==> self.uninteresting@[#[trigger] self.output@[k] as int]
                || reaches_from_targets(g, self.included@, self.output@[k] as int)
        &&& self.filtering ==> self.is_limited
        &&& !self.is_limited ==> self.output@.len() == 0 && forall|i: int|
            0 <= i < n ==> !#[trigger] self.uninteresting@[i]
    }

    /// Whether the traversal is ready to hand out commits: it is consistent,
    /// keeps nothing apart from the queue, queues no uninteresting commit,
    /// and, without limiting, has handed out none yet: the included starts
    /// were seen, and exactly the queued commits were.
    pub closed spec fn wf(self) -> bool {
        let n = self.graph.oids().len();
        &&& self.wf_core()
        &&& forall|t: int|
            0 <= t < self.excluded@.len() ==> #[trigger] self.excluded@[t] < n && self.uninteresting@[
                self.excluded@[t] as int]
        &&& self.output@.len() == 0
        &&& forall|k: int| 0 <= k < self.queue@.len() ==> !self.uninteresting@[#[trigger] self.queue@[k] as int]
        &&& !self.is_limited ==> {
            &&& forall|i: int| 0 <= i < n ==> !#[trigger] self.added@[i]
            &&& forall|i: int| 0 <= i < n ==> (#[trigger] self.seen@[i] <==> listed(self.queue@, i))
            &&& forall|t: int| 0 <= t < self.included@.len() ==> self.seen@[#[trigger] self.included@[t] as int]
        }
    }
}

/// A commit is listed after pushing exactly when it was listed before or
/// is the one pushed.
proof fn lemma_listed_push(q: Seq<usize>, i: usize, x: int)
    ensures
        listed(q.push(i), x) <==> (listed(q, x) || x == i as int),
{
    let p = q.push(i);
    if listed(p, x) {
        let k = choose|k: int| 0 <= k < p.len() && p[k] as int == x;
        if k < q.len() {
            assert(q[k] == p[k]);
        }
    }
    if listed(q, x) {
        let k = choose|k: int| 0 <= k < q.len() && q[k] as int == x;
        assert(p[k] == q[k]);
    }
    if x == i as int {
        assert(p[q.len() as int] == i);
    }
}

/// The position in the queue of its newest commit.
fn newest_index(graph: &BCAFinder, queue: &Vec<usize>) -> (k: usize)
    requires
        queue@.len() > 0,
        forall|m: int| 0 <= m < queue@.len() ==> #[trigger] queue@[m] < graph.oids().len(),
    ensures
        k < queue@.len(),
        forall|m: int|
            0 <= m < queue@.len() ==> !newer_spec(
                graph.times(),
                graph.oids(),
                #[trigger] queue@[m] as int,
                queue@[k as int] as int,
            ),
{
    let mut best: usize = 0;
    let mut k: usize = 1;
    proof {
        lemma_newer_irreflexive(graph.times(), graph.oids(), queue@[0] as int);
    }
    while k < queue.len()
        invariant
            queue@.len() > 0,
            best < queue@.len(),
            1 <= k <= queue@.len(),
            forall|m: int| 0 <= m < queue@.len() ==> #[trigger] queue@[m] < graph.oids().len(),
            forall|m: int|
                0 <= m < k ==> !newer_spec(
                    graph.times(),
                    graph.oids(),
                    #[trigger] queue@[m] as int,
                    queue@[best as int] as int,
                ),
        decreases queue@.len() - k,
    {
        if graph.is_newer(queue[k], queue[best]) {
            proof {
                let t = graph.times();
                let o = graph.oids();
                let c = queue@[k as int] as int;
                let b = queue@[best as int] as int;
                assert forall|m: int| 0 <= m < k + 1 implies !newer_spec(
                    t,
                    o,
                    #[trigger] queue@[m] as int,
                    c,
                ) by {
                    if m == k {
                        lemma_newer_irreflexive(t, o, c);
                    } else if newer_spec(t, o, queue@[m] as int, c) {
                        lemma_newer_transitive(t, o, queue@[m] as int, c, b);
                    }
                }
            }
            best = k;
        } else {
            assert(!newer_spec(graph.times(), graph.oids(), queue@[k as int] as int, queue@[best as int] as int));
        }
        k = k + 1;
    }
    best
}

impl RevList {
    /// Records that commit `i` was read.
    fn load_commit(&mut self, i: usize)
        requires
            old(self).wf_core(),
            i < old(self).graph.oids().len(),
        ensures
            final(self).wf_core(),
            final(self).fetched@ == old(self).fetched@.update(i as int, true),
            final(self).graph == old(self).graph,
            final(self).unchanged == old(self).unchanged,
            final(self).filtering == old(self).filtering,
            final(self).seen == old(self).seen,
            final(self).added == old(self).added,
            final(self).uninteresting == old(self).uninteresting,
            final(self).tree_same == old(self).tree_same,
            final(self).queue == old(self).queue,
            final(self).is_limited == old(self).is_limited,
            final(self).output == old(self).output,
            final(self).included == old(self).included,
            final(self).excluded == old(self).excluded,
    {
        self.fetched.set(i, true);
    }

    /// Queues commit `i` unless it was seen before.
    fn enqueue_commit(&mut self, i: usize)
        requires
            old(self).wf_core(),
            i < old(self).graph.oids().len(),
            old(self).fetched@[i as int],
            old(self).uninteresting@[i as int] || reaches_from_targets(
                old(self).graph.graph(),
                old(self).included@,
                i as int,
            ),
        ensures
            final(self).wf_core(),
            final(self).seen@ == old(self).seen@.update(i as int, true),
            count_false(final(self).seen@) + final(self).queue@.len() == count_false(old(self).seen@)
                + old(self).queue@.len(),
            final(self).queue@ == if old(self).seen@[i as int] {
                old(self).queue@
            } else {
                old(self).queue@.push(i)
            },
            final(self).graph == old(self).graph,
            final(self).unchanged == old(self).unchanged,
            final(self).filtering == old(self).filtering,
            final(self).fetched == old(self).fetched,
            final(self).added == old(self).added,
            final(self).uninteresting == old(self).uninteresting,
            final(self).tree_same == old(self).tree_same,
            final(self).is_limited == old(self).is_limited,
            final(self).output == old(self).output,
            final(self).included == old(self).included,
            final(self).excluded == old(self).excluded,
    {
        if !self.seen[i] {
            let ghost q = self.queue@;
            proof {
                lemma_count_false_set(self.seen@, i as int);
            }
            self.seen.set(i, true);
            self.queue.push(i);
            proof {
                assert(self.queue@ =~= q.push(i));
                assert forall|k: int| 0 <= k < q.len() implies #[trigger] q[k] != i by {
                    assert(old(self).seen@[q[k] as int]);
                }
                assert forall|b: int| 0 <= b < self.output@.len() implies #[trigger] self.output@[b] != i by {
                    assert(old(self).seen@[self.output@[b] as int]);
                }
            }
        }
    }
}

impl RevList {
    /// Marks as uninteresting the parents of commit `i` and, through the
    /// commits that were read, their ancestors.
    fn mark_parents_uninteresting(&mut self, i: usize)
        requires
            old(self).wf_core(),
            i < old(self).graph.oids().len(),
            old(self).is_limited,
        ensures
            final(self).wf_core(),
            final(self).uninteresting@.len() == old(self).uninteresting@.len(),
            forall|x: int|
                0 <= x < old(self).uninteresting@.len() && #[trigger] old(self).uninteresting@[x]
                    ==> final(self).uninteresting@[x],
            old(self).fetched@[i as int] ==> forall|j: int|
                0 <= j < old(self).graph.graph()[i as int].len() ==> final(self).uninteresting@[(
                #[trigger] old(self).graph.graph()[i as int][j]) as int],
            final(self).graph == old(self).graph,
            final(self).unchanged == old(self).unchanged,
            final(self).filtering == old(self).filtering,
            final(self).fetched == old(self).fetched,
            final(self).seen == old(self).seen,
            final(self).added == old(self).added,
            final(self).tree_same == old(self).tree_same,
            final(self).queue == old(self).queue,
            final(self).is_limited == old(self).is_limited,
            final(self).output == old(self).output,
            final(self).included == old(self).included,
            final(self).excluded == old(self).excluded,
    {
        if !self.fetched[i] {
            return;
        }
        let n = self.graph.len();
        let ps = self.graph.parents_at(i);
        let mut work: Vec<usize> = ps.clone();
        let ghost psv = ps@;
        let mut k: usize = 0;
        while k < work.len()
            invariant
                self.wf_core(),
                self.is_limited,
                n == self.graph.oids().len(),
                k <= work@.len(),
                psv.len() <= work@.len(),
                psv == old(self).graph.graph()[i as int],
                forall|m: int| 0 <= m < psv.len() ==> #[trigger] work@[m] == psv[m],
                forall|m: int| 0 <= m < work@.len() ==> #[trigger] work@[m] < n,
                forall|m: int| 0 <= m < k && m < psv.len() ==> self.uninteresting@[#[trigger] psv[m] as int],
                self.uninteresting@.len() == old(self).uninteresting@.len(),
                forall|x: int|
                    0 <= x < old(self).uninteresting@.len() && #[trigger] old(self).uninteresting@[x]
                        ==> self.uninteresting@[x],
                self.graph == old(self).graph,
                self.unchanged == old(self).unchanged,
                self.filtering == old(self).filtering,
                self.fetched == old(self).fetched,
                self.seen == old(self).seen,
                self.added == old(self).added,
                self.tree_same == old(self).tree_same,
                self.queue == old(self).queue,
                self.is_limited == old(self).is_limited,
                self.output == old(self).output,
                self.included == old(self).included,
                self.excluded == old(self).excluded,
            decreases count_false(self.uninteresting@), work@.len() - k,
        {
            let o = work[k];
            let ghost before = self.uninteresting@;
            if !self.uninteresting[o] {
                proof {
                    lemma_count_false_set(self.uninteresting@, o as int);
                }
                let ghost prior = *self;
                self.uninteresting.set(o, true);
                proof {
                    lemma_wf_more_uninteresting(prior, *self);
                }
                if self.fetched[o] {
                    let qs = self.graph.parents_at(o);
                    let mut j: usize = 0;
                    while j < qs.len()
                        invariant
                            j <= qs@.len(),
                            k < work@.len(),
                            psv.len() <= work@.len(),
                            forall|m: int| 0 <= m < psv.len() ==> #[trigger] work@[m] == psv[m],
                            forall|m: int| 0 <= m < work@.len() ==> #[trigger] work@[m] < n,
                            forall|m: int| 0 <= m < qs@.len() ==> #[trigger] qs@[m] < n,
                        decreases qs@.len() - j,
                    {
                        work.push(qs[j]);
                        j = j + 1;
                    }
                }
            }
            assert(self.uninteresting@[o as int]);
            assert(self.uninteresting@ == before || self.uninteresting@ == before.update(o as int, true));
            proof {
                assert forall|m: int| 0 <= m < k + 1 && m < psv.len() implies self.uninteresting@[
                    #[trigger] psv[m] as int] by {
                    let x = psv[m] as int;
                    assert(work@[m] == psv[m]);
                    if m < k {
                        assert(before[x]);
                        if x != o as int {
                            assert(self.uninteresting@[x] == before[x]);
                        }
                    } else {
                        assert(work@[m] == psv[m]);
                        assert(x == o as int);
                    }
                }
            }
            k = k + 1;
        }
    }
}

/// Marking more commits uninteresting keeps a limited traversal
/// consistent.
proof fn lemma_wf_more_uninteresting(a: RevList, b: RevList)
    requires
        a.wf_core(),
        a.is_limited,
        b.graph == a.graph,
        b.unchanged == a.unchanged,
        b.filtering == a.filtering,
        b.fetched == a.fetched,
        b.seen == a.seen,
        b.added == a.added,
        b.tree_same == a.tree_same,
        b.queue == a.queue,
        b.is_limited == a.is_limited,
        b.output == a.output,
        b.included == a.included,
        b.uninteresting@.len() == a.uninteresting@.len(),
        forall|x: int|
            0 <= x < a.uninteresting@.len() && #[trigger] a.uninteresting@[x] ==> b.uninteresting@[x],
    ensures
        b.wf_core(),
{
    let g = b.graph.graph();
    assert forall|k: int| 0 <= k < b.queue@.len() implies b.uninteresting@[#[trigger] b.queue@[k] as int]
        || reaches_from_targets(g, b.included@, b.queue@[k] as int) by {
        assert(a.uninteresting@[a.queue@[k] as int] || reaches_from_targets(g, a.included@, a.queue@[k] as int));
    }
    assert forall|k: int| 0 <= k < b.output@.len() implies b.uninteresting@[#[trigger] b.output@[k] as int]
        || reaches_from_targets(g, b.included@, b.output@[k] as int) by {
        assert(a.uninteresting@[a.output@[k] as int] || reaches_from_targets(g, a.included@, a.output@[k] as int));
    }
}

/// Whether `p` is a parent of commit `i`.
pub open spec fn is_parent_of(g: Seq<Seq<usize>>, i: int, p: usize) -> bool {
    exists|j: int| 0 <= j < g[i].len() && #[trigger] g[i][j] == p
}

/// A copy of a list of positions.
fn copy_indices(v: &Vec<usize>) -> (r: Vec<usize>)
    ensures
        r@ == v@,
{
    let mut r: Vec<usize> = Vec::new();
    let mut k: usize = 0;
    while k < v.len()
        invariant
            k <= v@.len(),
            r@ == v@.take(k as int),
        decreases v@.len() - k,
    {
        r.push(v[k]);
        assert(v@.take(k + 1) =~= v@.take(k as int).push(v@[k as int]));
        k = k + 1;
    }
    assert(v@.take(v@.len() as int) =~= v@);
    r
}

/// Whether the changes between commit `i` and its parent slot `j` (the one
/// slot of a commit without parents) leave the given files alone.
pub open spec fn unchanged_view(u: Seq<Vec<bool>>, i: int, j: int) -> bool {
    0 <= i < u.len() && 0 <= j < u[i]@.len() && u[i]@[j]
}

/// The first parent slot of commit `i`, from `from` on and below `slots`,
/// whose changes leave the given files alone; `slots` when there is none.
pub open spec fn first_same_slot(u: Seq<Vec<bool>>, i: int, slots: int, from: int) -> int
    decreases slots - from,
{
    if from >= slots {
        slots
    } else if unchanged_view(u, i, from) {
        from
    } else {
        first_same_slot(u, i, slots, from + 1)
    }
}

/// The number of parent slots of a commit with these parents: one for a
/// commit without parents.
pub open spec fn slot_count(ps: Seq<usize>) -> int {
    if ps.len() == 0 {
        1
    } else {
        ps.len() as int
    }
}

/// The parents of commit `i` (with parents `ps`) that the log follows: all
/// of them without file filtering; with it, the parent of the first slot
/// whose changes leave the files alone (none for a commit without parents),
/// or all of them when no slot does.
pub open spec fn followed_parents(ps: Seq<usize>, u: Seq<Vec<bool>>, i: int, filtering: bool) -> Seq<
    usize,
> {
    let j = first_same_slot(u, i, slot_count(ps), 0);
    if !filtering || j >= slot_count(ps) {
        ps
    } else if ps.len() == 0 {
        Seq::empty()
    } else {
        seq![ps[j]]
    }
}

/// The first slot found is the first slot, from `from` on, that leaves the
/// files alone.
proof fn lemma_first_same_slot(u: Seq<Vec<bool>>, i: int, slots: int, from: int, j: int)
    requires
        0 <= from <= j <= slots,
        j < slots ==> unchanged_view(u, i, j),
        forall|k: int| from <= k < j ==> !unchanged_view(u, i, k),
    ensures
        first_same_slot(u, i, slots, from) == j,
    decreases j - from,
{
    if from < j {
        lemma_first_same_slot(u, i, slots, from + 1, j);
    }
}

/// Law of history simplification: without file filtering the log follows
/// every parent; with it, a commit whose changes relative to parent slot `j`
/// (the first such slot) leave the files alone is followed to that parent
/// alone, and a commit that changes the files relative to every parent is
/// followed to all of them. A root commit that leaves the files alone is
/// followed nowhere.
pub proof fn lemma_followed_parents(ps: Seq<usize>, u: Seq<Vec<bool>>, i: int, j: int)
    ensures
        followed_parents(ps, u, i, false) == ps,
        0 <= j < ps.len() && unchanged_view(u, i, j) && (forall|k: int|
            0 <= k < j ==> !unchanged_view(u, i, k)) ==> followed_parents(ps, u, i, true) == seq![
            ps[j],
        ],
        ps.len() == 0 && unchanged_view(u, i, 0) ==> followed_parents(ps, u, i, true) == Seq::<
            usize,
        >::empty(),
        (forall|k: int| 0 <= k < slot_count(ps) ==> !unchanged_view(u, i, k)) ==> followed_parents(
            ps,
            u,
            i,
            true,
        ) == ps,
{
    if 0 <= j < ps.len() && unchanged_view(u, i, j) && (forall|k: int|
        0 <= k < j ==> !unchanged_view(u, i, k)) {
        lemma_first_same_slot(u, i, slot_count(ps), 0, j);
    }
    if ps.len() == 0 && unchanged_view(u, i, 0) {
        lemma_first_same_slot(u, i, slot_count(ps), 0, 0);
    }
    if forall|k: int| 0 <= k < slot_count(ps) ==> !unchanged_view(u, i, k) {
        lemma_first_same_slot(u, i, slot_count(ps), 0, slot_count(ps));
    }
}

/// A parent of a commit reachable from the targets is reachable from them.
proof fn lemma_reaches_parent(g: Seq<Seq<usize>>, targets: Seq<usize>, i: int, j: int)
    requires
        reaches_from_targets(g, targets, i),
        0 <= j < g[i].len(),
    ensures
        reaches_from_targets(g, targets, g[i][j] as int),
{
    let t = choose|t: int| 0 <= t < targets.len() && reachable(g, #[trigger] targets[t] as int, i);
    lemma_reachable_extend(g, targets[t] as int, i, j);
}

impl RevList {
    /// Whether the changes between commit `i` and its parent slot `j` leave
    /// the given files alone.
    fn unchanged_at(&self, i: usize, j: usize) -> (r: bool)
        ensures
            r == unchanged_view(self.unchanged@, i as int, j as int),
    {
        i < self.unchanged.len() && j < self.unchanged[i].len() && self.unchanged[i][j]
    }

    /// The parents of commit `i` to follow: all of them, unless files are
    /// given and the commit leaves them as one parent slot has them; then
    /// that parent alone (none for a commit without parents), and the commit
    /// is marked as the same tree.
    fn simplify_commit(&mut self, i: usize) -> (r: Vec<usize>)
        requires
            old(self).wf_core(),
            i < old(self).graph.oids().len(),
        ensures
            final(self).wf_core(),
            forall|m: int|
                0 <= m < r@.len() ==> is_parent_of(old(self).graph.graph(), i as int, #[trigger] r@[m]),
            !old(self).filtering ==> r@ == old(self).graph.graph()[i as int],
            r@ == followed_parents(
                old(self).graph.graph()[i as int],
                old(self).unchanged@,
                i as int,
                old(self).filtering,
            ),
            final(self).tree_same@.len() == old(self).tree_same@.len(),
            final(self).graph == old(self).graph,
            final(self).unchanged == old(self).unchanged,
            final(self).filtering == old(self).filtering,
            final(self).fetched == old(self).fetched,
            final(self).seen == old(self).seen,
            final(self).added == old(self).added,
            final(self).uninteresting == old(self).uninteresting,
            final(self).queue == old(self).queue,
            final(self).is_limited == old(self).is_limited,
            final(self).output == old(self).output,
            final(self).included == old(self).included,
            final(self).excluded == old(self).excluded,
    {
        let ps = copy_indices(self.graph.parents_at(i));
        let ghost g = self.graph.graph();
        assert forall|m: int| 0 <= m < ps@.len() implies is_parent_of(g, i as int, #[trigger] ps@[m]) by {
            assert(g[i as int][m] == ps@[m]);
        }
        if !self.filtering {
            return ps;
        }
        let slots = if ps.len() == 0 {
            1
        } else {
            ps.len()
        };
        let mut j: usize = 0;
        while j < slots
            invariant
                j <= slots,
                slots == if ps@.len() == 0 {
                    1
                } else {
                    ps@.len()
                },
                ps@ == g[i as int],
                g == self.graph.graph(),
                i < self.graph.oids().len(),
                self.wf_core(),
                self.filtering,
                *self == *old(self),
                slots == slot_count(ps@),
                first_same_slot(self.unchanged@, i as int, slots as int, 0) == first_same_slot(
                    self.unchanged@,
                    i as int,
                    slots as int,
                    j as int,
                ),
            decreases slots - j,
        {
            if self.unchanged_at(i, j) {
                self.tree_same.set(i, true);
                let mut r: Vec<usize> = Vec::new();
                if ps.len() > 0 {
                    r.push(ps[j]);
                    assert(r@[0] == g[i as int][j as int]);
                }
                return r;
            }
            j = j + 1;
        }
        ps
    }
}

impl RevList {
    /// Queues the parents of commit `i` once: for an uninteresting commit
    /// all of them, marked uninteresting with their ancestors; otherwise the
    /// parents that simplifying keeps.
    fn add_parent(&mut self, i: usize)
        requires
            old(self).wf_core(),
            i < old(self).graph.oids().len(),
            old(self).uninteresting@[i as int] || reaches_from_targets(
                old(self).graph.graph(),
                old(self).included@,
                i as int,
            ),
        ensures
            final(self).wf_core(),
            final(self).graph == old(self).graph,
            final(self).unchanged == old(self).unchanged,
            final(self).filtering == old(self).filtering,
            final(self).is_limited == old(self).is_limited,
            final(self).output == old(self).output,
            final(self).included == old(self).included,
            final(self).excluded == old(self).excluded,
            forall|x: int|
                0 <= x < old(self).seen@.len() && #[trigger] old(self).seen@[x] ==> final(self).seen@[x],
            forall|x: int|
                0 <= x < old(self).uninteresting@.len() && #[trigger] old(self).uninteresting@[x]
                    ==> final(self).uninteresting@[x],
            final(self).queue@.len() >= old(self).queue@.len(),
            count_false(final(self).seen@) + final(self).queue@.len() == count_false(old(self).seen@)
                + old(self).queue@.len(),
            final(self).queue@.subrange(0, old(self).queue@.len() as int) == old(self).queue@,
            forall|k: int|
                old(self).queue@.len() <= k < final(self).queue@.len() ==> !old(self).seen@[(
                #[trigger] final(self).queue@[k]) as int],
            forall|x: int|
                0 <= x < old(self).seen@.len() && #[trigger] final(self).seen@[x] && !old(self).seen@[x]
                    ==> listed(final(self).queue@, x),
            final(self).added@ == if old(self).fetched@[i as int] && !old(self).added@[i as int] {
                old(self).added@.update(i as int, true)
            } else {
                old(self).added@
            },
            !old(self).is_limited && old(self).fetched@[i as int] && !old(self).added@[i as int]
                ==> forall|j: int|
                0 <= j < old(self).graph.graph()[i as int].len() ==> final(self).seen@[(
                #[trigger] old(self).graph.graph()[i as int][j]) as int],
    {
        if !self.fetched[i] || self.added[i] {
            return;
        }
        let ghost start = *self;
        let ghost g = self.graph.graph();
        let n = self.graph.len();
        self.added.set(i, true);
        let is_unint = self.uninteresting[i];
        let ps: Vec<usize> = if is_unint {
            let ps = copy_indices(self.graph.parents_at(i));
            let mut k: usize = 0;
            while k < ps.len()
                invariant
                    self.wf_core(),
                    k <= ps@.len(),
                    ps@ == g[i as int],
                    g == self.graph.graph(),
                    n == self.graph.oids().len(),
                    i < n,
                    self.fetched@[i as int],
                    self.uninteresting@[i as int],
                    self.is_limited,
                    forall|m: int| 0 <= m < ps@.len() ==> #[trigger] ps@[m] < n,
                    forall|m: int| 0 <= m < k ==> self.fetched@[#[trigger] ps@[m] as int],
                    k > 0 ==> forall|m: int| 0 <= m < ps@.len() ==> self.uninteresting@[#[trigger] ps@[m] as int],
                    self.graph == start.graph,
                    self.unchanged == start.unchanged,
                    self.filtering == start.filtering,
                    self.seen == start.seen,
                    self.added@ == start.added@.update(i as int, true),
                    self.queue == start.queue,
                    self.is_limited == start.is_limited,
                    self.output == start.output,
                    self.included == start.included,
                    self.excluded == start.excluded,
                    forall|x: int|
                        0 <= x < n && #[trigger] start.uninteresting@[x] ==> self.uninteresting@[x],
                    self.uninteresting@.len() == n,
                decreases ps@.len() - k,
            {
                self.load_commit(ps[k]);
                self.mark_parents_uninteresting(i);
                k = k + 1;
            }
            ps
        } else {
            let ps = self.simplify_commit(i);
            let mut k: usize = 0;
            while k < ps.len()
                invariant
                    self.wf_core(),
                    k <= ps@.len(),
                    g == self.graph.graph(),
                    n == self.graph.oids().len(),
                    i < n,
                    forall|m: int| 0 <= m < ps@.len() ==> is_parent_of(g, i as int, #[trigger] ps@[m]),
                    forall|m: int| 0 <= m < k ==> self.fetched@[#[trigger] ps@[m] as int],
                    self.graph == start.graph,
                    self.unchanged == start.unchanged,
                    self.filtering == start.filtering,
                    self.seen == start.seen,
                    self.added@ == start.added@.update(i as int, true),
                    self.uninteresting == start.uninteresting,
                    self.queue == start.queue,
                    self.is_limited == start.is_limited,
                    self.output == start.output,
                    self.included == start.included,
                    self.excluded == start.excluded,
                decreases ps@.len() - k,
            {
                proof {
                    let j = choose|j: int| 0 <= j < g[i as int].len() && #[trigger] g[i as int][j] == ps@[k as int];
                }
                self.load_commit(ps[k]);
                k = k + 1;
            }
            ps
        };
        proof {
            assert forall|m: int| 0 <= m < ps@.len() implies self.uninteresting@[#[trigger] ps@[m] as int]
                || reaches_from_targets(g, self.included@, ps@[m] as int) by {
                if !is_unint {
                    assert(is_parent_of(g, i as int, ps@[m]));
                    let j = choose|j: int| 0 <= j < g[i as int].len() && #[trigger] g[i as int][j] == ps@[m];
                    lemma_reaches_parent(g, self.included@, i as int, j);
                }
            }
            assert forall|m: int| 0 <= m < ps@.len() implies #[trigger] ps@[m] < n by {
                if !is_unint {
                    assert(is_parent_of(g, i as int, ps@[m]));
                    let j = choose|j: int| 0 <= j < g[i as int].len() && #[trigger] g[i as int][j] == ps@[m];
                }
            }
        }
        let ghost mid = *self;
        let mut k: usize = 0;
        while k < ps.len()
            invariant
                self.wf_core(),
                k <= ps@.len(),
                g == self.graph.graph(),
                n == self.graph.oids().len(),
                forall|m: int| 0 <= m < ps@.len() ==> #[trigger] ps@[m] < n,
                forall|m: int| 0 <= m < ps@.len() ==> self.fetched@[#[trigger] ps@[m] as int],
                forall|m: int|
                    0 <= m < ps@.len() ==> self.uninteresting@[#[trigger] ps@[m] as int]
                        || reaches_from_targets(g, self.included@, ps@[m] as int),
                forall|m: int| 0 <= m < k ==> self.seen@[#[trigger] ps@[m] as int],
                self.graph == mid.graph,
                self.unchanged == mid.unchanged,
                self.filtering == mid.filtering,
                self.fetched == mid.fetched,
                self.added == mid.added,
                self.uninteresting == mid.uninteresting,
                self.is_limited == mid.is_limited,
                self.output == mid.output,
                self.included == mid.included,
                self.excluded == mid.excluded,
                self.seen@.len() == n,
                forall|x: int| 0 <= x < n && #[trigger] mid.seen@[x] ==> self.seen@[x],
                self.queue@.len() >= mid.queue@.len(),
                count_false(self.seen@) + self.queue@.len() == count_false(mid.seen@) + mid.queue@.len(),
                self.queue@.subrange(0, mid.queue@.len() as int) == mid.queue@,
                forall|j: int|
                    mid.queue@.len() <= j < self.queue@.len() ==> !mid.seen@[(#[trigger] self.queue@[j]) as int],
                forall|x: int|
                    0 <= x < n && #[trigger] self.seen@[x] && !mid.seen@[x] ==> listed(self.queue@, x),
            decreases ps@.len() - k,
        {
            let ghost before = *self;
            let p = ps[k];
            self.enqueue_commit(p);
            proof {
                if !before.seen@[p as int] {
                    assert(!mid.seen@[p as int]);
                    assert(self.queue@ == before.queue@.push(p));
                    assert(self.queue@.subrange(0, mid.queue@.len() as int) =~= before.queue@.subrange(
                        0,
                        mid.queue@.len() as int,
                    ));
                    assert forall|j: int| mid.queue@.len() <= j < self.queue@.len() implies !mid.seen@[(
                    #[trigger] self.queue@[j]) as int] by {
                        if j < before.queue@.len() {
                            assert(self.queue@[j] == before.queue@[j]);
                        } else {
                            assert(self.queue@[j] == p);
                        }
                    }
                    assert forall|x: int| 0 <= x < n && #[trigger] self.seen@[x] && !mid.seen@[x] implies listed(
                        self.queue@,
                        x,
                    ) by {
                        lemma_listed_push(before.queue@, p, x);
                        if x != p as int {
                            assert(before.seen@[x]);
                        }
                    }
                } else {
                    assert(self.seen@ =~= before.seen@);
                }
                assert forall|m: int| 0 <= m < k + 1 implies self.seen@[#[trigger] ps@[m] as int] by {
                    if m < k {
                        assert(before.seen@[ps@[m] as int]);
                    }
                }
            }
            k = k + 1;
        }
        proof {
            if !start.is_limited {
                assert(ps@ == g[i as int]);
                assert forall|j: int| 0 <= j < g[i as int].len() implies self.seen@[(#[trigger] g[
                    i as int][j]) as int] by {
                    assert(ps@[j] == g[i as int][j]);
                }
            }
        }
    }
}

/// Whether scanning should go on: commits are queued, and either the
/// oldest kept commit is no newer than some queued one, or some queued
/// commit is not uninteresting.
pub open spec fn still_interesting(
    queue: Seq<usize>,
    output: Seq<usize>,
    uninteresting: Seq<bool>,
    times: Seq<i64>,
) -> bool {
    &&& queue.len() > 0
    &&& (output.len() > 0 && exists|k: int|
        0 <= k < queue.len() && times[output.last() as int] <= times[#[trigger] queue[k] as int])
        || exists|k: int| 0 <= k < queue.len() && !uninteresting[#[trigger] queue[k] as int]
}

impl RevList {
    /// Whether scanning the history should go on.
    fn is_still_interesting(&self) -> (r: bool)
        requires
            self.wf_core(),
        ensures
            r == still_interesting(self.queue@, self.output@, self.uninteresting@, self.graph.times()),
    {
        if self.queue.len() == 0 {
            return false;
        }
        let b = newest_index(&self.graph, &self.queue);
        let newest = self.queue[b];
        if self.output.len() > 0 {
            let last = self.output[self.output.len() - 1];
            if self.graph.timestamp_at(last) <= self.graph.timestamp_at(newest) {
                return true;
            }
            proof {
                let t = self.graph.times();
                assert forall|k: int| 0 <= k < self.queue@.len() implies !(t[self.output@.last() as int]
                    <= t[#[trigger] self.queue@[k] as int]) by {
                    assert(!newer_spec(t, self.graph.oids(), self.queue@[k] as int, newest as int));
                }
            }
        }
        let mut k: usize = 0;
        while k < self.queue.len()
            invariant
                self.wf_core(),
                k <= self.queue@.len(),
                forall|m: int| 0 <= m < k ==> self.uninteresting@[#[trigger] self.queue@[m] as int],
            decreases self.queue@.len() - k,
        {
            if !self.uninteresting[self.queue[k]] {
                return true;
            }
            k = k + 1;
        }
        false
    }

    /// Scans the history: takes the newest queued commit while scanning
    /// should go on, queues its parents and keeps it unless it is
    /// uninteresting; then queues again the kept commits that are neither
    /// uninteresting nor the same tree as a parent.
    fn limit_to_interesting_commits(&mut self)
        requires
            old(self).wf_core(),
            old(self).is_limited,
        ensures
            final(self).wf_core(),
            final(self).is_limited,
            final(self).graph == old(self).graph,
            final(self).included == old(self).included,
            final(self).excluded == old(self).excluded,
            final(self).output@.len() == 0,
            final(self).uninteresting@.len() == old(self).uninteresting@.len(),
            forall|x: int|
                0 <= x < old(self).uninteresting@.len() && #[trigger] old(self).uninteresting@[x]
                    ==> final(self).uninteresting@[x],
            forall|k: int|
                0 <= k < final(self).queue@.len() ==> !final(self).uninteresting@[
                    #[trigger] final(self).queue@[k] as int],
    {
        while self.is_still_interesting()
            invariant
                self.wf_core(),
                self.is_limited,
                self.uninteresting@.len() == old(self).uninteresting@.len(),
                forall|x: int|
                    0 <= x < old(self).uninteresting@.len() && #[trigger] old(self).uninteresting@[x]
                        ==> self.uninteresting@[x],
                self.graph == old(self).graph,
                self.included == old(self).included,
                self.excluded == old(self).excluded,
            decreases count_false(self.seen@) + self.queue@.len(),
        {
            let b = newest_index(&self.graph, &self.queue);
            let ghost q = self.queue@;
            let i = self.queue.remove(b);
            proof {
                assert(q[b as int] == i);
                assert forall|a: int, c: int| 0 <= a < c < self.queue@.len() implies #[trigger] self.queue@[a]
                    != #[trigger] self.queue@[c] by {
                    let a2 = if a < b { a } else { a + 1 };
                    let c2 = if c < b { c } else { c + 1 };
                    assert(self.queue@[a] == q[a2]);
                    assert(self.queue@[c] == q[c2]);
                }
                assert forall|k: int| 0 <= k < self.queue@.len() implies #[trigger] self.queue@[k] != i by {
                    let k2 = if k < b { k } else { k + 1 };
                    assert(self.queue@[k] == q[k2]);
                }
                assert forall|k: int| 0 <= k < self.queue@.len() implies (#[trigger] self.queue@[k] < self.graph.oids().len()
                    && self.seen@[self.queue@[k] as int] && (self.uninteresting@[self.queue@[k] as int]
                    || reaches_from_targets(self.graph.graph(), self.included@, self.queue@[k] as int))
                    && forall|o: int| 0 <= o < self.output@.len() ==> self.queue@[k] != #[trigger] self.output@[o]) by {
                    let k2 = if k < b { k } else { k + 1 };
                    assert(self.queue@[k] == q[k2]);
                }
            }
            let ghost q1 = self.queue@;
            let ghost s1 = self.seen@;
            let ghost u1 = self.uninteresting@;
            assert(s1[i as int]);
            assert(u1[i as int] || reaches_from_targets(self.graph.graph(), self.included@, i as int));
            self.add_parent(i);
            if !self.uninteresting[i] {
                proof {
                    assert forall|k: int| 0 <= k < self.queue@.len() implies #[trigger] self.queue@[k] != i by {
                        if k < q1.len() {
                            assert(self.queue@.subrange(0, q1.len() as int)[k] == q1[k]);
                        } else {
                            assert(!s1[self.queue@[k] as int]);
                        }
                    }
                    assert forall|o: int| 0 <= o < self.output@.len() implies #[trigger] self.output@[o] != i by {
                        assert(q[b as int] != self.output@[o]);
                    }
                    assert(!u1[i as int]);
                }
                self.output.push(i);
                proof {
                    let out = self.output@;
                    assert forall|a: int, c: int| 0 <= a < c < out.len() implies #[trigger] out[a] != #[trigger] out[c] by {
                        if c == out.len() - 1 {
                            assert(out[c] == i);
                        }
                    }
                    assert forall|a: int, c: int|
                        0 <= a < self.queue@.len() && 0 <= c < out.len() implies #[trigger] self.queue@[a]
                        != #[trigger] out[c] by {
                        if c == out.len() - 1 {
                            assert(out[c] == i);
                        }
                    }
                }
            }
        }
        let mut kept: Vec<usize> = Vec::new();
        let mut k: usize = 0;
        while k < self.output.len()
            invariant
                self.wf_core(),
                self.is_limited,
                self.uninteresting@.len() == old(self).uninteresting@.len(),
                forall|x: int|
                    0 <= x < old(self).uninteresting@.len() && #[trigger] old(self).uninteresting@[x]
                        ==> self.uninteresting@[x],
                self.graph == old(self).graph,
                self.included == old(self).included,
                self.excluded == old(self).excluded,
                k <= self.output@.len(),
                distinct(kept@),
                forall|m: int|
                    0 <= m < kept@.len() ==> exists|o: int| 0 <= o < k && self.output@[o] == #[trigger] kept@[m],
                forall|m: int|
                    0 <= m < kept@.len() ==> !self.uninteresting@[#[trigger] kept@[m] as int],
            decreases self.output@.len() - k,
        {
            let o = self.output[k];
            if !self.uninteresting[o] && !self.tree_same[o] {
                kept.push(o);
            }
            k = k + 1;
        }
        self.queue = kept;
        self.output = Vec::new();
    }
}

/// The identifiers of the starts that are included (`flag`) or excluded,
/// in order.
pub open spec fn start_oids(starts: Seq<(ObjectId, bool)>, flag: bool) -> Seq<Seq<char>>
    decreases starts.len(),
{
    if starts.len() == 0 {
        Seq::empty()
    } else {
        start_oids(starts.drop_last(), flag) + if starts.last().1 == flag {
            seq![starts.last().0@]
        } else {
            Seq::<Seq<char>>::empty()
        }
    }
}

/// The positions of the starts that are included (`flag`) or excluded, in
/// order.
pub open spec fn positions_with(tagged: Seq<(usize, bool)>, flag: bool) -> Seq<usize>
    decreases tagged.len(),
{
    if tagged.len() == 0 {
        Seq::empty()
    } else {
        positions_with(tagged.drop_last(), flag) + if tagged.last().1 == flag {
            seq![tagged.last().0]
        } else {
            Seq::<usize>::empty()
        }
    }
}

/// The positions among the first `k` starts begin the positions among all.
proof fn lemma_positions_prefix(tagged: Seq<(usize, bool)>, k: int, flag: bool)
    requires
        0 <= k <= tagged.len(),
    ensures
        positions_with(tagged.take(k), flag).len() <= positions_with(tagged, flag).len(),
        positions_with(tagged, flag).subrange(0, positions_with(tagged.take(k), flag).len() as int)
            == positions_with(tagged.take(k), flag),
    decreases tagged.len() - k,
{
    if k < tagged.len() {
        lemma_positions_prefix(tagged.drop_last(), k, flag);
        assert(tagged.drop_last().take(k) =~= tagged.take(k));
        assert(tagged.take(tagged.len() as int) =~= tagged);
        let a = positions_with(tagged.drop_last(), flag);
        let b = positions_with(tagged, flag);
        let c = positions_with(tagged.take(k), flag);
        assert(b.subrange(0, c.len() as int) =~= a.subrange(0, c.len() as int));
    } else {
        assert(tagged.take(k) =~= tagged);
        assert(positions_with(tagged, flag).subrange(0, positions_with(tagged, flag).len() as int)
            =~= positions_with(tagged, flag));
    }
}

/// Positions that name the starts' commits name the included (or
/// excluded) ones in order.
proof fn lemma_start_oids(
    tagged: Seq<(usize, bool)>,
    starts: Seq<(ObjectId, bool)>,
    oids: Seq<Seq<char>>,
    flag: bool,
)
    requires
        tagged.len() == starts.len(),
        forall|k: int|
            0 <= k < tagged.len() ==> #[trigger] tagged[k].0 < oids.len() && oids[tagged[k].0 as int]
                == starts[k].0@ && tagged[k].1 == starts[k].1,
    ensures
        positions_with(tagged, flag).len() == start_oids(starts, flag).len(),
        forall|t: int|
            0 <= t < positions_with(tagged, flag).len() ==> #[trigger] positions_with(tagged, flag)[t]
                < oids.len() && oids[positions_with(tagged, flag)[t] as int] == start_oids(starts, flag)[t],
    decreases tagged.len(),
{
    if tagged.len() > 0 {
        let l = tagged.len() - 1;
        assert forall|k: int| 0 <= k < tagged.drop_last().len() implies #[trigger] tagged.drop_last()[k].0
            < oids.len() && oids[tagged.drop_last()[k].0 as int] == starts.drop_last()[k].0@
            && tagged.drop_last()[k].1 == starts.drop_last()[k].1 by {
            assert(tagged.drop_last()[k] == tagged[k]);
            assert(starts.drop_last()[k] == starts[k]);
        }
        lemma_start_oids(tagged.drop_last(), starts.drop_last(), oids, flag);
        assert(tagged.last() == tagged[l]);
        assert(starts.last() == starts[l]);
        assert(tagged[l].0 < oids.len() && oids[tagged[l].0 as int] == starts[l].0@ && tagged[l].1 == starts[l].1);
        let a = positions_with(tagged.drop_last(), flag);
        let b = start_oids(starts.drop_last(), flag);
        if tagged[l].1 == flag {
            assert(positions_with(tagged, flag) == a.push(tagged[l].0));
            assert(start_oids(starts, flag) == b.push(starts[l].0@));
        } else {
            assert(positions_with(tagged, flag) =~= a);
            assert(start_oids(starts, flag) =~= b);
        }
    }
}

/// Whether every start is one of the commits.
pub open spec fn starts_known(oids: Seq<Seq<char>>, starts: Seq<(ObjectId, bool)>) -> bool {
    forall|k: int| 0 <= k < starts.len() ==> oids.contains(#[trigger] starts[k].0@)
}

/// A list of `n` unset marks.
fn unset_marks(n: usize) -> (r: Vec<bool>)
    ensures
        r@.len() == n,
        forall|i: int| 0 <= i < n ==> !#[trigger] r@[i],
{
    let mut r: Vec<bool> = Vec::new();
    while r.len() < n
        invariant
            r@.len() <= n,
            forall|i: int| 0 <= i < r@.len() ==> !#[trigger] r@[i],
        decreases n - r@.len(),
    {
        r.push(false);
    }
    r
}

impl RevList {
    /// The traversal for `log` over the given commits. `unchanged[i][j]`
    /// says whether the changes between commit `i` and its parent `j` (for a
    /// commit without parents, the one entry) leave the given files alone;
    /// it is read only when `filtering` (files were given), and a missing
    /// entry counts as a change. The starts are handled in order: an
    /// included one is queued, an excluded one is queued and marked
    /// uninteresting with its parents. With files given or a start excluded
    /// the history is scanned at once.
    pub fn new(
        commits: Vec<SlimCommit>,
        unchanged: Vec<Vec<bool>>,
        starts: Vec<(ObjectId, bool)>,
        filtering: bool,
    ) -> (r: Result<Self, RevListError>)
        ensures
            r matches Err(RevListError::UnknownParent) <==> !parents_known(commits@),
            r is Ok <==> parents_known(commits@) && starts_known(
                commits@.map_values(|c: SlimCommit| c.oid@),
                starts@,
            ),
            r matches Err(RevListError::CommitNotFound(o)) ==> exists|k: int|
                0 <= k < starts@.len() && #[trigger] starts@[k].0@ == o@ && !commits@.map_values(
                    |c: SlimCommit| c.oid@,
                ).contains(o@),
            r matches Ok(l) ==> {
                &&& l.wf()
                &&& l.oids() == commits@.map_values(|c: SlimCommit| c.oid@)
                &&& parents_table(l.graph_view(), commits@)
                &&& l.times() == commits@.map_values(|c: SlimCommit| c.timestamp)
                &&& l.excluded().len() == start_oids(starts@, false).len()
                &&& forall|t: int|
                    0 <= t < l.excluded().len() ==> l.oids()[#[trigger] l.excluded()[t] as int]
                        == start_oids(starts@, false)[t]
                &&& l.included().len() == start_oids(starts@, true).len()
                &&& forall|t: int|
                    0 <= t < l.included().len() ==> l.oids()[#[trigger] l.included()[t] as int]
                        == start_oids(starts@, true)[t]
                &&& l.limited() == (filtering || exists|k: int| 0 <= k < starts@.len() && !#[trigger] starts@[k].1)
            },
    {
        let ghost cv = commits@.map_values(|c: SlimCommit| c.oid@);
        let ghost cs = commits@;
        let graph = match BCAFinder::new(commits) {
            Some(g) => g,
            None => {
                return Err(RevListError::UnknownParent);
            },
        };
        let n = graph.len();
        let ghost gg = graph.graph();
        let ghost tt = graph.times();
        assert(parents_table(gg, cs));
        assert(tt == cs.map_values(|c: SlimCommit| c.timestamp));
        let mut tagged: Vec<(usize, bool)> = Vec::new();
        let mut missing: Option<usize> = None;
        let mut k: usize = 0;
        while k < starts.len()
            invariant_except_break
                missing is None,
            invariant
                k <= starts@.len(),
                n == graph.oids().len(),
                graph.oids() == cv,
                graph.graph() == gg,
                graph.times() == tt,
                tagged@.len() == k,
                forall|m: int|
                    0 <= m < k ==> #[trigger] tagged@[m].0 < n && cv[tagged@[m].0 as int] == starts@[m].0@
                        && tagged@[m].1 == starts@[m].1,
            ensures
                k <= starts@.len(),
                tagged@.len() == k,
                forall|m: int|
                    0 <= m < k ==> #[trigger] tagged@[m].0 < n && cv[tagged@[m].0 as int] == starts@[m].0@
                        && tagged@[m].1 == starts@[m].1,
                missing matches Some(j) ==> j < starts@.len() && !cv.contains(starts@[j as int].0@),
                missing is None ==> k == starts@.len(),
            decreases starts@.len() - k,
        {
            match graph.position_of(&starts[k].0) {
                Some(i) => {
                    tagged.push((i, starts[k].1));
                },
                None => {
                    proof {
                        if cv.contains(starts@[k as int].0@) {
                            let i = choose|i: int| 0 <= i < cv.len() && cv[i] == starts@[k as int].0@;
                            assert(graph.oids()[i] != starts@[k as int].0@);
                        }
                    }
                    missing = Some(k);
                    break;
                },
            }
            k = k + 1;
        }
        if let Some(j) = missing {
            proof {
                assert(cv =~= commits@.map_values(|c: SlimCommit| c.oid@));
            }
            return Err(RevListError::CommitNotFound(starts[j].0.clone()));
        }
        proof {
            assert forall|m: int| 0 <= m < starts@.len() implies cv.contains(#[trigger] starts@[m].0@) by {
                assert(cv[tagged@[m].0 as int] == starts@[m].0@);
            }
            lemma_start_oids(tagged@, starts@, cv, true);
            lemma_start_oids(tagged@, starts@, cv, false);
        }
        let ghost inc = positions_with(tagged@, true);
        let ghost exc = positions_with(tagged@, false);
        let mut list = RevList {
            graph,
            unchanged,
            filtering,
            fetched: unset_marks(n),
            seen: unset_marks(n),
            added: unset_marks(n),
            uninteresting: unset_marks(n),
            tree_same: unset_marks(n),
            queue: Vec::new(),
            is_limited: filtering,
            output: Vec::new(),
            included: Ghost(inc),
            excluded: Ghost(exc),
        };
        let mut k: usize = 0;
        while k < tagged.len()
            invariant
                list.wf_core(),
                k <= tagged@.len(),
                n == list.graph.oids().len(),
                list.graph.oids() == cv,
                list.graph.graph() == gg,
                list.graph.times() == tt,
                list.included@ == inc,
                inc == positions_with(tagged@, true),
                list.excluded@ == exc,
                exc == positions_with(tagged@, false),
                forall|t: int| 0 <= t < exc.len() ==> #[trigger] exc[t] < n,
                forall|t: int|
                    0 <= t < positions_with(tagged@.take(k as int), false).len() ==> list.uninteresting@[
                        #[trigger] exc[t] as int],
                tagged@.len() == starts@.len(),
                forall|m: int|
                    0 <= m < tagged@.len() ==> #[trigger] tagged@[m].0 < n && tagged@[m].1 == starts@[m].1,
                list.is_limited == (filtering || exists|m: int| 0 <= m < k && !#[trigger] tagged@[m].1),
                !list.is_limited ==> {
                    &&& forall|i: int| 0 <= i < n ==> !#[trigger] list.added@[i]
                    &&& forall|i: int| 0 <= i < n ==> (#[trigger] list.seen@[i] <==> listed(list.queue@, i))
                    &&& forall|t: int|
                        0 <= t < positions_with(tagged@.take(k as int), true).len() ==> list.seen@[
                            #[trigger] inc[t] as int]
                },
            decreases tagged@.len() - k,
        {
            let (i, interesting) = tagged[k];
            proof {
                lemma_positions_prefix(tagged@, k as int, true);
                lemma_positions_prefix(tagged@, k as int, false);
                lemma_positions_prefix(tagged@, k + 1, true);
                lemma_positions_prefix(tagged@, k + 1, false);
                assert(tagged@.take(k + 1).drop_last() =~= tagged@.take(k as int));
                assert(tagged@.take(k + 1).last() == tagged@[k as int]);
            }
            let ghost c: int = positions_with(tagged@.take(k as int), true).len() as int;
            let ghost ce: int = positions_with(tagged@.take(k as int), false).len() as int;
            let ghost u0 = list.uninteresting@;
            list.load_commit(i);
            if interesting {
                proof {
                    assert(positions_with(tagged@.take(k + 1), true) == positions_with(tagged@.take(k as int), true).push(i));
                    assert(inc.subrange(0, c + 1) == positions_with(tagged@.take(k + 1), true));
                    assert(inc[c] == inc.subrange(0, c + 1)[c]);
                    lemma_reachable_self(list.graph.graph(), i as int);
                    assert(reachable(list.graph.graph(), inc[c] as int, i as int));
                }
                let ghost before = list;
                list.enqueue_commit(i);
                proof {
                    if !list.is_limited {
                        assert forall|x: int| 0 <= x < n implies (#[trigger] list.seen@[x] <==> listed(list.queue@, x)) by {
                            assert(before.seen@[x] <==> listed(before.queue@, x));
                            if !before.seen@[i as int] {
                                lemma_listed_push(before.queue@, i, x);
                            } else {
                                assert(list.seen@ =~= before.seen@);
                            }
                        }
                        assert forall|t: int|
                            0 <= t < positions_with(tagged@.take(k + 1), true).len() implies list.seen@[
                                #[trigger] inc[t] as int] by {
                            if t < c {
                                assert(before.seen@[inc[t] as int]);
                            }
                        }
                    }
                    assert(positions_with(tagged@.take(k + 1), false) =~= positions_with(tagged@.take(k as int), false));
                    assert forall|t: int|
                        0 <= t < positions_with(tagged@.take(k + 1), false).len() implies list.uninteresting@[
                            #[trigger] exc[t] as int] by {
                        assert(u0[exc[t] as int]);
                    }
                }
            } else {
                proof {
                    assert(positions_with(tagged@.take(k + 1), false) == positions_with(tagged@.take(k as int), false).push(i));
                    assert(exc.subrange(0, ce + 1) == positions_with(tagged@.take(k + 1), false));
                    assert(exc[ce] == exc.subrange(0, ce + 1)[ce]);
                    assert(positions_with(tagged@.take(k + 1), true) =~= positions_with(tagged@.take(k as int), true));
                }
                list.is_limited = true;
                list.uninteresting.set(i, true);
                let ghost u2 = list.uninteresting@;
                list.enqueue_commit(i);
                list.mark_parents_uninteresting(i);
                proof {
                    assert forall|t: int|
                        0 <= t < positions_with(tagged@.take(k + 1), false).len() implies list.uninteresting@[
                            #[trigger] exc[t] as int] by {
                        assert(exc[t] < n);
                        if t < ce {
                            assert(u0[exc[t] as int]);
                            assert(u2[exc[t] as int]);
                        } else {
                            assert(exc[t] == i);
                            assert(u2[i as int]);
                        }
                    }
                }
            }
            k = k + 1;
        }
        let ghost u1 = list.uninteresting@;
        if list.is_limited {
            list.limit_to_interesting_commits();
        }
        proof {
            assert(tagged@.take(tagged@.len() as int) =~= tagged@);
            assert forall|t: int| 0 <= t < exc.len() implies #[trigger] exc[t] < n && list.uninteresting@[exc[t] as int] by {
                assert(u1[exc[t] as int]);
            }
        }
        proof {
            assert(tagged@.take(tagged@.len() as int) =~= tagged@);
            assert(cv =~= commits@.map_values(|c: SlimCommit| c.oid@));
            if exists|m: int| 0 <= m < starts@.len() && !#[trigger] starts@[m].1 {
                let m = choose|m: int| 0 <= m < starts@.len() && !#[trigger] starts@[m].1;
                assert(tagged@[m].0 < n);
                assert(!tagged@[m].1);
            }
            if exists|m: int| 0 <= m < tagged@.len() && !#[trigger] tagged@[m].1 {
                let m = choose|m: int| 0 <= m < tagged@.len() && !#[trigger] tagged@[m].1;
                assert(tagged@[m].0 < n);
                assert(!starts@[m].1);
            }
        }
        Ok(list)
    }
}

/// Removing an entry from a list without repeats keeps it without repeats
/// and lists exactly the others.
proof fn lemma_remove_listed(q: Seq<usize>, b: int)
    requires
        distinct(q),
        0 <= b < q.len(),
    ensures
        distinct(q.remove(b)),
        q.remove(b).len() == q.len() - 1,
        forall|k: int|
            0 <= k < q.remove(b).len() ==> #[trigger] q.remove(b)[k] == q[if k < b {
                k
            } else {
                k + 1
            }],
        forall|x: int| #[trigger] listed(q.remove(b), x) <==> (listed(q, x) && x != q[b] as int),
{
    let r = q.remove(b);
    assert forall|k: int| 0 <= k < r.len() implies #[trigger] r[k] == q[if k < b {
        k
    } else {
        k + 1
    }] by {}
    assert forall|a: int, c: int| 0 <= a < c < r.len() implies #[trigger] r[a] != #[trigger] r[c] by {
        let a2 = if a < b { a } else { a + 1 };
        let c2 = if c < b { c } else { c + 1 };
        assert(r[a] == q[a2] && r[c] == q[c2]);
    }
    assert forall|x: int| #[trigger] listed(r, x) <==> (listed(q, x) && x != q[b] as int) by {
        if listed(r, x) {
            let k = choose|k: int| 0 <= k < r.len() && r[k] as int == x;
            let k2 = if k < b { k } else { k + 1 };
            assert(r[k] == q[k2]);
            assert(k2 != b);
        }
        if listed(q, x) && x != q[b] as int {
            let k = choose|k: int| 0 <= k < q.len() && q[k] as int == x;
            if k < b {
                assert(r[k] == q[k]);
            } else {
                assert(k != b);
                assert(r[k - 1] == q[k]);
            }
        }
    }
}

/// The commits of a traversal, handed out newest first.
pub struct RevListIntoIter {
    rev_list: RevList,
    yielded: Ghost<Seq<usize>>,
}

impl RevList {
    /// Hands out the commits of the traversal.
    pub fn into_iter(self) -> (r: RevListIntoIter)
        requires
            self.wf(),
        ensures
            r.wf(),
            r.list() == self,
            r.yielded().len() == 0,
    {
        let r = RevListIntoIter { rev_list: self, yielded: Ghost(Seq::empty()) };
        proof {
            let l = r.rev_list;
            let n = l.graph.oids().len();
            assert forall|i: int| 0 <= i < n implies (#[trigger] l.seen@[i] <==> (listed(l.queue@, i) || listed(
                r.yielded@,
                i,
            ))) || l.is_limited by {}
        }
        r
    }
}

impl RevListIntoIter {
    /// The traversal.
    pub closed spec fn list(self) -> RevList {
        self.rev_list
    }

    /// The commits handed out so far, by position, in order.
    pub closed spec fn yielded(self) -> Seq<usize> {
        self.yielded@
    }

    /// Whether the hand-out is consistent: every queued or handed out commit
    /// is reachable from an included start, none twice; without limiting,
    /// the commits seen are exactly those queued or handed out, those handed
    /// out had all their parents seen, and the included starts were seen.
    pub closed spec fn wf(self) -> bool {
        let l = self.rev_list;
        let n = l.graph.oids().len();
        let g = l.graph.graph();
        let y = self.yielded@;
        &&& l.wf_core()
        &&& forall|t: int|
            0 <= t < l.excluded@.len() ==> #[trigger] l.excluded@[t] < n && l.uninteresting@[
                l.excluded@[t] as int]
        &&& forall|m: int| 0 <= m < y.len() ==> !l.uninteresting@[#[trigger] y[m] as int]
        &&& forall|k: int|
            0 <= k < l.queue@.len() ==> !l.uninteresting@[#[trigger] l.queue@[k] as int]
                && reaches_from_targets(g, l.included@, l.queue@[k] as int)
        &&& forall|m: int|
            0 <= m < y.len() ==> #[trigger] y[m] < n && l.seen@[y[m] as int] && reaches_from_targets(
                g,
                l.included@,
                y[m] as int,
            )
        &&& distinct(y)
        &&& forall|a: int, b: int|
            0 <= a < l.queue@.len() && 0 <= b < y.len() ==> #[trigger] l.queue@[a] != #[trigger] y[b]
        &&& !l.is_limited ==> {
            &&& forall|i: int|
                0 <= i < n ==> (#[trigger] l.seen@[i] <==> (listed(l.queue@, i) || listed(y, i)))
            &&& forall|i: int| 0 <= i < n ==> (#[trigger] l.added@[i] <==> listed(y, i))
            &&& forall|i: int, j: int|
                0 <= i < n && 0 <= j < g[i].len() && #[trigger] l.added@[i] ==> l.seen@[#[trigger] g[i][j] as int]
            &&& forall|t: int| 0 <= t < l.included@.len() ==> l.seen@[#[trigger] l.included@[t] as int]
        }
    }
}

impl RevListIntoIter {
    /// The next commit: the newest queued one (the latest, and of equally
    /// late ones the greatest identifier). Without limiting, its parents are
    /// queued as it is handed out. Each commit handed out is reachable from
    /// an included start, comes once and is no excluded start; after a
    /// limited scan nothing left is newer than it. Without limiting, when
    /// none is left every commit reachable from an included start has been
    /// handed out.
    pub fn next(&mut self) -> (r: Option<ObjectId>)
        requires
            old(self).wf(),
        ensures
            final(self).wf(),
            final(self).list().graph_view() == old(self).list().graph_view(),
            final(self).list().oids() == old(self).list().oids(),
            final(self).list().times() == old(self).list().times(),
            final(self).list().included() == old(self).list().included(),
            final(self).list().excluded() == old(self).list().excluded(),
            final(self).list().limited() == old(self).list().limited(),
            r is None <==> old(self).list().queue_view().len() == 0,
            r is None ==> final(self).yielded() == old(self).yielded(),
            r matches Some(o) ==> {
                let i = final(self).yielded().last();
                &&& final(self).yielded() == old(self).yielded().push(i)
                &&& o@ == old(self).list().oids()[i as int]
                &&& listed(old(self).list().queue_view(), i as int)
                &&& forall|k: int|
                    0 <= k < old(self).list().queue_view().len() ==> !newer_spec(
                        old(self).list().times(),
                        old(self).list().oids(),
                        #[trigger] old(self).list().queue_view()[k] as int,
                        i as int,
                    )
                &&& old(self).list().limited() ==> forall|k: int|
                    0 <= k < final(self).list().queue_view().len() ==> !newer_spec(
                        old(self).list().times(),
                        old(self).list().oids(),
                        #[trigger] final(self).list().queue_view()[k] as int,
                        i as int,
                    )
            },
            distinct(final(self).yielded()),
            forall|m: int, t: int|
                0 <= m < final(self).yielded().len() && 0 <= t < final(self).list().excluded().len()
                    ==> #[trigger] final(self).yielded()[m] != #[trigger] final(self).list().excluded()[t],
            forall|m: int|
                0 <= m < final(self).yielded().len() ==> reaches_from_targets(
                    final(self).list().graph_view(),
                    final(self).list().included(),
                    #[trigger] final(self).yielded()[m] as int,
                ),
            !old(self).list().limited() && r is None ==> forall|i: int|
                0 <= i < old(self).list().oids().len() ==> (listed(final(self).yielded(), i)
                    <==> #[trigger] reaches_from_targets(
                    old(self).list().graph_view(),
                    old(self).list().included(),
                    i,
                )),
    {
        let ghost g = self.rev_list.graph.graph();
        let ghost n = self.rev_list.graph.oids().len();
        if self.rev_list.queue.len() == 0 {
            proof {
                if !self.rev_list.is_limited {
                    let l = self.rev_list;
                    let y = self.yielded@;
                    assert forall|i: int, j: int|
                        0 <= i < g.len() && 0 <= j < g[i].len() && l.seen@[i] implies l.seen@[#[trigger] g[i][j] as int] by {
                        assert(listed(l.queue@, i) || listed(y, i));
                        if listed(l.queue@, i) {
                            let k = choose|k: int| 0 <= k < l.queue@.len() && l.queue@[k] as int == i;
                        }
                        assert(l.added@[i]);
                    }
                    assert(closed_under_parents(g, l.seen@));
                    assert forall|i: int| 0 <= i < n implies (listed(y, i) <==> #[trigger] reaches_from_targets(
                        g,
                        l.included@,
                        i,
                    )) by {
                        if listed(y, i) {
                            let m = choose|m: int| 0 <= m < y.len() && y[m] as int == i;
                            assert(reaches_from_targets(g, l.included@, y[m] as int));
                        }
                        if reaches_from_targets(g, l.included@, i) {
                            let t = choose|t: int|
                                0 <= t < l.included@.len() && reachable(g, #[trigger] l.included@[t] as int, i);
                            lemma_closed_holds_reachable(g, l.seen@, l.included@[t] as int, i);
                            if listed(l.queue@, i) {
                                let k = choose|k: int| 0 <= k < l.queue@.len() && l.queue@[k] as int == i;
                            }
                        }
                    }
                }
            }
            proof {
                let l = self.rev_list;
                let y = self.yielded@;
                assert forall|m: int, t: int|
                    0 <= m < y.len() && 0 <= t < l.excluded@.len() implies #[trigger] y[m] != #[trigger] l.excluded@[t] by {
                    assert(!l.uninteresting@[y[m] as int]);
                    assert(l.uninteresting@[l.excluded@[t] as int]);
                }
            }
            return None;
        }
        let ghost old_self = *self;
        let b = newest_index(&self.rev_list.graph, &self.rev_list.queue);
        let ghost q = self.rev_list.queue@;
        let i = self.rev_list.queue.remove(b);
        proof {
            lemma_remove_listed(q, b as int);
            assert(q[b as int] == i);
            let l = self.rev_list;
            let q1 = l.queue@;
            assert forall|k: int| 0 <= k < q1.len() implies q1[k] != i && listed(q, #[trigger] q1[k] as int) by {
                let k2 = if k < b { k } else { k + 1 };
                assert(q1[k] == q[k2]);
            }
            assert forall|k: int| 0 <= k < q1.len() implies #[trigger] q1[k] < n && l.seen@[q1[k] as int] && (
            l.uninteresting@[q1[k] as int] || reaches_from_targets(g, l.included@, q1[k] as int)) && !l.uninteresting@[
                q1[k] as int] && reaches_from_targets(g, l.included@, q1[k] as int) && (forall|o: int|
                0 <= o < l.output@.len() ==> q1[k] != #[trigger] l.output@[o]) && (forall|m: int|
                0 <= m < self.yielded@.len() ==> q1[k] != #[trigger] self.yielded@[m]) by {
                let k2 = if k < b { k } else { k + 1 };
                assert(q1[k] == q[k2]);
            }
            assert(l.wf_core());
        }
        let ghost mid = self.rev_list;
        if !self.rev_list.is_limited {
            self.rev_list.add_parent(i);
        }
        let ghost y = self.yielded@;
        self.yielded = Ghost(self.yielded@.push(i));
        proof {
            let l = self.rev_list;
            let y2 = self.yielded@;
            let q1 = mid.queue@;
            assert(y2.last() == i);
            assert(y2 == y.push(i));
            assert(!listed(y, i as int)) by {
                if listed(y, i as int) {
                    let m = choose|m: int| 0 <= m < y.len() && y[m] as int == i as int;
                    assert(q[b as int] != y[m]);
                }
            }
            assert forall|a: int, c: int| 0 <= a < c < y2.len() implies #[trigger] y2[a] != #[trigger] y2[c] by {
                if c == y2.len() - 1 {
                    assert(y2[c] == i);
                    assert(y2[a] == y[a]);
                    if y[a] == i {
                        assert(listed(y, i as int));
                    }
                }
            }
            assert forall|m: int| 0 <= m < y2.len() implies #[trigger] y2[m] < n && l.seen@[y2[m] as int]
                && reaches_from_targets(g, l.included@, y2[m] as int) by {
                if m < y.len() {
                    assert(y2[m] == y[m]);
                    assert(mid.seen@[y[m] as int]);
                } else {
                    assert(y2[m] == i);
                    assert(old_self.rev_list.seen@[i as int]);
                }
            }
            // queued commits after the step
            assert forall|k: int| 0 <= k < l.queue@.len() implies (listed(q1, #[trigger] l.queue@[k] as int)
                || !mid.seen@[l.queue@[k] as int]) by {
                if !mid.is_limited {
                    if k < q1.len() {
                        assert(l.queue@.subrange(0, q1.len() as int)[k] == q1[k]);
                    }
                }
            }
            assert forall|k: int| 0 <= k < l.queue@.len() implies !l.uninteresting@[#[trigger] l.queue@[k] as int]
                && reaches_from_targets(g, l.included@, l.queue@[k] as int) by {
                if listed(q1, l.queue@[k] as int) {
                    let k2 = choose|k2: int| 0 <= k2 < q1.len() && q1[k2] as int == l.queue@[k] as int;
                    assert(!mid.uninteresting@[q1[k2] as int]);
                    if !mid.is_limited {
                        assert(!l.uninteresting@[q1[k2] as int]);
                    }
                } else {
                    assert(!mid.is_limited);
                    assert(l.uninteresting@[l.queue@[k] as int] || reaches_from_targets(g, l.included@, l.queue@[k] as int));
                }
            }
            assert forall|a: int, c: int| 0 <= a < l.queue@.len() && 0 <= c < y2.len() implies #[trigger] l.queue@[a]
                != #[trigger] y2[c] by {
                let x = l.queue@[a];
                if listed(q1, x as int) {
                    let k2 = choose|k2: int| 0 <= k2 < q1.len() && q1[k2] as int == x as int;
                    if c < y.len() {
                        assert(y2[c] == y[c]);
                        assert(q1[k2] != y[c]);
                    } else {
                        assert(y2[c] == i);
                    }
                } else {
                    assert(!mid.seen@[x as int]);
                    if c < y.len() {
                        assert(y2[c] == y[c]);
                        assert(mid.seen@[y[c] as int]);
                    } else {
                        assert(y2[c] == i);
                        assert(mid.seen@[i as int]);
                    }
                }
            }
            if !l.is_limited {
                assert(!mid.added@[i as int]) by {
                    if mid.added@[i as int] {
                        assert(listed(y, i as int));
                    }
                }
                assert(l.added@ == mid.added@.update(i as int, true));
                assert forall|x: int| 0 <= x < n implies (#[trigger] l.added@[x] <==> listed(y2, x)) by {
                    lemma_listed_push(y, i, x);
                    assert(mid.added@[x] <==> listed(y, x));
                }
                assert forall|x: int| 0 <= x < n implies (#[trigger] l.seen@[x] <==> (listed(l.queue@, x)
                    || listed(y2, x))) by {
                    lemma_listed_push(y, i, x);
                    assert(mid.seen@[x] <==> (listed(q, x) || listed(y, x)));
                    if l.seen@[x] && !listed(y2, x) {
                        if mid.seen@[x] {
                            assert(listed(q, x));
                            assert(listed(q1, x));
                            let k = choose|k: int| 0 <= k < q1.len() && q1[k] as int == x;
                            assert(l.queue@.subrange(0, q1.len() as int)[k] == q1[k]);
                            assert(l.queue@[k] == q1[k]);
                        }
                    }
                    if listed(l.queue@, x) {
                        let k = choose|k: int| 0 <= k < l.queue@.len() && l.queue@[k] as int == x;
                        assert(l.seen@[l.queue@[k] as int]);
                    }
                    if listed(y2, x) {
                        if x == i as int {
                            assert(mid.seen@[i as int]);
                        } else {
                            assert(listed(y, x));
                            assert(mid.seen@[x]);
                        }
                    }
                }
                assert forall|x: int, j: int|
                    0 <= x < n && 0 <= j < g[x].len() && #[trigger] l.added@[x] implies l.seen@[#[trigger] g[x][j] as int] by {
                    if x != i as int {
                        assert(mid.added@[x]);
                        assert(mid.seen@[g[x][j] as int]);
                    }
                }
                assert forall|t: int| 0 <= t < l.included@.len() implies l.seen@[#[trigger] l.included@[t] as int] by {
                    assert(mid.seen@[l.included@[t] as int]);
                }
            } else {
                assert forall|k: int| 0 <= k < l.queue@.len() implies !newer_spec(
                    l.graph.times(),
                    l.graph.oids(),
                    #[trigger] l.queue@[k] as int,
                    i as int,
                ) by {
                    let k2 = if k < b { k } else { k + 1 };
                    assert(l.queue@[k] == q[k2]);
                }
            }
            assert(listed(q, i as int));
            assert(!old_self.rev_list.uninteresting@[i as int]);
            assert forall|x: int|
                0 <= x < n && #[trigger] old_self.rev_list.uninteresting@[x] implies l.uninteresting@[x] by {
                if mid.is_limited {
                    assert(l.uninteresting@ == mid.uninteresting@);
                }
            }
            assert forall|m: int| 0 <= m < y2.len() implies !l.uninteresting@[#[trigger] y2[m] as int] by {
                if mid.is_limited {
                    assert(l.uninteresting@ == mid.uninteresting@);
                    if m < y.len() {
                        assert(y2[m] == y[m]);
                    }
                } else {
                    assert(y2[m] < n);
                }
            }
            assert forall|t: int| 0 <= t < l.excluded@.len() implies #[trigger] l.excluded@[t] < n
                && l.uninteresting@[l.excluded@[t] as int] by {
                assert(old_self.rev_list.uninteresting@[l.excluded@[t] as int]);
            }
            assert forall|m: int, t: int|
                0 <= m < y2.len() && 0 <= t < l.excluded@.len() implies #[trigger] y2[m] != #[trigger] l.excluded@[t] by {
                assert(!l.uninteresting@[y2[m] as int]);
                assert(l.uninteresting@[l.excluded@[t] as int]);
            }
        }
        Some(self.rev_list.graph.oid_at(i).clone())
    }
}

/// The starting revisions of log targets, in order, each with whether it
/// is included: a range gives its excluded end, then its included end.
pub open spec fn target_starts(ts: Seq<LogTargetView>) -> Seq<(RevisionView, bool)>
    decreases ts.len(),
{
    if ts.len() == 0 {
        Seq::empty()
    } else {
        target_starts(ts.drop_last()) + match ts.last() {
            LogTargetView::Included(r) => seq![(r, true)],
            LogTargetView::Range(e, i) => seq![(e, false), (i, true)],
            LogTargetView::Excluded(r) => seq![(r, false)],
        }
    }
}

/// Whether every target is an excluded revision.
pub open spec fn all_excluded(ts: Seq<LogTargetView>) -> bool {
    forall|k: int| 0 <= k < ts.len() ==> #[trigger] ts[k] is Excluded
}

/// The views of starting revisions.
pub open spec fn starts_view(v: Seq<(Revision, bool)>) -> Seq<(RevisionView, bool)> {
    v.map_values(|p: (Revision, bool)| (revision_view(p.0), p.1))
}

/// The starting revisions of the targets, in order, each with whether it
/// is included: a range gives its excluded end, then its included end;
/// when every target is excluded (or there is none), `HEAD` is added as
/// included.
pub fn start_revisions(targets: Vec<LogRevisionTargets>) -> (r: Result<
    Vec<(Revision, bool)>,
    RevisionError,
>)
    ensures
        ({
            let tv = targets@.map_values(|t: LogRevisionTargets| log_target_view(t));
            &&& r is Err <==> all_excluded(tv) && parse_revision(HEAD_REF_NAME@) is Err
            &&& r matches Ok(v) ==> starts_view(v@) == if all_excluded(tv) {
                target_starts(tv).push((parse_revision(HEAD_REF_NAME@)->Ok_0, true))
            } else {
                target_starts(tv)
            }
        }),
{
    let ghost tv = targets@.map_values(|t: LogRevisionTargets| log_target_view(t));
    let mut targets = targets;
    let ghost all = targets@;
    let total = targets.len();
    let mut out: Vec<(Revision, bool)> = Vec::new();
    let mut any_included = false;
    let mut k: usize = 0;
    while targets.len() > 0
        invariant
            k + targets@.len() == all.len(),
            total == all.len(),
            targets@ == all.skip(k as int),
            tv == all.map_values(|t: LogRevisionTargets| log_target_view(t)),
            starts_view(out@) == target_starts(tv.take(k as int)),
            any_included == !all_excluded(tv.take(k as int)),
        decreases targets@.len(),
    {
        let t = targets.remove(0);
        proof {
            assert(t == all[k as int]);
            assert(tv.take(k + 1).drop_last() =~= tv.take(k as int));
            assert(tv.take(k + 1).last() == log_target_view(t));
            assert(targets@ =~= all.skip(k + 1));
        }
        let ghost before = out@;
        match t {
            LogRevisionTargets::IncludedRevision(r) => {
                out.push((r, true));
                any_included = true;
            },
            LogRevisionTargets::RangeExpression { excluded, included } => {
                out.push((excluded, false));
                out.push((included, true));
                any_included = true;
            },
            LogRevisionTargets::ExcludedRevision(r) => {
                out.push((r, false));
            },
        }
        proof {
            assert(starts_view(out@) =~= target_starts(tv.take(k + 1)));
            if !all_excluded(tv.take(k as int)) {
                let j = choose|j: int| 0 <= j < k && !(tv.take(k as int)[j] is Excluded);
                assert(tv.take(k + 1)[j] == tv.take(k as int)[j]);
            }
            if all_excluded(tv.take(k as int)) && tv.take(k + 1).last() is Excluded {
                assert forall|j: int| 0 <= j < k + 1 implies #[trigger] tv.take(k + 1)[j] is Excluded by {
                    if j < k {
                        assert(tv.take(k + 1)[j] == tv.take(k as int)[j]);
                    }
                }
            }
        }
        k = k + 1;
    }
    proof {
        assert(tv.take(k as int) =~= tv);
    }
    if !any_included {
        let head = Revision::try_parse(HEAD_REF_NAME)?;
        let ghost before = out@;
        out.push((head, true));
        proof {
            assert(starts_view(out@) =~= starts_view(before).push((revision_view(head), true)));
        }
    }
    Ok(out)
}

} // verus!
