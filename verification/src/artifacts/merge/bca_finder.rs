//! Best common ancestors of two commits.
//!
//! A traversal from both commits, newest first, marks each commit with the
//! sides it was reached from; a commit reached from both sides is a common
//! ancestor, and the commits below it are marked stale. Among the common
//! ancestors found, those that are ancestors of another one are redundant;
//! one of the others is the best common ancestor.
use crate::artifacts::objects::object_id::ObjectId;
use crate::path_order::{path_less, path_lt, text_less, text_lt};
use vstd::prelude::*;

verus! {

/// The parts of a commit that the ancestor search reads.
#[derive(Debug)]
pub struct SlimCommit {
    /// The commit's identifier.
    pub oid: ObjectId,
    /// Its parents.
    pub parents: Vec<ObjectId>,
    /// Its time, in seconds since the Unix epoch.
    pub timestamp: i64,
}

/// The marks of a commit during the search.
#[derive(Debug, Clone, Copy, PartialEq, Eq, Structural)]
pub struct VisitState {
    /// Reached from the source commit.
    pub source: bool,
    /// Reached from a target commit.
    pub target: bool,
    /// Below a common ancestor.
    pub stale: bool,
    /// A common ancestor.
    pub result: bool,
}

impl VisitState {
    /// No marks.
    pub fn none() -> (r: Self)
        ensures
            !r.source && !r.target && !r.stale && !r.result,
    {
        VisitState { source: false, target: false, stale: false, result: false }
    }

    /// Whether every mark of `other` is also a mark of this state.
    pub fn contains(&self, other: &VisitState) -> (r: bool)
        ensures
            r == ((other.source ==> self.source) && (other.target ==> self.target) && (other.stale
                ==> self.stale) && (other.result ==> self.result)),
    {
        (!other.source || self.source) && (!other.target || self.target) && (!other.stale
            || self.stale) && (!other.result || self.result)
    }

    /// The marks of both states.
    pub fn union(&self, other: &VisitState) -> (r: VisitState)
        ensures
            r.source == (self.source || other.source),
            r.target == (self.target || other.target),
            r.stale == (self.stale || other.stale),
            r.result == (self.result || other.result),
    {
        VisitState {
            source: self.source || other.source,
            target: self.target || other.target,
            stale: self.stale || other.stale,
            result: self.result || other.result,
        }
    }
}

/// The commit after position `i` of the walk `w` is a parent of the commit
/// at position `i`; `g` lists the parents of each commit by position.
pub open spec fn step_ok(g: Seq<Seq<usize>>, w: Seq<int>, i: int) -> bool {
    exists|j: int| 0 <= j < g[w[i]].len() && g[w[i]][j] == w[i + 1]
}

/// A walk from child to parent through the commit graph.
pub open spec fn is_walk(g: Seq<Seq<usize>>, w: Seq<int>) -> bool {
    &&& w.len() > 0
    &&& forall|i: int| 0 <= i < w.len() - 1 ==> #[trigger] step_ok(g, w, i)
}

/// Commit `b` is an ancestor of commit `a`, or `a` itself.
pub open spec fn reachable(g: Seq<Seq<usize>>, a: int, b: int) -> bool {
    exists|w: Seq<int>| #[trigger] is_walk(g, w) && w[0] == a && w.last() == b
}

/// No commit is a proper ancestor of itself: two commits each reachable
/// from the other are the same commit.
pub open spec fn acyclic(g: Seq<Seq<usize>>) -> bool {
    forall|a: int, b: int|
        0 <= a < g.len() && 0 <= b < g.len() && #[trigger] reachable(g, a, b) && #[trigger] reachable(
            g,
            b,
            a,
        ) ==> a == b
}

/// Along a walk from a commit, every commit is a commit of the graph and no
/// newer than the first, and every commit after the first is older.
proof fn lemma_walk_gets_older(g: Seq<Seq<usize>>, times: Seq<i64>, w: Seq<int>, k: int)
    requires
        graph_wf(g),
        times.len() == g.len(),
        forall|i: int, j: int|
            0 <= i < g.len() && 0 <= j < g[i].len() ==> times[#[trigger] g[i][j] as int] < times[i],
        is_walk(g, w),
        0 <= w[0] < g.len(),
        0 <= k < w.len(),
    ensures
        0 <= w[k] < g.len(),
        times[w[k]] <= times[w[0]],
        k > 0 ==> times[w[k]] < times[w[0]],
    decreases k,
{
    if k > 0 {
        lemma_walk_gets_older(g, times, w, k - 1);
        assert(step_ok(g, w, k - 1));
        let j = choose|j: int| 0 <= j < g[w[k - 1]].len() && #[trigger] g[w[k - 1]][j] == w[k];
        assert(times[g[w[k - 1]][j] as int] < times[w[k - 1]]);
    }
}

/// A history in which every parent is older than its child has no cycles.
pub proof fn lemma_older_parents_acyclic(g: Seq<Seq<usize>>, times: Seq<i64>)
    requires
        graph_wf(g),
        times.len() == g.len(),
        forall|i: int, j: int|
            0 <= i < g.len() && 0 <= j < g[i].len() ==> times[#[trigger] g[i][j] as int] < times[i],
    ensures
        acyclic(g),
{
    assert forall|a: int, b: int|
        0 <= a < g.len() && 0 <= b < g.len() && #[trigger] reachable(g, a, b) && #[trigger] reachable(
            g,
            b,
            a,
        ) implies a == b by {
        let w1 = choose|w: Seq<int>| #[trigger] is_walk(g, w) && w[0] == a && w.last() == b;
        let w2 = choose|w: Seq<int>| #[trigger] is_walk(g, w) && w[0] == b && w.last() == a;
        lemma_walk_gets_older(g, times, w1, w1.len() - 1);
        lemma_walk_gets_older(g, times, w2, w2.len() - 1);
        if w1.len() > 1 {
            lemma_walk_gets_older(g, times, w1, w1.len() - 1);
        }
    }
}

/// Every parent is a commit of the graph.
pub open spec fn graph_wf(g: Seq<Seq<usize>>) -> bool {
    forall|i: int, j: int| 0 <= i < g.len() && 0 <= j < g[i].len() ==> #[trigger] g[i][j] < g.len()
}

/// A parent of a commit reachable from `a` is reachable from `a`.
pub proof fn lemma_reachable_extend(g: Seq<Seq<usize>>, a: int, b: int, j: int)
    requires
        reachable(g, a, b),
        0 <= j < g[b].len(),
    ensures
        reachable(g, a, g[b][j] as int),
{
    let w = choose|w: Seq<int>| #[trigger] is_walk(g, w) && w[0] == a && w.last() == b;
    let p = g[b][j] as int;
    let w2 = w.push(p);
    assert forall|i: int| 0 <= i < w2.len() - 1 implies #[trigger] step_ok(g, w2, i) by {
        if i < w.len() - 1 {
            assert(step_ok(g, w, i));
            assert(w2[i] == w[i] && w2[i + 1] == w[i + 1]);
        } else {
            assert(w2[i] == b && w2[i + 1] == p);
        }
    }
    assert(is_walk(g, w2) && w2[0] == a && w2.last() == p);
}

/// Every commit is reachable from itself.
pub proof fn lemma_reachable_self(g: Seq<Seq<usize>>, a: int)
    ensures
        reachable(g, a, a),
{
    let w = seq![a];
    assert(is_walk(g, w) && w[0] == a && w.last() == a);
}

/// Commit `i` is reachable from one of the targets.
pub open spec fn reaches_from_targets(g: Seq<Seq<usize>>, targets: Seq<usize>, i: int) -> bool {
    exists|t: int| 0 <= t < targets.len() && reachable(g, #[trigger] targets[t] as int, i)
}

/// The marks of commit `i` are sound: a mark from a side means reachable
/// from that side, and a common ancestor is marked from both.
pub open spec fn mark_ok(
    g: Seq<Seq<usize>>,
    s: VisitState,
    i: int,
    source: int,
    targets: Seq<usize>,
) -> bool {
    &&& s.source ==> reachable(g, source, i)
    &&& s.target ==> reaches_from_targets(g, targets, i)
    &&& s.result ==> s.source && s.target
}

/// A commit found as a common ancestor: marked as such and not stale.
pub open spec fn is_found(s: VisitState) -> bool {
    s.result && !s.stale
}

/// Some commit is found as a common ancestor.
pub open spec fn has_found(st: Seq<VisitState>) -> bool {
    exists|i: int| 0 <= i < st.len() && is_found(#[trigger] st[i])
}

/// A commit other than `i`, found as a common ancestor, has `i` among its
/// ancestors.
pub open spec fn found_above(g: Seq<Seq<usize>>, st: Seq<VisitState>, i: int) -> bool {
    exists|w: int| 0 <= w < st.len() && w != i && is_found(#[trigger] st[w]) && reachable(g, w, i)
}

/// Commit `i` has passed its marks on: its parents carry the sides it was
/// reached from, and it is a common ancestor when reached from both.
pub open spec fn passes_on(g: Seq<Seq<usize>>, st: Seq<VisitState>, i: int) -> bool {
    &&& (st[i].source && st[i].target ==> st[i].result)
    &&& forall|j: int|
        0 <= j < g[i].len() ==> (st[i].source ==> st[#[trigger] g[i][j] as int].source) && (
        st[i].target ==> st[g[i][j] as int].target)
}

/// The marks of `b` include the sides of `a`, for every commit.
pub open spec fn sides_grow(a: Seq<VisitState>, b: Seq<VisitState>) -> bool {
    &&& a.len() == b.len()
    &&& forall|k: int|
        0 <= k < a.len() ==> ((#[trigger] a[k]).source ==> b[k].source) && (a[k].target
            ==> b[k].target)
}

/// Found commits stay found.
pub open spec fn found_kept(a: Seq<VisitState>, b: Seq<VisitState>) -> bool {
    &&& a.len() == b.len()
    &&& forall|k: int| 0 <= k < a.len() && is_found(#[trigger] a[k]) ==> is_found(b[k])
}

/// A commit that passed its marks on still does when the marks only grow
/// and its own state is unchanged.
proof fn lemma_passes_on_kept(g: Seq<Seq<usize>>, a: Seq<VisitState>, b: Seq<VisitState>, i: int)
    requires
        graph_wf(g),
        a.len() == g.len(),
        0 <= i < a.len(),
        passes_on(g, a, i),
        sides_grow(a, b),
        b[i] == a[i],
    ensures
        passes_on(g, b, i),
{
    assert forall|j: int| 0 <= j < g[i].len() implies (b[i].source ==> b[
        #[trigger] g[i][j] as int].source) && (b[i].target ==> b[g[i][j] as int].target) by {
        let p = g[i][j] as int;
        assert(a[p].source ==> b[p].source);
    }
}

/// A commit below a found commit stays so while found commits stay found.
proof fn lemma_found_above_kept(g: Seq<Seq<usize>>, a: Seq<VisitState>, b: Seq<VisitState>, i: int)
    requires
        found_above(g, a, i),
        found_kept(a, b),
    ensures
        found_above(g, b, i),
{
    let w = choose|w: int| 0 <= w < a.len() && w != i && is_found(#[trigger] a[w]) && reachable(g, w, i);
    assert(is_found(b[w]));
}

/// Reachability is transitive.
pub proof fn lemma_reachable_trans(g: Seq<Seq<usize>>, a: int, b: int, c: int)
    requires
        reachable(g, a, b),
        reachable(g, b, c),
    ensures
        reachable(g, a, c),
{
    let w = choose|w: Seq<int>| #[trigger] is_walk(g, w) && w[0] == b && w.last() == c;
    lemma_reachable_along(g, a, w, w.len() - 1);
}

/// Every commit of a walk that starts at a commit reachable from `a` is
/// reachable from `a`.
proof fn lemma_reachable_along(g: Seq<Seq<usize>>, a: int, w: Seq<int>, k: int)
    requires
        is_walk(g, w),
        reachable(g, a, w[0]),
        0 <= k < w.len(),
    ensures
        reachable(g, a, w[k]),
    decreases k,
{
    if k > 0 {
        lemma_reachable_along(g, a, w, k - 1);
        assert(step_ok(g, w, k - 1));
        let j = choose|j: int| 0 <= j < g[w[k - 1]].len() && #[trigger] g[w[k - 1]][j] == w[k];
        lemma_reachable_extend(g, a, w[k - 1], j);
    }
}

/// What a finished search knows: the marks are sound, the source and the
/// targets carry their sides, every stale commit lies below a found one, and
/// every other commit has passed its marks on.
pub open spec fn search_done(
    g: Seq<Seq<usize>>,
    st: Seq<VisitState>,
    source: int,
    tv: Seq<usize>,
) -> bool {
    &&& graph_wf(g)
    &&& st.len() == g.len()
    &&& 0 <= source < st.len()
    &&& forall|i: int| 0 <= i < st.len() ==> mark_ok(g, #[trigger] st[i], i, source, tv)
    &&& st[source].source
    &&& forall|t: int| 0 <= t < tv.len() ==> #[trigger] tv[t] < st.len()
    &&& forall|t: int| 0 <= t < tv.len() ==> st[#[trigger] tv[t] as int].target
    &&& forall|i: int| 0 <= i < st.len() && (#[trigger] st[i]).stale ==> found_above(g, st, i)
    &&& forall|i: int| 0 <= i < st.len() && !st[i].stale ==> #[trigger] passes_on(g, st, i)
}

/// After a search, a commit reached from the source and from a target is
/// found, or lies below a found commit.
proof fn lemma_search_complete(g: Seq<Seq<usize>>, st: Seq<VisitState>, source: int, tv: Seq<usize>)
    requires
        search_done(g, st, source, tv),
    ensures
        forall|y: int|
            0 <= y < st.len() && reachable(g, source, y) && #[trigger] reaches_from_targets(g, tv, y)
                ==> is_found(st[y]) || found_above(g, st, y),
{
    let n = st.len();
    let src = Seq::new(n, |i: int| st[i].source || found_above(g, st, i));
    let tgt = Seq::new(n, |i: int| st[i].target || found_above(g, st, i));
    assert forall|i: int, j: int|
        0 <= i < g.len() && 0 <= j < g[i].len() && src[i] implies src[#[trigger] g[i][j] as int] by {
        let p = g[i][j] as int;
        if found_above(g, st, i) {
            let w = choose|w: int| 0 <= w < st.len() && w != i && is_found(#[trigger] st[w]) && reachable(g, w, i);
            lemma_reachable_extend(g, w, i, j);
            assert(mark_ok(g, st[w], w, source, tv));
            if w != p {
                assert(found_above(g, st, p));
            }
        } else {
            assert(passes_on(g, st, i));
        }
    }
    assert forall|i: int, j: int|
        0 <= i < g.len() && 0 <= j < g[i].len() && tgt[i] implies tgt[#[trigger] g[i][j] as int] by {
        let p = g[i][j] as int;
        if found_above(g, st, i) {
            let w = choose|w: int| 0 <= w < st.len() && w != i && is_found(#[trigger] st[w]) && reachable(g, w, i);
            lemma_reachable_extend(g, w, i, j);
            assert(mark_ok(g, st[w], w, source, tv));
            if w != p {
                assert(found_above(g, st, p));
            }
        } else {
            assert(passes_on(g, st, i));
        }
    }
    assert forall|y: int|
        0 <= y < st.len() && reachable(g, source, y) && #[trigger] reaches_from_targets(g, tv, y)
            implies is_found(st[y]) || found_above(g, st, y) by {
        lemma_closed_holds_reachable(g, src, source, y);
        let t = choose|t: int| 0 <= t < tv.len() && reachable(g, #[trigger] tv[t] as int, y);
        assert(tgt[tv[t] as int]);
        lemma_closed_holds_reachable(g, tgt, tv[t] as int, y);
        if !found_above(g, st, y) {
            assert(passes_on(g, st, y));
        }
    }
}

/// After a search whose source is not a target, in a history without cycles:
/// when a target has the source among its ancestors, the source is found and
/// marked as reached from a target.
proof fn lemma_search_reaches_source(
    g: Seq<Seq<usize>>,
    st: Seq<VisitState>,
    source: int,
    tv: Seq<usize>,
)
    requires
        search_done(g, st, source, tv),
        acyclic(g),
        reaches_from_targets(g, tv, source),
    ensures
        is_found(st[source]),
        st[source].target,
{
    let n = st.len();
    assert forall|v: int| 0 <= v < n && reachable(g, v, source) implies !(#[trigger] st[v]).stale by {
        if st[v].stale {
            let w = choose|w: int| 0 <= w < st.len() && w != v && is_found(#[trigger] st[w]) && reachable(g, w, v);
            assert(mark_ok(g, st[w], w, source, tv));
            lemma_reachable_trans(g, w, v, source);
            assert(w == source);
            assert(v == source);
        }
    }
    let set = Seq::new(n, |i: int| st[i].target || !reachable(g, i, source));
    assert forall|i: int, j: int|
        0 <= i < g.len() && 0 <= j < g[i].len() && set[i] implies set[#[trigger] g[i][j] as int] by {
        let p = g[i][j] as int;
        if reachable(g, p, source) {
            lemma_reachable_self(g, i);
            lemma_reachable_extend(g, i, i, j);
            lemma_reachable_trans(g, i, p, source);
            assert(!st[i].stale);
            assert(passes_on(g, st, i));
        }
    }
    let t = choose|t: int| 0 <= t < tv.len() && reachable(g, #[trigger] tv[t] as int, source);
    assert(set[tv[t] as int]);
    lemma_closed_holds_reachable(g, set, tv[t] as int, source);
    lemma_reachable_self(g, source);
    assert(!st[source].stale);
    assert(passes_on(g, st, source));
}

/// When `a` is `b` or one of its ancestors, `a` is the only best common
/// ancestor of the two, whichever order they are given in.
pub proof fn lemma_ancestor_is_its_own_best(f: BCAFinder, a: Seq<char>, b: Seq<char>, x: Seq<char>)
    requires
        f.is_ancestor(b, a),
        f.is_best_common_ancestor(a, b, x) || f.is_best_common_ancestor(b, a, x),
    ensures
        x == a,
{
    let (i, j) = choose|i: int, j: int|
        0 <= i < f.oids().len() && 0 <= j < f.oids().len() && #[trigger] f.oids()[i] == b
            && #[trigger] f.oids()[j] == a && reachable(f.graph(), i, j);
    lemma_reachable_self(f.graph(), j);
    assert(f.is_ancestor(a, a));
    if x != a {
        assert(f.is_ancestor(a, x));
    }
}

/// Commit `k` is one of `v`.
pub open spec fn lists(v: Seq<usize>, k: int) -> bool {
    exists|m: int| 0 <= m < v.len() && #[trigger] v[m] as int == k
}

/// A commit of `common` that is not redundant, other than `r`, has `r` among
/// its ancestors.
pub open spec fn covered(g: Seq<Seq<usize>>, common: Seq<usize>, red: Seq<bool>, r: int) -> bool {
    exists|k: int|
        0 <= k < common.len() && !red[common[k] as int] && common[k] != r && #[trigger] reachable(
            g,
            common[k] as int,
            r,
        )
}

/// No commit of `common` other than `x` has `x` among its ancestors.
pub open spec fn no_common_above(g: Seq<Seq<usize>>, common: Seq<usize>, x: int) -> bool {
    forall|k: int|
        0 <= k < common.len() && common[k] != x ==> !#[trigger] reachable(g, common[k] as int, x)
}

/// Marking `o` redundant keeps every redundant commit below a commit that is
/// not, given a commit of `common` that stays unmarked and has `o` among its
/// ancestors.
proof fn lemma_covered_after_mark(
    g: Seq<Seq<usize>>,
    common: Seq<usize>,
    red: Seq<bool>,
    o: int,
    ak: int,
)
    requires
        0 <= o < red.len(),
        0 <= ak < common.len(),
        forall|k: int| 0 <= k < common.len() ==> #[trigger] common[k] < red.len(),
        !red.update(o, true)[common[ak] as int],
        common[ak] != o,
        reachable(g, common[ak] as int, o),
        forall|r: int| 0 <= r < red.len() && #[trigger] red[r] ==> covered(g, common, red, r),
    ensures
        forall|r: int|
            0 <= r < red.len() && #[trigger] red.update(o, true)[r] ==> covered(
                g,
                common,
                red.update(o, true),
                r,
            ),
{
    let red2 = red.update(o, true);
    assert forall|r: int| 0 <= r < red.len() && #[trigger] red2[r] implies covered(g, common, red2, r) by {
        if r == o {
            assert(reachable(g, common[ak] as int, r));
        } else {
            assert(red[r]);
            assert(covered(g, common, red, r));
            let kd = choose|k: int|
                0 <= k < common.len() && !red[common[k] as int] && common[k] != r && #[trigger] reachable(
                    g,
                    common[k] as int,
                    r,
                );
            if common[kd] as int == o {
                lemma_reachable_trans(g, common[ak] as int, o, r);
                assert(common[ak] as int != r);
                assert(reachable(g, common[ak] as int, r));
            } else {
                assert(!red2[common[kd] as int]);
                assert(reachable(g, common[kd] as int, r));
            }
        }
    }
}

/// Commit `i` waits in the queue.
pub open spec fn queued(q: Seq<usize>, i: int) -> bool {
    exists|m: int| 0 <= m < q.len() && #[trigger] q[m] as int == i
}

/// A commit other than the one removed stays in the queue.
proof fn lemma_queued_after_remove(q: Seq<usize>, k: int, i: int)
    requires
        0 <= k < q.len(),
        queued(q, i),
        q[k] as int != i,
    ensures
        queued(q.remove(k), i),
{
    let m = choose|m: int| 0 <= m < q.len() && #[trigger] q[m] as int == i;
    if m < k {
        assert(q.remove(k)[m] == q[m]);
    } else {
        assert(q.remove(k)[m - 1] == q[m]);
    }
}

/// A commit in the queue stays there when another is added, and the added
/// one is there.
proof fn lemma_queued_after_push(q: Seq<usize>, x: usize, i: int)
    ensures
        queued(q, i) ==> queued(q.push(x), i),
        queued(q.push(x), x as int),
{
    if queued(q, i) {
        let m = choose|m: int| 0 <= m < q.len() && #[trigger] q[m] as int == i;
        assert(q.push(x)[m] == q[m]);
    }
    assert(q.push(x)[q.len() as int] == x);
}

/// The number of marks a state lacks.
pub open spec fn missing(s: VisitState) -> nat {
    (if s.source {
        0nat
    } else {
        1nat
    }) + (if s.target {
        0nat
    } else {
        1nat
    }) + (if s.stale {
        0nat
    } else {
        1nat
    }) + (if s.result {
        0nat
    } else {
        1nat
    })
}

/// The number of marks all states lack.
pub open spec fn total_missing(v: Seq<VisitState>) -> nat
    decreases v.len(),
{
    if v.len() == 0 {
        0
    } else {
        total_missing(v.drop_last()) + missing(v.last())
    }
}

/// Replacing one state changes the total by the difference.
pub proof fn lemma_total_missing_update(v: Seq<VisitState>, i: int, s: VisitState)
    requires
        0 <= i < v.len(),
    ensures
        total_missing(v.update(i, s)) + missing(v[i]) == total_missing(v) + missing(s),
    decreases v.len(),
{
    let u = v.update(i, s);
    if i == v.len() - 1 {
        assert(u.drop_last() =~= v.drop_last());
    } else {
        assert(u.drop_last() =~= v.drop_last().update(i, s));
        lemma_total_missing_update(v.drop_last(), i, s);
    }
}

/// Some commit has the identifier `oid`.
pub open spec fn oid_known(commits: Seq<SlimCommit>, oid: Seq<char>) -> bool {
    exists|k: int| 0 <= k < commits.len() && #[trigger] commits[k].oid@ == oid
}

/// Every parent of a commit is among the commits.
pub open spec fn parents_known(commits: Seq<SlimCommit>) -> bool {
    forall|i: int, j: int|
        0 <= i < commits.len() && 0 <= j < commits[i].parents@.len() ==> oid_known(
            commits,
            #[trigger] commits[i].parents@[j]@,
        )
}

/// The parent table lists, for each commit, as many positions as it has
/// parents, and position `j` holds the commit whose identifier is its `j`-th
/// parent.
pub open spec fn parents_table(g: Seq<Seq<usize>>, commits: Seq<SlimCommit>) -> bool {
    &&& g.len() == commits.len()
    &&& forall|i: int| 0 <= i < commits.len() ==> #[trigger] g[i].len() == commits[i].parents@.len()
    &&& forall|i: int, j: int|
        0 <= i < commits.len() && 0 <= j < commits[i].parents@.len() ==> {
            &&& g[i][j] < commits.len()
            &&& commits[#[trigger] g[i][j] as int].oid@ == commits[i].parents@[j]@
        }
}

/// The search over a set of commits.
#[derive(Debug)]
pub struct BCAFinder {
    commits: Vec<SlimCommit>,
    parents: Vec<Vec<usize>>,
}

/// The parents of each commit by position.
pub open spec fn graph_of(parents: Seq<Vec<usize>>) -> Seq<Seq<usize>> {
    parents.map_values(|v: Vec<usize>| v@)
}

impl BCAFinder {
    /// The parent table matches the commits and lists commits of the set.
    #[verifier::type_invariant]
    spec fn inv(self) -> bool {
        &&& self.parents.len() == self.commits.len()
        &&& graph_wf(graph_of(self.parents@))
        &&& forall|i: int| #![trigger self.parents@[i]]
            0 <= i < self.commits.len() ==> self.parents@[i]@.len()
                == self.commits@[i].parents@.len()
        &&& forall|i: int, j: int|
            0 <= i < self.commits.len() && 0 <= j < self.commits@[i].parents@.len()
                ==> self.commits@[self.parents@[i]@[j] as int].oid@
                == #[trigger] self.commits@[i].parents@[j]@
    }

    /// The parents of each commit, by position.
    pub closed spec fn graph(self) -> Seq<Seq<usize>> {
        graph_of(self.parents@)
    }

    /// The identifiers of the commits, by position.
    pub closed spec fn oids(self) -> Seq<Seq<char>> {
        self.commits@.map_values(|c: SlimCommit| c.oid@)
    }

    /// Commit `x` is a best common ancestor of `a` and `b`: a common ancestor
    /// that is not an ancestor of another common ancestor.
    pub open spec fn is_best_common_ancestor(self, a: Seq<char>, b: Seq<char>, x: Seq<char>) -> bool {
        &&& self.is_ancestor(a, x)
        &&& self.is_ancestor(b, x)
        &&& forall|y: Seq<char>|
            #![trigger self.is_ancestor(y, x)]
            self.is_ancestor(a, y) && self.is_ancestor(b, y) && y != x ==> !self.is_ancestor(y, x)
    }

    /// Commit `b` is an ancestor of commit `a`, or `a` itself.
    pub open spec fn is_ancestor(self, a: Seq<char>, b: Seq<char>) -> bool {
        exists|i: int, j: int|
            0 <= i < self.oids().len() && 0 <= j < self.oids().len() && #[trigger] self.oids()[i]
                == a && #[trigger] self.oids()[j] == b && reachable(self.graph(), i, j)
    }

    /// The position of the commit `oid`, or the number of commits.
    fn position(commits: &Vec<SlimCommit>, oid: &ObjectId) -> (r: usize)
        ensures
            r <= commits@.len(),
            r < commits@.len() ==> commits@[r as int].oid@ == oid@,
            forall|i: int| 0 <= i < r ==> #[trigger] commits@[i].oid@ != oid@,
    {
        let mut i: usize = 0;
        while i < commits.len()
            invariant
                i <= commits@.len(),
                forall|k: int| 0 <= k < i ==> #[trigger] commits@[k].oid@ != oid@,
            decreases commits@.len() - i,
        {
            if commits[i].oid == *oid {
                return i;
            }
            i = i + 1;
        }
        i
    }

    /// A search over the given commits; none when a parent of some commit
    /// is not among them.
    pub fn new(commits: Vec<SlimCommit>) -> (r: Option<Self>)
        ensures
            r is Some <==> parents_known(commits@),
            r matches Some(f) ==> f.oids() == commits@.map_values(|c: SlimCommit| c.oid@),
            r matches Some(f) ==> parents_table(f.graph(), commits@),
            r matches Some(f) ==> f.times() == commits@.map_values(|c: SlimCommit| c.timestamp),
    {
        let n = commits.len();
        let mut parents: Vec<Vec<usize>> = Vec::new();
        let mut i: usize = 0;
        while i < n
            invariant
                n == commits@.len(),
                i <= n,
                parents@.len() == i,
                forall|a: int, b: int|
                    0 <= a < i && 0 <= b < parents@[a]@.len() ==> #[trigger] parents@[a]@[b] < n,
                forall|a: int| #![trigger parents@[a]]
                    0 <= a < i ==> parents@[a]@.len() == commits@[a].parents@.len(),
                forall|a: int, b: int|
                    0 <= a < i && 0 <= b < commits@[a].parents@.len() ==> commits@[parents@[a]@[b] as int].oid@
                        == #[trigger] commits@[a].parents@[b]@,
            decreases n - i,
        {
            let mut row: Vec<usize> = Vec::new();
            let mut j: usize = 0;
            while j < commits[i].parents.len()
                invariant
                    n == commits@.len(),
                    i < n,
                    j <= commits@[i as int].parents@.len(),
                    row@.len() == j,
                    forall|b: int| 0 <= b < j ==> #[trigger] row@[b] < n,
                    forall|b: int|
                        0 <= b < j ==> commits@[row@[b] as int].oid@
                            == #[trigger] commits@[i as int].parents@[b]@,
                decreases commits@[i as int].parents@.len() - j,
            {
                let k = Self::position(&commits, &commits[i].parents[j]);
                if k == n {
                    proof {
                        if parents_known(commits@) {
                            assert(oid_known(commits@, commits@[i as int].parents@[j as int]@));
                            let k2 = choose|k2: int|
                                0 <= k2 < commits@.len() && #[trigger] commits@[k2].oid@
                                    == commits@[i as int].parents@[j as int]@;
                            assert(commits@[k2].oid@ != commits@[i as int].parents@[j as int]@);
                        }
                    }
                    return None;
                }
                row.push(k);
                j = j + 1;
            }
            parents.push(row);
            i = i + 1;
        }
        let f = BCAFinder { commits, parents };
        assert(graph_wf(graph_of(f.parents@)));
        assert(f.oids() =~= f.commits@.map_values(|c: SlimCommit| c.oid@));
        assert(f.times() =~= f.commits@.map_values(|c: SlimCommit| c.timestamp));
        assert forall|i: int, j: int|
            0 <= i < f.commits@.len() && 0 <= j < f.commits@[i].parents@.len() implies {
            &&& f.graph()[i][j] < f.commits@.len()
            &&& f.commits@[#[trigger] f.graph()[i][j] as int].oid@ == f.commits@[i].parents@[j]@
        } by {
            assert(f.graph()[i] == f.parents@[i]@);
        }
        assert forall|i: int| 0 <= i < f.commits@.len() implies #[trigger] f.graph()[i].len()
            == f.commits@[i].parents@.len() by {
            assert(f.graph()[i] == f.parents@[i]@);
        }
        proof {
            let cs = f.commits@;
            assert forall|a: int, b: int|
                0 <= a < cs.len() && 0 <= b < cs[a].parents@.len() implies oid_known(
                cs,
                #[trigger] cs[a].parents@[b]@,
            ) by {
                let k = f.parents@[a]@[b] as int;
                assert(graph_of(f.parents@)[a][b] == f.parents@[a]@[b]);
                assert(cs[k].oid@ == cs[a].parents@[b]@);
            }
        }
        Some(f)
    }
}

/// A closed set of commits satisfies `closed`: every parent of a commit in
/// the set is in the set.
pub open spec fn closed_under_parents(g: Seq<Seq<usize>>, set: Seq<bool>) -> bool {
    forall|i: int, j: int|
        0 <= i < g.len() && 0 <= j < g[i].len() && set[i] ==> set[#[trigger] g[i][j] as int]
}

/// A set of commits that holds `a` and every parent of its commits holds
/// each commit reachable from `a`.
pub proof fn lemma_closed_holds_reachable(g: Seq<Seq<usize>>, set: Seq<bool>, a: int, b: int)
    requires
        graph_wf(g),
        set.len() == g.len(),
        0 <= a < g.len(),
        set[a],
        closed_under_parents(g, set),
        reachable(g, a, b),
    ensures
        0 <= b < g.len(),
        set[b],
{
    let w = choose|w: Seq<int>| #[trigger] is_walk(g, w) && w[0] == a && w.last() == b;
    lemma_closed_holds_walk(g, set, w, w.len() - 1);
}

/// Every commit of a walk from a commit of a closed set is in the set.
proof fn lemma_closed_holds_walk(g: Seq<Seq<usize>>, set: Seq<bool>, w: Seq<int>, k: int)
    requires
        graph_wf(g),
        set.len() == g.len(),
        is_walk(g, w),
        0 <= w[0] < g.len(),
        set[w[0]],
        closed_under_parents(g, set),
        0 <= k < w.len(),
    ensures
        0 <= w[k] < g.len(),
        set[w[k]],
    decreases k,
{
    if k > 0 {
        lemma_closed_holds_walk(g, set, w, k - 1);
        assert(step_ok(g, w, k - 1));
        let j = choose|j: int| 0 <= j < g[w[k - 1]].len() && #[trigger] g[w[k - 1]][j] == w[k];
        assert(set[g[w[k - 1]][j] as int]);
    }
}

/// Whether commit `a` is newer than commit `b`: later, or as late with a
/// greater identifier.
pub open spec fn newer_spec(times: Seq<i64>, oids: Seq<Seq<char>>, a: int, b: int) -> bool {
    times[a] > times[b] || (times[a] == times[b] && text_lt(oids[b], oids[a]))
}

impl BCAFinder {
    /// The times of the commits, by position.
    pub closed spec fn times(self) -> Seq<i64> {
        self.commits@.map_values(|c: SlimCommit| c.timestamp)
    }

    /// The number of commits; the graph lists that many and only them.
    pub fn len(&self) -> (r: usize)
        ensures
            r == self.oids().len(),
            r == self.graph().len(),
            r == self.times().len(),
            graph_wf(self.graph()),
    {
        proof {
            use_type_invariant(self);
        }
        self.commits.len()
    }

    /// The parents of commit `i`, by position.
    pub fn parents_at(&self, i: usize) -> (r: &Vec<usize>)
        requires
            i < self.oids().len(),
        ensures
            r@ == self.graph()[i as int],
            forall|j: int| 0 <= j < r@.len() ==> #[trigger] r@[j] < self.oids().len(),
    {
        proof {
            use_type_invariant(self);
            assert(graph_of(self.parents@)[i as int] == self.parents@[i as int]@);
        }
        &self.parents[i]
    }

    /// The identifier of commit `i`.
    pub fn oid_at(&self, i: usize) -> (r: &ObjectId)
        requires
            i < self.oids().len(),
        ensures
            r@ == self.oids()[i as int],
    {
        &self.commits[i].oid
    }

    /// The time of commit `i`.
    pub fn timestamp_at(&self, i: usize) -> (r: i64)
        requires
            i < self.oids().len(),
        ensures
            r == self.times()[i as int],
    {
        self.commits[i].timestamp
    }

    /// The position of the commit `oid`, if it is one of the commits.
    pub fn position_of(&self, oid: &ObjectId) -> (r: Option<usize>)
        ensures
            r matches Some(i) ==> i < self.oids().len() && self.oids()[i as int] == oid@,
            r is None ==> forall|i: int|
                0 <= i < self.oids().len() ==> #[trigger] self.oids()[i] != oid@,
    {
        let k = Self::position(&self.commits, oid);
        if k < self.commits.len() {
            Some(k)
        } else {
            None
        }
    }

    /// Whether commit `a` is newer than commit `b`: later, or as late with
    /// a greater identifier.
    pub fn is_newer(&self, a: usize, b: usize) -> (r: bool)
        requires
            a < self.oids().len(),
            b < self.oids().len(),
        ensures
            r == newer_spec(self.times(), self.oids(), a as int, b as int),
    {
        let ta = self.commits[a].timestamp;
        let tb = self.commits[b].timestamp;
        ta > tb || (ta == tb && text_less(
            self.commits[b].oid.as_str(),
            self.commits[a].oid.as_str(),
        ))
    }
}

impl BCAFinder {
    /// Whether commit `a` is newer than commit `b`: later, or as late with
    /// a greater identifier.
    fn newer(&self, a: usize, b: usize) -> (r: bool)
        requires
            a < self.commits@.len(),
            b < self.commits@.len(),
        ensures
            r == (self.commits@[a as int].timestamp > self.commits@[b as int].timestamp
                || (self.commits@[a as int].timestamp == self.commits@[b as int].timestamp
                && path_lt(self.commits@[b as int].oid@, self.commits@[a as int].oid@))),
    {
        let ta = self.commits[a].timestamp;
        let tb = self.commits[b].timestamp;
        ta > tb || (ta == tb && path_less(
            self.commits[b].oid.as_str(),
            self.commits[a].oid.as_str(),
        ))
    }

    /// Removes from the queue the newest commit and returns it.
    fn pop_newest(&self, queue: &mut Vec<usize>) -> (r: usize)
        requires
            old(queue)@.len() > 0,
            forall|k: int| 0 <= k < old(queue)@.len() ==> #[trigger] old(queue)@[k] < self.commits@.len(),
        ensures
            final(queue)@.len() == old(queue)@.len() - 1,
            exists|k: int|
                0 <= k < old(queue)@.len() && #[trigger] old(queue)@[k] == r && final(queue)@
                    == old(queue)@.remove(k),
            r < self.commits@.len(),
            forall|k: int| 0 <= k < final(queue)@.len() ==> #[trigger] final(queue)@[k] < self.commits@.len(),
    {
        let mut best: usize = 0;
        let mut k: usize = 1;
        while k < queue.len()
            invariant
                queue@.len() > 0,
                best < queue@.len(),
                1 <= k <= queue@.len(),
                forall|m: int| 0 <= m < queue@.len() ==> #[trigger] queue@[m] < self.commits@.len(),
            decreases queue@.len() - k,
        {
            if self.newer(queue[k], queue[best]) {
                best = k;
            }
            k = k + 1;
        }
        let c = queue[best];
        let ghost before = queue@;
        queue.remove(best);
        assert(before[best as int] == c && queue@ == before.remove(best as int));
        assert forall|m: int| 0 <= m < queue@.len() implies #[trigger] queue@[m] < self.commits@.len() by {
            if m < best {
                assert(queue@[m] == before[m]);
            } else {
                assert(queue@[m] == before[m + 1]);
            }
        }
        c
    }

    /// Marks the commits reached from `source` and from `targets`, newest
    /// first; a commit reached from both sides is a common ancestor (`result`)
    /// and the commits below it become `stale`. When `source` is itself a
    /// target it alone is marked as the result.
    fn find_common_ancestors(&self, source: usize, targets: &Vec<usize>) -> (r: Vec<VisitState>)
        requires
            source < self.commits@.len(),
            forall|t: int| 0 <= t < targets@.len() ==> #[trigger] targets@[t] < self.commits@.len(),
        ensures
            r@.len() == self.commits@.len(),
            forall|i: int|
                0 <= i < r@.len() && (#[trigger] r@[i]).result ==> reachable(
                    self.graph(),
                    source as int,
                    i,
                ) && reaches_from_targets(self.graph(), targets@, i),
            forall|i: int|
                0 <= i < r@.len() && (#[trigger] r@[i]).source ==> reachable(
                    self.graph(),
                    source as int,
                    i,
                ),
            forall|i: int|
                0 <= i < r@.len() && (#[trigger] r@[i]).target ==> reaches_from_targets(
                    self.graph(),
                    targets@,
                    i,
                ),
            targets@.contains(source) ==> forall|i: int|
                0 <= i < r@.len() ==> (#[trigger] r@[i]).result == (i == source) && !r@[i].stale
                    && !r@[i].source && !r@[i].target,
            (exists|x: int|
                0 <= x < r@.len() && reachable(self.graph(), source as int, x)
                    && reaches_from_targets(self.graph(), targets@, x)) ==> has_found(r@),
            forall|y: int|
                0 <= y < r@.len() && reachable(self.graph(), source as int, y)
                    && #[trigger] reaches_from_targets(self.graph(), targets@, y) ==> is_found(r@[y])
                    || found_above(self.graph(), r@, y),
            acyclic(self.graph()) && !targets@.contains(source) && reaches_from_targets(
                self.graph(),
                targets@,
                source as int,
            ) ==> is_found(r@[source as int]) && r@[source as int].target,
    {
        proof {
            use_type_invariant(self);
        }
        let ghost g = self.graph();
        let ghost tv = targets@;
        let n = self.commits.len();
        let mut states: Vec<VisitState> = Vec::new();
        while states.len() < n
            invariant
                states@.len() <= n,
                forall|i: int|
                    0 <= i < states@.len() ==> !(#[trigger] states@[i]).source && !states@[i].target
                        && !states@[i].result && !states@[i].stale,
            decreases n - states@.len(),
        {
            states.push(VisitState::none());
        }
        let mut ti: usize = 0;
        while ti < targets.len()
            invariant
                ti <= targets@.len(),
                tv == targets@,
                g == self.graph(),
                g.len() == self.commits@.len(),
                states@.len() == n,
                n == self.commits@.len(),
                source < n,
                forall|i: int|
                    0 <= i < states@.len() ==> !(#[trigger] states@[i]).source && !states@[i].target
                        && !states@[i].result && !states@[i].stale,
                forall|t: int| 0 <= t < ti ==> #[trigger] targets@[t] != source,
            decreases targets@.len() - ti,
        {
            if targets[ti] == source {
                let only = VisitState { source: false, target: false, stale: false, result: true };
                states.set(source, only);
                proof {
                    lemma_reachable_self(g, source as int);
                    assert(reachable(g, tv[ti as int] as int, source as int));
                    assert(is_found(states@[source as int]));
                    assert forall|y: int|
                        0 <= y < states@.len() && reachable(g, source as int, y)
                            && #[trigger] reaches_from_targets(g, tv, y) implies is_found(states@[y])
                            || found_above(g, states@, y) by {
                        if y != source {
                            assert(is_found(states@[source as int]));
                        }
                    }
                    assert(tv.contains(source));
                }
                return states;
            }
            ti = ti + 1;
        }
        let mut queue: Vec<usize> = Vec::new();
        states.set(source, VisitState { source: true, target: false, stale: false, result: false });
        queue.push(source);
        proof {
            lemma_reachable_self(g, source as int);
            assert(queue@[0] == source);
            assert forall|i: int| 0 <= i < n implies mark_ok(
                g,
                #[trigger] states@[i],
                i,
                source as int,
                tv,
            ) by {
                if i != source {
                    assert(!states@[i].source && !states@[i].target && !states@[i].result);
                }
            }
        }
        let mut ti: usize = 0;
        while ti < targets.len()
            invariant
                ti <= targets@.len(),
                tv == targets@,
                g == self.graph(),
                g.len() == self.commits@.len(),
                states@.len() == n,
                n == self.commits@.len(),
                source < n,
                forall|t: int| 0 <= t < targets@.len() ==> #[trigger] targets@[t] < n,
                forall|t: int| 0 <= t < targets@.len() ==> #[trigger] targets@[t] != source,
                forall|k: int| 0 <= k < queue@.len() ==> #[trigger] queue@[k] < n,
                forall|i: int|
                    0 <= i < n ==> mark_ok(g, #[trigger] states@[i], i, source as int, tv),
                states@[source as int].source,
                forall|tt: int| 0 <= tt < ti ==> states@[#[trigger] tv[tt] as int].target,
                forall|i: int| 0 <= i < n ==> !(#[trigger] states@[i]).stale,
                forall|i: int|
                    0 <= i < n && !queued(queue@, i) ==> !(#[trigger] states@[i]).source
                        && !states@[i].target,
            decreases targets@.len() - ti,
        {
            let t = targets[ti];
            let ghost q_old = queue@;
            states.set(t, VisitState { source: false, target: true, stale: false, result: false });
            queue.push(t);
            proof {
                lemma_reachable_self(g, t as int);
                assert(reachable(g, tv[ti as int] as int, t as int));
                assert(reaches_from_targets(g, tv, t as int));
                assert forall|i: int| 0 <= i < n implies mark_ok(
                    g,
                    #[trigger] states@[i],
                    i,
                    source as int,
                    tv,
                ) by {
                    if i == t {
                        assert(mark_ok(g, states@[i], i, source as int, tv));
                    }
                }
                assert forall|i: int|
                    0 <= i < n && !queued(queue@, i) implies !(#[trigger] states@[i]).source
                    && !states@[i].target by {
                    lemma_queued_after_push(q_old, t, i);
                }
            }
            ti = ti + 1;
        }
        proof {
            assert forall|i: int|
                0 <= i < n && !queued(queue@, i) && !states@[i].stale implies #[trigger] passes_on(
                g,
                states@,
                i,
            ) by {}
        }
        while queue.len() > 0
            invariant
                tv == targets@,
                g == self.graph(),
                g.len() == self.commits@.len(),
                states@.len() == n,
                n == self.commits@.len(),
                n == self.parents@.len(),
                g.len() == n,
                graph_wf(g),
                source < n,
                forall|k: int| 0 <= k < queue@.len() ==> #[trigger] queue@[k] < n,
                forall|i: int|
                    0 <= i < n ==> mark_ok(g, #[trigger] states@[i], i, source as int, tv),
                states@[source as int].source,
                forall|tt: int| 0 <= tt < tv.len() ==> states@[#[trigger] tv[tt] as int].target,
                forall|t: int| 0 <= t < tv.len() ==> #[trigger] tv[t] < n,
                forall|i: int| 0 <= i < n && (#[trigger] states@[i]).stale ==> found_above(g, states@, i),
                forall|i: int|
                    0 <= i < n && !queued(queue@, i) && !states@[i].stale ==> #[trigger] passes_on(
                        g,
                        states@,
                        i,
                    ),
            decreases total_missing(states@), queue@.len(),
        {
            let ghost t_start = total_missing(states@);
            let ghost q_before = queue@;
            let c = self.pop_newest(&mut queue);
            let ghost kc = choose|k: int|
                0 <= k < q_before.len() && #[trigger] q_before[k] == c && queue@ == q_before.remove(k);
            let cur = states[c];
            proof {
                assert forall|i: int|
                    0 <= i < n && i != c && !queued(queue@, i) && !states@[i].stale implies #[trigger] passes_on(
                    g,
                    states@,
                    i,
                ) by {
                    if queued(q_before, i) {
                        lemma_queued_after_remove(q_before, kc, i);
                    }
                }
            }
            if cur.stale {
                continue;
            }
            let is_common = cur.source && cur.target;
            if is_common {
                let marked = VisitState {
                    source: cur.source,
                    target: cur.target,
                    stale: cur.stale,
                    result: true,
                };
                let ghost st_m = states@;
                proof {
                    lemma_total_missing_update(states@, c as int, marked);
                }
                states.set(c, marked);
                assert(is_found(states@[c as int]));
                assert forall|tt: int| 0 <= tt < tv.len() implies states@[#[trigger] tv[tt] as int].target by {
                    assert(st_m[tv[tt] as int].target);
                }
                proof {
                    assert(sides_grow(st_m, states@));
                    assert(found_kept(st_m, states@));
                    assert forall|i: int| 0 <= i < n && (#[trigger] states@[i]).stale implies found_above(
                        g,
                        states@,
                        i,
                    ) by {
                        lemma_found_above_kept(g, st_m, states@, i);
                    }
                    assert forall|i: int|
                        0 <= i < n && i != c && !queued(queue@, i) && !states@[i].stale implies #[trigger] passes_on(
                        g,
                        states@,
                        i,
                    ) by {
                        lemma_passes_on_kept(g, st_m, states@, i);
                    }
                }
            }
            let ghost t0 = total_missing(states@);
            let ghost q0 = queue@.len();
            assert(mark_ok(g, cur, c as int, source as int, tv));
            let mut pushed = false;
            let mut j: usize = 0;
            while j < self.parents[c].len()
                invariant
                    tv == targets@,
                    g == self.graph(),
                    g.len() == self.commits@.len(),
                    states@.len() == n,
                    n == self.commits@.len(),
                    n == self.parents@.len(),
                    g.len() == n,
                    graph_wf(g),
                    c < n,
                    source < n,
                    j <= self.parents@[c as int]@.len(),
                    g[c as int].len() == self.parents@[c as int]@.len(),
                    mark_ok(g, cur, c as int, source as int, tv),
                    is_common == (cur.source && cur.target),
                    !cur.stale,
                    forall|k: int| 0 <= k < queue@.len() ==> #[trigger] queue@[k] < n,
                    forall|i: int|
                        0 <= i < n ==> mark_ok(g, #[trigger] states@[i], i, source as int, tv),
                    total_missing(states@) <= t0,
                    pushed ==> total_missing(states@) < t0,
                    !pushed ==> queue@.len() == q0,
                    states@[source as int].source,
                    forall|tt: int| 0 <= tt < tv.len() ==> states@[#[trigger] tv[tt] as int].target,
                    forall|t: int| 0 <= t < tv.len() ==> #[trigger] tv[t] < n,
                    states@[c as int].source == cur.source,
                    states@[c as int].target == cur.target,
                    !states@[c as int].stale,
                    cur.result ==> states@[c as int].result,
                    is_common ==> is_found(states@[c as int]),
                    forall|i: int| 0 <= i < n && (#[trigger] states@[i]).stale ==> found_above(g, states@, i),
                    forall|i: int|
                        0 <= i < n && i != c && !queued(queue@, i) && !states@[i].stale ==> #[trigger] passes_on(
                            g,
                            states@,
                            i,
                        ),
                    forall|jj: int|
                        0 <= jj < j ==> (cur.source ==> states@[#[trigger] g[c as int][jj] as int].source)
                            && (cur.target ==> states@[g[c as int][jj] as int].target),
                decreases self.parents@[c as int]@.len() - j,
            {
                let p = self.parents[c][j];
                assert(g[c as int][j as int] == p);
                assert(p < n);
                let ps = states[p];
                let mut ns = ps.union(&cur);
                if is_common {
                    ns.stale = true;
                }
                if !ps.contains(&cur) {
                    let ghost st_old = states@;
                    let ghost q_old = queue@;
                    proof {
                        lemma_total_missing_update(states@, p as int, ns);
                        assert(mark_ok(g, ps, p as int, source as int, tv));
                        assert(p != c);
                        if cur.source {
                            lemma_reachable_extend(g, source as int, c as int, j as int);
                        }
                        if cur.target {
                            let t = choose|t: int|
                                0 <= t < tv.len() && reachable(g, #[trigger] tv[t] as int, c as int);
                            lemma_reachable_extend(g, tv[t] as int, c as int, j as int);
                            assert(reachable(g, tv[t] as int, p as int));
                        }
                        assert(!is_found(ps)) by {
                            if is_found(ps) {
                                assert(mark_ok(g, ps, p as int, source as int, tv));
                            }
                        }
                    }
                    states.set(p, ns);
                    queue.push(p);
                    pushed = true;
                    proof {
                        assert forall|tt: int| 0 <= tt < tv.len() implies states@[#[trigger] tv[tt] as int].target by {
                            assert(st_old[tv[tt] as int].target);
                        }
                        assert(sides_grow(st_old, states@));
                        assert(found_kept(st_old, states@));
                        assert forall|i: int| 0 <= i < n && (#[trigger] states@[i]).stale implies found_above(
                            g,
                            states@,
                            i,
                        ) by {
                            if i == p && !ps.stale {
                                lemma_reachable_self(g, c as int);
                                lemma_reachable_extend(g, c as int, c as int, j as int);
                                assert(is_found(states@[c as int]));
                            } else {
                                lemma_found_above_kept(g, st_old, states@, i);
                            }
                        }
                        assert forall|i: int|
                            0 <= i < n && i != c && !queued(queue@, i) && !states@[i].stale implies #[trigger] passes_on(
                            g,
                            states@,
                            i,
                        ) by {
                            lemma_queued_after_push(q_old, p, i);
                            lemma_passes_on_kept(g, st_old, states@, i);
                        }
                    }
                }
                j = j + 1;
            }
            proof {
                assert(passes_on(g, states@, c as int));
                assert forall|i: int|
                    0 <= i < n && !queued(queue@, i) && !states@[i].stale implies #[trigger] passes_on(
                    g,
                    states@,
                    i,
                ) by {}
            }
        }
        proof {
            assert forall|i: int| 0 <= i < n && !states@[i].stale implies #[trigger] passes_on(
                g,
                states@,
                i,
            ) by {
                assert(!queued(queue@, i));
            }
            assert(search_done(g, states@, source as int, tv));
            lemma_search_complete(g, states@, source as int, tv);
            if acyclic(g) && reaches_from_targets(g, tv, source as int) {
                lemma_search_reaches_source(g, states@, source as int, tv);
            }
            if exists|x: int|
                0 <= x < n && reachable(g, source as int, x) && reaches_from_targets(g, tv, x) {
                let x = choose|x: int|
                    0 <= x < n && reachable(g, source as int, x) && reaches_from_targets(g, tv, x);
                if !is_found(states@[x]) {
                    let w = choose|w: int|
                        0 <= w < n && w != x && is_found(#[trigger] states@[w]) && reachable(g, w, x);
                    assert(is_found(states@[w]));
                }
            }
        }
        states
    }

    /// Finds a best common ancestor of two commits: a common ancestor that
    /// is not an ancestor of another common ancestor found. Returns none when
    /// no common ancestor is found, or when a commit is not among those of
    /// the search; a commit merged with itself is its own best common
    /// ancestor. In a history without cycles and with distinct identifiers,
    /// one is found whenever the two commits have a common ancestor.
    pub fn find_best_common_ancestor(
        &self,
        source_commit_id: &ObjectId,
        target_commit_id: &ObjectId,
    ) -> (r: Option<ObjectId>)
        ensures
            r matches Some(x) ==> self.is_ancestor(source_commit_id@, x@) && self.is_ancestor(
                target_commit_id@,
                x@,
            ),
            !self.oids().contains(source_commit_id@) || !self.oids().contains(
                target_commit_id@,
            ) ==> r is None,
            self.oids().contains(source_commit_id@) && source_commit_id@ == target_commit_id@
                ==> (r matches Some(x) && x@ == source_commit_id@),
            self.oids().no_duplicates() && acyclic(self.graph()) && (exists|x: Seq<char>|
                self.is_ancestor(source_commit_id@, x) && #[trigger] self.is_ancestor(
                    target_commit_id@,
                    x,
                )) ==> r is Some,
            self.oids().no_duplicates() && acyclic(self.graph()) ==> (r matches Some(x)
                ==> self.is_best_common_ancestor(source_commit_id@, target_commit_id@, x@)),
    {
        proof {
            use_type_invariant(self);
        }
        let n = self.commits.len();
        let s = Self::position(&self.commits, source_commit_id);
        let t = Self::position(&self.commits, target_commit_id);
        if s == n || t == n {
            return None;
        }
        assert(s == t <==> source_commit_id@ == target_commit_id@) by {
            if source_commit_id@ == target_commit_id@ {
                assert(!(s < t)) by {
                    assert(self.commits@[s as int].oid@ == target_commit_id@);
                }
                assert(!(t < s)) by {
                    assert(self.commits@[t as int].oid@ == source_commit_id@);
                }
            }
        }
        let mut targets: Vec<usize> = Vec::new();
        targets.push(t);
        assert(targets@ =~= seq![t]);
        assert(self.oids()[s as int] == source_commit_id@);
        assert(self.oids()[t as int] == target_commit_id@);
        let states = self.find_common_ancestors(s, &targets);
        assert(targets@[0] == t);
        assert(s == t ==> targets@.contains(s));
        let ghost g = self.graph();
        assert(g.len() == n);
        proof {
            if self.oids().no_duplicates() && exists|x: Seq<char>|
                self.is_ancestor(source_commit_id@, x) && #[trigger] self.is_ancestor(
                    target_commit_id@,
                    x,
                ) {
                let x = choose|x: Seq<char>|
                    self.is_ancestor(source_commit_id@, x) && #[trigger] self.is_ancestor(
                        target_commit_id@,
                        x,
                    );
                let (i1, j1) = choose|i: int, j: int|
                    0 <= i < self.oids().len() && 0 <= j < self.oids().len() && #[trigger] self.oids()[i]
                        == source_commit_id@ && #[trigger] self.oids()[j] == x && reachable(g, i, j);
                let (i2, j2) = choose|i: int, j: int|
                    0 <= i < self.oids().len() && 0 <= j < self.oids().len() && #[trigger] self.oids()[i]
                        == target_commit_id@ && #[trigger] self.oids()[j] == x && reachable(g, i, j);
                assert(i1 == s);
                assert(i2 == t);
                assert(j1 == j2);
                assert(reaches_from_targets(g, targets@, j1));
                assert(has_found(states@));
            }
        }
        let mut common: Vec<usize> = Vec::new();
        let mut i: usize = 0;
        while i < n
            invariant
                i <= n,
                n == self.commits@.len(),
                states@.len() == n,
                s < n,
                forall|k: int| 0 <= k < common@.len() ==> #[trigger] common@[k] < n && is_found(
                    states@[common@[k] as int],
                ),
                s == t ==> forall|j: int|
                    0 <= j < n ==> (#[trigger] states@[j]).result == (j == s) && !states@[j].stale,
                s == t ==> common@ == (if i > s {
                    seq![s]
                } else {
                    Seq::<usize>::empty()
                }),
                (exists|k: int| 0 <= k < i && is_found(#[trigger] states@[k])) ==> common@.len() > 0,
                forall|k: int| 0 <= k < i && is_found(#[trigger] states@[k]) ==> lists(common@, k),
            decreases n - i,
        {
            let ghost c0 = common@;
            if states[i].result && !states[i].stale {
                common.push(i);
                assert(common@[common@.len() - 1] == i);
                assert forall|k: int| 0 <= k < i && is_found(#[trigger] states@[k]) implies lists(common@, k) by {
                    let m = choose|m: int| 0 <= m < c0.len() && #[trigger] c0[m] as int == k;
                    assert(common@[m] == c0[m]);
                }
            }
            i = i + 1;
        }
        if common.len() == 0 {
            proof {
                if has_found(states@) {
                    let k = choose|k: int| 0 <= k < states@.len() && is_found(#[trigger] states@[k]);
                    assert(0 <= k < i && is_found(states@[k]));
                }
            }
            return None;
        }
        let mut redundant: Vec<bool> = Vec::new();
        while redundant.len() < n
            invariant
                redundant@.len() <= n,
                forall|k: int| 0 <= k < redundant@.len() ==> !#[trigger] redundant@[k],
            decreases n - redundant@.len(),
        {
            redundant.push(false);
        }
        assert(!redundant@[common@[0] as int]);
        let mut ci: usize = 0;
        while ci < common.len()
            invariant
                redundant@.len() == n,
                n == self.commits@.len(),
                s < n,
                g == self.graph(),
                g.len() == self.commits@.len(),
                forall|k: int| 0 <= k < common@.len() ==> #[trigger] common@[k] < n,
                s == t ==> common@ == seq![s] && !redundant@[s as int],
                acyclic(g) ==> exists|k: int|
                    0 <= k < common@.len() && !redundant@[#[trigger] common@[k] as int],
                acyclic(g) ==> forall|r: int|
                    0 <= r < n && #[trigger] redundant@[r] ==> covered(g, common@, redundant@, r),
                acyclic(g) ==> forall|k: int|
                    0 <= k < ci && !redundant@[#[trigger] common@[k] as int] ==> no_common_above(
                        g,
                        common@,
                        common@[k] as int,
                    ),
            decreases common@.len() - ci,
        {
            let c = common[ci];
            let ghost red0 = redundant@;
            if !redundant[c] {
                let mut others: Vec<usize> = Vec::new();
                let mut k: usize = 0;
                while k < common.len()
                    invariant
                        redundant@.len() == n,
                        s < n,
                        c < n,
                        forall|m: int| 0 <= m < common@.len() ==> #[trigger] common@[m] < n,
                        forall|m: int| 0 <= m < others@.len() ==> #[trigger] others@[m] < n,
                        forall|m: int|
                            0 <= m < others@.len() ==> #[trigger] others@[m] != c && !redundant@[others@[m] as int]
                                && exists|kk: int| 0 <= kk < common@.len() && #[trigger] common@[kk] == others@[m],
                        s == t ==> common@ == seq![s] && c == s && others@.len() == 0,
                        k <= common@.len(),
                        redundant@ == red0,
                        forall|kk: int|
                            0 <= kk < k && common@[kk] != c && !redundant@[common@[kk] as int] ==> lists(
                                others@,
                                #[trigger] common@[kk] as int,
                            ),
                    decreases common@.len() - k,
                {
                    let o = common[k];
                    let ghost o0 = others@;
                    if o != c && !redundant[o] {
                        others.push(o);
                        assert(others@[others@.len() - 1] == common@[k as int]);
                    }
                    assert forall|kk: int|
                        0 <= kk < k + 1 && common@[kk] != c && !redundant@[common@[kk] as int] implies lists(
                        others@,
                        #[trigger] common@[kk] as int,
                    ) by {
                        if kk < k {
                            let m = choose|m: int| 0 <= m < o0.len() && #[trigger] o0[m] as int == common@[kk] as int;
                            assert(others@[m] == o0[m]);
                        } else {
                            assert(others@[others@.len() - 1] == common@[k as int]);
                        }
                    }
                    k = k + 1;
                }
                let st2 = self.find_common_ancestors(c, &others);
                let ghost above = exists|kz: int|
                    0 <= kz < common@.len() && common@[kz] != c && #[trigger] reachable(
                        g,
                        common@[kz] as int,
                        c as int,
                    );
                proof {
                    if acyclic(g) && above {
                        let kz = choose|kz: int|
                            0 <= kz < common@.len() && common@[kz] != c && #[trigger] reachable(
                                g,
                                common@[kz] as int,
                                c as int,
                            );
                        let z = common@[kz] as int;
                        let d: int = if !redundant@[z] {
                            z
                        } else {
                            assert(covered(g, common@, redundant@, z));
                            let kd = choose|k: int|
                                0 <= k < common@.len() && !redundant@[common@[k] as int] && common@[k] != z
                                    && #[trigger] reachable(g, common@[k] as int, z);
                            lemma_reachable_trans(g, common@[kd] as int, z, c as int);
                            if common@[kd] == c {
                                assert(z == c);
                            }
                            common@[kd] as int
                        };
                        assert(reachable(g, d, c as int));
                        assert(d != c);
                        let kd2 = choose|kk: int| 0 <= kk < common@.len() && #[trigger] common@[kk] as int == d;
                        assert(lists(others@, common@[kd2] as int));
                        let m = choose|m: int| 0 <= m < others@.len() && #[trigger] others@[m] as int == d;
                        assert(reaches_from_targets(g, others@, c as int));
                        assert(!others@.contains(c)) by {
                            if others@.contains(c) {
                                let mm = choose|mm: int| 0 <= mm < others@.len() && others@[mm] == c;
                                assert(others@[mm] != c);
                            }
                        }
                        assert(is_found(st2@[c as int]) && st2@[c as int].target);
                    }
                }
                let ghost mut w: int = c as int;
                if st2[c].result && !st2[c].stale && st2[c].target {
                    let ghost red1 = redundant@;
                    redundant.set(c, true);
                    proof {
                        let tt = choose|tt: int|
                            0 <= tt < others@.len() && reachable(g, #[trigger] others@[tt] as int, c as int);
                        w = others@[tt] as int;
                        if acyclic(g) {
                            let kk = choose|kk: int|
                                0 <= kk < common@.len() && #[trigger] common@[kk] == others@[tt];
                            assert(red1.update(c as int, true) == redundant@);
                            lemma_covered_after_mark(g, common@, red1, c as int, kk);
                        }
                    }
                }
                let ghost wk = choose|kk: int| 0 <= kk < common@.len() && #[trigger] common@[kk] == w;
                assert(0 <= wk < common@.len() && common@[wk] == w) by {
                    if w == c {
                        assert(common@[ci as int] == w);
                    }
                }
                proof {
                    lemma_reachable_self(g, c as int);
                }
                let mut k: usize = 0;
                while k < others.len()
                    invariant
                        redundant@.len() == n,
                        st2@.len() == n,
                        s < n,
                        c < n,
                        g == self.graph(),
                        g.len() == self.commits@.len(),
                        forall|m: int| 0 <= m < others@.len() ==> #[trigger] others@[m] < n,
                        forall|m: int| 0 <= m < others@.len() ==> #[trigger] others@[m] != c,
                        g.len() == n,
                        s == t ==> others@.len() == 0 && !redundant@[s as int],
                        forall|i: int|
                            0 <= i < st2@.len() && (#[trigger] st2@[i]).source ==> reachable(
                                g,
                                c as int,
                                i,
                            ),
                        0 <= wk < common@.len(),
                        common@[wk] == w,
                        0 <= w < n,
                        w == c || (w != c && reachable(g, w, c as int)),
                        acyclic(g) ==> !redundant@[w],
                        reachable(g, w, c as int),
                        forall|kk: int| 0 <= kk < common@.len() ==> #[trigger] common@[kk] < n,
                        forall|r: int| 0 <= r < n && red0[r] ==> #[trigger] redundant@[r],
                        acyclic(g) && above ==> redundant@[c as int],
                        acyclic(g) ==> forall|r: int|
                            0 <= r < n && #[trigger] redundant@[r] ==> covered(g, common@, redundant@, r),
                    decreases others@.len() - k,
                {
                    let o = others[k];
                    if st2[o].result && !st2[o].stale && st2[o].source {
                        let ghost red1 = redundant@;
                        proof {
                            if acyclic(g) && o == w {
                                assert(reachable(g, c as int, w));
                            }
                        }
                        redundant.set(o, true);
                        proof {
                            if acyclic(g) {
                                assert(reachable(g, c as int, o as int));
                                lemma_reachable_trans(g, w, c as int, o as int);
                                assert(red1.update(o as int, true) == redundant@);
                                lemma_covered_after_mark(g, common@, red1, o as int, wk);
                            }
                        }
                    }
                    k = k + 1;
                }
                proof {
                    if acyclic(g) {
                        assert(!redundant@[common@[wk] as int]);
                    }
                }
            }
            proof {
                if acyclic(g) {
                    assert forall|k: int|
                        0 <= k < ci + 1 && !redundant@[#[trigger] common@[k] as int] implies no_common_above(
                        g,
                        common@,
                        common@[k] as int,
                    ) by {
                        if k < ci {
                            assert(!red0[common@[k] as int]);
                        }
                    }
                }
            }
            ci = ci + 1;
        }
        let mut ci: usize = 0;
        while ci < common.len()
            invariant
                redundant@.len() == n,
                n == self.commits@.len(),
                states@.len() == n,
                s < n,
                t < n,
                g == self.graph(),
                g.len() == self.commits@.len(),
                targets@ == seq![t],
                self.oids()[s as int] == source_commit_id@,
                self.oids()[t as int] == target_commit_id@,
                forall|i: int|
                    0 <= i < states@.len() && (#[trigger] states@[i]).result ==> reachable(
                        g,
                        s as int,
                        i,
                    ) && reaches_from_targets(g, targets@, i),
                forall|k: int| 0 <= k < common@.len() ==> #[trigger] common@[k] < n && is_found(
                    states@[common@[k] as int],
                ),
                s == t ==> common@ == seq![s] && !redundant@[s as int] && ci == 0,
                (s == t) == (source_commit_id@ == target_commit_id@),
                acyclic(g) ==> exists|k: int|
                    ci <= k < common@.len() && !redundant@[#[trigger] common@[k] as int],
                acyclic(g) ==> forall|k: int|
                    0 <= k < common@.len() && !redundant@[#[trigger] common@[k] as int] ==> no_common_above(
                        g,
                        common@,
                        common@[k] as int,
                    ),
                forall|k: int| 0 <= k < n && is_found(#[trigger] states@[k]) ==> lists(common@, k),
                forall|y: int|
                    0 <= y < n && reachable(g, s as int, y) && #[trigger] reaches_from_targets(
                        g,
                        targets@,
                        y,
                    ) ==> is_found(states@[y]) || found_above(g, states@, y),
            decreases common@.len() - ci,
        {
            let c = common[ci];
            if !redundant[c] {
                let x = self.commits[c].oid.clone();
                proof {
                    assert(is_found(states@[c as int]));
                    assert(reachable(g, s as int, c as int));
                    assert(reaches_from_targets(g, targets@, c as int));
                    assert(targets@[0] == t);
                    assert(reachable(g, t as int, c as int));
                    assert(self.oids()[c as int] == x@);
                    assert(self.is_ancestor(source_commit_id@, x@));
                    assert(self.is_ancestor(target_commit_id@, x@));
                    if s == t {
                        assert(c == s);
                    }
                    if self.oids().no_duplicates() && acyclic(g) {
                        assert(no_common_above(g, common@, c as int));
                        assert forall|y: Seq<char>|
                            self.is_ancestor(source_commit_id@, y) && self.is_ancestor(
                                target_commit_id@,
                                y,
                            ) && y != x@ implies !#[trigger] self.is_ancestor(y, x@) by {
                            if self.is_ancestor(y, x@) {
                                let (iy, jx) = choose|i: int, j: int|
                                    0 <= i < self.oids().len() && 0 <= j < self.oids().len()
                                        && #[trigger] self.oids()[i] == y && #[trigger] self.oids()[j]
                                        == x@ && reachable(g, i, j);
                                let (i1, j1) = choose|i: int, j: int|
                                    0 <= i < self.oids().len() && 0 <= j < self.oids().len()
                                        && #[trigger] self.oids()[i] == source_commit_id@
                                        && #[trigger] self.oids()[j] == y && reachable(g, i, j);
                                let (i2, j2) = choose|i: int, j: int|
                                    0 <= i < self.oids().len() && 0 <= j < self.oids().len()
                                        && #[trigger] self.oids()[i] == target_commit_id@
                                        && #[trigger] self.oids()[j] == y && reachable(g, i, j);
                                assert(jx == c);
                                assert(i1 == s);
                                assert(i2 == t);
                                assert(j1 == iy);
                                assert(j2 == iy);
                                assert(iy != c);
                                assert(reaches_from_targets(g, targets@, iy));
                                if is_found(states@[iy]) {
                                    assert(lists(common@, iy));
                                    let m = choose|m: int| 0 <= m < common@.len() && #[trigger] common@[m] as int == iy;
                                    assert(!reachable(g, common@[m] as int, c as int));
                                } else {
                                    let w = choose|w: int|
                                        0 <= w < states@.len() && w != iy && is_found(#[trigger] states@[w])
                                            && reachable(g, w, iy);
                                    lemma_reachable_trans(g, w, iy, c as int);
                                    if w == c {
                                        assert(iy == c);
                                    }
                                    assert(lists(common@, w));
                                    let m = choose|m: int| 0 <= m < common@.len() && #[trigger] common@[m] as int == w;
                                    assert(!reachable(g, common@[m] as int, c as int));
                                }
                            }
                        }
                    }
                }
                return Some(x);
            }
            ci = ci + 1;
        }
        None
    }
}

} // verus!
