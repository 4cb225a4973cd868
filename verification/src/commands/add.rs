//! What `add` decides once the given paths have been listed.
//!
//! Each given path is listed in the workspace (a file, or the files under a
//! directory); a path whose listing failed is dropped from the index and
//! reported. When every listing succeeded, all listed files are added, and
//! the tracked files under a given path that were not listed are removed.
use crate::text::str_eq;
use vstd::prelude::*;

verus! {

/// The texts of a sequence of strings.
pub open spec fn texts(v: Seq<String>) -> Seq<Seq<char>> {
    v.map_values(|s: String| s@)
}

/// The listings, as texts.
pub open spec fn listings_view(l: Seq<Option<Vec<String>>>) -> Seq<Option<Seq<Seq<char>>>> {
    l.map_values(
        |o: Option<Vec<String>>|
            match o {
                Some(v) => Some(texts(v@)),
                None => None,
            },
    )
}

/// The given paths whose listing failed, in order.
pub open spec fn failed_paths(paths: Seq<Seq<char>>, listings: Seq<Option<Seq<Seq<char>>>>) -> Seq<
    Seq<char>,
>
    decreases paths.len(),
{
    if paths.len() == 0 || listings.len() == 0 {
        Seq::empty()
    } else {
        failed_paths(paths.drop_last(), listings.drop_last()) + if listings.last() is None {
            seq![paths.last()]
        } else {
            Seq::empty()
        }
    }
}

/// Every listed file, listing after listing.
pub open spec fn listed_files(listings: Seq<Option<Seq<Seq<char>>>>) -> Seq<Seq<char>>
    decreases listings.len(),
{
    if listings.len() == 0 {
        Seq::empty()
    } else {
        listed_files(listings.drop_last()) + match listings.last() {
            Some(v) => v,
            None => Seq::empty(),
        }
    }
}

/// The files of `known` that are not among `listed`, in order.
pub open spec fn unlisted(known: Seq<Seq<char>>, listed: Seq<Seq<char>>) -> Seq<Seq<char>>
    decreases known.len(),
{
    if known.len() == 0 {
        Seq::empty()
    } else {
        unlisted(known.drop_last(), listed) + if listed.contains(known.last()) {
            Seq::empty()
        } else {
            seq![known.last()]
        }
    }
}

/// The tracked files under each given path that are not among `listed`,
/// path after path.
pub open spec fn stale_tracked(known: Seq<Seq<Seq<char>>>, listed: Seq<Seq<char>>) -> Seq<
    Seq<char>,
>
    decreases known.len(),
{
    if known.len() == 0 {
        Seq::empty()
    } else {
        stale_tracked(known.drop_last(), listed) + unlisted(known.last(), listed)
    }
}

/// The index changes that `add` makes when every listing succeeded.
pub struct AddPlan {
    /// The files to store and add to the index, in order.
    pub additions: Vec<String>,
    /// The tracked files to drop from the index.
    pub removals: Vec<String>,
}

/// Some given paths could not be listed: they are dropped from the index and
/// reported.
pub struct AddPlanError {
    /// The paths whose listing failed, in order; they are also the removals.
    pub invalid_paths: Vec<String>,
}

/// Whether `x` is among `v`.
fn contains_text(v: &Vec<String>, x: &String) -> (r: bool)
    ensures
        r == texts(v@).contains(x@),
{
    let mut i: usize = 0;
    while i < v.len()
        invariant
            i <= v@.len(),
            forall|k: int| 0 <= k < i ==> texts(v@)[k] != x@,
        decreases v@.len() - i,
    {
        if str_eq(v[i].as_str(), x.as_str()) {
            assert(texts(v@)[i as int] == x@);
            return true;
        }
        i = i + 1;
    }
    false
}

/// The tracked files of `known` that are not among `listed`.
fn unlisted_of(known: &Vec<String>, listed: &Vec<String>) -> (r: Vec<String>)
    ensures
        texts(r@) == unlisted(texts(known@), texts(listed@)),
{
    let mut out: Vec<String> = Vec::new();
    let mut i: usize = 0;
    while i < known.len()
        invariant
            i <= known@.len(),
            texts(out@) == unlisted(texts(known@).take(i as int), texts(listed@)),
        decreases known@.len() - i,
    {
        let ghost before = out@;
        let t = known[i].clone();
        assert(texts(known@).take(i + 1).drop_last() =~= texts(known@).take(i as int));
        if !contains_text(listed, &t) {
            out.push(t);
            assert(texts(out@) =~= texts(before) + seq![texts(known@)[i as int]]);
        } else {
            assert(texts(out@) =~= texts(before) + Seq::<Seq<char>>::empty());
        }
        i = i + 1;
    }
    assert(texts(known@).take(known@.len() as int) =~= texts(known@));
    out
}

/// Decides what `add` does with the given paths, their listings (none when
/// listing failed) and, for each path, the tracked files under it. When some
/// listing failed, the error names exactly those paths, in order, and they
/// are the ones to drop from the index. Otherwise every listed file is added,
/// in order, and the tracked files under a given path that were not listed
/// are removed.
pub fn add_plan(
    paths: &Vec<String>,
    listings: &Vec<Option<Vec<String>>>,
    tracked_under: &Vec<Vec<String>>,
) -> (r: Result<AddPlan, AddPlanError>)
    requires
        listings@.len() == paths@.len(),
        tracked_under@.len() == paths@.len(),
    ensures
        r is Err <==> failed_paths(texts(paths@), listings_view(listings@)).len() > 0,
        r matches Err(e) ==> texts(e.invalid_paths@) == failed_paths(
            texts(paths@),
            listings_view(listings@),
        ),
        r matches Ok(p) ==> texts(p.additions@) == listed_files(listings_view(listings@))
            && texts(p.removals@) == stale_tracked(
            tracked_under@.map_values(|v: Vec<String>| texts(v@)),
            listed_files(listings_view(listings@)),
        ),
{
    let ghost pv = texts(paths@);
    let ghost lv = listings_view(listings@);
    let mut failed: Vec<String> = Vec::new();
    let mut listed: Vec<String> = Vec::new();
    let mut i: usize = 0;
    while i < paths.len()
        invariant
            i <= paths@.len(),
            listings@.len() == paths@.len(),
            pv == texts(paths@),
            lv == listings_view(listings@),
            texts(failed@) == failed_paths(pv.take(i as int), lv.take(i as int)),
            texts(listed@) == listed_files(lv.take(i as int)),
        decreases paths@.len() - i,
    {
        assert(pv.take(i + 1).drop_last() =~= pv.take(i as int));
        assert(lv.take(i + 1).drop_last() =~= lv.take(i as int));
        let ghost f0 = failed@;
        let ghost l0 = listed@;
        match &listings[i] {
            None => {
                failed.push(paths[i].clone());
                assert(texts(failed@) =~= texts(f0) + seq![pv[i as int]]);
                assert(texts(listed@) =~= texts(l0) + Seq::<Seq<char>>::empty());
            },
            Some(files) => {
                let mut k: usize = 0;
                while k < files.len()
                    invariant
                        k <= files@.len(),
                        texts(listed@) == texts(l0) + texts(files@).take(k as int),
                    decreases files@.len() - k,
                {
                    let ghost l1 = listed@;
                    listed.push(files[k].clone());
                    assert(texts(listed@) =~= texts(l1) + seq![texts(files@)[k as int]]);
                    assert(texts(files@).take(k + 1) =~= texts(files@).take(k as int) + seq![
                        texts(files@)[k as int],
                    ]);
                    k = k + 1;
                }
                assert(texts(files@).take(files@.len() as int) =~= texts(files@));
                assert(texts(failed@) =~= texts(f0) + Seq::<Seq<char>>::empty());
            },
        }
        i = i + 1;
    }
    assert(pv.take(paths@.len() as int) =~= pv);
    assert(lv.take(paths@.len() as int) =~= lv);
    if failed.len() > 0 {
        return Err(AddPlanError { invalid_paths: failed });
    }
    let ghost tv = tracked_under@.map_values(|v: Vec<String>| texts(v@));
    let mut removals: Vec<String> = Vec::new();
    let mut j: usize = 0;
    while j < tracked_under.len()
        invariant
            j <= tracked_under@.len(),
            tv == tracked_under@.map_values(|v: Vec<String>| texts(v@)),
            texts(removals@) == stale_tracked(tv.take(j as int), texts(listed@)),
        decreases tracked_under@.len() - j,
    {
        assert(tv.take(j + 1).drop_last() =~= tv.take(j as int));
        let gone = unlisted_of(&tracked_under[j], &listed);
        let ghost r0 = removals@;
        let mut k: usize = 0;
        while k < gone.len()
            invariant
                k <= gone@.len(),
                texts(removals@) == texts(r0) + texts(gone@).take(k as int),
            decreases gone@.len() - k,
        {
            let ghost r1 = removals@;
            removals.push(gone[k].clone());
            assert(texts(removals@) =~= texts(r1) + seq![texts(gone@)[k as int]]);
            assert(texts(gone@).take(k + 1) =~= texts(gone@).take(k as int) + seq![
                texts(gone@)[k as int],
            ]);
            k = k + 1;
        }
        assert(texts(gone@).take(gone@.len() as int) =~= texts(gone@));
        assert(tv.take(j + 1).last() == tv[j as int]);
        j = j + 1;
    }
    assert(tv.take(tracked_under@.len() as int) =~= tv);
    Ok(AddPlan { additions: listed, removals })
}

/// Law of failed listings: `add` fails exactly when the listing of some
/// given path failed, and each path it reports is such a path.
pub proof fn lemma_add_fails_exactly_on_failed_listings(
    paths: Seq<Seq<char>>,
    listings: Seq<Option<Seq<Seq<char>>>>,
)
    requires
        paths.len() == listings.len(),
    ensures
        (failed_paths(paths, listings).len() > 0) <==> (exists|i: int|
            0 <= i < listings.len() && #[trigger] listings[i] is None),
        forall|x: Seq<char>|
            #[trigger] failed_paths(paths, listings).contains(x) ==> exists|i: int|
                0 <= i < paths.len() && paths[i] == x && #[trigger] listings[i] is None,
    decreases paths.len(),
{
    if paths.len() > 0 {
        let pt = paths.drop_last();
        let lt = listings.drop_last();
        lemma_add_fails_exactly_on_failed_listings(pt, lt);
        let n = paths.len() - 1;
        let prev = failed_paths(pt, lt);
        if exists|i: int| 0 <= i < listings.len() && #[trigger] listings[i] is None {
            let i = choose|i: int| 0 <= i < listings.len() && #[trigger] listings[i] is None;
            if i < n {
                assert(lt[i] is None);
            }
        }
        if exists|i: int| 0 <= i < lt.len() && #[trigger] lt[i] is None {
            let i = choose|i: int| 0 <= i < lt.len() && #[trigger] lt[i] is None;
            assert(listings[i] is None);
        }
        let tail = if listings.last() is None {
            seq![paths.last()]
        } else {
            Seq::<Seq<char>>::empty()
        };
        assert(failed_paths(paths, listings) == prev + tail);
        assert forall|x: Seq<char>| #[trigger] failed_paths(paths, listings).contains(x) implies exists|i: int|
            0 <= i < paths.len() && paths[i] == x && #[trigger] listings[i] is None by {
            let k = choose|k: int| 0 <= k < (prev + tail).len() && (prev + tail)[k] == x;
            if k < prev.len() {
                assert(prev[k] == x);
                assert(prev.contains(x));
                let i = choose|i: int| 0 <= i < pt.len() && pt[i] == x && #[trigger] lt[i] is None;
                assert(paths[i] == x && listings[i] is None);
            } else {
                assert(paths[n] == x && listings[n] is None);
            }
        }
    }
}

/// Law of additions: a file is added exactly when some listing holds it.
pub proof fn lemma_listed_files_are_those_listed(listings: Seq<Option<Seq<Seq<char>>>>, x: Seq<char>)
    ensures
        listed_files(listings).contains(x) <==> exists|i: int|
            0 <= i < listings.len() && #[trigger] listings[i] is Some && listings[i]->0.contains(x),
    decreases listings.len(),
{
    if listings.len() > 0 {
        let lt = listings.drop_last();
        lemma_listed_files_are_those_listed(lt, x);
        let n = listings.len() - 1;
        let prev = listed_files(lt);
        let tail = match listings.last() {
            Some(v) => v,
            None => Seq::<Seq<char>>::empty(),
        };
        assert(listed_files(listings) == prev + tail);
        if (prev + tail).contains(x) {
            let k = choose|k: int| 0 <= k < (prev + tail).len() && (prev + tail)[k] == x;
            if k < prev.len() {
                assert(prev[k] == x);
                let i = choose|i: int| 0 <= i < lt.len() && #[trigger] lt[i] is Some && lt[i]->0.contains(x);
                assert(listings[i] == lt[i]);
            } else {
                assert(tail[k - prev.len()] == x);
                assert(listings[n] is Some && listings[n]->0.contains(x));
            }
        }
        if exists|i: int| 0 <= i < listings.len() && #[trigger] listings[i] is Some && listings[i]->0.contains(x) {
            let i = choose|i: int| 0 <= i < listings.len() && #[trigger] listings[i] is Some && listings[i]->0.contains(x);
            if i < n {
                assert(lt[i] == listings[i]);
                let k = choose|k: int| 0 <= k < prev.len() && prev[k] == x;
                assert((prev + tail)[k] == x);
            } else {
                let k = choose|k: int| 0 <= k < tail.len() && tail[k] == x;
                assert((prev + tail)[prev.len() + k] == x);
            }
        }
    }
}

/// Law of removals under a path: a tracked file is removed exactly when it
/// was not listed.
pub proof fn lemma_unlisted_are_those_not_listed(known: Seq<Seq<char>>, listed: Seq<Seq<char>>, x: Seq<char>)
    ensures
        unlisted(known, listed).contains(x) <==> (known.contains(x) && !listed.contains(x)),
    decreases known.len(),
{
    if known.len() > 0 {
        let kt = known.drop_last();
        lemma_unlisted_are_those_not_listed(kt, listed, x);
        let n = known.len() - 1;
        let prev = unlisted(kt, listed);
        let tail = if listed.contains(known.last()) {
            Seq::<Seq<char>>::empty()
        } else {
            seq![known.last()]
        };
        assert(unlisted(known, listed) == prev + tail);
        if (prev + tail).contains(x) {
            let k = choose|k: int| 0 <= k < (prev + tail).len() && (prev + tail)[k] == x;
            if k < prev.len() {
                assert(prev[k] == x);
                let i = choose|i: int| 0 <= i < kt.len() && kt[i] == x;
                assert(known[i] == x);
            } else {
                assert(known[n] == x);
            }
        }
        if known.contains(x) && !listed.contains(x) {
            let i = choose|i: int| 0 <= i < known.len() && known[i] == x;
            if i < n {
                assert(kt[i] == x);
                let k = choose|k: int| 0 <= k < prev.len() && prev[k] == x;
                assert((prev + tail)[k] == x);
            } else {
                assert((prev + tail)[prev.len() as int] == x);
            }
        }
    }
}

} // verus!
