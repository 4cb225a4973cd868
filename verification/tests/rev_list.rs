use bit::artifacts::branch::revision::Revision;
use bit::artifacts::log::rev_list::{start_revisions, RevList, RevListError};
use bit::artifacts::merge::bca_finder::SlimCommit;
use bit::artifacts::objects::object_id::ObjectId;
use bit::commands::log::LogRevisionTargets;

fn oid(c: char) -> ObjectId {
    ObjectId::try_parse(std::iter::repeat(c).take(40).collect()).unwrap()
}

fn commit(c: char, parents: &[char], timestamp: i64) -> SlimCommit {
    SlimCommit { oid: oid(c), parents: parents.iter().map(|p| oid(*p)).collect(), timestamp }
}

fn history() -> Vec<SlimCommit> {
    // a <- b <- c, and d merging c with e (a side branch from a)
    vec![
        commit('a', &[], 100),
        commit('b', &['a'], 200),
        commit('c', &['b'], 300),
        commit('e', &['a'], 250),
        commit('d', &['c', 'e'], 400),
    ]
}

fn walk(list: RevList) -> Vec<String> {
    let mut it = list.into_iter();
    let mut out = Vec::new();
    while let Some(o) = it.next() {
        out.push(o.as_str()[..1].to_string());
    }
    out
}

#[test]
fn log_lists_reachable_commits_newest_first() {
    let list = RevList::new(history(), vec![], vec![(oid('d'), true)], false).unwrap();
    assert_eq!(walk(list), vec!["d", "c", "e", "b", "a"]);
}

#[test]
fn log_of_an_inner_commit_leaves_out_its_descendants() {
    let list = RevList::new(history(), vec![], vec![(oid('c'), true)], false).unwrap();
    assert_eq!(walk(list), vec!["c", "b", "a"]);
}

#[test]
fn log_range_leaves_out_the_excluded_history() {
    let list = RevList::new(history(), vec![], vec![(oid('b'), false), (oid('d'), true)], false).unwrap();
    assert_eq!(walk(list), vec!["d", "c", "e"]);
}

#[test]
fn log_with_files_skips_commits_that_leave_them_alone() {
    // b leaves the files as a had them; the others change them
    let unchanged = vec![vec![false], vec![true], vec![false]];
    let commits = vec![commit('a', &[], 100), commit('b', &['a'], 200), commit('c', &['b'], 300)];
    let list = RevList::new(commits, unchanged, vec![(oid('c'), true)], true).unwrap();
    assert_eq!(walk(list), vec!["c", "a"]);
}

#[test]
fn log_rejects_unknown_commits() {
    let commits = vec![commit('b', &['a'], 200)];
    assert!(matches!(RevList::new(commits, vec![], vec![], false), Err(RevListError::UnknownParent)));
    match RevList::new(history(), vec![], vec![(oid('f'), true)], false) {
        Err(RevListError::CommitNotFound(o)) => assert_eq!(o.as_str(), oid('f').as_str()),
        _ => panic!("expected an unknown start"),
    }
}

#[test]
fn log_starts_at_head_when_every_target_is_excluded() {
    let excluded = Revision::try_parse("main").unwrap();
    let starts = start_revisions(vec![LogRevisionTargets::ExcludedRevision(excluded)]).unwrap();
    assert_eq!(starts.len(), 2);
    assert!(!starts[0].1);
    assert!(starts[1].1);
    let range = LogRevisionTargets::RangeExpression {
        excluded: Revision::try_parse("main").unwrap(),
        included: Revision::try_parse("topic").unwrap(),
    };
    let starts = start_revisions(vec![range]).unwrap();
    assert_eq!(starts.len(), 2);
    assert!(!starts[0].1);
    assert!(starts[1].1);
}
