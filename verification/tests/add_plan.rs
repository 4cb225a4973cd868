use bit::commands::add::add_plan;

fn strings(v: &[&str]) -> Vec<String> {
    v.iter().map(|s| s.to_string()).collect()
}

#[test]
fn add_plan_reports_every_path_that_could_not_be_listed() {
    let paths = strings(&["a.txt", "gone", "dir", "missing"]);
    let listings = vec![Some(strings(&["a.txt"])), None, Some(strings(&["dir/x"])), None];
    let known = vec![vec![], strings(&["gone"]), vec![], vec![]];
    let err = match add_plan(&paths, &listings, &known) {
        Err(e) => e,
        Ok(_) => panic!("expected an error"),
    };
    assert_eq!(err.invalid_paths, strings(&["gone", "missing"]));
}

#[test]
fn add_plan_adds_listed_files_and_drops_unlisted_tracked_ones() {
    let paths = strings(&["dir", "b.txt"]);
    let listings = vec![Some(strings(&["dir/x", "dir/y"])), Some(strings(&["b.txt"]))];
    let known = vec![strings(&["dir/old", "dir/x", "dir/z"]), strings(&["b.txt"])];
    let plan = match add_plan(&paths, &listings, &known) {
        Ok(p) => p,
        Err(_) => panic!("expected a plan"),
    };
    assert_eq!(plan.additions, strings(&["dir/x", "dir/y", "b.txt"]));
    assert_eq!(plan.removals, strings(&["dir/old", "dir/z"]));
}

#[test]
fn add_plan_with_nothing_given_does_nothing() {
    let plan = match add_plan(&vec![], &vec![], &vec![]) {
        Ok(p) => p,
        Err(_) => panic!("expected a plan"),
    };
    assert!(plan.additions.is_empty());
    assert!(plan.removals.is_empty());
}
