use pkgdb::error::DbError;
use pkgdb::model::BasicPackageData;
use pkgdb::occurrences::get_packages_occurences_in_deps;
use pkgdb::ranking::{get_most_voted_pkgs, sort_pkgs_by_field_with_limit, sort_values_by, RankField};

fn pkg(name: &str, votes: i32, popularity: &str, maintainer: &str) -> BasicPackageData {
    BasicPackageData {
        name: name.to_string(),
        version: "1.0".to_string(),
        path_to_additional_data: format!("/{}", name),
        votes,
        popularity: popularity.to_string(),
        description: format!("{} package", name),
        maintainer: maintainer.to_string(),
        last_updated: "2023-01-01".to_string(),
    }
}

fn dataset() -> Vec<BasicPackageData> {
    vec![
        pkg("paru", 1200, "30.5", "morganamilo"),
        pkg("yay", 1800, "45.25", "jguer"),
        pkg("spotify", 900, "12.1", "ashley"),
        pkg("zoom", 150, "3", "kid"),
        pkg("chrome", 1500, "20.75", "luzifer"),
    ]
}

fn names(v: &[String]) -> Vec<&str> {
    v.iter().map(|s| s.as_str()).collect()
}

#[test]
fn ranks_names_by_votes_descending() {
    let r = sort_pkgs_by_field_with_limit(dataset(), "votes", 0, 3).unwrap();
    assert_eq!(names(&r), vec!["yay", "chrome", "paru"]);
}

#[test]
fn ranking_window_skips_from_the_head() {
    let r = sort_pkgs_by_field_with_limit(dataset(), "votes", 1, 3).unwrap();
    assert_eq!(names(&r), vec!["chrome", "paru"]);
    let r = sort_pkgs_by_field_with_limit(dataset(), "votes", 3, 3).unwrap();
    assert!(r.is_empty());
    let r = sort_pkgs_by_field_with_limit(dataset(), "votes", 4, 2).unwrap();
    assert!(r.is_empty());
    let r = sort_pkgs_by_field_with_limit(dataset(), "votes", 10, 20).unwrap();
    assert!(r.is_empty());
}

#[test]
fn ranking_past_the_end_returns_every_package() {
    let r = sort_pkgs_by_field_with_limit(dataset(), "votes", 0, 100).unwrap();
    assert_eq!(names(&r), vec!["yay", "chrome", "paru", "spotify", "zoom"]);
    let r = sort_pkgs_by_field_with_limit(Vec::new(), "votes", 0, 5).unwrap();
    assert!(r.is_empty());
}

#[test]
fn ranks_by_popularity_numerically() {
    let r = sort_pkgs_by_field_with_limit(dataset(), "popularity", 0, 5).unwrap();
    assert_eq!(names(&r), vec!["yay", "paru", "chrome", "spotify", "zoom"]);
}

#[test]
fn ranks_strings_descending_and_ties_by_name() {
    let r = sort_pkgs_by_field_with_limit(dataset(), "name", 0, 5).unwrap();
    assert_eq!(names(&r), vec!["zoom", "yay", "spotify", "paru", "chrome"]);
    let tied = vec![pkg("b", 5, "1", "m"), pkg("c", 5, "1", "m"), pkg("a", 5, "1", "m"), pkg("d", 9, "1", "m")];
    let r = sort_pkgs_by_field_with_limit(tied, "votes", 0, 4).unwrap();
    assert_eq!(names(&r), vec!["d", "a", "b", "c"]);
}

#[test]
fn ranks_special_popularity_values() {
    let d = vec![pkg("a", 1, "NaN", "m"), pkg("b", 2, "inf", "m"), pkg("c", 3, "-inf", "m"), pkg("d", 4, "7.5", "m")];
    let r = sort_pkgs_by_field_with_limit(d, "popularity", 0, 4).unwrap();
    assert_eq!(names(&r), vec!["b", "d", "c", "a"]);
}

#[test]
fn ranking_by_votes_ignores_popularity_text() {
    let d = vec![pkg("a", 1, "high", "m"), pkg("b", 2, "?", "m")];
    let r = sort_pkgs_by_field_with_limit(d.clone(), "votes", 0, 2).unwrap();
    assert_eq!(names(&r), vec!["b", "a"]);
    assert_eq!(get_most_voted_pkgs(d, 1)[0].name, "b");
}

#[test]
fn unsupported_field_is_refused() {
    let r = sort_pkgs_by_field_with_limit(dataset(), "bogus_field", 0, 5);
    assert_eq!(r, Err(DbError::UnsupportedField { field: "bogus_field".to_string() }));
    assert_eq!(RankField::from_name("Votes"), Err(DbError::UnsupportedField { field: "Votes".to_string() }));
    assert_eq!(RankField::from_name("last_updated"), Ok(RankField::LastUpdated));
}

#[test]
fn sort_values_by_sorts_ascending() {
    let mut d = dataset();
    assert_eq!(sort_values_by(&mut d, "maintainer"), Ok(()));
    let m: Vec<&str> = d.iter().map(|p| p.maintainer.as_str()).collect();
    assert_eq!(m, vec!["ashley", "jguer", "kid", "luzifer", "morganamilo"]);
    let mut d = dataset();
    assert_eq!(sort_values_by(&mut d, "votes"), Ok(()));
    let v: Vec<i32> = d.iter().map(|p| p.votes).collect();
    assert_eq!(v, vec![150, 900, 1200, 1500, 1800]);
    let mut d = dataset();
    assert_eq!(sort_values_by(&mut d, "popularity"), Ok(()));
    let n: Vec<&str> = d.iter().map(|p| p.name.as_str()).collect();
    assert_eq!(n, vec!["zoom", "spotify", "chrome", "paru", "yay"]);
    let mut d = dataset();
    assert!(sort_values_by(&mut d, "nope").is_err());
    assert_eq!(d, dataset());
}

#[test]
fn sort_values_by_keeps_ties_in_order() {
    let mut d = vec![pkg("c", 5, "1", "m"), pkg("a", 5, "1", "m"), pkg("d", 1, "1", "m"), pkg("b", 5, "1", "m")];
    assert_eq!(sort_values_by(&mut d, "votes"), Ok(()));
    let n: Vec<&str> = d.iter().map(|p| p.name.as_str()).collect();
    assert_eq!(n, vec!["d", "c", "a", "b"]);
}

#[test]
fn most_voted_are_the_first_places_by_votes() {
    let top = get_most_voted_pkgs(dataset(), 2);
    let top_names: Vec<&str> = top.iter().map(|p| p.name.as_str()).collect();
    assert_eq!(top_names, vec!["yay", "chrome"]);
    let ranked = sort_pkgs_by_field_with_limit(dataset(), "votes", 0, 2).unwrap();
    assert_eq!(top_names, names(&ranked));
    assert_eq!(get_most_voted_pkgs(dataset(), 50).len(), 5);
    assert!(get_most_voted_pkgs(dataset(), 0).is_empty());
}

#[test]
fn skytable_db_test_query() {
    let top = get_most_voted_pkgs(dataset(), 5);
    let votes: Vec<i32> = top.iter().map(|p| p.votes).collect();
    assert_eq!(votes, vec![1800, 1500, 1200, 900, 150]);
}

fn groups(v: &[&[&str]]) -> Vec<Vec<String>> {
    v.iter().map(|g| g.iter().map(|s| s.to_string()).collect()).collect()
}

fn requested() -> Vec<String> {
    vec!["rust".to_string(), "go".to_string(), "sudo".to_string()]
}

#[test]
fn counts_dependency_occurrences() {
    let data = groups(&[&["rust", "cmake"], &["python"], &["cmake", "rust"], &[], &["gcc"]]);
    let r = get_packages_occurences_in_deps(&data, &requested());
    assert_eq!(r, vec![("rust".to_string(), 2), ("go".to_string(), 0), ("sudo".to_string(), 0)]);
    let r = get_packages_occurences_in_deps(&data, &vec![]);
    assert!(r.is_empty());
}

#[test]
fn ss() {
    let data = groups(&[&["rust"], &["sudo", "rust"], &["go"]]);
    let r = get_packages_occurences_in_deps(&data, &requested());
    assert_eq!(r, vec![("rust".to_string(), 2), ("go".to_string(), 1), ("sudo".to_string(), 1)]);
}

#[test]
fn surreal_db_test_query() {
    let r = get_packages_occurences_in_deps(&Vec::new(), &requested());
    assert_eq!(r, vec![("rust".to_string(), 0), ("go".to_string(), 0), ("sudo".to_string(), 0)]);
}
