use pkgdb::commands::{Db, FrontendError, QueryCommand};
use pkgdb::error::{DbError, ErrorKind};
use pkgdb::model::{AdditionalPackageData, BasicPackageData, Comment, ModelError, PackageData, PackageDependency};
use pkgdb::query::{
    contains_str, most_voted_query, parse_custom_query, skip_already_exist_error, sort_pkgs_by_field_query,
    split_words, DEPENDENCY_GROUPS_QUERY, REMOVE_COMMENTS_QUERY,
};
use pkgdb::redis_layout::{
    assemble_package, basic_from_hash, comment_fields, comment_key, comments_index_key, dependencies_index_key,
    dependency_group_of_key, dependency_groups_of_keys, dependency_key, insert_pkg_ops, package_fields, package_key,
    remove_comments_ops, sort_pkgs_by_field_args, RedisOp, PACKAGE_SET_KEY,
};
use pkgdb::response::DbResponse;

fn package(optional: bool) -> PackageData {
    let some = |s: &str| if optional { Some(s.to_string()) } else { None };
    PackageData {
        basic: BasicPackageData {
            name: "yay".to_string(),
            version: "12.1.0-1".to_string(),
            path_to_additional_data: "/packages/yay".to_string(),
            votes: -3,
            popularity: "0.125".to_string(),
            description: "AUR helper".to_string(),
            maintainer: "jguer".to_string(),
            last_updated: "2023-06-01".to_string(),
        },
        additional: AdditionalPackageData {
            git_clone_url: "https://aur.archlinux.org/yay.git".to_string(),
            keywords: some("aur"),
            license: some("GPL3"),
            conflicts: some("yay-bin"),
            provides: some("yay"),
            submitter: "jguer".to_string(),
            first_submitted: "2016-10-05".to_string(),
        },
        dependencies: vec![
            PackageDependency { group: "depends".to_string(), packages: vec!["pacman".to_string(), "git".to_string()] },
            PackageDependency { group: "makedepends".to_string(), packages: vec![] },
        ],
        comments: vec![
            Comment { header: "a".to_string(), content: "first".to_string() },
            Comment { header: "b".to_string(), content: "second".to_string() },
        ],
    }
}

fn read_back(p: &PackageData) -> Result<PackageData, DbError> {
    let name = p.basic.name.as_str();
    let fields = package_fields(&p.basic, &p.additional);
    let comments: Vec<Vec<(String, String)>> = p.comments.iter().map(comment_fields).collect();
    let deps: Vec<(String, Vec<String>)> =
        p.dependencies.iter().map(|d| (dependency_key(name, &d.group), d.packages.clone())).collect();
    assemble_package(name, fields, comments, deps)
}

#[test]
fn keys_follow_the_layout() {
    assert_eq!(package_key("yay"), "pkgs:yay");
    assert_eq!(comments_index_key("yay"), "pkgs:yay:cmnts");
    assert_eq!(comment_key("yay", 12), "pkgs:yay:cmnts:12");
    assert_eq!(dependencies_index_key("yay"), "pkgs:yay:deps");
    assert_eq!(dependency_key("yay", "depends"), "pkgs:yay:deps:depends");
    assert_eq!(PACKAGE_SET_KEY, "pkgs_set");
}

#[test]
fn dependency_keys_give_back_their_group() {
    assert_eq!(dependency_group_of_key("yay", "pkgs:yay:deps:depends"), Some("depends".to_string()));
    assert_eq!(dependency_group_of_key("yay", "pkgs:yay:deps:"), Some(String::new()));
    assert_eq!(dependency_group_of_key("yay", "pkgs:paru:deps:depends"), None);
    assert_eq!(dependency_group_of_key("yay", "pkgs:yay:deps"), None);
    let keys = vec!["pkgs:yay:deps:rust".to_string(), "pkgs:x:deps:go".to_string(), "pkgs:yay:deps:go".to_string()];
    assert_eq!(dependency_groups_of_keys("yay", &keys), vec!["rust".to_string(), "go".to_string()]);
}

#[test]
fn stored_package_reads_back_equal() {
    for optional in [true, false] {
        let p = package(optional);
        assert_eq!(read_back(&p), Ok(p));
    }
}

#[test]
fn absent_optional_fields_stay_absent() {
    let p = package(false);
    let fields = package_fields(&p.basic, &p.additional);
    assert_eq!(fields.len(), 10);
    assert!(fields.iter().all(|(k, _)| !["keywords", "licenses", "conflicts", "provides"].contains(&k.as_str())));
    let back = read_back(&p).unwrap();
    assert_eq!(back.additional.keywords, None);
    assert_eq!(back.additional.license, None);
    assert_eq!(back.additional.conflicts, None);
    assert_eq!(back.additional.provides, None);
    let p = package(true);
    assert_eq!(package_fields(&p.basic, &p.additional).len(), 14);
}

#[test]
fn votes_are_written_as_text() {
    let p = package(true);
    let fields = package_fields(&p.basic, &p.additional);
    assert!(fields.contains(&("votes".to_string(), "-3".to_string())));
    assert!(fields.contains(&("popularity".to_string(), "0.125".to_string())));
}

#[test]
fn missing_hash_is_not_found() {
    assert_eq!(
        assemble_package("ghost", vec![], vec![], vec![]),
        Err(DbError::NotFound { name: "ghost".to_string() })
    );
    assert_eq!(basic_from_hash("ghost", vec![]), Err(DbError::NotFound { name: "ghost".to_string() }));
}

#[test]
fn broken_records_are_reported() {
    let p = package(true);
    let mut fields = package_fields(&p.basic, &p.additional);
    fields.retain(|(k, _)| k != "submitter");
    assert_eq!(
        assemble_package("yay", fields, vec![], vec![]),
        Err(DbError::Model(ModelError::MissingSourceData { field: "submitter" }))
    );
    let fields = package_fields(&p.basic, &p.additional);
    let bad_comment = vec![vec![("header".to_string(), "h".to_string())]];
    assert_eq!(
        assemble_package("yay", fields.clone(), bad_comment, vec![]),
        Err(DbError::Model(ModelError::MissingSourceData { field: "content" }))
    );
    let bad_comments = vec![
        vec![("header".to_string(), "h".to_string()), ("content".to_string(), "c".to_string())],
        vec![("content".to_string(), "c".to_string())],
        vec![],
    ];
    assert_eq!(
        assemble_package("yay", fields.clone(), bad_comments, vec![]),
        Err(DbError::Model(ModelError::MissingSourceData { field: "header" }))
    );
    let foreign = vec![("pkgs:other:deps:x".to_string(), vec![])];
    assert_eq!(
        assemble_package("yay", fields, vec![], foreign),
        Err(DbError::Model(ModelError::ParseError { field: "dependencies" }))
    );
    let b = basic_from_hash("yay", package_fields(&p.basic, &p.additional)).unwrap();
    assert_eq!(b, p.basic);
}

fn del(k: &str) -> RedisOp {
    RedisOp::Del { key: k.to_string() }
}

fn sadd(k: &str, m: &str) -> RedisOp {
    RedisOp::SAdd { key: k.to_string(), member: m.to_string() }
}

#[test]
fn insert_writes_replace_everything() {
    let p = package(false);
    let ops = insert_pkg_ops(&p, &vec!["pkgs:yay:deps:old".to_string()]);
    let expected = vec![
        del("pkgs:yay:deps:old"),
        del("pkgs:yay"),
        del("pkgs:yay:cmnts"),
        del("pkgs:yay:deps"),
        RedisOp::HSet { key: "pkgs:yay".to_string(), fields: package_fields(&p.basic, &p.additional) },
        sadd("pkgs_set", "yay"),
        RedisOp::HSet { key: "pkgs:yay:cmnts:1".to_string(), fields: comment_fields(&p.comments[0]) },
        sadd("pkgs:yay:cmnts", "pkgs:yay:cmnts:1"),
        RedisOp::HSet { key: "pkgs:yay:cmnts:2".to_string(), fields: comment_fields(&p.comments[1]) },
        sadd("pkgs:yay:cmnts", "pkgs:yay:cmnts:2"),
        del("pkgs:yay:deps:depends"),
        RedisOp::RPush { key: "pkgs:yay:deps:depends".to_string(), values: vec!["pacman".to_string(), "git".to_string()] },
        sadd("pkgs:yay:deps", "pkgs:yay:deps:depends"),
        del("pkgs:yay:deps:makedepends"),
        sadd("pkgs:yay:deps", "pkgs:yay:deps:makedepends"),
    ];
    assert_eq!(ops.len(), expected.len());
    for (a, b) in ops.iter().zip(expected.iter()) {
        assert!(same_op(a, b));
    }
}

fn same_op(a: &RedisOp, b: &RedisOp) -> bool {
    match (a, b) {
        (RedisOp::Del { key: x }, RedisOp::Del { key: y }) => x == y,
        (RedisOp::HSet { key: x, fields: f }, RedisOp::HSet { key: y, fields: g }) => x == y && f == g,
        (RedisOp::SAdd { key: x, member: m }, RedisOp::SAdd { key: y, member: n }) => x == y && m == n,
        (RedisOp::RPush { key: x, values: v }, RedisOp::RPush { key: y, values: w }) => x == y && v == w,
        _ => false,
    }
}

#[test]
fn removing_comments_touches_only_comments() {
    let keys = vec!["pkgs:yay:cmnts:1".to_string(), "pkgs:yay:cmnts:2".to_string()];
    let ops = remove_comments_ops("yay", &keys);
    assert_eq!(ops.len(), 3);
    assert!(same_op(&ops[0], &del("pkgs:yay:cmnts:1")));
    assert!(same_op(&ops[1], &del("pkgs:yay:cmnts:2")));
    assert!(same_op(&ops[2], &del("pkgs:yay:cmnts")));
    let p = package(true);
    let without = PackageData { comments: vec![], ..p.clone() };
    let name = p.basic.name.as_str();
    let deps: Vec<(String, Vec<String>)> =
        p.dependencies.iter().map(|d| (dependency_key(name, &d.group), d.packages.clone())).collect();
    let back = assemble_package(name, package_fields(&p.basic, &p.additional), vec![], deps).unwrap();
    assert_eq!(back, without);
}

#[test]
fn sort_command_arguments() {
    let args = sort_pkgs_by_field_args("votes", 2, 7).unwrap();
    assert_eq!(args, vec!["pkgs_set", "BY", "pkgs:*->votes", "LIMIT", "2", "5", "DESC"]);
    let args = sort_pkgs_by_field_args("name", 0, 3).unwrap();
    assert_eq!(args, vec!["pkgs_set", "LIMIT", "0", "3", "DESC", "ALPHA"]);
    let args = sort_pkgs_by_field_args("maintainer", 0, 3).unwrap();
    assert_eq!(args, vec!["pkgs_set", "BY", "pkgs:*->maintainer", "LIMIT", "0", "3", "DESC", "ALPHA"]);
    let args = sort_pkgs_by_field_args("votes", 5, 1).unwrap();
    assert_eq!(args[5], "0");
    assert_eq!(
        sort_pkgs_by_field_args("bogus_field", 0, 5),
        Err(DbError::UnsupportedField { field: "bogus_field".to_string() })
    );
}

#[test]
fn document_store_queries() {
    assert_eq!(
        sort_pkgs_by_field_query("popularity", 10, 15).unwrap(),
        "SELECT VALUE name FROM (SELECT basic.name AS name, basic.popularity AS key FROM pkgs ORDER BY key DESC, name ASC LIMIT BY 5 START AT 10)"
    );
    assert_eq!(
        sort_pkgs_by_field_query("bogus_field", 0, 5),
        Err(DbError::UnsupportedField { field: "bogus_field".to_string() })
    );
    assert_eq!(
        most_voted_query(3),
        "SELECT VALUE basic FROM (SELECT basic, basic.votes AS votes, basic.name AS name FROM pkgs ORDER BY votes DESC, name ASC LIMIT BY 3)"
    );
    assert!(REMOVE_COMMENTS_QUERY.contains("$name"));
    assert!(DEPENDENCY_GROUPS_QUERY.contains("dependencies.group"));
}

#[test]
fn custom_queries_split_into_words() {
    assert_eq!(split_words("  HGETALL   pkgs:yay \t x\n"), vec!["HGETALL", "pkgs:yay", "x"]);
    assert!(split_words(" \t ").is_empty());
    for q in ["a\u{b}b\u{c}c", "x\u{3000}y\u{a0}z", "p\u{2009}q\u{85}r\u{2028}s", "  lone  "] {
        let expected: Vec<&str> = q.split_whitespace().collect();
        assert_eq!(split_words(q), expected);
    }
    assert_eq!(
        parse_custom_query("GET key"),
        Ok(("GET".to_string(), vec!["key".to_string()]))
    );
    assert_eq!(parse_custom_query("PING"), Ok(("PING".to_string(), vec![])));
    assert!(matches!(parse_custom_query("   "), Err(DbError::QueryError { .. })));
}

#[test]
fn already_exists_errors_are_success() {
    assert!(contains_str("abc", ""));
    assert!(contains_str("database record already exists", "already exists"));
    assert!(!contains_str("already exist", "already exists"));
    assert_eq!(skip_already_exist_error(None), Ok(()));
    assert_eq!(skip_already_exist_error(Some("Database record `pkgs:yay` already exists".to_string())), Ok(()));
    assert_eq!(
        skip_already_exist_error(Some("Parse error".to_string())),
        Err(DbError::QueryError { message: "Parse error".to_string() })
    );
}

#[test]
fn errors_read_as_text() {
    let e = DbError::UnsupportedField { field: "x".to_string() };
    assert_eq!(e.message(), "Unsupported field: x");
    assert_eq!(DbError::NotFound { name: "yay".to_string() }.message(), "Package not found: yay");
    assert_eq!(
        DbError::Model(ModelError::MissingSourceData { field: "votes" }).message(),
        "Source lacks of data required to create struct. Missing field: votes"
    );
    assert_eq!(DbError::Model(ModelError::ParseError { field: "votes" }).message(), "Cannot parse data for votes field");
    assert_eq!(DbError::QueryError { message: "ERR".to_string() }.message(), "ERR");
    assert_eq!(DbError::ConnectionError { message: "refused".to_string() }.message(), "refused");
    assert_eq!(FrontendError::from_db_error(&e).message(), "Unsupported field: x");
    assert_eq!(FrontendError::from_db_error(&e).kind(), ErrorKind::UnsupportedField);
    let c = DbError::ConnectionError { message: "ERR".to_string() };
    let q = DbError::QueryError { message: "ERR".to_string() };
    assert_eq!(FrontendError::from_db_error(&c).kind(), ErrorKind::ConnectionError);
    assert_eq!(FrontendError::from_db_error(&q).kind(), ErrorKind::QueryError);
    assert_eq!(DbError::NotFound { name: "x".to_string() }.kind(), ErrorKind::NotFound);
    assert_eq!(DbError::Model(ModelError::ParseError { field: "votes" }).kind(), ErrorKind::ParseError);
    assert_eq!(DbError::Model(ModelError::MissingSourceData { field: "votes" }).kind(), ErrorKind::MissingSourceData);
}

#[test]
fn timed_results_add_up() {
    let r = DbResponse::new(vec![1u8], 40);
    let r = r.with_added_duration(2);
    assert_eq!(r.duration, 42);
    assert_eq!(r.result, vec![1u8]);
    assert_eq!(DbResponse::new((), u64::MAX - 1).with_added_duration(5).duration, u64::MAX);
}

#[test]
fn query_commands_keep_their_target() {
    let q = QueryCommand::new(Db::Redis, "PING".to_string());
    assert_eq!(q.get_target_db(), Db::Redis);
    assert_eq!(q.get_query(), "PING");
}
