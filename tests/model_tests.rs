use pkgdb::model::{
    get_obligatory_field, get_optional_field, last_path_component, AdditionalPackageData, BasicPackageData, Comment,
    ModelError, PackageData,
};
use pkgdb::numeric::{compare_decimals, float_rank_exec, format_i32, format_u64, parse_i32, split_decimal};
use std::cmp::Ordering;

fn fields(pairs: &[(&str, &str)]) -> Vec<(String, String)> {
    pairs.iter().map(|(k, v)| (k.to_string(), v.to_string())).collect()
}

fn full_record() -> Vec<(String, String)> {
    fields(&[
        ("name", "yay"),
        ("path_to_additional_data", "/packages/yay"),
        ("version", "12.1.0-1"),
        ("votes", "1800"),
        ("popularity", "45.25"),
        ("description", "Yet another yogurt"),
        ("maintainer", "jguer"),
        ("last_updated", "2023-06-01"),
        ("gitcloneurl", "https://aur.archlinux.org/yay.git"),
        ("keywords", "aur helper"),
        ("submitter", "jguer"),
        ("firstsubmitted", "2016-10-05"),
    ])
}

#[test]
fn obligatory_field_found_and_missing() {
    let src = fields(&[("a", "1"), ("b", "2"), ("a", "3")]);
    assert_eq!(get_obligatory_field(&src, "a"), Ok("1".to_string()));
    assert_eq!(get_obligatory_field(&src, "c"), Err(ModelError::MissingSourceData { field: "c" }));
    assert_eq!(get_optional_field(&src, "b"), Some("2".to_string()));
    assert_eq!(get_optional_field(&src, "z"), None);
}

#[test]
fn package_decodes_from_flat_fields() {
    let p = PackageData::try_from_fields(&full_record()).unwrap();
    assert_eq!(p.basic.name, "yay");
    assert_eq!(p.basic.votes, 1800);
    assert_eq!(p.basic.popularity, "45.25");
    assert_eq!(p.basic.path_to_additional_data, "/packages/yay");
    assert_eq!(p.additional.git_clone_url, "https://aur.archlinux.org/yay.git");
    assert_eq!(p.additional.keywords, Some("aur helper".to_string()));
    assert_eq!(p.additional.license, None);
    assert_eq!(p.additional.conflicts, None);
    assert_eq!(p.additional.provides, None);
    assert_eq!(p.additional.first_submitted, "2016-10-05");
    assert!(p.comments.is_empty());
    assert!(p.dependencies.is_empty());
}

#[test]
fn package_missing_field_is_reported_by_name() {
    let src: Vec<(String, String)> = full_record().into_iter().filter(|(k, _)| k != "version").collect();
    assert_eq!(PackageData::try_from_fields(&src), Err(ModelError::MissingSourceData { field: "version" }));
    let src: Vec<(String, String)> = full_record().into_iter().filter(|(k, _)| k != "name").collect();
    assert_eq!(PackageData::try_from_fields(&src), Err(ModelError::MissingSourceData { field: "name" }));
}

#[test]
fn package_with_non_finite_popularity_decodes() {
    for pop in ["inf", "-Infinity", "NaN", "1e10000"] {
        let mut src = full_record();
        src[4].1 = pop.to_string();
        let p = PackageData::try_from_fields(&src).unwrap();
        assert_eq!(p.basic.popularity, pop);
    }
    let mut src = full_record();
    src[4].1 = "inf".to_string();
    src.retain(|(k, _)| k != "description");
    assert_eq!(PackageData::try_from_fields(&src), Err(ModelError::MissingSourceData { field: "description" }));
    let b = BasicPackageData::try_from_row(row(&["a", "p", "v", "1", "inf", "d", "m", "t"])).unwrap();
    assert_eq!(b.popularity, "inf");
    assert_eq!(
        BasicPackageData::try_from_row(row(&["a", "p", "v", "1", "inf"])),
        Err(ModelError::MissingSourceData { field: "description" })
    );
}

#[test]
fn package_malformed_votes_and_popularity() {
    let mut src = full_record();
    src[3].1 = "many".to_string();
    assert_eq!(PackageData::try_from_fields(&src), Err(ModelError::ParseError { field: "votes" }));
    let mut src = full_record();
    src[4].1 = "high".to_string();
    assert_eq!(PackageData::try_from_fields(&src), Err(ModelError::ParseError { field: "popularity" }));
}

#[test]
fn additional_requires_its_three_fields() {
    let src = fields(&[("submitter", "a"), ("firstsubmitted", "b")]);
    assert_eq!(AdditionalPackageData::try_from_fields(&src), Err(ModelError::MissingSourceData { field: "git_clone_url" }));
    let src = fields(&[("gitcloneurl", "u"), ("firstsubmitted", "b")]);
    assert_eq!(AdditionalPackageData::try_from_fields(&src), Err(ModelError::MissingSourceData { field: "submitter" }));
    let src = fields(&[("gitcloneurl", "u"), ("submitter", "a")]);
    assert_eq!(AdditionalPackageData::try_from_fields(&src), Err(ModelError::MissingSourceData { field: "first_submitted" }));
    let src = fields(&[("gitcloneurl", "u"), ("submitter", "a"), ("firstsubmitted", "b"), ("licenses", "")]);
    let a = AdditionalPackageData::try_from_fields(&src).unwrap();
    assert_eq!(a.license, Some(String::new()));
    assert_eq!(a.keywords, None);
}

#[test]
fn comment_decodes() {
    let c = Comment::try_from_fields(&fields(&[("content", "works"), ("header", "me")])).unwrap();
    assert_eq!(c, Comment { header: "me".to_string(), content: "works".to_string() });
    assert_eq!(Comment::try_from_fields(&fields(&[("content", "x")])), Err(ModelError::MissingSourceData { field: "header" }));
    assert_eq!(Comment::try_from_fields(&fields(&[("header", "x")])), Err(ModelError::MissingSourceData { field: "content" }));
}

#[test]
fn parses_i32_like_std() {
    for s in ["0", "42", "-7", "+3", "2147483647", "-2147483648", "007", "", "-", "+", "1a", "2147483648", "-2147483649", "99999999999", " 1"] {
        assert_eq!(parse_i32(s), s.parse::<i32>().ok(), "{}", s);
    }
}

#[test]
fn formats_integers() {
    assert_eq!(format_u64(0), "0");
    assert_eq!(format_u64(1234567890123), "1234567890123");
    assert_eq!(format_i32(-2147483648), "-2147483648");
    assert_eq!(format_i32(2147483647), "2147483647");
    assert_eq!(format_i32(-5), "-5");
    for v in [-1000, -1, 0, 9, 10, 123456] {
        assert_eq!(parse_i32(&format_i32(v)), Some(v));
    }
}

#[test]
fn decimal_numerals() {
    assert_eq!(split_decimal("-12.50"), Some((true, vec!['1', '2', '5', '0'], 2)));
    assert_eq!(split_decimal("7"), Some((false, vec!['7'], 0)));
    assert_eq!(split_decimal("+.5"), Some((false, vec!['5'], 1)));
    assert_eq!(split_decimal("5."), Some((false, vec!['5'], 0)));
    assert_eq!(split_decimal("1.25e-3"), Some((false, vec!['1', '2', '5'], 5)));
    assert_eq!(split_decimal("4E+2"), Some((false, vec!['4'], -2)));
    assert_eq!(split_decimal("1e99999999"), Some((false, vec!['1'], -99999)));
    assert_eq!(split_decimal("1e-99999999"), Some((false, vec!['1'], 99999)));
    for bad in ["", "-", ".", "+", "1.2.3", "NaN", "inf", "1e", "e5", "1e5.0", "--1", "1 ", "infin", "nana"] {
        assert_eq!(split_decimal(bad), None, "{}", bad);
    }
}

#[test]
fn float_text_is_what_f32_reads() {
    for good in [
        "1e-05", "+1", ".5", "5.", "3.4028235e38", "-0.0", "inf", "-inf", "+Infinity", "INF", "NaN", "-nan",
        "infinity", "1e10000", "0.00000000000000000000000000000000000000000000000000001",
    ] {
        assert!(good.parse::<f32>().is_ok(), "{}", good);
        assert!(float_rank_exec(good).is_some(), "{}", good);
    }
    for bad in ["", "in", "infinit", "nan1", "1e", "e1", "1..2", " 1", "0x10", "++1"] {
        assert!(bad.parse::<f32>().is_err(), "{}", bad);
        assert_eq!(float_rank_exec(bad), None, "{}", bad);
    }
    assert_eq!(float_rank_exec("NaN"), Some(0));
    assert_eq!(float_rank_exec("-Inf"), Some(1));
    assert_eq!(float_rank_exec("12.5"), Some(2));
    assert_eq!(float_rank_exec("+infinity"), Some(3));
}

#[test]
fn decimals_compare_by_value() {
    assert_eq!(compare_decimals("1.5", "1.25"), Ordering::Greater);
    assert_eq!(compare_decimals("2", "10"), Ordering::Less);
    assert_eq!(compare_decimals("0.10", "0.1"), Ordering::Equal);
    assert_eq!(compare_decimals("-0", "0.000"), Ordering::Equal);
    assert_eq!(compare_decimals("-1", "0"), Ordering::Less);
    assert_eq!(compare_decimals("-2.5", "-2.25"), Ordering::Less);
    assert_eq!(compare_decimals("003", "3.0"), Ordering::Equal);
    assert_eq!(compare_decimals("0.000001", "0"), Ordering::Greater);
    assert_eq!(compare_decimals("1e-05", "0.00001"), Ordering::Equal);
    assert_eq!(compare_decimals("1.5E2", "150"), Ordering::Equal);
    assert_eq!(compare_decimals(".5", "0.49"), Ordering::Greater);
    assert_eq!(compare_decimals("+1", "1."), Ordering::Equal);
    assert_eq!(compare_decimals("-1e3", "-999"), Ordering::Less);
    assert_eq!(compare_decimals("2e-1", "1e1"), Ordering::Less);
    assert_eq!(compare_decimals("inf", "1e99999"), Ordering::Greater);
    assert_eq!(compare_decimals("-inf", "-1e99999"), Ordering::Less);
    assert_eq!(compare_decimals("Infinity", "inf"), Ordering::Equal);
    assert_eq!(compare_decimals("NaN", "-inf"), Ordering::Less);
    assert_eq!(compare_decimals("nan", "-NaN"), Ordering::Equal);
    assert_eq!(compare_decimals("1e100000", "1e99999"), Ordering::Equal);
    assert_eq!(compare_decimals("0.5", "nan"), Ordering::Greater);
}

fn row(cols: &[&str]) -> Vec<String> {
    cols.iter().map(|s| s.to_string()).collect()
}

#[test]
fn summary_decodes_from_a_row() {
    let b = BasicPackageData::try_from_row(row(&[
        "yay", "https://aur.archlinux.org/packages/yay", "12.1.0-1", "1800", "45.25", "helper", "jguer", "2023-06-01",
    ]))
    .unwrap();
    assert_eq!(b.name, "yay");
    assert_eq!(b.path_to_additional_data, "/yay");
    assert_eq!(b.votes, 1800);
    assert_eq!(b.popularity, "45.25");
    assert_eq!(b.last_updated, "2023-06-01");
    let b = BasicPackageData::try_from_row(row(&["a", "nopath", "1", "0", "0", "d", "m", "t", "extra"])).unwrap();
    assert_eq!(b.path_to_additional_data, "nopath");
}

#[test]
fn short_or_malformed_rows_are_reported() {
    assert_eq!(BasicPackageData::try_from_row(vec![]), Err(ModelError::MissingSourceData { field: "name" }));
    assert_eq!(
        BasicPackageData::try_from_row(row(&["a", "p", "v"])),
        Err(ModelError::MissingSourceData { field: "votes" })
    );
    assert_eq!(
        BasicPackageData::try_from_row(row(&["a", "p", "v", "x1"])),
        Err(ModelError::ParseError { field: "votes" })
    );
    assert_eq!(
        BasicPackageData::try_from_row(row(&["a", "p", "v", "1", "1.5", "d", "m"])),
        Err(ModelError::MissingSourceData { field: "last_updated" })
    );
    assert_eq!(
        BasicPackageData::try_from_row(row(&["a", "p", "v", "1", "?", "d", "m", "t"])),
        Err(ModelError::ParseError { field: "popularity" })
    );
}

#[test]
fn path_components() {
    assert_eq!(last_path_component("/a/b/c"), "/c");
    assert_eq!(last_path_component("a/"), "/");
    assert_eq!(last_path_component(""), "");
}
