//! Record layout of the key/value store with collections: which keys hold
//! what, the flat fields of a package hash, and the writes that store or
//! clear a package.
//!
//! - `pkgs:<name>`: hash of the summary and detail fields (absent optional
//!   fields are not written);
//! - `pkgs_set`: set of all package names;
//! - `pkgs:<name>:cmnts:<n>`: hash of the n-th comment (from 1), listed in
//!   the set `pkgs:<name>:cmnts`;
//! - `pkgs:<name>:deps:<group>`: list of a group's packages, listed in the
//!   set `pkgs:<name>:deps`.
use vstd::prelude::*;

use crate::error::DbError;
use crate::model::{
    additional_from_fields, additional_problem, basic_from_fields, basic_problem, comment_from_fields,
    comment_problem, field_value, opt_view, pairs_view, same_additional, same_basic, same_comment,
    AdditionalPackageData, BasicPackageData, Comment, ModelError, PackageData, PackageDependency,
};
use crate::numeric::{decimal_text, format_i32, format_u64, int_text, lemma_int_text_parses};
use crate::occurrences::string_views;
use crate::ranking::{rank_field_of, is_unsupported_field, RankField};

verus! {

/// The set that lists every package name.
pub const PACKAGE_SET_KEY: &'static str = "pkgs_set";

pub open spec fn package_key_spec(name: Seq<char>) -> Seq<char> {
    "pkgs:"@ + name
}

pub open spec fn comments_index_key_spec(name: Seq<char>) -> Seq<char> {
    package_key_spec(name) + ":cmnts"@
}

pub open spec fn comment_key_spec(name: Seq<char>, n: nat) -> Seq<char> {
    comments_index_key_spec(name) + ":"@ + decimal_text(n)
}

pub open spec fn dependencies_index_key_spec(name: Seq<char>) -> Seq<char> {
    package_key_spec(name) + ":deps"@
}

pub open spec fn dependency_key_spec(name: Seq<char>, group: Seq<char>) -> Seq<char> {
    dependencies_index_key_spec(name) + ":"@ + group
}

/// Key of the hash holding a package's fields.
pub fn package_key(name: &str) -> (r: String)
    ensures
        r@ == package_key_spec(name@),
{
    let mut s = String::from_str("pkgs:");
    s.append(name);
    s
}

/// Key of the set listing a package's comment hashes.
pub fn comments_index_key(name: &str) -> (r: String)
    ensures
        r@ == comments_index_key_spec(name@),
{
    let mut s = package_key(name);
    s.append(":cmnts");
    s
}

/// Key of the hash holding a package's `n`-th comment, counted from 1.
pub fn comment_key(name: &str, n: u64) -> (r: String)
    ensures
        r@ == comment_key_spec(name@, n as nat),
{
    let mut s = comments_index_key(name);
    s.append(":");
    let digits = format_u64(n);
    s.append(digits.as_str());
    s
}

/// Key of the set listing a package's dependency lists.
pub fn dependencies_index_key(name: &str) -> (r: String)
    ensures
        r@ == dependencies_index_key_spec(name@),
{
    let mut s = package_key(name);
    s.append(":deps");
    s
}

/// Key of the list holding one dependency group of a package.
pub fn dependency_key(name: &str, group: &str) -> (r: String)
    ensures
        r@ == dependency_key_spec(name@, group@),
{
    let mut s = dependencies_index_key(name);
    s.append(":");
    s.append(group);
    s
}

/// The group named by a dependency-list key of package `name`, if `key`
/// is one.
pub fn dependency_group_of_key(name: &str, key: &str) -> (r: Option<String>)
    ensures
        r matches Some(g) ==> dependency_key_spec(name@, g@) == key@,
        r is None ==> !(dependencies_index_key_spec(name@) + ":"@).is_prefix_of(key@),
{
    let mut prefix = dependencies_index_key(name);
    prefix.append(":");
    let p = prefix.as_str().unicode_len();
    let n = key.unicode_len();
    if p > n {
        return None;
    }
    let mut i: usize = 0;
    while i < p
        invariant
            i <= p <= n,
            p == prefix@.len(),
            n == key@.len(),
            prefix@ == dependencies_index_key_spec(name@) + ":"@,
            forall|j: int| 0 <= j < i ==> prefix@[j] == key@[j],
        decreases p - i,
    {
        if prefix.as_str().get_char(i) != key.get_char(i) {
            assert(key@.subrange(0, p as int)[i as int] == key@[i as int]);
            return None;
        }
        i = i + 1;
    }
    let group = key.substring_char(p, n);
    assert(prefix@ + group@ =~= key@);
    Some(String::from_str(group))
}

/// The fields of a comment hash.
pub open spec fn comment_fields_spec(c: Comment) -> Seq<(Seq<char>, Seq<char>)> {
    seq![("header"@, c.header@), ("content"@, c.content@)]
}

pub fn comment_fields(c: &Comment) -> (r: Vec<(String, String)>)
    ensures
        pairs_view(r@) == comment_fields_spec(*c),
{
    let mut r: Vec<(String, String)> = Vec::new();
    r.push((String::from_str("header"), c.header.clone()));
    r.push((String::from_str("content"), c.content.clone()));
    assert(pairs_view(r@) =~= comment_fields_spec(*c));
    r
}

pub open spec fn optional_entry(key: Seq<char>, v: Option<String>) -> Seq<(Seq<char>, Seq<char>)> {
    match v {
        Some(s) => seq![(key, s@)],
        None => Seq::empty(),
    }
}

/// The fields of a package hash: every summary field but the name, which
/// is in the key, and the detail fields that are present.
pub open spec fn package_fields_spec(b: BasicPackageData, a: AdditionalPackageData) -> Seq<
    (Seq<char>, Seq<char>),
> {
    seq![
        ("popularity"@, b.popularity@),
        ("last_updated"@, b.last_updated@),
        ("description"@, b.description@),
        ("maintainer"@, b.maintainer@),
        ("version"@, b.version@),
        ("votes"@, int_text(b.votes as int)),
        ("path_to_additional_data"@, b.path_to_additional_data@),
        ("firstsubmitted"@, a.first_submitted@),
        ("gitcloneurl"@, a.git_clone_url@),
        ("submitter"@, a.submitter@),
    ] + optional_entry("conflicts"@, a.conflicts) + optional_entry("provides"@, a.provides)
        + optional_entry("keywords"@, a.keywords) + optional_entry("licenses"@, a.license)
}

fn push_optional(fields: &mut Vec<(String, String)>, key: &'static str, v: &Option<String>)
    ensures
        pairs_view(final(fields)@) == pairs_view(old(fields)@) + optional_entry(key@, *v),
{
    let ghost before = fields@;
    match v {
        Some(s) => {
            fields.push((String::from_str(key), s.clone()));
        },
        None => {},
    }
    assert(pairs_view(fields@) =~= pairs_view(before) + optional_entry(key@, *v));
}

/// The fields of the hash that stores a package.
pub fn package_fields(b: &BasicPackageData, a: &AdditionalPackageData) -> (r: Vec<(String, String)>)
    ensures
        pairs_view(r@) == package_fields_spec(*b, *a),
{
    let mut r: Vec<(String, String)> = Vec::new();
    r.push((String::from_str("popularity"), b.popularity.clone()));
    r.push((String::from_str("last_updated"), b.last_updated.clone()));
    r.push((String::from_str("description"), b.description.clone()));
    r.push((String::from_str("maintainer"), b.maintainer.clone()));
    r.push((String::from_str("version"), b.version.clone()));
    r.push((String::from_str("votes"), format_i32(b.votes)));
    r.push((String::from_str("path_to_additional_data"), b.path_to_additional_data.clone()));
    r.push((String::from_str("firstsubmitted"), a.first_submitted.clone()));
    r.push((String::from_str("gitcloneurl"), a.git_clone_url.clone()));
    r.push((String::from_str("submitter"), a.submitter.clone()));
    assert(pairs_view(r@) =~= package_fields_spec(*b, *a).subrange(0, 10));
    push_optional(&mut r, "conflicts", &a.conflicts);
    push_optional(&mut r, "provides", &a.provides);
    push_optional(&mut r, "keywords", &a.keywords);
    push_optional(&mut r, "licenses", &a.license);
    assert(pairs_view(r@) =~= package_fields_spec(*b, *a));
    r
}


/// One write to the store.
pub enum RedisOp {
    /// Delete a key.
    Del { key: String },
    /// Set fields of a hash.
    HSet { key: String, fields: Vec<(String, String)> },
    /// Add a member to a set.
    SAdd { key: String, member: String },
    /// Append values to a list.
    RPush { key: String, values: Vec<String> },
}

/// A write, with its strings as character sequences.
pub enum OpView {
    Del(Seq<char>),
    HSet(Seq<char>, Seq<(Seq<char>, Seq<char>)>),
    SAdd(Seq<char>, Seq<char>),
    RPush(Seq<char>, Seq<Seq<char>>),
}

impl View for RedisOp {
    type V = OpView;

    open spec fn view(&self) -> OpView {
        match self {
            RedisOp::Del { key } => OpView::Del(key@),
            RedisOp::HSet { key, fields } => OpView::HSet(key@, pairs_view(fields@)),
            RedisOp::SAdd { key, member } => OpView::SAdd(key@, member@),
            RedisOp::RPush { key, values } => OpView::RPush(key@, string_views(values@)),
        }
    }
}

pub open spec fn ops_view(v: Seq<RedisOp>) -> Seq<OpView> {
    v.map_values(|o: RedisOp| o@)
}

pub open spec fn delete_ops(keys: Seq<Seq<char>>) -> Seq<OpView> {
    keys.map_values(|k: Seq<char>| OpView::Del(k))
}

/// The writes that store the comments `cs` of package `name`, numbered
/// from 1 in their order.
pub open spec fn comment_ops(name: Seq<char>, cs: Seq<Comment>) -> Seq<OpView>
    decreases cs.len(),
{
    if cs.len() == 0 {
        Seq::empty()
    } else {
        let k = comment_key_spec(name, cs.len());
        comment_ops(name, cs.drop_last()) + seq![
            OpView::HSet(k, comment_fields_spec(cs.last())),
            OpView::SAdd(comments_index_key_spec(name), k),
        ]
    }
}

/// The writes that store one dependency group: the list is replaced, and
/// an empty one is not written.
pub open spec fn dependency_group_ops(name: Seq<char>, d: PackageDependency) -> Seq<OpView> {
    let k = dependency_key_spec(name, d.group@);
    seq![OpView::Del(k)] + (if d.packages@.len() > 0 {
        seq![OpView::RPush(k, string_views(d.packages@))]
    } else {
        Seq::empty()
    }) + seq![OpView::SAdd(dependencies_index_key_spec(name), k)]
}

pub open spec fn dependency_ops(name: Seq<char>, ds: Seq<PackageDependency>) -> Seq<OpView>
    decreases ds.len(),
{
    if ds.len() == 0 {
        Seq::empty()
    } else {
        dependency_ops(name, ds.drop_last()) + dependency_group_ops(name, ds.last())
    }
}

/// The writes that store package `p` in place of what was stored under its
/// name: the keys in `stale` (the comment hashes and dependency lists listed
/// before) and the package's own keys are deleted first, so that nothing of
/// an earlier version is merged in.
pub open spec fn insert_ops(p: PackageData, stale: Seq<Seq<char>>) -> Seq<OpView> {
    let name = p.basic.name@;
    delete_ops(stale) + seq![
        OpView::Del(package_key_spec(name)),
        OpView::Del(comments_index_key_spec(name)),
        OpView::Del(dependencies_index_key_spec(name)),
        OpView::HSet(package_key_spec(name), package_fields_spec(p.basic, p.additional)),
        OpView::SAdd("pkgs_set"@, name),
    ] + comment_ops(name, p.comments@) + dependency_ops(name, p.dependencies@)
}

fn push_deletes(ops: &mut Vec<RedisOp>, keys: &Vec<String>)
    ensures
        ops_view(final(ops)@) == ops_view(old(ops)@) + delete_ops(string_views(keys@)),
{
    let ghost before = ops@;
    let mut i: usize = 0;
    while i < keys.len()
        invariant
            i <= keys@.len(),
            ops_view(ops@) == ops_view(before) + delete_ops(string_views(keys@.take(i as int))),
        decreases keys@.len() - i,
    {
        let ghost prev = ops@;
        ops.push(RedisOp::Del { key: keys[i].clone() });
        proof {
            assert(keys@.take(i + 1) =~= keys@.take(i as int).push(keys@[i as int]));
            assert(string_views(keys@.take(i + 1)) =~= string_views(keys@.take(i as int)).push(
                keys@[i as int]@,
            ));
            assert(ops_view(ops@) =~= ops_view(prev).push(OpView::Del(keys@[i as int]@)));
        }
        i = i + 1;
        assert(ops_view(ops@) =~= ops_view(before) + delete_ops(string_views(keys@.take(i as int))));
    }
    assert(keys@.take(i as int) =~= keys@);
}

/// The writes that store package `pkg`, replacing the earlier version whose
/// comment hashes and dependency lists are `stale_keys`.
pub fn insert_pkg_ops(pkg: &PackageData, stale_keys: &Vec<String>) -> (r: Vec<RedisOp>)
    requires
        pkg.comments@.len() < u64::MAX,
    ensures
        ops_view(r@) == insert_ops(*pkg, string_views(stale_keys@)),
{
    let name = pkg.basic.name.as_str();
    let mut ops: Vec<RedisOp> = Vec::new();
    assert(ops_view(ops@) =~= Seq::<OpView>::empty());
    push_deletes(&mut ops, stale_keys);
    ops.push(RedisOp::Del { key: package_key(name) });
    ops.push(RedisOp::Del { key: comments_index_key(name) });
    ops.push(RedisOp::Del { key: dependencies_index_key(name) });
    ops.push(
        RedisOp::HSet {
            key: package_key(name),
            fields: package_fields(&pkg.basic, &pkg.additional),
        },
    );
    ops.push(RedisOp::SAdd { key: String::from_str(PACKAGE_SET_KEY), member: pkg.basic.name.clone() });
    let ghost head = ops_view(ops@);
    assert(head =~= delete_ops(string_views(stale_keys@)) + seq![
        OpView::Del(package_key_spec(name@)),
        OpView::Del(comments_index_key_spec(name@)),
        OpView::Del(dependencies_index_key_spec(name@)),
        OpView::HSet(package_key_spec(name@), package_fields_spec(pkg.basic, pkg.additional)),
        OpView::SAdd("pkgs_set"@, name@),
    ]);
    let mut i: usize = 0;
    assert(pkg.comments@.take(0) =~= Seq::<Comment>::empty());
    assert(ops_view(ops@) =~= head + comment_ops(name@, pkg.comments@.take(0)));
    while i < pkg.comments.len()
        invariant
            i <= pkg.comments@.len() < u64::MAX,
            name@ == pkg.basic.name@,
            ops_view(ops@) == head + comment_ops(name@, pkg.comments@.take(i as int)),
        decreases pkg.comments@.len() - i,
    {
        let ghost prev = ops@;
        let key = comment_key(name, (i + 1) as u64);
        let fields = comment_fields(&pkg.comments[i]);
        let index = comments_index_key(name);
        let ghost k = comment_key_spec(name@, (i + 1) as nat);
        let ghost ci = comments_index_key_spec(name@);
        ops.push(RedisOp::HSet { key: key.clone(), fields });
        ops.push(RedisOp::SAdd { key: index, member: key });
        proof {
            let t = pkg.comments@.take(i + 1);
            assert(ops_view(ops@) =~= ops_view(prev) + seq![
                OpView::HSet(k, comment_fields_spec(pkg.comments@[i as int])),
                OpView::SAdd(ci, k),
            ]);
            assert(t.drop_last() =~= pkg.comments@.take(i as int));
            assert(t.last() == pkg.comments@[i as int]);
            assert(ops_view(ops@) =~= head + comment_ops(name@, t));
        }
        i = i + 1;
    }
    assert(pkg.comments@.take(i as int) =~= pkg.comments@);
    let ghost mid = ops_view(ops@);
    let mut j: usize = 0;
    assert(pkg.dependencies@.take(0) =~= Seq::<PackageDependency>::empty());
    assert(ops_view(ops@) =~= mid + dependency_ops(name@, pkg.dependencies@.take(0)));
    while j < pkg.dependencies.len()
        invariant
            j <= pkg.dependencies@.len(),
            name@ == pkg.basic.name@,
            ops_view(ops@) == mid + dependency_ops(name@, pkg.dependencies@.take(j as int)),
        decreases pkg.dependencies@.len() - j,
    {
        let ghost prev = ops_view(ops@);
        let d = &pkg.dependencies[j];
        let key = dependency_key(name, d.group.as_str());
        ops.push(RedisOp::Del { key: key.clone() });
        if d.packages.len() > 0 {
            ops.push(RedisOp::RPush { key: key.clone(), values: d.packages.clone() });
        }
        ops.push(RedisOp::SAdd { key: dependencies_index_key(name), member: key });
        proof {
            let t = pkg.dependencies@.take(j + 1);
            assert(t.drop_last() =~= pkg.dependencies@.take(j as int));
            assert(t.last() == pkg.dependencies@[j as int]);
            assert(ops_view(ops@) =~= prev + dependency_group_ops(name@, *d));
            assert(ops_view(ops@) =~= mid + dependency_ops(name@, t));
        }
        j = j + 1;
    }
    assert(pkg.dependencies@.take(j as int) =~= pkg.dependencies@);
    ops
}

/// The writes that clear the comments of package `name`, whose comment
/// hashes are `comment_keys`; nothing else of the package is touched.
pub fn remove_comments_ops(name: &str, comment_keys: &Vec<String>) -> (r: Vec<RedisOp>)
    ensures
        ops_view(r@) == delete_ops(string_views(comment_keys@)) + seq![
            OpView::Del(comments_index_key_spec(name@)),
        ],
{
    let mut ops: Vec<RedisOp> = Vec::new();
    assert(ops_view(ops@) =~= Seq::<OpView>::empty());
    push_deletes(&mut ops, comment_keys);
    let ghost prev = ops_view(ops@);
    ops.push(RedisOp::Del { key: comments_index_key(name) });
    assert(ops_view(ops@) =~= prev.push(OpView::Del(comments_index_key_spec(name@))));
    ops
}

/// Fields whose order as text is also their order as numbers.
pub open spec fn is_numeric_field(f: RankField) -> bool {
    f == RankField::Votes || f == RankField::Popularity
}

/// The weight arguments of `SORT`: the pattern `pkgs:*-><field>`, except
/// for the name, which is the set member itself and is sorted without one.
pub open spec fn sort_weight_spec(f: RankField) -> Seq<Seq<char>> {
    if f == RankField::Name {
        Seq::empty()
    } else {
        seq!["BY"@, "pkgs:*->"@ + crate::ranking::field_name(f)]
    }
}

/// The arguments of the store's `SORT` command that ranks the package set
/// by field `f`, descending, over the window `[start, end)`: `LIMIT` takes
/// an offset and a count.
pub open spec fn sort_args_spec(f: RankField, start: nat, end: nat) -> Seq<Seq<char>> {
    seq!["pkgs_set"@] + sort_weight_spec(f) + seq![
        "LIMIT"@,
        decimal_text(start),
        decimal_text(if end > start { (end - start) as nat } else { 0 }),
        "DESC"@,
    ] + if is_numeric_field(f) {
        Seq::<Seq<char>>::empty()
    } else {
        seq!["ALPHA"@]
    }
}

/// The arguments of the `SORT` command that ranks packages by the field
/// named `field`; `UnsupportedField` before anything is sent otherwise.
pub fn sort_pkgs_by_field_args(field: &str, limit_start: u32, limit_end: u32) -> (r: Result<
    Vec<String>,
    DbError,
>)
    ensures
        rank_field_of(field@) matches Some(f) ==> (r matches Ok(a) && string_views(a@)
            == sort_args_spec(f, limit_start as nat, limit_end as nat)),
        rank_field_of(field@) is None ==> (r matches Err(e) && is_unsupported_field(e, field@)),
{
    let f = match RankField::from_name(field) {
        Ok(f) => f,
        Err(e) => {
            return Err(e);
        },
    };
    let mut pattern = String::from_str("pkgs:*->");
    pattern.append(field);
    let count: u32 = if limit_end > limit_start {
        limit_end - limit_start
    } else {
        0
    };
    let mut args: Vec<String> = Vec::new();
    args.push(String::from_str(PACKAGE_SET_KEY));
    if f != RankField::Name {
        args.push(String::from_str("BY"));
        args.push(pattern);
    }
    args.push(String::from_str("LIMIT"));
    args.push(format_u64(limit_start as u64));
    args.push(format_u64(count as u64));
    args.push(String::from_str("DESC"));
    if !(f == RankField::Votes || f == RankField::Popularity) {
        args.push(String::from_str("ALPHA"));
    }
    assert(string_views(args@) =~= sort_args_spec(f, limit_start as nat, limit_end as nat));
    Ok(args)
}

/// The fields of a package hash as read back, with the name from its key.
pub open spec fn read_record(name: Seq<char>, fields: Seq<(String, String)>) -> Seq<
    (Seq<char>, Seq<char>),
> {
    seq![("name"@, name)] + pairs_view(fields)
}

/// The first comment record that cannot be decoded, as an index.
pub open spec fn first_bad_comment(comments: Seq<Vec<(String, String)>>, i: int) -> bool {
    &&& 0 <= i < comments.len()
    &&& comment_problem(pairs_view(comments[i]@)) is Some
    &&& forall|j: int| 0 <= j < i ==> comment_problem(pairs_view(#[trigger] comments[j]@)) is None
}

/// A package hash that is there and decodes.
pub open spec fn record_decodes(name: Seq<char>, fields: Seq<(String, String)>) -> bool {
    &&& fields.len() > 0
    &&& basic_problem(read_record(name, fields)) is None
    &&& additional_problem(read_record(name, fields)) is None
}

pub open spec fn is_dependency_key_of(name: Seq<char>, key: Seq<char>) -> bool {
    (dependencies_index_key_spec(name) + ":"@).is_prefix_of(key)
}

/// Builds the package `name` from what the store holds: the fields of its
/// hash, the fields of its comment hashes in order, and each dependency
/// list with its key.
///
/// An empty hash means that the package is not stored: `NotFound`. Else
/// the hash is decoded as a flat field map (its problems first), then the
/// comments; a dependency key that is not one of this package's is
/// malformed data.
pub fn assemble_package(
    name: &str,
    fields: Vec<(String, String)>,
    comments: Vec<Vec<(String, String)>>,
    dependencies: Vec<(String, Vec<String>)>,
) -> (r: Result<PackageData, DbError>)
    ensures
        fields@.len() == 0 ==> (r matches Err(DbError::NotFound { name: n }) && n@ == name@),
        fields@.len() > 0 && basic_problem(read_record(name@, fields@)) is Some ==> r == Err::<
            PackageData,
            DbError,
        >(DbError::Model(basic_problem(read_record(name@, fields@))->0)),
        fields@.len() > 0 && basic_problem(read_record(name@, fields@)) is None && additional_problem(
            read_record(name@, fields@),
        ) is Some ==> r == Err::<PackageData, DbError>(
            DbError::Model(additional_problem(read_record(name@, fields@))->0),
        ),
        r is Ok <==> {
            &&& fields@.len() > 0
            &&& basic_problem(read_record(name@, fields@)) is None
            &&& additional_problem(read_record(name@, fields@)) is None
            &&& forall|i: int|
                0 <= i < comments@.len() ==> comment_problem(pairs_view(#[trigger] comments@[i]@))
                    is None
            &&& forall|i: int|
                0 <= i < dependencies@.len() ==> is_dependency_key_of(
                    name@,
                    (#[trigger] dependencies@[i]).0@,
                )
        },
        r matches Ok(p) ==> {
            &&& basic_from_fields(p.basic, read_record(name@, fields@))
            &&& additional_from_fields(p.additional, read_record(name@, fields@))
            &&& p.wf()
            &&& p.comments@.len() == comments@.len()
            &&& forall|i: int|
                0 <= i < comments@.len() ==> comment_from_fields(
                    #[trigger] p.comments@[i],
                    pairs_view(comments@[i]@),
                )
            &&& p.dependencies@.len() == dependencies@.len()
            &&& forall|i: int|
                0 <= i < dependencies@.len() ==> dependency_key_spec(
                    name@,
                    (#[trigger] p.dependencies@[i]).group@,
                ) == dependencies@[i].0@ && p.dependencies@[i].packages == dependencies@[i].1
        },
        fields@.len() > 0 ==> !(r matches Err(DbError::NotFound { .. })),
        forall|i: int|
            record_decodes(name@, fields@) && #[trigger] first_bad_comment(comments@, i) ==> r
                == Err::<PackageData, DbError>(
                DbError::Model(comment_problem(pairs_view(comments@[i]@))->0),
            ),
        record_decodes(name@, fields@) && (forall|i: int|
            0 <= i < comments@.len() ==> comment_problem(pairs_view(#[trigger] comments@[i]@)) is None)
            && (exists|i: int|
            0 <= i < dependencies@.len() && !is_dependency_key_of(
                name@,
                (#[trigger] dependencies@[i]).0@,
            )) ==> r == Err::<PackageData, DbError>(
            DbError::Model(ModelError::ParseError { field: "dependencies" }),
        ),
{
    if fields.len() == 0 {
        return Err(DbError::NotFound { name: String::from_str(name) });
    }
    let mut record: Vec<(String, String)> = Vec::new();
    record.push((String::from_str("name"), String::from_str(name)));
    let mut rest = fields;
    let ghost fv = rest@;
    record.append(&mut rest);
    assert(pairs_view(record@) =~= read_record(name@, fv));
    let mut pkg = match PackageData::try_from_fields(&record) {
        Ok(p) => p,
        Err(e) => {
            return Err(DbError::Model(e));
        },
    };
    let mut i: usize = 0;
    while i < comments.len()
        invariant
            i <= comments@.len(),
            fv == fields@,
            fields@.len() > 0,
            basic_problem(read_record(name@, fv)) is None,
            additional_problem(read_record(name@, fv)) is None,
            pkg.comments@.len() == i,
            pkg.dependencies@.len() == 0,
            basic_from_fields(pkg.basic, read_record(name@, fv)),
            additional_from_fields(pkg.additional, read_record(name@, fv)),
            pkg.wf(),
            forall|k: int|
                0 <= k < i ==> comment_problem(pairs_view(#[trigger] comments@[k]@)) is None,
            forall|k: int|
                0 <= k < i ==> comment_from_fields(
                    #[trigger] pkg.comments@[k],
                    pairs_view(comments@[k]@),
                ),
        decreases comments@.len() - i,
    {
        match Comment::try_from_fields(&comments[i]) {
            Ok(c) => {
                pkg.comments.push(c);
            },
            Err(e) => {
                assert(first_bad_comment(comments@, i as int));
                return Err(DbError::Model(e));
            },
        }
        i = i + 1;
    }
    let mut j: usize = 0;
    let mut deps = dependencies;
    let ghost dv = deps@;
    let total = deps.len();
    let mut groups: Vec<PackageDependency> = Vec::new();
    while deps.len() > 0
        invariant
            j == dv.len() - deps@.len(),
            j <= dv.len(),
            dv.len() == total,
            dv == dependencies@,
            fv == fields@,
            fields@.len() > 0,
            basic_problem(read_record(name@, fv)) is None,
            additional_problem(read_record(name@, fv)) is None,
            forall|k: int|
                0 <= k < comments@.len() ==> comment_problem(pairs_view(#[trigger] comments@[k]@)) is None,
            pkg.comments@.len() == comments@.len(),
            pkg.dependencies@.len() == 0,
            basic_from_fields(pkg.basic, read_record(name@, fv)),
            additional_from_fields(pkg.additional, read_record(name@, fv)),
            pkg.wf(),
            forall|k: int|
                0 <= k < comments@.len() ==> comment_from_fields(
                    #[trigger] pkg.comments@[k],
                    pairs_view(comments@[k]@),
                ),
            deps@ == dv.skip(j as int),
            groups@.len() == j,
            forall|k: int|
                0 <= k < j ==> is_dependency_key_of(name@, (#[trigger] dv[k]).0@),
            forall|k: int|
                0 <= k < j ==> dependency_key_spec(name@, (#[trigger] groups@[k]).group@)
                    == dv[k].0@ && groups@[k].packages == dv[k].1,
        decreases deps@.len(),
    {
        let (key, packages) = deps.remove(0);
        assert((key, packages) == dv[j as int]);
        match dependency_group_of_key(name, key.as_str()) {
            Some(group) => {
                proof {
                    assert(is_dependency_key_of(name@, key@)) by {
                        assert((dependencies_index_key_spec(name@) + ":"@) + group@ == key@);
                        assert(key@.subrange(0, (dependencies_index_key_spec(name@) + ":"@).len() as int)
                            =~= dependencies_index_key_spec(name@) + ":"@);
                    }
                }
                groups.push(PackageDependency { group, packages });
            },
            None => {
                return Err(DbError::Model(ModelError::ParseError { field: "dependencies" }));
            },
        }
        j = j + 1;
        assert(deps@ =~= dv.skip(j as int));
    }
    pkg.dependencies = groups;
    Ok(pkg)
}

proof fn lemma_field_value_at(src: Seq<(Seq<char>, Seq<char>)>, key: Seq<char>, k: int)
    requires
        0 <= k < src.len(),
        src[k].0 == key,
        forall|j: int| 0 <= j < k ==> (#[trigger] src[j]).0 != key,
    ensures
        field_value(src, key) == Some(src[k].1),
    decreases k,
{
    if k > 0 {
        let r = src.drop_first();
        assert(src[0].0 != key);
        assert forall|j: int| 0 <= j < k - 1 implies (#[trigger] r[j]).0 != key by {
            assert(r[j] == src[j + 1]);
        }
        lemma_field_value_at(r, key, k - 1);
    }
}

proof fn lemma_field_value_absent(src: Seq<(Seq<char>, Seq<char>)>, key: Seq<char>)
    requires
        forall|j: int| 0 <= j < src.len() ==> (#[trigger] src[j]).0 != key,
    ensures
        field_value(src, key) is None,
    decreases src.len(),
{
    if src.len() > 0 {
        let r = src.drop_first();
        assert forall|j: int| 0 <= j < r.len() implies (#[trigger] r[j]).0 != key by {
            assert(r[j] == src[j + 1]);
        }
        lemma_field_value_absent(r, key);
    }
}


proof fn lemma_field_value_append(
    a: Seq<(Seq<char>, Seq<char>)>,
    b: Seq<(Seq<char>, Seq<char>)>,
    key: Seq<char>,
)
    ensures
        field_value(a + b, key) == if field_value(a, key) is Some {
            field_value(a, key)
        } else {
            field_value(b, key)
        },
    decreases a.len(),
{
    if a.len() == 0 {
        assert(a + b =~= b);
    } else {
        assert((a + b).drop_first() =~= a.drop_first() + b);
        assert((a + b)[0] == a[0]);
        lemma_field_value_append(a.drop_first(), b, key);
    }
}

proof fn lemma_optional_entry_value(k: Seq<char>, v: Option<String>, key: Seq<char>)
    ensures
        field_value(optional_entry(k, v), key) == if k == key {
            opt_view(v)
        } else {
            None
        },
{
    let e = optional_entry(k, v);
    if v is Some {
        assert(e.drop_first() =~= Seq::<(Seq<char>, Seq<char>)>::empty());
        assert(field_value(e.drop_first(), key) is None);
        assert(e[0] == (k, v->0@));
    }
}

/// The field keys of the stored records are distinct: their lengths, and
/// the first characters of those of one length.
proof fn lemma_field_keys_distinct()
    ensures
        "name"@.len() == 4,
        "popularity"@.len() == 10,
        "last_updated"@.len() == 12,
        "description"@.len() == 11,
        "maintainer"@.len() == 10,
        "version"@.len() == 7,
        "votes"@.len() == 5,
        "path_to_additional_data"@.len() == 23,
        "firstsubmitted"@.len() == 14,
        "gitcloneurl"@.len() == 11,
        "submitter"@.len() == 9,
        "conflicts"@.len() == 9,
        "provides"@.len() == 8,
        "keywords"@.len() == 8,
        "licenses"@.len() == 8,
        "header"@.len() == 6,
        "content"@.len() == 7,
        "maintainer"@[0] != "popularity"@[0],
        "description"@[0] != "gitcloneurl"@[0],
        "conflicts"@[0] != "submitter"@[0],
        "provides"@[0] != "keywords"@[0],
        "provides"@[0] != "licenses"@[0],
        "keywords"@[0] != "licenses"@[0],
{
    reveal_strlit("name");
    reveal_strlit("popularity");
    reveal_strlit("last_updated");
    reveal_strlit("description");
    reveal_strlit("maintainer");
    reveal_strlit("version");
    reveal_strlit("votes");
    reveal_strlit("path_to_additional_data");
    reveal_strlit("firstsubmitted");
    reveal_strlit("gitcloneurl");
    reveal_strlit("submitter");
    reveal_strlit("conflicts");
    reveal_strlit("provides");
    reveal_strlit("keywords");
    reveal_strlit("licenses");
    reveal_strlit("header");
    reveal_strlit("content");
}

/// The value under `key` in the stored hash of a package with summary `b`
/// and details `a`, read back with its name.
proof fn lemma_stored_value(b: BasicPackageData, a: AdditionalPackageData, key: Seq<char>)
    ensures
        field_value(seq![("name"@, b.name@)] + package_fields_spec(b, a), key) == if key == "name"@ {
            Some(b.name@)
        } else if key == "popularity"@ {
            Some(b.popularity@)
        } else if key == "last_updated"@ {
            Some(b.last_updated@)
        } else if key == "description"@ {
            Some(b.description@)
        } else if key == "maintainer"@ {
            Some(b.maintainer@)
        } else if key == "version"@ {
            Some(b.version@)
        } else if key == "votes"@ {
            Some(int_text(b.votes as int))
        } else if key == "path_to_additional_data"@ {
            Some(b.path_to_additional_data@)
        } else if key == "firstsubmitted"@ {
            Some(a.first_submitted@)
        } else if key == "gitcloneurl"@ {
            Some(a.git_clone_url@)
        } else if key == "submitter"@ {
            Some(a.submitter@)
        } else if key == "conflicts"@ {
            opt_view(a.conflicts)
        } else if key == "provides"@ {
            opt_view(a.provides)
        } else if key == "keywords"@ {
            opt_view(a.keywords)
        } else if key == "licenses"@ {
            opt_view(a.license)
        } else {
            None
        },
{
    let fixed = seq![
        ("name"@, b.name@),
        ("popularity"@, b.popularity@),
        ("last_updated"@, b.last_updated@),
        ("description"@, b.description@),
        ("maintainer"@, b.maintainer@),
        ("version"@, b.version@),
        ("votes"@, int_text(b.votes as int)),
        ("path_to_additional_data"@, b.path_to_additional_data@),
        ("firstsubmitted"@, a.first_submitted@),
        ("gitcloneurl"@, a.git_clone_url@),
        ("submitter"@, a.submitter@),
    ];
    let o1 = optional_entry("conflicts"@, a.conflicts);
    let o2 = optional_entry("provides"@, a.provides);
    let o3 = optional_entry("keywords"@, a.keywords);
    let o4 = optional_entry("licenses"@, a.license);
    assert(seq![("name"@, b.name@)] + package_fields_spec(b, a) =~= (((fixed + o1) + o2) + o3) + o4);
    lemma_field_value_append(((fixed + o1) + o2) + o3, o4, key);
    lemma_field_value_append((fixed + o1) + o2, o3, key);
    lemma_field_value_append(fixed + o1, o2, key);
    lemma_field_value_append(fixed, o1, key);
    lemma_optional_entry_value("conflicts"@, a.conflicts, key);
    lemma_optional_entry_value("provides"@, a.provides, key);
    lemma_optional_entry_value("keywords"@, a.keywords, key);
    lemma_optional_entry_value("licenses"@, a.license, key);
    lemma_field_keys_distinct();
    if key == "name"@ {
        lemma_field_value_at(fixed, key, 0);
    } else if key == "popularity"@ {
        lemma_field_value_at(fixed, key, 1);
    } else if key == "last_updated"@ {
        lemma_field_value_at(fixed, key, 2);
    } else if key == "description"@ {
        lemma_field_value_at(fixed, key, 3);
    } else if key == "maintainer"@ {
        lemma_field_value_at(fixed, key, 4);
    } else if key == "version"@ {
        lemma_field_value_at(fixed, key, 5);
    } else if key == "votes"@ {
        lemma_field_value_at(fixed, key, 6);
    } else if key == "path_to_additional_data"@ {
        lemma_field_value_at(fixed, key, 7);
    } else if key == "firstsubmitted"@ {
        lemma_field_value_at(fixed, key, 8);
    } else if key == "gitcloneurl"@ {
        lemma_field_value_at(fixed, key, 9);
    } else if key == "submitter"@ {
        lemma_field_value_at(fixed, key, 10);
    } else {
        lemma_field_value_absent(fixed, key);
    }
    assert(field_value(fixed, key) == if key == "name"@ {
            Some(b.name@)
        } else if key == "popularity"@ {
            Some(b.popularity@)
        } else if key == "last_updated"@ {
            Some(b.last_updated@)
        } else if key == "description"@ {
            Some(b.description@)
        } else if key == "maintainer"@ {
            Some(b.maintainer@)
        } else if key == "version"@ {
            Some(b.version@)
        } else if key == "votes"@ {
            Some(int_text(b.votes as int))
        } else if key == "path_to_additional_data"@ {
            Some(b.path_to_additional_data@)
        } else if key == "firstsubmitted"@ {
            Some(a.first_submitted@)
        } else if key == "gitcloneurl"@ {
            Some(a.git_clone_url@)
        } else if key == "submitter"@ {
            Some(a.submitter@)
        } else {
            None
        });
    let f0 = field_value(fixed, key);
    let f1 = field_value(fixed + o1, key);
    let f2 = field_value((fixed + o1) + o2, key);
    let f3 = field_value(((fixed + o1) + o2) + o3, key);
    if key == "conflicts"@ {
        assert(f0 is None);
        assert(f1 == opt_view(a.conflicts));
        assert(f2 == f1);
        assert(f3 == f1);
    } else if key == "provides"@ {
        assert(f1 is None);
        assert(f2 == opt_view(a.provides));
    } else if key == "keywords"@ {
        assert(f2 is None);
        assert(f3 == opt_view(a.keywords));
    } else if key == "licenses"@ {
        assert(f3 is None);
    }
}


/// Storing a package and reading it back gives the package again: its hash
/// decodes, with the name taken from the key, to the same summary and the
/// same details, an absent optional field staying absent; each comment
/// hash decodes to the same comment; and each dependency-list key belongs
/// to the package and gives back its group.
pub proof fn lemma_stored_package_reads_back(p: PackageData, fields: Seq<(String, String)>)
    requires
        p.wf(),
        pairs_view(fields) == package_fields_spec(p.basic, p.additional),
    ensures
        basic_problem(read_record(p.basic.name@, fields)) is None,
        additional_problem(read_record(p.basic.name@, fields)) is None,
        forall|b: BasicPackageData|
            basic_from_fields(b, read_record(p.basic.name@, fields)) ==> same_basic(b, p.basic),
        forall|a: AdditionalPackageData|
            additional_from_fields(a, read_record(p.basic.name@, fields)) ==> same_additional(
                a,
                p.additional,
            ),
        forall|c: Comment| comment_problem(#[trigger] comment_fields_spec(c)) is None,
        forall|c: Comment, d: Comment|
            #[trigger] comment_from_fields(d, comment_fields_spec(c)) ==> same_comment(d, c),
        forall|g: Seq<char>|
            is_dependency_key_of(p.basic.name@, #[trigger] dependency_key_spec(p.basic.name@, g)),
        forall|g: Seq<char>, h: Seq<char>|
            #[trigger] dependency_key_spec(p.basic.name@, g) == #[trigger] dependency_key_spec(
                p.basic.name@,
                h,
            ) ==> g == h,
{
    let rec = read_record(p.basic.name@, fields);
    let b = p.basic;
    let a = p.additional;
    assert(rec =~= seq![("name"@, b.name@)] + package_fields_spec(b, a));
    lemma_field_keys_distinct();
    lemma_stored_value(b, a, "name"@);
    lemma_stored_value(b, a, "popularity"@);
    lemma_stored_value(b, a, "last_updated"@);
    lemma_stored_value(b, a, "description"@);
    lemma_stored_value(b, a, "maintainer"@);
    lemma_stored_value(b, a, "version"@);
    lemma_stored_value(b, a, "votes"@);
    lemma_stored_value(b, a, "path_to_additional_data"@);
    lemma_stored_value(b, a, "firstsubmitted"@);
    lemma_stored_value(b, a, "gitcloneurl"@);
    lemma_stored_value(b, a, "submitter"@);
    lemma_stored_value(b, a, "conflicts"@);
    lemma_stored_value(b, a, "provides"@);
    lemma_stored_value(b, a, "keywords"@);
    lemma_stored_value(b, a, "licenses"@);
    lemma_int_text_parses(b.votes);
    assert forall|c: Comment| comment_problem(#[trigger] comment_fields_spec(c)) is None
        && field_value(comment_fields_spec(c), "header"@) == Some(c.header@)
        && field_value(comment_fields_spec(c), "content"@) == Some(c.content@) by {
        lemma_field_value_at(comment_fields_spec(c), "header"@, 0);
        lemma_field_value_at(comment_fields_spec(c), "content"@, 1);
    }
    assert forall|c: Comment, d: Comment|
        #[trigger] comment_from_fields(d, comment_fields_spec(c)) implies same_comment(d, c) by {
        lemma_field_value_at(comment_fields_spec(c), "header"@, 0);
        lemma_field_value_at(comment_fields_spec(c), "content"@, 1);
    }
    let prefix = dependencies_index_key_spec(p.basic.name@) + ":"@;
    assert forall|g: Seq<char>|
        is_dependency_key_of(p.basic.name@, #[trigger] dependency_key_spec(p.basic.name@, g)) by {
        assert((prefix + g).subrange(0, prefix.len() as int) =~= prefix);
    }
    assert forall|g: Seq<char>, h: Seq<char>|
        #[trigger] dependency_key_spec(p.basic.name@, g) == #[trigger] dependency_key_spec(
            p.basic.name@,
            h,
        ) implies g == h by {
        assert(g =~= (prefix + g).subrange(prefix.len() as int, (prefix + g).len() as int));
        assert(h =~= (prefix + h).subrange(prefix.len() as int, (prefix + h).len() as int));
    }
}


/// The summary of package `name` from the fields of its hash.
pub fn basic_from_hash(name: &str, fields: Vec<(String, String)>) -> (r: Result<
    BasicPackageData,
    DbError,
>)
    ensures
        fields@.len() == 0 ==> (r matches Err(DbError::NotFound { name: n }) && n@ == name@),
        r is Ok <==> {
            &&& fields@.len() > 0
            &&& basic_problem(read_record(name@, fields@)) is None
            &&& additional_problem(read_record(name@, fields@)) is None
        },
        r matches Ok(b) ==> basic_from_fields(b, read_record(name@, fields@)) && b.wf(),
        fields@.len() > 0 && basic_problem(read_record(name@, fields@)) is Some ==> r == Err::<
            BasicPackageData,
            DbError,
        >(DbError::Model(basic_problem(read_record(name@, fields@))->0)),
        fields@.len() > 0 && basic_problem(read_record(name@, fields@)) is None && additional_problem(
            read_record(name@, fields@),
        ) is Some ==> r == Err::<BasicPackageData, DbError>(
            DbError::Model(additional_problem(read_record(name@, fields@))->0),
        ),
{
    match assemble_package(name, fields, Vec::new(), Vec::new()) {
        Ok(p) => Ok(p.basic),
        Err(e) => Err(e),
    }
}

/// The dependency groups named by those of `keys` that are dependency-list
/// keys of package `name`, in their order.
pub fn dependency_groups_of_keys(name: &str, keys: &Vec<String>) -> (r: Vec<String>)
    ensures
        string_views(r@) == string_views(keys@).filter(|k: Seq<char>| is_dependency_key_of(name@, k)).map_values(
            |k: Seq<char>| k.subrange((dependencies_index_key_spec(name@) + ":"@).len() as int, k.len() as int),
        ),
{
    let ghost prefix = dependencies_index_key_spec(name@) + ":"@;
    let ghost pred = |k: Seq<char>| is_dependency_key_of(name@, k);
    let ghost strip = |k: Seq<char>| k.subrange(prefix.len() as int, k.len() as int);
    let mut out: Vec<String> = Vec::new();
    let mut i: usize = 0;
    assert(string_views(keys@).take(0) =~= Seq::<Seq<char>>::empty());
    assert(string_views(out@) =~= Seq::<Seq<char>>::empty().filter(pred).map_values(strip));
    while i < keys.len()
        invariant
            i <= keys@.len(),
            prefix == dependencies_index_key_spec(name@) + ":"@,
            pred == (|k: Seq<char>| is_dependency_key_of(name@, k)),
            strip == (|k: Seq<char>| k.subrange(prefix.len() as int, k.len() as int)),
            string_views(out@) == string_views(keys@).take(i as int).filter(pred).map_values(strip),
        decreases keys@.len() - i,
    {
        let ghost before = string_views(keys@).take(i as int);
        let ghost k = keys@[i as int]@;
        assert(string_views(keys@).take(i + 1) =~= before.push(k));
        proof {
            Seq::filter_distributes_over_add(before, seq![k], pred);
            assert(before + seq![k] =~= before.push(k));
            reveal_with_fuel(Seq::filter, 2);
            assert(seq![k].drop_last() =~= Seq::<Seq<char>>::empty());
        }
        let ghost prev = out@;
        match dependency_group_of_key(name, keys[i].as_str()) {
            Some(g) => {
                proof {
                    assert(prefix + g@ == k);
                    assert(k.subrange(0, prefix.len() as int) =~= prefix);
                    assert(pred(k));
                    assert(seq![k].filter(pred) =~= seq![k]);
                    assert(strip(k) =~= g@);
                }
                out.push(g);
                assert(string_views(out@) =~= string_views(prev).push(g@));
                assert(string_views(out@) =~= (before.filter(pred) + seq![k]).map_values(strip));
            },
            None => {
                proof {
                    assert(!pred(k));
                    assert(seq![k].filter(pred) =~= Seq::<Seq<char>>::empty());
                }
                assert(before.filter(pred) + Seq::<Seq<char>>::empty() =~= before.filter(pred));
            },
        }
        i = i + 1;
    }
    assert(string_views(keys@).take(i as int) =~= string_views(keys@));
    out
}

/// Clearing a package's comments touches nothing else of it: the writes
/// of `remove_comments_ops` delete comment hashes and the comment index,
/// and no such key is the package hash, its dependency index or one of its
/// dependency lists.
pub proof fn lemma_remove_comments_keeps_the_rest(name: Seq<char>, n: nat, g: Seq<char>)
    ensures
        comment_key_spec(name, n) != package_key_spec(name),
        comment_key_spec(name, n) != dependencies_index_key_spec(name),
        comment_key_spec(name, n) != dependency_key_spec(name, g),
        comments_index_key_spec(name) != package_key_spec(name),
        comments_index_key_spec(name) != dependencies_index_key_spec(name),
        comments_index_key_spec(name) != dependency_key_spec(name, g),
{
    reveal_strlit("pkgs:");
    reveal_strlit(":cmnts");
    reveal_strlit(":deps");
    reveal_strlit(":");
    let p: int = 5 + name.len() as int;
    assert(package_key_spec(name).len() == p);
    assert(comment_key_spec(name, n)[p + 1] == 'c');
    assert(comments_index_key_spec(name)[p + 1] == 'c');
    assert(dependencies_index_key_spec(name)[p + 1] == 'd');
    assert(dependency_key_spec(name, g)[p + 1] == 'd');
}

} // verus!
