//! The package model and its decoding from flat string field maps.
use vstd::prelude::*;

use crate::numeric::{float_rank_exec, is_float_text, parse_i32, parse_i32_spec};
use crate::text::str_eq;

verus! {

/// The searchable summary of a package.
///
/// `popularity` holds the popularity score as float text (`is_float_text`:
/// a finite numeral, an infinity or not-a-number), exactly as the
/// repository publishes it.
#[derive(Clone, Debug, PartialEq, Eq)]
pub struct BasicPackageData {
    pub name: String,
    pub version: String,
    pub path_to_additional_data: String,
    pub votes: i32,
    pub popularity: String,
    pub description: String,
    pub maintainer: String,
    pub last_updated: String,
}

/// Details of a package that are read only when the whole package is shown.
/// An optional field that is `None` is absent, which differs from empty.
#[derive(Clone, Debug, PartialEq, Eq)]
pub struct AdditionalPackageData {
    pub git_clone_url: String,
    pub keywords: Option<String>,
    pub license: Option<String>,
    pub conflicts: Option<String>,
    pub provides: Option<String>,
    pub submitter: String,
    pub first_submitted: String,
}

/// One named group of dependencies, in the order the package lists them.
#[derive(Clone, Debug, PartialEq, Eq)]
pub struct PackageDependency {
    pub group: String,
    pub packages: Vec<String>,
}

#[derive(Clone, Debug, PartialEq, Eq)]
pub struct Comment {
    pub header: String,
    pub content: String,
}

/// A whole package: summary, details, dependency groups and comments.
#[derive(Clone, Debug, PartialEq, Eq)]
pub struct PackageData {
    pub basic: BasicPackageData,
    pub additional: AdditionalPackageData,
    pub dependencies: Vec<PackageDependency>,
    pub comments: Vec<Comment>,
}

/// Why a flat field map could not be decoded; `field` names the model field.
#[derive(Clone, Debug, PartialEq, Eq)]
pub enum ModelError {
    MissingSourceData { field: &'static str },
    ParseError { field: &'static str },
}

/// A flat field map as character sequences: (key, value) entries.
pub open spec fn pairs_view(v: Seq<(String, String)>) -> Seq<(Seq<char>, Seq<char>)> {
    v.map_values(|e: (String, String)| (e.0@, e.1@))
}

pub open spec fn opt_view(o: Option<String>) -> Option<Seq<char>> {
    match o {
        Some(s) => Some(s@),
        None => None,
    }
}

/// The value of the first entry of `src` whose key is `key`.
pub open spec fn field_value(src: Seq<(Seq<char>, Seq<char>)>, key: Seq<char>) -> Option<Seq<char>>
    decreases src.len(),
{
    if src.len() == 0 {
        None
    } else if src[0].0 == key {
        Some(src[0].1)
    } else {
        field_value(src.drop_first(), key)
    }
}

/// Looks up a field that must be present.
pub fn get_obligatory_field(source: &Vec<(String, String)>, key: &'static str) -> (r: Result<
    String,
    ModelError,
>)
    ensures
        field_value(pairs_view(source@), key@) matches Some(v) ==> (r matches Ok(s) && s@ == v),
        field_value(pairs_view(source@), key@) is None ==> r == Err::<String, ModelError>(
            ModelError::MissingSourceData { field: key },
        ),
{
    let mut i: usize = 0;
    let ghost src = pairs_view(source@);
    assert(src.skip(0) =~= src);
    while i < source.len()
        invariant
            i <= source@.len(),
            src == pairs_view(source@),
            field_value(src, key@) == field_value(src.skip(i as int), key@),
        decreases source.len() - i,
    {
        assert(src.skip(i as int).drop_first() =~= src.skip(i + 1));
        assert(src.skip(i as int)[0] == (source@[i as int].0@, source@[i as int].1@));
        if str_eq(source[i].0.as_str(), key) {
            return Ok(source[i].1.clone());
        }
        i = i + 1;
    }
    Err(ModelError::MissingSourceData { field: key })
}


pub open spec fn missing(field: &'static str) -> ModelError {
    ModelError::MissingSourceData { field }
}

pub open spec fn malformed(field: &'static str) -> ModelError {
    ModelError::ParseError { field }
}

impl BasicPackageData {
    /// The popularity is float text.
    pub open spec fn wf(&self) -> bool {
        is_float_text(self.popularity@)
    }
}

impl PackageData {
    pub open spec fn wf(&self) -> bool {
        self.basic.wf()
    }
}

/// The first problem met when decoding the summary fields of `src`, in the
/// order name, path, version, votes, popularity, description, maintainer,
/// last update.
pub open spec fn basic_problem(src: Seq<(Seq<char>, Seq<char>)>) -> Option<ModelError> {
    if field_value(src, "name"@) is None {
        Some(missing("name"))
    } else if field_value(src, "path_to_additional_data"@) is None {
        Some(missing("path_to_additional_data"))
    } else if field_value(src, "version"@) is None {
        Some(missing("version"))
    } else if field_value(src, "votes"@) is None {
        Some(missing("votes"))
    } else if parse_i32_spec(field_value(src, "votes"@)->0) is None {
        Some(malformed("votes"))
    } else if field_value(src, "popularity"@) is None {
        Some(missing("popularity"))
    } else if !is_float_text(field_value(src, "popularity"@)->0) {
        Some(malformed("popularity"))
    } else if field_value(src, "description"@) is None {
        Some(missing("description"))
    } else if field_value(src, "maintainer"@) is None {
        Some(missing("maintainer"))
    } else if field_value(src, "last_updated"@) is None {
        Some(missing("last_updated"))
    } else {
        None
    }
}

/// `b` holds the summary fields of `src`.
pub open spec fn basic_from_fields(b: BasicPackageData, src: Seq<(Seq<char>, Seq<char>)>) -> bool {
    &&& Some(b.name@) == field_value(src, "name"@)
    &&& Some(b.path_to_additional_data@) == field_value(src, "path_to_additional_data"@)
    &&& Some(b.version@) == field_value(src, "version"@)
    &&& Some(b.votes) == parse_i32_spec(field_value(src, "votes"@)->0)
    &&& Some(b.popularity@) == field_value(src, "popularity"@)
    &&& Some(b.description@) == field_value(src, "description"@)
    &&& Some(b.maintainer@) == field_value(src, "maintainer"@)
    &&& Some(b.last_updated@) == field_value(src, "last_updated"@)
}

/// The first required detail field missing from `src`.
pub open spec fn additional_problem(src: Seq<(Seq<char>, Seq<char>)>) -> Option<ModelError> {
    if field_value(src, "gitcloneurl"@) is None {
        Some(missing("git_clone_url"))
    } else if field_value(src, "submitter"@) is None {
        Some(missing("submitter"))
    } else if field_value(src, "firstsubmitted"@) is None {
        Some(missing("first_submitted"))
    } else {
        None
    }
}

/// `a` holds the detail fields of `src`; an optional field is absent
/// exactly when its key is.
pub open spec fn additional_from_fields(a: AdditionalPackageData, src: Seq<(Seq<char>, Seq<char>)>) -> bool {
    &&& Some(a.git_clone_url@) == field_value(src, "gitcloneurl"@)
    &&& opt_view(a.keywords) == field_value(src, "keywords"@)
    &&& opt_view(a.license) == field_value(src, "licenses"@)
    &&& opt_view(a.conflicts) == field_value(src, "conflicts"@)
    &&& opt_view(a.provides) == field_value(src, "provides"@)
    &&& Some(a.submitter@) == field_value(src, "submitter"@)
    &&& Some(a.first_submitted@) == field_value(src, "firstsubmitted"@)
}

/// Looks up a field that may be absent.
pub fn get_optional_field(source: &Vec<(String, String)>, key: &'static str) -> (r: Option<String>)
    ensures
        opt_view(r) == field_value(pairs_view(source@), key@),
{
    match get_obligatory_field(source, key) {
        Ok(v) => Some(v),
        Err(_) => None,
    }
}

/// The first field missing from a comment's fields.
pub open spec fn comment_problem(src: Seq<(Seq<char>, Seq<char>)>) -> Option<ModelError> {
    if field_value(src, "header"@) is None {
        Some(missing("header"))
    } else if field_value(src, "content"@) is None {
        Some(missing("content"))
    } else {
        None
    }
}

/// `c` holds the comment fields of `src`.
pub open spec fn comment_from_fields(c: Comment, src: Seq<(Seq<char>, Seq<char>)>) -> bool {
    &&& Some(c.header@) == field_value(src, "header"@)
    &&& Some(c.content@) == field_value(src, "content"@)
}

/// Two summaries hold the same values.
pub open spec fn same_basic(a: BasicPackageData, b: BasicPackageData) -> bool {
    &&& a.name@ == b.name@
    &&& a.version@ == b.version@
    &&& a.path_to_additional_data@ == b.path_to_additional_data@
    &&& a.votes == b.votes
    &&& a.popularity@ == b.popularity@
    &&& a.description@ == b.description@
    &&& a.maintainer@ == b.maintainer@
    &&& a.last_updated@ == b.last_updated@
}

/// Two detail records hold the same values, and the same fields are absent.
pub open spec fn same_additional(a: AdditionalPackageData, b: AdditionalPackageData) -> bool {
    &&& a.git_clone_url@ == b.git_clone_url@
    &&& opt_view(a.keywords) == opt_view(b.keywords)
    &&& opt_view(a.license) == opt_view(b.license)
    &&& opt_view(a.conflicts) == opt_view(b.conflicts)
    &&& opt_view(a.provides) == opt_view(b.provides)
    &&& a.submitter@ == b.submitter@
    &&& a.first_submitted@ == b.first_submitted@
}

pub open spec fn same_comment(a: Comment, b: Comment) -> bool {
    a.header@ == b.header@ && a.content@ == b.content@
}

impl Comment {
    /// Decodes a comment from its `header` and `content` fields.
    pub fn try_from_fields(source: &Vec<(String, String)>) -> (r: Result<Comment, ModelError>)
        ensures
            r is Err <==> comment_problem(pairs_view(source@)) is Some,
            r matches Err(e) ==> Some(e) == comment_problem(pairs_view(source@)),
            r matches Ok(c) ==> comment_from_fields(c, pairs_view(source@)),
    {
        let header = match get_obligatory_field(source, "header") {
            Ok(v) => v,
            Err(e) => {
                return Err(e);
            },
        };
        let content = match get_obligatory_field(source, "content") {
            Ok(v) => v,
            Err(e) => {
                return Err(e);
            },
        };
        Ok(Comment { header, content })
    }
}

impl AdditionalPackageData {
    /// Decodes the detail fields; absent optional keys give `None`.
    pub fn try_from_fields(source: &Vec<(String, String)>) -> (r: Result<
        AdditionalPackageData,
        ModelError,
    >)
        ensures
            r is Err <==> additional_problem(pairs_view(source@)) is Some,
            r matches Err(e) ==> Some(e) == additional_problem(pairs_view(source@)),
            r matches Ok(a) ==> additional_from_fields(a, pairs_view(source@)),
    {
        let git_clone_url = match get_obligatory_field(source, "gitcloneurl") {
            Ok(v) => v,
            Err(_) => {
                return Err(ModelError::MissingSourceData { field: "git_clone_url" });
            },
        };
        let keywords = get_optional_field(source, "keywords");
        let license = get_optional_field(source, "licenses");
        let conflicts = get_optional_field(source, "conflicts");
        let provides = get_optional_field(source, "provides");
        let submitter = match get_obligatory_field(source, "submitter") {
            Ok(v) => v,
            Err(e) => {
                return Err(e);
            },
        };
        let first_submitted = match get_obligatory_field(source, "firstsubmitted") {
            Ok(v) => v,
            Err(_) => {
                return Err(ModelError::MissingSourceData { field: "first_submitted" });
            },
        };
        Ok(AdditionalPackageData {
            git_clone_url,
            keywords,
            license,
            conflicts,
            provides,
            submitter,
            first_submitted,
        })
    }
}

impl PackageData {
    /// Decodes a package from the flat fields of a key/value record: the
    /// summary fields, then the detail fields. Dependencies and comments
    /// are filled in afterwards by the caller.
    pub fn try_from_fields(source: &Vec<(String, String)>) -> (r: Result<PackageData, ModelError>)
        ensures
            r is Err <==> basic_problem(pairs_view(source@)) is Some || additional_problem(pairs_view(source@)) is Some,
            r matches Err(e) ==> Some(e) == if basic_problem(pairs_view(source@)) is Some {
                basic_problem(pairs_view(source@))
            } else {
                additional_problem(pairs_view(source@))
            },
            r matches Ok(p) ==> {
                &&& basic_from_fields(p.basic, pairs_view(source@))
                &&& additional_from_fields(p.additional, pairs_view(source@))
                &&& p.dependencies@.len() == 0
                &&& p.comments@.len() == 0
                &&& p.wf()
            },
    {
        let name = match get_obligatory_field(source, "name") {
            Ok(v) => v,
            Err(e) => {
                return Err(e);
            },
        };
        let path_to_additional_data = match get_obligatory_field(source, "path_to_additional_data") {
            Ok(v) => v,
            Err(e) => {
                return Err(e);
            },
        };
        let version = match get_obligatory_field(source, "version") {
            Ok(v) => v,
            Err(e) => {
                return Err(e);
            },
        };
        let votes_text = match get_obligatory_field(source, "votes") {
            Ok(v) => v,
            Err(e) => {
                return Err(e);
            },
        };
        let votes = match parse_i32(votes_text.as_str()) {
            Some(v) => v,
            None => {
                return Err(ModelError::ParseError { field: "votes" });
            },
        };
        let popularity = match get_obligatory_field(source, "popularity") {
            Ok(v) => v,
            Err(e) => {
                return Err(e);
            },
        };
        if float_rank_exec(popularity.as_str()).is_none() {
            return Err(ModelError::ParseError { field: "popularity" });
        }
        let description = match get_obligatory_field(source, "description") {
            Ok(v) => v,
            Err(e) => {
                return Err(e);
            },
        };
        let maintainer = match get_obligatory_field(source, "maintainer") {
            Ok(v) => v,
            Err(e) => {
                return Err(e);
            },
        };
        let last_updated = match get_obligatory_field(source, "last_updated") {
            Ok(v) => v,
            Err(e) => {
                return Err(e);
            },
        };
        let basic = BasicPackageData {
            name,
            version,
            path_to_additional_data,
            votes,
            popularity,
            description,
            maintainer,
            last_updated,
        };
        let additional = match AdditionalPackageData::try_from_fields(source) {
            Ok(a) => a,
            Err(e) => {
                return Err(e);
            },
        };
        Ok(PackageData { basic, additional, dependencies: Vec::new(), comments: Vec::new() })
    }
}


/// Index of the last `'/'` of `s`, or -1 when it has none.
pub open spec fn last_slash(s: Seq<char>) -> int
    decreases s.len(),
{
    if s.len() == 0 {
        -1
    } else if s.last() == '/' {
        s.len() - 1
    } else {
        last_slash(s.drop_last())
    }
}

/// A path cut to its last component, the slash kept: `/a/b` gives `/b`.
pub open spec fn last_component(s: Seq<char>) -> Seq<char> {
    if last_slash(s) >= 0 {
        s.subrange(last_slash(s), s.len() as int)
    } else {
        s
    }
}

/// The first problem met when decoding a summary from a row of columns in
/// the order name, path, version, votes, popularity, description,
/// maintainer, last update.
pub open spec fn row_problem(row: Seq<String>) -> Option<ModelError> {
    if row.len() < 1 {
        Some(missing("name"))
    } else if row.len() < 2 {
        Some(missing("path_to_additional_data"))
    } else if row.len() < 3 {
        Some(missing("version"))
    } else if row.len() < 4 {
        Some(missing("votes"))
    } else if parse_i32_spec(row[3]@) is None {
        Some(malformed("votes"))
    } else if row.len() < 5 {
        Some(missing("popularity"))
    } else if !is_float_text(row[4]@) {
        Some(malformed("popularity"))
    } else if row.len() < 6 {
        Some(missing("description"))
    } else if row.len() < 7 {
        Some(missing("maintainer"))
    } else if row.len() < 8 {
        Some(missing("last_updated"))
    } else {
        None
    }
}

/// The path cut to its last component.
pub fn last_path_component(path: &str) -> (r: String)
    ensures
        r@ == last_component(path@),
{
    let n = path.unicode_len();
    let mut i: usize = n;
    assert(path@.subrange(0, n as int) =~= path@);
    while i > 0
        invariant
            i <= n,
            n == path@.len(),
            last_slash(path@) == last_slash(path@.subrange(0, i as int)),
        decreases i,
    {
        let ghost pre = path@.subrange(0, i as int);
        assert(pre.last() == path@[i - 1]);
        assert(pre.drop_last() =~= path@.subrange(0, i - 1));
        if path.get_char(i - 1) == '/' {
            return String::from_str(path.substring_char(i - 1, n));
        }
        i = i - 1;
    }
    assert(path@.subrange(0, 0) =~= Seq::<char>::empty());
    String::from_str(path)
}

impl BasicPackageData {
    /// Decodes a summary from a row of columns; the path is kept from its
    /// last slash on.
    pub fn try_from_row(source: Vec<String>) -> (r: Result<BasicPackageData, ModelError>)
        ensures
            r is Err <==> row_problem(source@) is Some,
            r matches Err(e) ==> Some(e) == row_problem(source@),
            r matches Ok(b) ==> {
                &&& b.name == source@[0]
                &&& b.path_to_additional_data@ == last_component(source@[1]@)
                &&& b.version == source@[2]
                &&& Some(b.votes) == parse_i32_spec(source@[3]@)
                &&& b.popularity == source@[4]
                &&& b.description == source@[5]
                &&& b.maintainer == source@[6]
                &&& b.last_updated == source@[7]
                &&& b.wf()
            },
    {
        let mut row = source;
        let ghost orig = row@;
        let n = row.len();
        if n < 1 {
            return Err(ModelError::MissingSourceData { field: "name" });
        }
        if n < 2 {
            return Err(ModelError::MissingSourceData { field: "path_to_additional_data" });
        }
        if n < 3 {
            return Err(ModelError::MissingSourceData { field: "version" });
        }
        if n < 4 {
            return Err(ModelError::MissingSourceData { field: "votes" });
        }
        let votes = match parse_i32(row[3].as_str()) {
            Some(v) => v,
            None => {
                return Err(ModelError::ParseError { field: "votes" });
            },
        };
        if n < 5 {
            return Err(ModelError::MissingSourceData { field: "popularity" });
        }
        if float_rank_exec(row[4].as_str()).is_none() {
            return Err(ModelError::ParseError { field: "popularity" });
        }
        if n < 6 {
            return Err(ModelError::MissingSourceData { field: "description" });
        }
        if n < 7 {
            return Err(ModelError::MissingSourceData { field: "maintainer" });
        }
        if n < 8 {
            return Err(ModelError::MissingSourceData { field: "last_updated" });
        }
        let path_to_additional_data = last_path_component(row[1].as_str());
        row.truncate(8);
        let last_updated = row.pop().unwrap();
        let maintainer = row.pop().unwrap();
        let description = row.pop().unwrap();
        let popularity = row.pop().unwrap();
        let _votes_text = row.pop().unwrap();
        let version = row.pop().unwrap();
        let _path = row.pop().unwrap();
        let name = row.pop().unwrap();
        Ok(BasicPackageData {
            name,
            version,
            path_to_additional_data,
            votes,
            popularity,
            description,
            maintainer,
            last_updated,
        })
    }
}

} // verus!
