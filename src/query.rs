//! Query texts: splitting a command line into words, the document store's
//! ranking and update queries, and how its errors are told apart.
use vstd::prelude::*;

use crate::error::DbError;
use crate::numeric::{decimal_text, format_u64};
use crate::occurrences::string_views;
use crate::ranking::{field_name, is_unsupported_field, rank_field_of, RankField};

verus! {

/// White space as `char::is_whitespace` has it: the characters with the
/// Unicode property `White_Space`.
pub open spec fn is_space(c: char) -> bool {
    ||| '\u{9}' <= c && c <= '\u{d}'
    ||| c == ' '
    ||| c == '\u{85}'
    ||| c == '\u{a0}'
    ||| c == '\u{1680}'
    ||| '\u{2000}' <= c && c <= '\u{200a}'
    ||| c == '\u{2028}'
    ||| c == '\u{2029}'
    ||| c == '\u{202f}'
    ||| c == '\u{205f}'
    ||| c == '\u{3000}'
}

pub fn is_space_char(c: char) -> (r: bool)
    ensures
        r == is_space(c),
{
    ('\u{9}' <= c && c <= '\u{d}') || c == ' ' || c == '\u{85}' || c == '\u{a0}' || c == '\u{1680}'
        || ('\u{2000}' <= c && c <= '\u{200a}') || c == '\u{2028}' || c == '\u{2029}' || c
        == '\u{202f}' || c == '\u{205f}' || c == '\u{3000}'
}

/// The words of `s` after the partial word `cur`: maximal runs of
/// characters that are not white space.
pub open spec fn words_from(s: Seq<char>, cur: Seq<char>) -> Seq<Seq<char>>
    decreases s.len(),
{
    if s.len() == 0 {
        if cur.len() > 0 {
            seq![cur]
        } else {
            Seq::empty()
        }
    } else if is_space(s[0]) {
        (if cur.len() > 0 {
            seq![cur]
        } else {
            Seq::empty()
        }) + words_from(s.drop_first(), Seq::empty())
    } else {
        words_from(s.drop_first(), cur.push(s[0]))
    }
}

pub open spec fn words(s: Seq<char>) -> Seq<Seq<char>> {
    words_from(s, Seq::empty())
}

/// Splits a command line into its words.
pub fn split_words(s: &str) -> (r: Vec<String>)
    ensures
        string_views(r@) == words(s@),
{
    let n = s.unicode_len();
    let mut out: Vec<String> = Vec::new();
    let mut cur = String::new();
    let mut i: usize = 0;
    assert(s@.skip(0) =~= s@);
    assert(string_views(out@) =~= Seq::<Seq<char>>::empty());
    while i < n
        invariant
            i <= n,
            n == s@.len(),
            string_views(out@) + words_from(s@.skip(i as int), cur@) == words(s@),
        decreases n - i,
    {
        let c = s.get_char(i);
        let ghost rest = s@.skip(i as int);
        let ghost prev = out@;
        let ghost oc = cur@;
        assert(rest[0] == c);
        assert(rest.drop_first() =~= s@.skip(i + 1));
        assert(rest.len() > 0);
        if is_space_char(c) {
            if cur.as_str().unicode_len() > 0 {
                let w = cur;
                out.push(w);
                cur = String::new();
                assert(string_views(out@) =~= string_views(prev) + seq![w@]);
                assert(words_from(rest, oc) == seq![oc] + words_from(rest.drop_first(), Seq::empty()));
                assert(string_views(out@) + words_from(s@.skip(i + 1), cur@) =~= string_views(prev)
                    + (seq![w@] + words_from(s@.skip(i + 1), Seq::empty())));
            } else {
                assert(oc.len() == 0);
                assert(words_from(rest, oc) == Seq::<Seq<char>>::empty() + words_from(rest.drop_first(), Seq::empty()));
                assert(Seq::<Seq<char>>::empty() + words_from(s@.skip(i + 1), Seq::empty())
                    =~= words_from(s@.skip(i + 1), Seq::empty()));
                assert(cur@ =~= Seq::<char>::empty());
            }
        } else {
            let one = s.substring_char(i, i + 1);
            assert(one@ =~= seq![c]);
            cur.append(one);
            assert(cur@ =~= oc.push(c));
            assert(words_from(rest, oc) == words_from(rest.drop_first(), oc.push(c)));
        }
        i = i + 1;
    }
    assert(s@.skip(n as int) =~= Seq::<char>::empty());
    if cur.as_str().unicode_len() > 0 {
        let ghost prev = out@;
        let w = cur;
        out.push(w);
        assert(string_views(out@) =~= string_views(prev) + seq![w@]);
    } else {
        assert(string_views(out@) + Seq::<Seq<char>>::empty() =~= string_views(out@));
    }
    out
}

/// A custom command line: its first word is the command, the others its
/// arguments. An empty line is no command.
pub fn parse_custom_query(query: &str) -> (r: Result<(String, Vec<String>), DbError>)
    ensures
        words(query@).len() == 0 ==> r is Err,
        words(query@).len() > 0 ==> (r matches Ok((c, args)) && c@ == words(query@)[0]
            && string_views(args@) == words(query@).drop_first()),
        r matches Err(e) ==> e is QueryError,
{
    let mut parts = split_words(query);
    if parts.len() == 0 {
        return Err(DbError::QueryError { message: String::from_str("empty query") });
    }
    let ghost all = parts@;
    let command = parts.remove(0);
    assert(string_views(parts@) =~= string_views(all).drop_first());
    Ok((command, parts))
}

/// `needle` occurs in `hay` as a run of consecutive characters.
pub open spec fn contains_seq(hay: Seq<char>, needle: Seq<char>) -> bool {
    exists|i: int|
        0 <= i && i + needle.len() <= hay.len() && #[trigger] hay.subrange(i, i + needle.len())
            == needle
}

/// Whether `needle` occurs in `hay`.
pub fn contains_str(hay: &str, needle: &str) -> (r: bool)
    ensures
        r == contains_seq(hay@, needle@),
{
    let n = hay.unicode_len();
    let m = needle.unicode_len();
    if m > n {
        return false;
    }
    let mut i: usize = 0;
    while i <= n - m
        invariant
            m <= n,
            n == hay@.len(),
            m == needle@.len(),
            i <= n - m + 1,
            forall|k: int| 0 <= k < i ==> #[trigger] hay@.subrange(k, k + m) != needle@,
        decreases n - m + 1 - i,
    {
        let mut j: usize = 0;
        while j < m && hay.get_char(i + j) == needle.get_char(j)
            invariant
                j <= m,
                i + m <= n,
                n == hay@.len(),
                m == needle@.len(),
                forall|k: int| 0 <= k < j ==> hay@[i + k] == needle@[k],
            decreases m - j,
        {
            j = j + 1;
        }
        if j == m {
            assert(hay@.subrange(i as int, i + m) =~= needle@);
            return true;
        }
        assert(hay@.subrange(i as int, i + m)[j as int] != needle@[j as int]);
        i = i + 1;
    }
    assert forall|k: int| 0 <= k && k + m <= n implies #[trigger] hay@.subrange(k, k + m)
        != needle@ by {
        assert(k < i);
    }
    false
}

/// Whether a document store error says that the record already exists.
pub fn is_already_exists_error(message: &str) -> (r: bool)
    ensures
        r == contains_seq(message@, "already exists"@),
{
    contains_str(message, "already exists")
}

/// The outcome of a create-or-ignore write, from the store's error text if
/// it gave one: an "already exists" error counts as success, any other is a
/// query error with the store's text.
pub fn skip_already_exist_error(error: Option<String>) -> (r: Result<(), DbError>)
    ensures
        error is None ==> r is Ok,
        error matches Some(m) ==> (contains_seq(m@, "already exists"@) <==> r is Ok),
        error matches Some(m) ==> (r matches Err(e) ==> (e matches DbError::QueryError { message }
            && message@ == m@)),
{
    match error {
        None => Ok(()),
        Some(m) => if is_already_exists_error(m.as_str()) {
            Ok(())
        } else {
            Err(DbError::QueryError { message: m })
        },
    }
}

/// The document store query for the window `[start, end)` of the package
/// names ranked by field `f`, descending, ties by name.
pub open spec fn sort_query_spec(f: RankField, start: nat, end: nat) -> Seq<char> {
    "SELECT VALUE name FROM (SELECT basic.name AS name, basic."@ + field_name(f)
        + " AS key FROM pkgs ORDER BY key DESC, name ASC LIMIT BY "@ + decimal_text(
        if end > start {
            (end - start) as nat
        } else {
            0
        },
    ) + " START AT "@ + decimal_text(start) + ")"@
}

/// The ranking query for the field named `field`; `UnsupportedField`,
/// before any query is built, for any other name.
pub fn sort_pkgs_by_field_query(field: &str, limit_start: u32, limit_end: u32) -> (r: Result<
    String,
    DbError,
>)
    ensures
        rank_field_of(field@) matches Some(f) ==> (r matches Ok(q) && q@ == sort_query_spec(
            f,
            limit_start as nat,
            limit_end as nat,
        )),
        rank_field_of(field@) is None ==> (r matches Err(e) && is_unsupported_field(e, field@)),
{
    let f = match RankField::from_name(field) {
        Ok(f) => f,
        Err(e) => {
            return Err(e);
        },
    };
    let count: u32 = if limit_end > limit_start {
        limit_end - limit_start
    } else {
        0
    };
    let mut q = String::from_str("SELECT VALUE name FROM (SELECT basic.name AS name, basic.");
    q.append(field);
    q.append(" AS key FROM pkgs ORDER BY key DESC, name ASC LIMIT BY ");
    let c = format_u64(count as u64);
    q.append(c.as_str());
    q.append(" START AT ");
    let s = format_u64(limit_start as u64);
    q.append(s.as_str());
    q.append(")");
    Ok(q)
}

/// The document store query for the `n` most voted package summaries.
pub open spec fn most_voted_query_spec(n: nat) -> Seq<char> {
    "SELECT VALUE basic FROM (SELECT basic, basic.votes AS votes, basic.name AS name FROM pkgs ORDER BY votes DESC, name ASC LIMIT BY "@
        + decimal_text(n) + ")"@
}

pub fn most_voted_query(number: u32) -> (r: String)
    ensures
        r@ == most_voted_query_spec(number as nat),
{
    let mut q = String::from_str(
        "SELECT VALUE basic FROM (SELECT basic, basic.votes AS votes, basic.name AS name FROM pkgs ORDER BY votes DESC, name ASC LIMIT BY ",
    );
    let n = format_u64(number as u64);
    q.append(n.as_str());
    q.append(")");
    q
}

/// Clears the comments of the package whose name is bound to `$name`,
/// leaving the rest of its document as it is.
pub const REMOVE_COMMENTS_QUERY: &'static str = "UPDATE pkgs SET comments = [] WHERE basic.name = $name";

/// Lists, for every package, the names of its dependency groups.
pub const DEPENDENCY_GROUPS_QUERY: &'static str = "SELECT VALUE dependencies.group FROM pkgs";

} // verus!
