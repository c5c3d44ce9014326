//! Ranking of package summaries by one of their fields, descending, for
//! stores that cannot sort by themselves; ties go to the smaller name.
use core::cmp::Ordering;
use std::collections::VecDeque;
use vstd::prelude::*;
use vstd::std_specs::iter::IteratorSpec;

use crate::error::DbError;
use crate::model::BasicPackageData;
use crate::numeric::{compare_decimals, decimal_cmp_spec, int_cmp, lemma_decimal_cmp_order};
use crate::text::str_eq;

verus! {

/// A summary field that packages can be ranked by.
#[derive(Clone, Copy, Debug, PartialEq, Eq, Structural)]
pub enum RankField {
    Name,
    Version,
    PathToAdditionalData,
    Votes,
    Popularity,
    Description,
    Maintainer,
    LastUpdated,
}

/// Ranking by popularity reads the popularity as float text; no other
/// field asks anything of a summary.
pub open spec fn fits_field(p: BasicPackageData, f: RankField) -> bool {
    f == RankField::Popularity ==> p.wf()
}

/// The name under which a ranking field is asked for.
pub open spec fn field_name(f: RankField) -> Seq<char> {
    match f {
        RankField::Name => "name"@,
        RankField::Version => "version"@,
        RankField::PathToAdditionalData => "path_to_additional_data"@,
        RankField::Votes => "votes"@,
        RankField::Popularity => "popularity"@,
        RankField::Description => "description"@,
        RankField::Maintainer => "maintainer"@,
        RankField::LastUpdated => "last_updated"@,
    }
}

/// The ranking field named `s`, if there is one.
pub open spec fn rank_field_of(s: Seq<char>) -> Option<RankField> {
    if s == "name"@ {
        Some(RankField::Name)
    } else if s == "version"@ {
        Some(RankField::Version)
    } else if s == "path_to_additional_data"@ {
        Some(RankField::PathToAdditionalData)
    } else if s == "votes"@ {
        Some(RankField::Votes)
    } else if s == "popularity"@ {
        Some(RankField::Popularity)
    } else if s == "description"@ {
        Some(RankField::Description)
    } else if s == "maintainer"@ {
        Some(RankField::Maintainer)
    } else if s == "last_updated"@ {
        Some(RankField::LastUpdated)
    } else {
        None
    }
}

/// The error for a field that packages cannot be ranked by.
pub open spec fn is_unsupported_field(e: DbError, field: Seq<char>) -> bool {
    e matches DbError::UnsupportedField { field: g } && g@ == field
}

impl RankField {
    /// The field of that name, or `UnsupportedField`.
    pub fn from_name(field: &str) -> (r: Result<RankField, DbError>)
        ensures
            rank_field_of(field@) matches Some(f) ==> r == Ok::<RankField, DbError>(f),
            rank_field_of(field@) is None ==> (r matches Err(e) && is_unsupported_field(e, field@)),
    {
        if str_eq(field, "name") {
            Ok(RankField::Name)
        } else if str_eq(field, "version") {
            Ok(RankField::Version)
        } else if str_eq(field, "path_to_additional_data") {
            Ok(RankField::PathToAdditionalData)
        } else if str_eq(field, "votes") {
            Ok(RankField::Votes)
        } else if str_eq(field, "popularity") {
            Ok(RankField::Popularity)
        } else if str_eq(field, "description") {
            Ok(RankField::Description)
        } else if str_eq(field, "maintainer") {
            Ok(RankField::Maintainer)
        } else if str_eq(field, "last_updated") {
            Ok(RankField::LastUpdated)
        } else {
            Err(DbError::UnsupportedField { field: String::from_str(field) })
        }
    }
}

/// Lexicographic order of character sequences by code point, which is the
/// order of `String`.
pub open spec fn seq_cmp(a: Seq<char>, b: Seq<char>) -> Ordering
    decreases a.len(),
{
    if a.len() == 0 && b.len() == 0 {
        Ordering::Equal
    } else if a.len() == 0 {
        Ordering::Less
    } else if b.len() == 0 {
        Ordering::Greater
    } else if (a[0] as int) < (b[0] as int) {
        Ordering::Less
    } else if (a[0] as int) > (b[0] as int) {
        Ordering::Greater
    } else {
        seq_cmp(a.drop_first(), b.drop_first())
    }
}

pub open spec fn flip(o: Ordering) -> Ordering {
    match o {
        Ordering::Less => Ordering::Greater,
        Ordering::Equal => Ordering::Equal,
        Ordering::Greater => Ordering::Less,
    }
}

/// How two summaries compare on one field.
pub open spec fn field_cmp(a: BasicPackageData, b: BasicPackageData, f: RankField) -> Ordering {
    match f {
        RankField::Name => seq_cmp(a.name@, b.name@),
        RankField::Version => seq_cmp(a.version@, b.version@),
        RankField::PathToAdditionalData => seq_cmp(
            a.path_to_additional_data@,
            b.path_to_additional_data@,
        ),
        RankField::Votes => int_cmp(a.votes as int, b.votes as int),
        RankField::Popularity => decimal_cmp_spec(a.popularity@, b.popularity@),
        RankField::Description => seq_cmp(a.description@, b.description@),
        RankField::Maintainer => seq_cmp(a.maintainer@, b.maintainer@),
        RankField::LastUpdated => seq_cmp(a.last_updated@, b.last_updated@),
    }
}

/// `a` is ranked ahead of `b`: a greater field value, or an equal one and
/// a smaller name.
pub open spec fn ranks_before(a: BasicPackageData, b: BasicPackageData, f: RankField) -> bool {
    ||| field_cmp(a, b, f) == Ordering::Greater
    ||| field_cmp(a, b, f) == Ordering::Equal && seq_cmp(a.name@, b.name@) == Ordering::Less
}

/// `x` put into `s` before the first element that it goes before.
pub open spec fn insert_sorted(s: Seq<BasicPackageData>, x: BasicPackageData, f: RankField, o: SortOrder) -> Seq<
    BasicPackageData,
>
    decreases s.len(),
{
    if s.len() == 0 {
        seq![x]
    } else if goes_before(x, s[0], f, o) {
        seq![x] + s
    } else {
        seq![s[0]] + insert_sorted(s.drop_first(), x, f, o)
    }
}

/// `s` sorted by `f` in order `o`, stably.
pub open spec fn sorted_by(s: Seq<BasicPackageData>, f: RankField, o: SortOrder) -> Seq<BasicPackageData>
    decreases s.len(),
{
    if s.len() == 0 {
        Seq::empty()
    } else {
        insert_sorted(sorted_by(s.drop_last(), f, o), s.last(), f, o)
    }
}

/// No element goes before the one before it.
pub open spec fn is_sorted_by(s: Seq<BasicPackageData>, f: RankField, o: SortOrder) -> bool {
    forall|i: int| 0 <= i < s.len() - 1 ==> !goes_before(#[trigger] s[i + 1], s[i], f, o)
}

/// The window `[start, end)` of `s`, cut at its end.
pub open spec fn page<T>(s: Seq<T>, start: nat, end: nat) -> Seq<T> {
    if start >= end || start >= s.len() {
        Seq::empty()
    } else if end >= s.len() {
        s.subrange(start as int, s.len() as int)
    } else {
        s.subrange(start as int, end as int)
    }
}

pub open spec fn names(s: Seq<BasicPackageData>) -> Seq<Seq<char>> {
    s.map_values(|p: BasicPackageData| p.name@)
}

pub proof fn lemma_seq_cmp_flip(a: Seq<char>, b: Seq<char>)
    ensures
        seq_cmp(b, a) == flip(seq_cmp(a, b)),
    decreases a.len(),
{
    if a.len() > 0 && b.len() > 0 && (a[0] as int) == (b[0] as int) {
        lemma_seq_cmp_flip(a.drop_first(), b.drop_first());
    }
}

pub proof fn lemma_field_cmp_flip(a: BasicPackageData, b: BasicPackageData, f: RankField)
    ensures
        field_cmp(b, a, f) == flip(field_cmp(a, b, f)),
{
    match f {
        RankField::Name => lemma_seq_cmp_flip(a.name@, b.name@),
        RankField::Version => lemma_seq_cmp_flip(a.version@, b.version@),
        RankField::PathToAdditionalData => lemma_seq_cmp_flip(
            a.path_to_additional_data@,
            b.path_to_additional_data@,
        ),
        RankField::Description => lemma_seq_cmp_flip(a.description@, b.description@),
        RankField::Maintainer => lemma_seq_cmp_flip(a.maintainer@, b.maintainer@),
        RankField::LastUpdated => lemma_seq_cmp_flip(a.last_updated@, b.last_updated@),
        _ => {},
    }
}

/// Being ranked ahead is asymmetric.
pub proof fn lemma_ranks_before_asymmetric(a: BasicPackageData, b: BasicPackageData, f: RankField)
    ensures
        ranks_before(a, b, f) ==> !ranks_before(b, a, f),
{
    lemma_field_cmp_flip(a, b, f);
    lemma_seq_cmp_flip(a.name@, b.name@);
}

/// Compares two strings in the order of `String`, reading each once.
pub fn compare_strs(a: &str, b: &str) -> (r: Ordering)
    ensures
        r == seq_cmp(a@, b@),
{
    broadcast use vstd::string::group_string_axioms;

    let n = a.unicode_len();
    let mut ia = a.chars();
    let mut ib = b.chars();
    let mut i: usize = 0;
    assert(a@.skip(0) =~= a@);
    assert(b@.skip(0) =~= b@);
    loop
        invariant
            i <= n,
            n == a@.len(),
            i <= b@.len(),
            ia.remaining() == a@.skip(i as int),
            ib.remaining() == b@.skip(i as int),
            seq_cmp(a@, b@) == seq_cmp(ia.remaining(), ib.remaining()),
        decreases n - i,
    {
        let ghost (ra, rb) = (ia.remaining(), ib.remaining());
        let x = ia.next();
        let y = ib.next();
        match (x, y) {
            (None, None) => {
                return Ordering::Equal;
            },
            (None, Some(_)) => {
                return Ordering::Less;
            },
            (Some(_), None) => {
                return Ordering::Greater;
            },
            (Some(c), Some(d)) => {
                if c < d {
                    return Ordering::Less;
                } else if c > d {
                    return Ordering::Greater;
                }
                assert(ra.len() > 0 && rb.len() > 0);
                assert(ra.drop_first() =~= a@.skip(i + 1));
                assert(rb.drop_first() =~= b@.skip(i + 1));
                i = i + 1;
            },
        }
    }
}

/// How two summaries compare on field `f`.
pub fn compare_by_field(a: &BasicPackageData, b: &BasicPackageData, f: RankField) -> (r: Ordering)
    requires
        fits_field(*a, f),
        fits_field(*b, f),
    ensures
        r == field_cmp(*a, *b, f),
{
    match f {
        RankField::Name => compare_strs(a.name.as_str(), b.name.as_str()),
        RankField::Version => compare_strs(a.version.as_str(), b.version.as_str()),
        RankField::PathToAdditionalData => compare_strs(
            a.path_to_additional_data.as_str(),
            b.path_to_additional_data.as_str(),
        ),
        RankField::Votes => if a.votes < b.votes {
            Ordering::Less
        } else if a.votes == b.votes {
            Ordering::Equal
        } else {
            Ordering::Greater
        },
        RankField::Popularity => compare_decimals(a.popularity.as_str(), b.popularity.as_str()),
        RankField::Description => compare_strs(a.description.as_str(), b.description.as_str()),
        RankField::Maintainer => compare_strs(a.maintainer.as_str(), b.maintainer.as_str()),
        RankField::LastUpdated => compare_strs(a.last_updated.as_str(), b.last_updated.as_str()),
    }
}

/// Whether `a` is ranked ahead of `b` by field `f`.
pub fn is_ranked_before(a: &BasicPackageData, b: &BasicPackageData, f: RankField) -> (r: bool)
    requires
        fits_field(*a, f),
        fits_field(*b, f),
    ensures
        r == ranks_before(*a, *b, f),
{
    match compare_by_field(a, b, f) {
        Ordering::Greater => true,
        Ordering::Less => false,
        Ordering::Equal => match compare_strs(a.name.as_str(), b.name.as_str()) {
            Ordering::Less => true,
            _ => false,
        },
    }
}


/// The two orders summaries are sorted in.
#[derive(Clone, Copy, Debug, PartialEq, Eq, Structural)]
pub enum SortOrder {
    /// Descending by the field, ties by ascending name.
    Ranking,
    /// Ascending by the field, ties kept in their order.
    Ascending,
}

/// `a` goes strictly before `b` when sorting by `f` in order `o`.
pub open spec fn goes_before(a: BasicPackageData, b: BasicPackageData, f: RankField, o: SortOrder) -> bool {
    match o {
        SortOrder::Ranking => ranks_before(a, b, f),
        SortOrder::Ascending => field_cmp(a, b, f) == Ordering::Less,
    }
}

/// `s` ranked by `f`: descending, ties by name.
pub open spec fn ranked(s: Seq<BasicPackageData>, f: RankField) -> Seq<BasicPackageData> {
    sorted_by(s, f, SortOrder::Ranking)
}

pub open spec fn is_ranked(s: Seq<BasicPackageData>, f: RankField) -> bool {
    is_sorted_by(s, f, SortOrder::Ranking)
}

/// Whether `a` goes strictly before `b` by field `f` in order `o`.
pub fn goes_before_exec(a: &BasicPackageData, b: &BasicPackageData, f: RankField, o: SortOrder) -> (r: bool)
    requires
        fits_field(*a, f),
        fits_field(*b, f),
    ensures
        r == goes_before(*a, *b, f, o),
{
    match o {
        SortOrder::Ranking => is_ranked_before(a, b, f),
        SortOrder::Ascending => match compare_by_field(a, b, f) {
            Ordering::Less => true,
            _ => false,
        },
    }
}

pub proof fn lemma_goes_before_asymmetric(a: BasicPackageData, b: BasicPackageData, f: RankField, o: SortOrder)
    ensures
        goes_before(a, b, f, o) ==> !goes_before(b, a, f, o),
{
    lemma_ranks_before_asymmetric(a, b, f);
    lemma_field_cmp_flip(a, b, f);
}

/// Going before is transitive, and whatever stands between two summaries
/// in order leaves them in order.
pub proof fn lemma_goes_before_order(
    x: BasicPackageData,
    q: BasicPackageData,
    p: BasicPackageData,
    f: RankField,
    o: SortOrder,
)
    ensures
        goes_before(x, q, f, o) && goes_before(q, p, f, o) ==> goes_before(x, p, f, o),
        goes_before(x, p, f, o) ==> goes_before(x, q, f, o) || goes_before(q, p, f, o),
{
    lemma_ranks_before_order(x, q, p, f);
    lemma_field_cmp_order(x, q, p, f);
    lemma_field_cmp_order(p, q, x, f);
    lemma_field_cmp_flip(x, q, f);
    lemma_field_cmp_flip(q, p, f);
    lemma_field_cmp_flip(x, p, f);
}

/// A ranking is ordered and holds the summaries it was made from, each as
/// often as they do.
pub proof fn lemma_ranked_properties(s: Seq<BasicPackageData>, f: RankField)
    ensures
        is_ranked(ranked(s, f), f),
        ranked(s, f).to_multiset() =~= s.to_multiset(),
        ranked(s, f).len() == s.len(),
{
    lemma_sorted_properties(s, f, SortOrder::Ranking);
}

/// The first `n` summaries by votes.
pub open spec fn most_voted(s: Seq<BasicPackageData>, n: nat) -> Seq<BasicPackageData> {
    let r = ranked(s, RankField::Votes);
    if n <= r.len() {
        r.take(n as int)
    } else {
        r
    }
}

proof fn lemma_insert_sorted_properties(t: Seq<BasicPackageData>, x: BasicPackageData, f: RankField, o: SortOrder)
    requires
        is_sorted_by(t, f, o),
    ensures
        is_sorted_by(insert_sorted(t, x, f, o), f, o),
        insert_sorted(t, x, f, o).len() == t.len() + 1,
        insert_sorted(t, x, f, o)[0] == x || (t.len() > 0 && insert_sorted(t, x, f, o)[0] == t[0]),
        insert_sorted(t, x, f, o).to_multiset() =~= t.to_multiset().insert(x),
    decreases t.len(),
{
    broadcast use vstd::seq_lib::group_to_multiset_ensures, vstd::multiset::group_multiset_axioms;

    let u = insert_sorted(t, x, f, o);
    if t.len() == 0 {
        assert(seq![x] =~= Seq::<BasicPackageData>::empty().push(x));
    } else if goes_before(x, t[0], f, o) {
        lemma_goes_before_asymmetric(x, t[0], f, o);
        assert forall|i: int| 0 <= i < u.len() - 1 implies !goes_before(#[trigger] u[i + 1], u[i], f, o) by {
            if i > 0 {
                assert(u[i + 1] == t[i] && u[i] == t[i - 1]);
                assert(!goes_before(t[(i - 1) + 1], t[i - 1], f, o));
            } else {
                assert(u[1] == t[0] && u[0] == x);
            }
        }
        vstd::seq_lib::lemma_multiset_commutative(seq![x], t);
        assert(seq![x] =~= Seq::<BasicPackageData>::empty().push(x));
    } else {
        let r = t.drop_first();
        assert(is_sorted_by(r, f, o)) by {
            assert forall|i: int| 0 <= i < r.len() - 1 implies !goes_before(#[trigger] r[i + 1], r[i], f, o) by {
                assert(r[i + 1] == t[i + 2] && r[i] == t[i + 1]);
            }
        }
        lemma_insert_sorted_properties(r, x, f, o);
        let w = insert_sorted(r, x, f, o);
        assert(u == seq![t[0]] + w);
        assert forall|i: int| 0 <= i < u.len() - 1 implies !goes_before(#[trigger] u[i + 1], u[i], f, o) by {
            if i == 0 {
                assert(u[1] == w[0]);
                assert(u[0] == t[0]);
                if w[0] != x {
                    assert(w[0] == r[0] && r[0] == t[1]);
                    assert(!goes_before(t[(0 as int) + 1], t[0], f, o));
                }
            } else {
                assert(u[i + 1] == w[i] && u[i] == w[i - 1]);
                assert(!goes_before(w[(i - 1) + 1], w[i - 1], f, o));
            }
        }
        vstd::seq_lib::lemma_multiset_commutative(seq![t[0]], w);
        vstd::seq_lib::lemma_multiset_commutative(seq![t[0]], r);
        assert(seq![t[0]] + r =~= t);
        assert(seq![t[0]] =~= Seq::<BasicPackageData>::empty().push(t[0]));
    }
}

/// A sorted sequence is ordered and holds the summaries it was made from,
/// each as often as they do.
pub proof fn lemma_sorted_properties(s: Seq<BasicPackageData>, f: RankField, o: SortOrder)
    ensures
        is_sorted_by(sorted_by(s, f, o), f, o),
        sorted_by(s, f, o).to_multiset() =~= s.to_multiset(),
        sorted_by(s, f, o).len() == s.len(),
    decreases s.len(),
{
    broadcast use vstd::seq_lib::group_to_multiset_ensures;

    if s.len() > 0 {
        lemma_sorted_properties(s.drop_last(), f, o);
        lemma_insert_sorted_properties(sorted_by(s.drop_last(), f, o), s.last(), f, o);
        assert(s.drop_last().push(s.last()) =~= s);
    }
}

/// Sorts summaries by `f` in order `o`, by merging: O(n log n)
/// comparisons.
pub fn sort_by_order(data: Vec<BasicPackageData>, f: RankField, o: SortOrder) -> (r: Vec<BasicPackageData>)
    requires
        forall|i: int| 0 <= i < data@.len() ==> fits_field(#[trigger] data@[i], f),
    ensures
        r@ == sorted_by(data@, f, o),
{
    let ghost orig = data@;
    let mut rest = data;
    let mut d: VecDeque<BasicPackageData> = VecDeque::new();
    assert(rest@ + d@ =~= orig);
    while rest.len() > 0
        invariant
            rest@ + d@ == orig,
        decreases rest@.len(),
    {
        let ghost (r0, d0) = (rest@, d@);
        match rest.pop() {
            Some(x) => {
                d.push_front(x);
            },
            None => {},
        }
        assert(rest@ + d@ =~= r0 + d0);
    }
    assert(d@ =~= orig);
    let mut sorted = merge_sort(d, f, o);
    let mut out: Vec<BasicPackageData> = Vec::new();
    assert(out@ + sorted@ =~= sorted_by(orig, f, o));
    while sorted.len() > 0
        invariant
            out@ + sorted@ == sorted_by(orig, f, o),
        decreases sorted@.len(),
    {
        let ghost (o0, s0) = (out@, sorted@);
        match sorted.pop_front() {
            Some(x) => {
                out.push(x);
            },
            None => {},
        }
        assert(out@ + sorted@ =~= o0 + s0);
    }
    assert(out@ =~= sorted_by(orig, f, o));
    out
}

/// Sorts summaries by the field named `key`, ascending; summaries with
/// equal values keep their order. Numbers compare by value, text in the
/// order of `String`.
pub fn sort_values_by(data: &mut Vec<BasicPackageData>, key: &str) -> (r: Result<(), DbError>)
    requires
        rank_field_of(key@) == Some(RankField::Popularity) ==> forall|i: int|
            0 <= i < old(data)@.len() ==> (#[trigger] old(data)@[i]).wf(),
    ensures
        rank_field_of(key@) matches Some(f) ==> {
            &&& r is Ok
            &&& final(data)@ == sorted_by(old(data)@, f, SortOrder::Ascending)
            &&& final(data)@.to_multiset() == old(data)@.to_multiset()
            &&& forall|i: int, j: int|
                0 <= i < j < final(data)@.len() ==> field_cmp(
                    #[trigger] final(data)@[i],
                    #[trigger] final(data)@[j],
                    f,
                ) != Ordering::Greater
        },
        rank_field_of(key@) is None ==> {
            &&& r matches Err(e) && is_unsupported_field(e, key@)
            &&& final(data)@ == old(data)@
        },
{
    let f = match RankField::from_name(key) {
        Ok(f) => f,
        Err(e) => {
            return Err(e);
        },
    };
    let mut taken: Vec<BasicPackageData> = Vec::new();
    core::mem::swap(data, &mut taken);
    let ghost before = taken@;
    let sorted = sort_by_order(taken, f, SortOrder::Ascending);
    proof {
        lemma_sorted_properties(before, f, SortOrder::Ascending);
        lemma_sorted_is_ordered(before, f, SortOrder::Ascending);
        let r = sorted_by(before, f, SortOrder::Ascending);
        assert forall|i: int, j: int| 0 <= i < j < r.len() implies field_cmp(
            #[trigger] r[i],
            #[trigger] r[j],
            f,
        ) != Ordering::Greater by {
            lemma_field_cmp_flip(r[i], r[j], f);
            assert(!goes_before(r[j], r[i], f, SortOrder::Ascending));
        }
    }
    *data = sorted;
    Ok(())
}

/// The names of the window `[limit_start, limit_end)` of the ranking of
/// `packages` by the field named `field`.
pub fn sort_pkgs_by_field_with_limit(
    packages: Vec<BasicPackageData>,
    field: &str,
    limit_start: u32,
    limit_end: u32,
) -> (r: Result<Vec<String>, DbError>)
    requires
        rank_field_of(field@) == Some(RankField::Popularity) ==> forall|i: int|
            0 <= i < packages@.len() ==> (#[trigger] packages@[i]).wf(),
    ensures
        rank_field_of(field@) matches Some(f) ==> (r matches Ok(ns) && ns@.map_values(
            |s: String| s@,
        ) == names(page(ranked(packages@, f), limit_start as nat, limit_end as nat))),
        rank_field_of(field@) is None ==> (r matches Err(e) && is_unsupported_field(e, field@)),
{
    let f = match RankField::from_name(field) {
        Ok(f) => f,
        Err(e) => {
            return Err(e);
        },
    };
    let sorted = sort_by_order(packages, f, SortOrder::Ranking);
    let ghost window = page(sorted@, limit_start as nat, limit_end as nat);
    let start = limit_start as usize;
    let end = if (limit_end as usize) < sorted.len() {
        limit_end as usize
    } else {
        sorted.len()
    };
    let mut out: Vec<String> = Vec::new();
    if start < end {
        assert(window =~= sorted@.subrange(start as int, end as int));
        let mut i: usize = start;
        while i < end
            invariant
                start <= i <= end,
                end <= sorted@.len(),
                window == sorted@.subrange(start as int, end as int),
                out@.map_values(|s: String| s@) =~= names(window.take(i - start)),
            decreases end - i,
        {
            let ghost prev = out@;
            let name = sorted[i].name.clone();
            out.push(name);
            proof {
                assert(window[i - start] == sorted@[i as int]);
                assert(window.take(i - start + 1) =~= window.take(i - start).push(window[i - start]));
                assert(out@ =~= prev.push(name));
                assert(out@.map_values(|s: String| s@) =~= prev.map_values(|s: String| s@).push(name@));
            }
            i = i + 1;
            assert(out@.map_values(|s: String| s@) =~= names(window.take(i - start)));
        }
        assert(window.take(end - start) =~= window);
    } else {
        assert(window =~= Seq::<BasicPackageData>::empty());
        assert(out@.map_values(|s: String| s@) =~= names(window));
    }
    Ok(out)
}

/// The `number` summaries with the most votes, ranked.
pub fn get_most_voted_pkgs(packages: Vec<BasicPackageData>, number: u32) -> (r: Vec<BasicPackageData>)
    ensures
        r@ == most_voted(packages@, number as nat),
{
    let mut sorted = sort_by_order(packages, RankField::Votes, SortOrder::Ranking);
    if (number as usize) < sorted.len() {
        sorted.truncate(number as usize);
    }
    assert(sorted@ =~= most_voted(packages@, number as nat));
    sorted
}

/// Ranking by votes puts the summaries in non-increasing vote order, and a
/// window from the first place that reaches past the end holds every
/// summary, each as often as the input does.
pub proof fn lemma_vote_ranking_is_ordered(s: Seq<BasicPackageData>, start: nat, end: nat)
    ensures
        forall|i: int, j: int|
            0 <= i <= j < page(ranked(s, RankField::Votes), start, end).len() ==> (#[trigger] page(
                ranked(s, RankField::Votes),
                start,
                end,
            )[i]).votes >= (#[trigger] page(ranked(s, RankField::Votes), start, end)[j]).votes,
        start == 0 && end >= s.len() ==> page(ranked(s, RankField::Votes), start, end).to_multiset()
            =~= s.to_multiset(),
{
    let r = ranked(s, RankField::Votes);
    lemma_ranked_properties(s, RankField::Votes);
    assert forall|i: int| 0 <= i < r.len() - 1 implies (#[trigger] r[i]).votes >= r[i + 1].votes by {
        assert(!ranks_before(r[i + 1], r[i], RankField::Votes));
    }
    assert forall|i: int, j: int| 0 <= i <= j < r.len() implies (#[trigger] r[i]).votes >= (
    #[trigger] r[j]).votes by {
        lemma_votes_descend(r, i, j);
    }
    let p = page(r, start, end);
    assert forall|i: int, j: int| 0 <= i <= j < p.len() implies (#[trigger] p[i]).votes >= (
    #[trigger] p[j]).votes by {
        assert(p[i] == r[i + start] && p[j] == r[j + start]);
        assert(r[i + start].votes >= r[j + start].votes);
    }
    if start == 0 && end >= s.len() {
        if s.len() > 0 {
            assert(p =~= r);
        } else {
            assert(r.len() == 0);
            assert(p =~= r);
        }
    }
}

proof fn lemma_votes_descend(r: Seq<BasicPackageData>, i: int, j: int)
    requires
        0 <= i <= j < r.len(),
        forall|k: int| 0 <= k < r.len() - 1 ==> (#[trigger] r[k]).votes >= r[k + 1].votes,
    ensures
        r[i].votes >= r[j].votes,
    decreases j - i,
{
    if i < j {
        lemma_votes_descend(r, i + 1, j);
        assert(r[i].votes >= r[i + 1].votes);
    }
}

/// The most voted summaries are the first places of the ranking by votes.
pub proof fn lemma_most_voted_is_vote_ranking_prefix(s: Seq<BasicPackageData>, n: nat)
    ensures
        most_voted(s, n) == page(ranked(s, RankField::Votes), 0, n),
        names(most_voted(s, n)) == names(page(ranked(s, RankField::Votes), 0, n)),
{
    let r = ranked(s, RankField::Votes);
    if n == 0 {
        assert(r.take(0) =~= Seq::<BasicPackageData>::empty());
    } else if n <= r.len() {
        assert(r.take(n as int) =~= r.subrange(0, n as int));
    } else {
        if r.len() > 0 {
            assert(r =~= r.subrange(0, r.len() as int));
        } else {
            assert(r =~= Seq::<BasicPackageData>::empty());
        }
    }
}


pub proof fn lemma_seq_cmp_equal(a: Seq<char>, b: Seq<char>)
    ensures
        seq_cmp(a, b) == Ordering::Equal <==> a == b,
    decreases a.len(),
{
    if a.len() == 0 && b.len() == 0 {
        assert(a =~= b);
    }
    if a.len() > 0 && b.len() > 0 && (a[0] as int) == (b[0] as int) {
        assert(a[0] == b[0]);
        lemma_seq_cmp_equal(a.drop_first(), b.drop_first());
        if a.drop_first() == b.drop_first() {
            assert(a =~= seq![a[0]] + a.drop_first());
            assert(b =~= seq![b[0]] + b.drop_first());
        }
    }
    if a == b && a.len() > 0 {
        assert(a.drop_first() == b.drop_first());
        lemma_seq_cmp_equal(a.drop_first(), b.drop_first());
    }
}

pub proof fn lemma_seq_cmp_less_transitive(a: Seq<char>, b: Seq<char>, c: Seq<char>)
    requires
        seq_cmp(a, b) == Ordering::Less,
        seq_cmp(b, c) == Ordering::Less,
    ensures
        seq_cmp(a, c) == Ordering::Less,
    decreases a.len(),
{
    if a.len() > 0 && b.len() > 0 && c.len() > 0 && (a[0] as int) == (b[0] as int) && (b[0] as int)
        == (c[0] as int) {
        lemma_seq_cmp_less_transitive(a.drop_first(), b.drop_first(), c.drop_first());
    }
}

/// Comparing on a field is a total preorder.
pub proof fn lemma_field_cmp_order(a: BasicPackageData, b: BasicPackageData, c: BasicPackageData, f: RankField)
    ensures
        field_cmp(a, b, f) == Ordering::Equal ==> field_cmp(a, c, f) == field_cmp(b, c, f),
        field_cmp(a, b, f) == Ordering::Greater && field_cmp(b, c, f) == Ordering::Greater
            ==> field_cmp(a, c, f) == Ordering::Greater,
        field_cmp(a, b, f) == Ordering::Greater && field_cmp(b, c, f) == Ordering::Equal
            ==> field_cmp(a, c, f) == Ordering::Greater,
        field_cmp(a, b, f) == Ordering::Equal && field_cmp(b, c, f) == Ordering::Greater
            ==> field_cmp(a, c, f) == Ordering::Greater,
{
    lemma_field_cmp_flip(a, b, f);
    lemma_field_cmp_flip(b, c, f);
    lemma_field_cmp_flip(a, c, f);
    match f {
        RankField::Votes => {},
        RankField::Popularity => {
            lemma_decimal_cmp_order(a.popularity@, b.popularity@, c.popularity@);
            lemma_decimal_cmp_order(c.popularity@, b.popularity@, a.popularity@);
            lemma_decimal_cmp_order(b.popularity@, a.popularity@, c.popularity@);
        },
        _ => {
            let (x, y, z) = match f {
                RankField::Name => (a.name@, b.name@, c.name@),
                RankField::Version => (a.version@, b.version@, c.version@),
                RankField::PathToAdditionalData => (
                    a.path_to_additional_data@,
                    b.path_to_additional_data@,
                    c.path_to_additional_data@,
                ),
                RankField::Description => (a.description@, b.description@, c.description@),
                RankField::Maintainer => (a.maintainer@, b.maintainer@, c.maintainer@),
                _ => (a.last_updated@, b.last_updated@, c.last_updated@),
            };
            lemma_seq_cmp_equal(x, y);
            lemma_seq_cmp_equal(y, z);
            lemma_seq_cmp_flip(x, y);
            lemma_seq_cmp_flip(y, z);
            lemma_seq_cmp_flip(x, z);
            if seq_cmp(y, x) == Ordering::Less && seq_cmp(z, y) == Ordering::Less {
                lemma_seq_cmp_less_transitive(z, y, x);
            }
        },
    }
}

/// Being ranked ahead is transitive, and whatever is ranked between two
/// summaries in order leaves them in order: `x` ahead of `p` means that,
/// for any `q`, `x` is ahead of `q` or `q` is ahead of `p`.
pub proof fn lemma_ranks_before_order(x: BasicPackageData, q: BasicPackageData, p: BasicPackageData, f: RankField)
    ensures
        ranks_before(x, q, f) && ranks_before(q, p, f) ==> ranks_before(x, p, f),
        ranks_before(x, p, f) ==> ranks_before(x, q, f) || ranks_before(q, p, f),
{
    lemma_field_cmp_order(x, q, p, f);
    lemma_field_cmp_order(q, x, p, f);
    lemma_field_cmp_flip(x, q, f);
    lemma_field_cmp_flip(q, p, f);
    lemma_field_cmp_flip(x, p, f);
    lemma_seq_cmp_equal(x.name@, q.name@);
    lemma_seq_cmp_equal(q.name@, p.name@);
    lemma_seq_cmp_flip(x.name@, q.name@);
    lemma_seq_cmp_flip(q.name@, p.name@);
    lemma_seq_cmp_flip(x.name@, p.name@);
    if seq_cmp(x.name@, q.name@) == Ordering::Less && seq_cmp(q.name@, p.name@) == Ordering::Less {
        lemma_seq_cmp_less_transitive(x.name@, q.name@, p.name@);
    }
    if seq_cmp(x.name@, p.name@) == Ordering::Less && seq_cmp(p.name@, q.name@) == Ordering::Less {
        lemma_seq_cmp_less_transitive(x.name@, p.name@, q.name@);
    }
    if seq_cmp(q.name@, x.name@) == Ordering::Less && seq_cmp(x.name@, p.name@) == Ordering::Less {
        lemma_seq_cmp_less_transitive(q.name@, x.name@, p.name@);
    }
}


/// Two rankings merged: the head of `q` goes first only when it is ranked
/// ahead of the head of `p`.
pub open spec fn merge_sorted(p: Seq<BasicPackageData>, q: Seq<BasicPackageData>, f: RankField, o: SortOrder) -> Seq<
    BasicPackageData,
>
    decreases p.len() + q.len(),
{
    if p.len() == 0 {
        q
    } else if q.len() == 0 {
        p
    } else if goes_before(q[0], p[0], f, o) {
        seq![q[0]] + merge_sorted(p, q.drop_first(), f, o)
    } else {
        seq![p[0]] + merge_sorted(p.drop_first(), q, f, o)
    }
}

proof fn lemma_insert_is_merge(p: Seq<BasicPackageData>, x: BasicPackageData, f: RankField, o: SortOrder)
    ensures
        insert_sorted(p, x, f, o) == merge_sorted(p, seq![x], f, o),
    decreases p.len(),
{
    let s = seq![x];
    assert(s.drop_first() =~= Seq::<BasicPackageData>::empty());
    if p.len() > 0 {
        assert(merge_sorted(p, s.drop_first(), f, o) == p);
        lemma_insert_is_merge(p.drop_first(), x, f, o);
    }
}

proof fn lemma_insert_into_merge(
    p: Seq<BasicPackageData>,
    q: Seq<BasicPackageData>,
    x: BasicPackageData,
    f: RankField,
    o: SortOrder,
)
    ensures
        insert_sorted(merge_sorted(p, q, f, o), x, f, o) == merge_sorted(p, insert_sorted(q, x, f, o), f, o),
    decreases p.len() + q.len(),
{
    if p.len() == 0 {
    } else if q.len() == 0 {
        lemma_insert_is_merge(p, x, f, o);
    } else {
        let p0 = p[0];
        let q0 = q[0];
        let iq = insert_sorted(q, x, f, o);
        lemma_goes_before_order(x, q0, p0, f, o);
        if goes_before(q0, p0, f, o) {
            let m = merge_sorted(p, q, f, o);
            assert(m == seq![q0] + merge_sorted(p, q.drop_first(), f, o));
            assert((seq![q0] + merge_sorted(p, q.drop_first(), f, o))[0] == q0);
            assert((seq![q0] + merge_sorted(p, q.drop_first(), f, o)).drop_first() =~= merge_sorted(p, q.drop_first(), f, o));
            if goes_before(x, q0, f, o) {
                assert(iq == seq![x] + q);
                assert(iq[0] == x);
                assert(iq.drop_first() =~= q);
            } else {
                lemma_insert_into_merge(p, q.drop_first(), x, f, o);
                assert(iq == seq![q0] + insert_sorted(q.drop_first(), x, f, o));
                assert(iq[0] == q0);
                assert(iq.drop_first() =~= insert_sorted(q.drop_first(), x, f, o));
            }
        } else {
            let m = merge_sorted(p, q, f, o);
            assert(m == seq![p0] + merge_sorted(p.drop_first(), q, f, o));
            assert((seq![p0] + merge_sorted(p.drop_first(), q, f, o))[0] == p0);
            assert((seq![p0] + merge_sorted(p.drop_first(), q, f, o)).drop_first() =~= merge_sorted(p.drop_first(), q, f, o));
            if goes_before(x, q0, f, o) {
                assert(iq == seq![x] + q);
                assert(iq[0] == x);
                assert(iq.drop_first() =~= q);
                if !goes_before(x, p0, f, o) {
                    lemma_insert_into_merge(p.drop_first(), q, x, f, o);
                }
            } else {
                assert(iq == seq![q0] + insert_sorted(q.drop_first(), x, f, o));
                assert(iq[0] == q0);
                assert(iq.drop_first() =~= insert_sorted(q.drop_first(), x, f, o));
                lemma_insert_into_merge(p.drop_first(), q, x, f, o);
            }
        }
    }
}

/// The ranking of two parts put together is the merge of their rankings.
pub proof fn lemma_sorted_split(a: Seq<BasicPackageData>, b: Seq<BasicPackageData>, f: RankField, o: SortOrder)
    ensures
        sorted_by(a + b, f, o) == merge_sorted(sorted_by(a, f, o), sorted_by(b, f, o), f, o),
    decreases b.len(),
{
    if b.len() == 0 {
        assert(a + b =~= a);
    } else {
        let b1 = b.drop_last();
        assert((a + b).drop_last() =~= a + b1);
        assert((a + b).last() == b.last());
        lemma_sorted_split(a, b1, f, o);
        lemma_insert_into_merge(sorted_by(a, f, o), sorted_by(b1, f, o), b.last(), f, o);
    }
}

proof fn lemma_sorted_wf(s: Seq<BasicPackageData>, f: RankField, o: SortOrder)
    requires
        forall|i: int| 0 <= i < s.len() ==> fits_field(#[trigger] s[i], f),
    ensures
        forall|i: int| 0 <= i < sorted_by(s, f, o).len() ==> fits_field(#[trigger] sorted_by(s, f, o)[i], f),
{
    broadcast use vstd::seq_lib::group_to_multiset_ensures;

    lemma_sorted_properties(s, f, o);
    let r = sorted_by(s, f, o);
    assert forall|i: int| 0 <= i < r.len() implies fits_field(#[trigger] r[i], f) by {
        assert(r.contains(r[i]));
        assert(r.to_multiset().count(r[i]) > 0);
        assert(s.contains(r[i]));
    }
}

fn merge_deques(p: VecDeque<BasicPackageData>, q: VecDeque<BasicPackageData>, f: RankField, o: SortOrder) -> (r:
    VecDeque<BasicPackageData>)
    requires
        forall|i: int| 0 <= i < p@.len() ==> fits_field(#[trigger] p@[i], f),
        forall|i: int| 0 <= i < q@.len() ==> fits_field(#[trigger] q@[i], f),
    ensures
        r@ == merge_sorted(p@, q@, f, o),
{
    let ghost target = merge_sorted(p@, q@, f, o);
    let mut p = p;
    let mut q = q;
    let mut out: VecDeque<BasicPackageData> = VecDeque::new();
    assert(out@ + merge_sorted(p@, q@, f, o) =~= target);
    while p.len() > 0 && q.len() > 0
        invariant
            out@ + merge_sorted(p@, q@, f, o) == target,
            forall|i: int| 0 <= i < p@.len() ==> fits_field(#[trigger] p@[i], f),
            forall|i: int| 0 <= i < q@.len() ==> fits_field(#[trigger] q@[i], f),
        decreases p@.len() + q@.len(),
    {
        let ghost (p0, q0) = (p@, q@);
        if goes_before_exec(&q[0], &p[0], f, o) {
            match q.pop_front() {
                Some(x) => {
                    out.push_back(x);
                },
                None => {},
            }
            assert(q@ =~= q0.drop_first());
        } else {
            match p.pop_front() {
                Some(x) => {
                    out.push_back(x);
                },
                None => {},
            }
            assert(p@ =~= p0.drop_first());
        }
        assert forall|i: int| 0 <= i < p@.len() implies fits_field(#[trigger] p@[i], f) by {
            if p@.len() < p0.len() {
                assert(p@[i] == p0[i + 1]);
            }
        }
        assert forall|i: int| 0 <= i < q@.len() implies fits_field(#[trigger] q@[i], f) by {
            if q@.len() < q0.len() {
                assert(q@[i] == q0[i + 1]);
            }
        }
    }
    let ghost (p1, q1) = (p@, q@);
    out.append(&mut p);
    out.append(&mut q);
    assert(out@ =~= target);
    out
}

fn merge_sort(v: VecDeque<BasicPackageData>, f: RankField, o: SortOrder) -> (r: VecDeque<BasicPackageData>)
    requires
        forall|i: int| 0 <= i < v@.len() ==> fits_field(#[trigger] v@[i], f),
    ensures
        r@ == sorted_by(v@, f, o),
    decreases v@.len(),
{
    if v.len() <= 1 {
        proof {
            if v@.len() == 1 {
                assert(v@.drop_last() =~= Seq::<BasicPackageData>::empty());
                assert(sorted_by(v@.drop_last(), f, o) == Seq::<BasicPackageData>::empty());
                assert(seq![v@.last()] =~= v@);
            } else {
                assert(v@ =~= Seq::<BasicPackageData>::empty());
            }
        }
        return v;
    }
    let ghost whole = v@;
    let mut a = v;
    let mid = a.len() / 2;
    let b = a.split_off(mid);
    assert(a@ + b@ =~= whole);
    assert forall|i: int| 0 <= i < a@.len() implies fits_field(#[trigger] a@[i], f) by {
        assert(a@[i] == whole[i]);
    }
    assert forall|i: int| 0 <= i < b@.len() implies fits_field(#[trigger] b@[i], f) by {
        assert(b@[i] == whole[i + a@.len()]);
    }
    let ghost (a0, b0) = (a@, b@);
    let ra = merge_sort(a, f, o);
    let rb = merge_sort(b, f, o);
    proof {
        lemma_sorted_split(a0, b0, f, o);
        lemma_sorted_wf(a0, f, o);
        lemma_sorted_wf(b0, f, o);
    }
    merge_deques(ra, rb, f, o)
}


/// A sorted sequence is ordered throughout: no summary goes before one
/// that comes before it, whatever the field and the order.
pub proof fn lemma_sorted_is_ordered(s: Seq<BasicPackageData>, f: RankField, o: SortOrder)
    ensures
        forall|i: int, j: int|
            0 <= i < j < sorted_by(s, f, o).len() ==> !goes_before(
                #[trigger] sorted_by(s, f, o)[j],
                #[trigger] sorted_by(s, f, o)[i],
                f,
                o,
            ),
{
    lemma_sorted_properties(s, f, o);
    let r = sorted_by(s, f, o);
    assert forall|i: int, j: int| 0 <= i < j < r.len() implies !goes_before(
        #[trigger] r[j],
        #[trigger] r[i],
        f,
        o,
    ) by {
        lemma_ordered_from_adjacent(r, i, j, f, o);
    }
}

proof fn lemma_ordered_from_adjacent(r: Seq<BasicPackageData>, i: int, j: int, f: RankField, o: SortOrder)
    requires
        is_sorted_by(r, f, o),
        0 <= i < j < r.len(),
    ensures
        !goes_before(r[j], r[i], f, o),
    decreases j - i,
{
    assert(!goes_before(r[i + 1], r[i], f, o));
    if i + 1 < j {
        lemma_ordered_from_adjacent(r, i + 1, j, f, o);
        lemma_goes_before_order(r[j], r[i + 1], r[i], f, o);
    }
}


/// When no two summaries share a vote count, ranking by votes orders them
/// strictly: each has more votes than every one after it.
pub proof fn lemma_distinct_votes_rank_strictly(s: Seq<BasicPackageData>)
    requires
        forall|i: int, j: int| 0 <= i < j < s.len() ==> (#[trigger] s[i]).votes != (#[trigger] s[j]).votes,
    ensures
        forall|i: int, j: int|
            0 <= i < j < ranked(s, RankField::Votes).len() ==> (#[trigger] ranked(s, RankField::Votes)[i]).votes
                > (#[trigger] ranked(s, RankField::Votes)[j]).votes,
{
    broadcast use vstd::seq_lib::group_to_multiset_ensures;

    let r = ranked(s, RankField::Votes);
    lemma_ranked_properties(s, RankField::Votes);
    lemma_vote_ranking_is_ordered(s, 0, r.len());
    assert(page(r, 0, r.len()) == r) by {
        if r.len() > 0 {
            assert(r.subrange(0, r.len() as int) =~= r);
        }
    }
    assert(s.no_duplicates()) by {
        assert forall|i: int, j: int| 0 <= i < s.len() && 0 <= j < s.len() && i != j implies s[i] != s[j] by {
            if i < j {
                assert(s[i].votes != s[j].votes);
            } else {
                assert(s[j].votes != s[i].votes);
            }
        }
    }
    s.lemma_multiset_has_no_duplicates();
    r.lemma_multiset_has_no_duplicates_conv();
    assert forall|i: int, j: int| 0 <= i < j < r.len() implies (#[trigger] r[i]).votes > (#[trigger] r[j]).votes by {
        assert(r[i].votes >= r[j].votes);
        assert(r[i] != r[j]);
        assert(r.contains(r[i]) && r.contains(r[j]));
        assert(r.to_multiset().count(r[i]) > 0 && r.to_multiset().count(r[j]) > 0);
        assert(s.to_multiset().count(r[i]) > 0 && s.to_multiset().count(r[j]) > 0);
        assert(s.contains(r[i]) && s.contains(r[j]));
        let a = choose|a: int| 0 <= a < s.len() && s[a] == r[i];
        let b = choose|b: int| 0 <= b < s.len() && s[b] == r[j];
        assert(a != b);
        if a < b {
            assert(s[a].votes != s[b].votes);
        } else {
            assert(s[b].votes != s[a].votes);
        }
    }
}

} // verus!
