//! The query evaluator: turns one data-query specification into a concrete
//! filtered, sorted, limited list of records, or a single record when the
//! query asks for the first or last one.

use crate::config::ConfigDataDSL;
use crate::record::{views_of, Record, RecordView, Value, ValueView};
use crate::utils::{lex_lt, str_eq, str_lex_lt};
use crate::Error;
use vstd::prelude::*;

verus! {

/// Whether the regular expression `pattern` compiles. Compilation success
/// depends on the pattern alone.
pub uninterp spec fn regex_ok(pattern: Seq<char>) -> bool;

/// Whether `text` matches the regular expression `pattern`, for a pattern
/// that compiles. The result depends on pattern and text alone.
pub uninterp spec fn regex_match(pattern: Seq<char>, text: Seq<char>) -> bool;

/// Relies on regex::Regex::new: whether a pattern is a valid regular
/// expression depends only on the pattern.
#[verifier::external_body]
fn regex_compiles(pattern: &str) -> (r: bool)
    ensures
        r == regex_ok(pattern@),
{
    regex::Regex::new(pattern).is_ok()
}

/// Relies on regex::Regex::is_match: whether a haystack matches a compiled
/// pattern depends only on pattern and haystack.
#[verifier::external_body]
fn regex_is_match(pattern: &str, text: &str) -> (r: bool)
    requires
        regex_ok(pattern@),
    ensures
        r == regex_match(pattern@, text@),
{
    match regex::Regex::new(pattern) {
        Ok(re) => re.is_match(text),
        Err(_) => false,
    }
}

/// One filter condition over a record's fields. Conditions within one query
/// compose conjunctively.
pub enum Predicate {
    /// The field is a string equal to `equals`.
    Is { key: String, equals: String },
    /// The field is a string different from `equals`.
    IsNot { key: String, equals: String },
    /// The record has the field.
    Has { key: String },
    /// The record has no such field.
    HasNot { key: String },
    /// The field is a string matching the regular expression `regex`.
    MatchesRegex { key: String, regex: String },
}

/// The mathematical model of a `Predicate`.
pub enum PredicateView {
    Is { key: Seq<char>, equals: Seq<char> },
    IsNot { key: Seq<char>, equals: Seq<char> },
    Has { key: Seq<char> },
    HasNot { key: Seq<char> },
    MatchesRegex { key: Seq<char>, regex: Seq<char> },
}

impl View for Predicate {
    type V = PredicateView;

    open spec fn view(&self) -> PredicateView {
        match self {
            Predicate::Is { key, equals } => PredicateView::Is { key: key@, equals: equals@ },
            Predicate::IsNot { key, equals } => PredicateView::IsNot {
                key: key@,
                equals: equals@,
            },
            Predicate::Has { key } => PredicateView::Has { key: key@ },
            Predicate::HasNot { key } => PredicateView::HasNot { key: key@ },
            Predicate::MatchesRegex { key, regex } => PredicateView::MatchesRegex {
                key: key@,
                regex: regex@,
            },
        }
    }
}

/// Whether the predicate can be evaluated: a regular-expression predicate
/// needs a pattern that compiles, every other kind always can be.
pub open spec fn pred_ok(p: PredicateView) -> bool {
    match p {
        PredicateView::MatchesRegex { regex, .. } => regex_ok(regex),
        _ => true,
    }
}

/// Whether the record satisfies the predicate. Equality, inequality and
/// regular-expression predicates only ever accept string fields.
pub open spec fn pred_matches(r: RecordView, p: PredicateView) -> bool {
    match p {
        PredicateView::Is { key, equals } => r.get(key) matches Some(ValueView::Str(s)) && s
            == equals,
        PredicateView::IsNot { key, equals } => r.get(key) matches Some(ValueView::Str(s)) && s
            != equals,
        PredicateView::Has { key } => r.get(key) is Some,
        PredicateView::HasNot { key } => r.get(key) is None,
        PredicateView::MatchesRegex { key, regex } => r.get(key) matches Some(ValueView::Str(s))
            && regex_match(regex, s),
    }
}

/// The records of `s` that satisfy `p`, in their order in `s`.
pub open spec fn spec_keep(s: Seq<RecordView>, p: PredicateView) -> Seq<RecordView>
    decreases s.len(),
{
    if s.len() == 0 {
        s
    } else if pred_matches(s[0], p) {
        seq![s[0]] + spec_keep(s.drop_first(), p)
    } else {
        spec_keep(s.drop_first(), p)
    }
}

/// The predicates applied one after the other, in the order given.
pub open spec fn spec_apply(s: Seq<RecordView>, ps: Seq<PredicateView>) -> Seq<RecordView>
    decreases ps.len(),
{
    if ps.len() == 0 {
        s
    } else {
        spec_apply(spec_keep(s, ps[0]), ps.drop_first())
    }
}

/// Whether the record satisfies every predicate of `ps`.
pub open spec fn matches_all(r: RecordView, ps: Seq<PredicateView>) -> bool {
    forall|i: int| 0 <= i < ps.len() ==> pred_matches(r, ps[i])
}

/// The records of `s` that satisfy every predicate of `ps`: the intersection
/// of the per-predicate matches, in store order.
pub open spec fn spec_keep_all(s: Seq<RecordView>, ps: Seq<PredicateView>) -> Seq<RecordView>
    decreases s.len(),
{
    if s.len() == 0 {
        s
    } else if matches_all(s[0], ps) {
        seq![s[0]] + spec_keep_all(s.drop_first(), ps)
    } else {
        spec_keep_all(s.drop_first(), ps)
    }
}

/// The sort key of a record under `key`: the field's number or string, or
/// `Unsortable` when the field is missing or holds nothing comparable.
pub enum SortClass {
    Num(nat),
    Str(Seq<char>),
    Unsortable,
}

/// Sort groups: numbers order before strings, and records whose field is
/// missing or not comparable come after both, in both directions.
pub open spec fn rank(c: SortClass) -> int {
    match c {
        SortClass::Num(_) => 0,
        SortClass::Str(_) => 1,
        SortClass::Unsortable => 2,
    }
}

/// The sort key of `r` under `key`.
pub open spec fn sort_class(r: RecordView, key: Seq<char>) -> SortClass {
    match r.get(key) {
        Some(ValueView::Num(n)) => SortClass::Num(n),
        Some(ValueView::Str(s)) => SortClass::Str(s),
        _ => SortClass::Unsortable,
    }
}

/// Whether a record of sort key `a` must come strictly before one of sort
/// key `b`: a lower group first; within the number and string groups the
/// field values decide, ascending or descending. Equal keys never order.
pub open spec fn class_lt(a: SortClass, b: SortClass, asc: bool) -> bool {
    rank(a) < rank(b) || (match (a, b) {
        (SortClass::Num(x), SortClass::Num(y)) => if asc {
            x < y
        } else {
            y < x
        },
        (SortClass::Str(x), SortClass::Str(y)) => if asc {
            lex_lt(x, y)
        } else {
            lex_lt(y, x)
        },
        _ => false,
    })
}

/// Whether `a` must come strictly before `b` when sorting on `key`.
pub open spec fn rec_lt(a: RecordView, b: RecordView, key: Seq<char>, asc: bool) -> bool {
    class_lt(sort_class(a, key), sort_class(b, key), asc)
}

/// `x` inserted into `s` after every record that must come before it and
/// before everything else, so that records with equal sort keys keep their
/// order of arrival.
pub open spec fn spec_insert(
    x: RecordView,
    s: Seq<RecordView>,
    key: Seq<char>,
    asc: bool,
) -> Seq<RecordView>
    decreases s.len(),
{
    if s.len() == 0 {
        seq![x]
    } else if rec_lt(s[0], x, key, asc) {
        seq![s[0]] + spec_insert(x, s.drop_first(), key, asc)
    } else {
        seq![x] + s
    }
}

/// Stable insertion sort of `s` on the field `key`.
pub open spec fn spec_sort(s: Seq<RecordView>, key: Seq<char>, asc: bool) -> Seq<RecordView>
    decreases s.len(),
{
    if s.len() == 0 {
        s
    } else {
        spec_insert(s[0], spec_sort(s.drop_first(), key, asc), key, asc)
    }
}

/// The sort group of `r` under `key`.
fn sort_rank(r: &Record, key: &str) -> (res: u8)
    ensures
        res as int == rank(sort_class(r@, key@)),
{
    match r.get(key) {
        Some(Value::Num(_)) => 0,
        Some(Value::Str(_)) => 1,
        _ => 2,
    }
}

/// Whether `a` must come strictly before `b` when sorting on `key`.
fn rec_lt_exec(a: &Record, b: &Record, key: &str, asc: bool) -> (res: bool)
    ensures
        res == rec_lt(a@, b@, key@, asc),
{
    let ra = sort_rank(a, key);
    let rb = sort_rank(b, key);
    if ra < rb {
        true
    } else if rb < ra {
        false
    } else {
        match (a.get(key), b.get(key)) {
            (Some(Value::Num(x)), Some(Value::Num(y))) => if asc {
                *x < *y
            } else {
                *y < *x
            },
            (Some(Value::Str(x)), Some(Value::Str(y))) => if asc {
                str_lex_lt(x.as_str(), y.as_str())
            } else {
                str_lex_lt(y.as_str(), x.as_str())
            },
            _ => false,
        }
    }
}

/// Inserts `x` into the already sorted `sorted`, after every record that
/// must come before it.
fn insert_sorted(x: Record, sorted: Vec<Record>, key: &str, asc: bool) -> (r: Vec<Record>)
    ensures
        views_of(r@) == spec_insert(x@, views_of(sorted@), key@, asc),
    decreases sorted@.len(),
{
    let mut sorted = sorted;
    if sorted.len() == 0 {
        sorted.push(x);
        proof {
            assert(views_of(sorted@) =~= seq![x@]);
        }
        sorted
    } else {
        let ghost orig = views_of(sorted@);
        if rec_lt_exec(&sorted[0], &x, key, asc) {
            let head = sorted.remove(0);
            proof {
                assert(views_of(sorted@) =~= orig.drop_first());
                assert(orig[0] == head@);
            }
            let mut rest = insert_sorted(x, sorted, key, asc);
            rest.insert(0, head);
            proof {
                assert(views_of(rest@) =~= seq![head@] + spec_insert(
                    x@,
                    orig.drop_first(),
                    key@,
                    asc,
                ));
            }
            rest
        } else {
            sorted.insert(0, x);
            proof {
                assert(views_of(sorted@) =~= seq![x@] + orig);
            }
            sorted
        }
    }
}

/// Stable insertion sort of `v` on the field `key`: records with equal sort
/// keys keep their relative order.
pub fn sort_records(v: Vec<Record>, key: &str, asc: bool) -> (r: Vec<Record>)
    ensures
        views_of(r@) == spec_sort(views_of(v@), key@, asc),
    decreases v@.len(),
{
    let mut v = v;
    if v.len() == 0 {
        v
    } else {
        let ghost orig = views_of(v@);
        let first = v.remove(0);
        proof {
            assert(views_of(v@) =~= orig.drop_first());
            assert(orig[0] == first@);
        }
        let rest = sort_records(v, key, asc);
        insert_sorted(first, rest, key, asc)
    }
}

/// Whether the record satisfies the predicate.
fn matches_exec(r: &Record, p: &Predicate) -> (res: bool)
    requires
        pred_ok(p@),
    ensures
        res == pred_matches(r@, p@),
{
    match p {
        Predicate::Is { key, equals } => match r.get(key.as_str()) {
            Some(Value::Str(s)) => str_eq(s.as_str(), equals.as_str()),
            _ => false,
        },
        Predicate::IsNot { key, equals } => match r.get(key.as_str()) {
            Some(Value::Str(s)) => !str_eq(s.as_str(), equals.as_str()),
            _ => false,
        },
        Predicate::Has { key } => r.get(key.as_str()).is_some(),
        Predicate::HasNot { key } => r.get(key.as_str()).is_none(),
        Predicate::MatchesRegex { key, regex } => match r.get(key.as_str()) {
            Some(Value::Str(s)) => regex_is_match(regex.as_str(), s.as_str()),
            _ => false,
        },
    }
}

/// What a data query binds: the whole result list, or — under `first` or
/// `last` — a single record, with `None` as the defined "no record" signal
/// for an empty result.
#[derive(Debug, PartialEq, Eq)]
pub enum Binding {
    Many(Vec<Record>),
    One(Option<Record>),
}

/// The mathematical model of a `Binding`.
pub enum BindingView {
    Many(Seq<RecordView>),
    One(Option<RecordView>),
}

impl View for Binding {
    type V = BindingView;

    open spec fn view(&self) -> BindingView {
        match self {
            Binding::Many(v) => BindingView::Many(views_of(v@)),
            Binding::One(Some(r)) => BindingView::One(Some(r@)),
            Binding::One(None) => BindingView::One(None),
        }
    }
}

impl Clone for Binding {
    fn clone(&self) -> (r: Binding)
        ensures
            r@ == self@,
    {
        match self {
            Binding::Many(v) => Binding::Many(crate::record::clone_records(v)),
            Binding::One(Some(rec)) => Binding::One(Some(rec.clone())),
            Binding::One(None) => Binding::One(None),
        }
    }
}

impl ConfigDataDSL {
    /// The query's filter conditions in their fixed order of application:
    /// equals, not-equals, has, has-not, matches-regex.
    pub open spec fn spec_preds(self) -> Seq<PredicateView> {
        let s0 = Seq::<PredicateView>::empty();
        let s1 = if self.when_is is Some {
            s0.push(
                PredicateView::Is {
                    key: self.when_is->Some_0.key@,
                    equals: self.when_is->Some_0.equals@,
                },
            )
        } else {
            s0
        };
        let s2 = if self.when_is_not is Some {
            s1.push(
                PredicateView::IsNot {
                    key: self.when_is_not->Some_0.key@,
                    equals: self.when_is_not->Some_0.equals@,
                },
            )
        } else {
            s1
        };
        let s3 = if self.when_has is Some {
            s2.push(PredicateView::Has { key: self.when_has->Some_0.key@ })
        } else {
            s2
        };
        let s4 = if self.when_has_not is Some {
            s3.push(PredicateView::HasNot { key: self.when_has_not->Some_0.key@ })
        } else {
            s3
        };
        if self.when_matches is Some {
            s4.push(
                PredicateView::MatchesRegex {
                    key: self.when_matches->Some_0.key@,
                    regex: self.when_matches->Some_0.regex@,
                },
            )
        } else {
            s4
        }
    }

    /// Whether the query's regular-expression pattern, if any, compiles.
    pub open spec fn pattern_ok(self) -> bool {
        self.when_matches is Some ==> regex_ok(self.when_matches->Some_0.regex@)
    }

    /// Whether the query sorts ascending: any order word but `"desc"` does.
    pub open spec fn spec_asc(self) -> bool {
        !(self.sort->Some_0.order@ == "desc"@)
    }
}

/// The first `l` records when `l` is below the length, all of them
/// otherwise.
pub open spec fn spec_limit(s: Seq<RecordView>, l: nat) -> Seq<RecordView> {
    if l < s.len() {
        s.take(l as int)
    } else {
        s
    }
}

/// The record list a query selects: the filters in their fixed order, then
/// the sort, then the limit, each only when present.
pub open spec fn spec_eval_records(s: Seq<RecordView>, q: ConfigDataDSL) -> Seq<RecordView> {
    let filtered = spec_apply(s, q.spec_preds());
    let sorted = if q.sort is Some {
        spec_sort(filtered, q.sort->Some_0.key@, q.spec_asc())
    } else {
        filtered
    };
    if q.limit is Some {
        spec_limit(sorted, q.limit->Some_0 as nat)
    } else {
        sorted
    }
}

/// What a query binds: its record list, reduced to the head or the tail
/// record when `first` or `last` is present (`first` wins over `last`), with
/// `None` for an empty list.
pub open spec fn spec_eval_query(s: Seq<RecordView>, q: ConfigDataDSL) -> BindingView {
    let recs = spec_eval_records(s, q);
    if q.first is Some {
        BindingView::One(
            if recs.len() == 0 {
                None
            } else {
                Some(recs[0])
            },
        )
    } else if q.last is Some {
        BindingView::One(
            if recs.len() == 0 {
                None
            } else {
                Some(recs.last())
            },
        )
    } else {
        BindingView::Many(recs)
    }
}

/// The query's filter conditions, in their fixed order of application.
fn preds_of(q: &ConfigDataDSL) -> (r: Vec<Predicate>)
    ensures
        r@.map_values(|p: Predicate| p@) == q.spec_preds(),
{
    let mut out: Vec<Predicate> = Vec::new();
    if let Some(w) = &q.when_is {
        out.push(Predicate::Is { key: w.key.clone(), equals: w.equals.clone() });
    }
    if let Some(w) = &q.when_is_not {
        out.push(Predicate::IsNot { key: w.key.clone(), equals: w.equals.clone() });
    }
    if let Some(w) = &q.when_has {
        out.push(Predicate::Has { key: w.key.clone() });
    }
    if let Some(w) = &q.when_has_not {
        out.push(Predicate::HasNot { key: w.key.clone() });
    }
    if let Some(w) = &q.when_matches {
        out.push(Predicate::MatchesRegex { key: w.key.clone(), regex: w.regex.clone() });
    }
    proof {
        assert(out@.map_values(|p: Predicate| p@) =~= q.spec_preds());
    }
    out
}

/// Evaluates one data query over the records of its collection, handed in
/// store order. Fails exactly when the query has a `when_matches` whose
/// pattern is no valid regular expression.
pub fn evaluate_query(records: Vec<Record>, q: &ConfigDataDSL) -> (r: Result<Binding, Error>)
    ensures
        r is Ok <==> q.pattern_ok(),
        r matches Ok(b) ==> b@ == spec_eval_query(views_of(records@), *q),
        r matches Err(e) ==> e matches Error::Pattern(p) && q.when_matches matches Some(w) && p@
            == w.regex@,
{
    if let Some(w) = &q.when_matches {
        if !regex_compiles(w.regex.as_str()) {
            return Err(Error::Pattern(w.regex.clone()));
        }
    }
    let preds = preds_of(q);
    let ghost pviews = q.spec_preds();
    let mut cur = records;
    let n = preds.len();
    let mut i: usize = 0;
    proof {
        assert(pviews.skip(0) =~= pviews);
        assert(forall|j: int| 0 <= j < n ==> pviews[j] == (#[trigger] preds@[j])@);
        assert(forall|j: int| 0 <= j < n ==> pred_ok(#[trigger] pviews[j]));
    }
    while i < n
        invariant
            i <= n,
            n == preds@.len(),
            pviews == preds@.map_values(|p: Predicate| p@),
            pviews.len() == n,
            forall|j: int| 0 <= j < n ==> pred_ok(#[trigger] preds@[j]@),
            spec_apply(views_of(cur@), pviews.skip(i as int)) == spec_apply(
                views_of(records@),
                pviews,
            ),
        decreases n - i,
    {
        proof {
            assert(pviews.skip(i as int)[0] == pviews[i as int]);
            assert(pviews[i as int] == preds@[i as int]@);
            assert(pviews.skip(i as int).drop_first() =~= pviews.skip(i as int + 1));
        }
        cur = filter_records(cur, &preds[i]);
        i += 1;
    }
    proof {
        assert(pviews.skip(n as int) =~= Seq::<PredicateView>::empty());
        assert(views_of(cur@) == spec_apply(views_of(records@), pviews));
    }
    let ghost filtered = views_of(cur@);
    let mut cur = if let Some(st) = &q.sort {
        let asc = !str_eq(st.order.as_str(), "desc");
        sort_records(cur, st.key.as_str(), asc)
    } else {
        cur
    };
    let ghost sorted = views_of(cur@);
    if let Some(l) = &q.limit {
        cur.truncate(*l);
        proof {
            assert(views_of(cur@) =~= spec_limit(sorted, *l as nat));
        }
    }
    proof {
        assert(views_of(cur@) == spec_eval_records(views_of(records@), *q));
    }
    let ghost selected = views_of(cur@);
    if q.first.is_some() {
        if cur.len() == 0 {
            Ok(Binding::One(None))
        } else {
            let mut cur = cur;
            let head = cur.remove(0);
            proof {
                assert(selected[0] == head@);
            }
            Ok(Binding::One(Some(head)))
        }
    } else if q.last.is_some() {
        let mut cur = cur;
        let tail = cur.pop();
        proof {
            if selected.len() > 0 {
                assert(selected.last() == views_of(cur@).push(tail->Some_0@).last());
            }
        }
        Ok(Binding::One(tail))
    } else {
        Ok(Binding::Many(cur))
    }
}

/// Satisfying a predicate list with one more predicate at its head is
/// satisfying the head and the rest.
proof fn lemma_matches_all_cons(r: RecordView, p: PredicateView, ps: Seq<PredicateView>)
    ensures
        matches_all(r, seq![p] + ps) == (pred_matches(r, p) && matches_all(r, ps)),
{
    let c = seq![p] + ps;
    assert(c[0] == p);
    if matches_all(r, c) {
        assert forall|i: int| 0 <= i < ps.len() implies pred_matches(r, ps[i]) by {
            assert(pred_matches(r, c[i + 1]));
        }
    }
    if pred_matches(r, p) && matches_all(r, ps) {
        assert forall|i: int| 0 <= i < c.len() implies pred_matches(r, c[i]) by {
            if i > 0 {
                assert(c[i] == ps[i - 1]);
            }
        }
    }
}

/// Every record satisfies the empty predicate list, so filtering by it
/// keeps everything.
proof fn lemma_keep_all_nil(s: Seq<RecordView>)
    ensures
        spec_keep_all(s, Seq::<PredicateView>::empty()) == s,
    decreases s.len(),
{
    if s.len() > 0 {
        lemma_keep_all_nil(s.drop_first());
        assert(seq![s[0]] + s.drop_first() =~= s);
    }
}

/// One filter pass followed by the intersection of the remaining predicates
/// is the intersection of all of them.
proof fn lemma_keep_all_after_keep(s: Seq<RecordView>, p: PredicateView, ps: Seq<PredicateView>)
    ensures
        spec_keep_all(spec_keep(s, p), ps) == spec_keep_all(s, seq![p] + ps),
    decreases s.len(),
{
    if s.len() > 0 {
        let r0 = s[0];
        let rest = s.drop_first();
        lemma_keep_all_after_keep(rest, p, ps);
        lemma_matches_all_cons(r0, p, ps);
        if pred_matches(r0, p) {
            let kept = seq![r0] + spec_keep(rest, p);
            assert(kept[0] == r0);
            assert(kept.drop_first() =~= spec_keep(rest, p));
            if matches_all(r0, ps) {
                assert(spec_keep_all(kept, ps) == seq![r0] + spec_keep_all(spec_keep(rest, p), ps));
            }
        }
    }
}

/// The filtered result is the intersection of the per-predicate matches:
/// applying the predicates one after the other keeps exactly the records
/// that satisfy every one of them, in store order.
pub proof fn lemma_filters_intersect(s: Seq<RecordView>, ps: Seq<PredicateView>)
    ensures
        spec_apply(s, ps) == spec_keep_all(s, ps),
    decreases ps.len(),
{
    if ps.len() == 0 {
        lemma_keep_all_nil(s);
        assert(ps =~= Seq::<PredicateView>::empty());
    } else {
        lemma_filters_intersect(spec_keep(s, ps[0]), ps.drop_first());
        lemma_keep_all_after_keep(s, ps[0], ps.drop_first());
        assert(seq![ps[0]] + ps.drop_first() =~= ps);
        assert(spec_apply(s, ps) == spec_apply(spec_keep(s, ps[0]), ps.drop_first()));
    }
}

/// A record satisfies every predicate of a list exactly when it satisfies
/// every predicate the list contains.
proof fn lemma_matches_all_contains(r: RecordView, ps: Seq<PredicateView>)
    ensures
        matches_all(r, ps) == (forall|p: PredicateView| ps.contains(p) ==> pred_matches(r, p)),
{
    if matches_all(r, ps) {
        assert forall|p: PredicateView| ps.contains(p) implies pred_matches(r, p) by {
            let i = choose|i: int| 0 <= i < ps.len() && ps[i] == p;
            assert(pred_matches(r, ps[i]));
        }
    }
    if forall|p: PredicateView| ps.contains(p) ==> pred_matches(r, p) {
        assert forall|i: int| 0 <= i < ps.len() implies pred_matches(r, ps[i]) by {
            assert(ps.contains(ps[i]));
        }
    }
}

/// Two predicate lists that every record answers alike filter alike.
proof fn lemma_keep_all_congruent(
    s: Seq<RecordView>,
    ps1: Seq<PredicateView>,
    ps2: Seq<PredicateView>,
)
    requires
        forall|r: RecordView| matches_all(r, ps1) == matches_all(r, ps2),
    ensures
        spec_keep_all(s, ps1) == spec_keep_all(s, ps2),
    decreases s.len(),
{
    if s.len() > 0 {
        lemma_keep_all_congruent(s.drop_first(), ps1, ps2);
    }
}

/// Evaluating the predicates in any order yields the same final set: two
/// predicate lists holding the same predicates select the same records.
pub proof fn lemma_filter_order_irrelevant(
    s: Seq<RecordView>,
    ps1: Seq<PredicateView>,
    ps2: Seq<PredicateView>,
)
    requires
        forall|p: PredicateView| ps1.contains(p) <==> ps2.contains(p),
    ensures
        spec_apply(s, ps1) == spec_apply(s, ps2),
{
    lemma_filters_intersect(s, ps1);
    lemma_filters_intersect(s, ps2);
    assert forall|r: RecordView| matches_all(r, ps1) == matches_all(r, ps2) by {
        lemma_matches_all_contains(r, ps1);
        lemma_matches_all_contains(r, ps2);
    }
    lemma_keep_all_congruent(s, ps1, ps2);
}

/// The records of `s` whose sort key under `key` is `c`, in their order in
/// `s`.
pub open spec fn class_filter(s: Seq<RecordView>, key: Seq<char>, c: SortClass) -> Seq<RecordView>
    decreases s.len(),
{
    if s.len() == 0 {
        s
    } else if sort_class(s[0], key) == c {
        seq![s[0]] + class_filter(s.drop_first(), key, c)
    } else {
        class_filter(s.drop_first(), key, c)
    }
}

/// One unfolding step of `class_filter` on a non-empty sequence.
proof fn lemma_class_filter_cons(s: Seq<RecordView>, key: Seq<char>, c: SortClass)
    requires
        s.len() > 0,
    ensures
        class_filter(s, key, c) == if sort_class(s[0], key) == c {
            seq![s[0]] + class_filter(s.drop_first(), key, c)
        } else {
            class_filter(s.drop_first(), key, c)
        },
{
}

/// No sort key must come strictly before itself, so records with equal sort
/// keys never reorder.
proof fn lemma_class_lt_irrefl(c: SortClass, asc: bool)
    ensures
        !class_lt(c, c, asc),
{
    match c {
        SortClass::Str(x) => {
            crate::utils::lemma_lex_lt_irrefl(x);
        },
        _ => {},
    }
}

/// Inserting a record touches only its own sort-key group: it lands in
/// front of that group's remainder, and every other group is unchanged.
proof fn lemma_insert_filter(
    x: RecordView,
    s: Seq<RecordView>,
    key: Seq<char>,
    asc: bool,
    c: SortClass,
)
    ensures
        class_filter(spec_insert(x, s, key, asc), key, c) == if sort_class(x, key) == c {
            seq![x] + class_filter(s, key, c)
        } else {
            class_filter(s, key, c)
        },
    decreases s.len(),
{
    lemma_class_lt_irrefl(sort_class(x, key), asc);
    if s.len() == 0 {
        let ins = seq![x];
        assert(ins[0] == x);
        assert(ins.drop_first() =~= Seq::<RecordView>::empty());
        lemma_class_filter_cons(ins, key, c);
        assert(class_filter(ins.drop_first(), key, c) == ins.drop_first());
        if sort_class(x, key) == c {
            assert(class_filter(ins, key, c) =~= seq![x] + class_filter(s, key, c));
        } else {
            assert(class_filter(ins, key, c) =~= class_filter(s, key, c));
        }
    } else {
        let r0 = s[0];
        let rest = s.drop_first();
        lemma_class_filter_cons(s, key, c);
        if rec_lt(r0, x, key, asc) {
            lemma_insert_filter(x, rest, key, asc, c);
            let ins = seq![r0] + spec_insert(x, rest, key, asc);
            assert(ins[0] == r0);
            assert(ins.drop_first() =~= spec_insert(x, rest, key, asc));
            assert(spec_insert(x, s, key, asc) == ins);
            lemma_class_filter_cons(ins, key, c);
            if sort_class(x, key) == c {
                // equal sort keys never order, so the head is in another group
                assert(sort_class(r0, key) != c);
            }
        } else {
            let ins = seq![x] + s;
            assert(ins[0] == x);
            assert(ins.drop_first() =~= s);
            lemma_class_filter_cons(ins, key, c);
        }
    }
}

/// Sorting is stable: the records of `s` sharing one sort key under `key`
/// stand in `spec_sort(s, key, asc)` exactly in their order in `s`, for
/// ascending and descending sorts alike. In particular, two records with
/// equal sort-key values keep their relative order from the unsorted
/// collection.
pub proof fn lemma_sort_stable(s: Seq<RecordView>, key: Seq<char>, asc: bool, c: SortClass)
    ensures
        class_filter(spec_sort(s, key, asc), key, c) == class_filter(s, key, c),
    decreases s.len(),
{
    if s.len() > 0 {
        let r0 = s[0];
        let rest = s.drop_first();
        lemma_sort_stable(rest, key, asc, c);
        lemma_insert_filter(r0, spec_sort(rest, key, asc), key, asc, c);
    }
}

/// Whether `s` is weakly ordered on `key`: no record must come strictly
/// before one that stands earlier.
pub open spec fn sorted_le(s: Seq<RecordView>, key: Seq<char>, asc: bool) -> bool {
    forall|i: int, j: int| 0 <= i < j < s.len() ==> !rec_lt(s[j], s[i], key, asc)
}

/// The must-come-before order never runs both ways, and two records that
/// both need not come before a third in a chain keep that relation across
/// the chain.
proof fn lemma_class_lt_facts(a: SortClass, b: SortClass, c: SortClass, asc: bool)
    ensures
        class_lt(a, b, asc) ==> !class_lt(b, a, asc),
        !class_lt(b, a, asc) && !class_lt(c, b, asc) ==> !class_lt(c, a, asc),
{
    lemma_class_lt_irrefl(a, asc);
    lemma_class_lt_irrefl(b, asc);
    lemma_class_lt_irrefl(c, asc);
    if a is Str && b is Str {
        crate::utils::lemma_lex_lt_connected(a->Str_0, b->Str_0);
    }
    if b is Str && c is Str {
        crate::utils::lemma_lex_lt_connected(b->Str_0, c->Str_0);
    }
    if a is Str && c is Str {
        crate::utils::lemma_lex_lt_connected(a->Str_0, c->Str_0);
    }
    if a is Str && b is Str && c is Str {
        let x = a->Str_0;
        let y = b->Str_0;
        let z = c->Str_0;
        if lex_lt(x, y) && lex_lt(y, z) {
            crate::utils::lemma_lex_lt_trans(x, y, z);
        }
        if lex_lt(x, z) && lex_lt(z, y) {
            crate::utils::lemma_lex_lt_trans(x, z, y);
        }
        if lex_lt(y, x) && lex_lt(x, z) {
            crate::utils::lemma_lex_lt_trans(y, x, z);
        }
        if lex_lt(y, z) && lex_lt(z, x) {
            crate::utils::lemma_lex_lt_trans(y, z, x);
        }
        if lex_lt(z, x) && lex_lt(x, y) {
            crate::utils::lemma_lex_lt_trans(z, x, y);
        }
        if lex_lt(z, y) && lex_lt(y, x) {
            crate::utils::lemma_lex_lt_trans(z, y, x);
        }
    }
    if a is Str && b is Str && lex_lt(a->Str_0, b->Str_0) && lex_lt(b->Str_0, a->Str_0) {
        crate::utils::lemma_lex_lt_trans(a->Str_0, b->Str_0, a->Str_0);
    }
}

/// Every record of an insertion is the inserted one or one of the old ones.
proof fn lemma_insert_elems(x: RecordView, s: Seq<RecordView>, key: Seq<char>, asc: bool)
    ensures
        forall|i: int|
            0 <= i < spec_insert(x, s, key, asc).len() ==> (#[trigger] spec_insert(
                x,
                s,
                key,
                asc,
            )[i] == x || exists|j: int| 0 <= j < s.len() && s[j] == spec_insert(x, s, key, asc)[i]),
    decreases s.len(),
{
    let ins = spec_insert(x, s, key, asc);
    if s.len() == 0 {
    } else if rec_lt(s[0], x, key, asc) {
        lemma_insert_elems(x, s.drop_first(), key, asc);
        let tail = spec_insert(x, s.drop_first(), key, asc);
        assert(ins =~= seq![s[0]] + tail);
        assert forall|i: int|
            0 <= i < ins.len() implies (#[trigger] ins[i] == x || exists|j: int|
            0 <= j < s.len() && s[j] == ins[i]) by {
            if i == 0 {
                assert(s[0] == ins[0]);
            } else {
                assert(ins[i] == tail[i - 1]);
                if tail[i - 1] != x {
                    let j = choose|j: int|
                        0 <= j < s.drop_first().len() && s.drop_first()[j] == tail[i - 1];
                    assert(s[j + 1] == ins[i]);
                }
            }
        }
    } else {
        assert(ins =~= seq![x] + s);
        assert forall|i: int|
            0 <= i < ins.len() implies (#[trigger] ins[i] == x || exists|j: int|
            0 <= j < s.len() && s[j] == ins[i]) by {
            if i > 0 {
                assert(s[i - 1] == ins[i]);
            }
        }
    }
}

/// Inserting into an ordered sequence keeps it ordered.
proof fn lemma_insert_sorted_keeps(x: RecordView, s: Seq<RecordView>, key: Seq<char>, asc: bool)
    requires
        sorted_le(s, key, asc),
    ensures
        sorted_le(spec_insert(x, s, key, asc), key, asc),
    decreases s.len(),
{
    let ins = spec_insert(x, s, key, asc);
    if s.len() == 0 {
    } else if rec_lt(s[0], x, key, asc) {
        let rest = s.drop_first();
        assert(sorted_le(rest, key, asc)) by {
            assert(forall|i: int| 0 <= i < rest.len() ==> #[trigger] rest[i] == s[i + 1]);
        }
        lemma_insert_sorted_keeps(x, rest, key, asc);
        lemma_insert_elems(x, rest, key, asc);
        let tail = spec_insert(x, rest, key, asc);
        assert(ins =~= seq![s[0]] + tail);
        // the old head must not come after anything that follows it: not
        // after the inserted record, and not after any old one
        assert forall|j: int| 0 <= j < tail.len() implies !rec_lt(
            #[trigger] tail[j],
            s[0],
            key,
            asc,
        ) by {
            if tail[j] == x {
                lemma_class_lt_facts(
                    sort_class(s[0], key),
                    sort_class(x, key),
                    sort_class(x, key),
                    asc,
                );
            } else {
                let j2 = choose|j2: int| 0 <= j2 < rest.len() && rest[j2] == tail[j];
                assert(s[j2 + 1] == tail[j]);
            }
        }
        assert forall|i: int, j: int| 0 <= i < j < ins.len() implies !rec_lt(
            #[trigger] ins[j],
            #[trigger] ins[i],
            key,
            asc,
        ) by {
            if i == 0 {
                assert(ins[j] == tail[j - 1]);
            } else {
                assert(ins[i] == tail[i - 1] && ins[j] == tail[j - 1]);
            }
        }
    } else {
        assert(ins =~= seq![x] + s);
        // nothing of the old sequence must come before the inserted record:
        // not the old head, and through it nothing behind the old head
        assert forall|j: int| 0 <= j < s.len() implies !rec_lt(
            #[trigger] s[j],
            x,
            key,
            asc,
        ) by {
            if j > 0 {
                assert(!rec_lt(s[j], s[0], key, asc));
            }
            lemma_class_lt_facts(
                sort_class(x, key),
                sort_class(s[0], key),
                sort_class(s[j], key),
                asc,
            );
        }
        assert forall|i: int, j: int| 0 <= i < j < ins.len() implies !rec_lt(
            #[trigger] ins[j],
            #[trigger] ins[i],
            key,
            asc,
        ) by {
            assert(ins[j] == s[j - 1]);
            if i > 0 {
                assert(ins[i] == s[i - 1]);
            }
        }
    }
}

/// The sort orders its output: in `spec_sort(s, key, asc)` no record must
/// come strictly before one that stands earlier — numbers ascending or
/// descending as asked, strings likewise, and unsortable records at the end.
pub proof fn lemma_sort_sorted(s: Seq<RecordView>, key: Seq<char>, asc: bool)
    ensures
        sorted_le(spec_sort(s, key, asc), key, asc),
    decreases s.len(),
{
    if s.len() > 0 {
        lemma_sort_sorted(s.drop_first(), key, asc);
        lemma_insert_sorted_keeps(s[0], spec_sort(s.drop_first(), key, asc), key, asc);
    }
}

/// The limit keeps a prefix: the first `min(l, |s|)` records, unchanged and
/// in order; a limit of zero keeps nothing.
pub proof fn lemma_limit_prefix(s: Seq<RecordView>, l: nat)
    ensures
        spec_limit(s, l).len() == if l < s.len() {
            l as int
        } else {
            s.len() as int
        },
        forall|i: int| 0 <= i < spec_limit(s, l).len() ==> spec_limit(s, l)[i] == s[i],
        spec_limit(s, 0) =~= Seq::<RecordView>::empty(),
{
}

/// Reducing an empty result with `first` or `last` binds the defined "no
/// record" signal, never an error.
pub proof fn lemma_reduce_empty(s: Seq<RecordView>, q: ConfigDataDSL)
    requires
        spec_eval_records(s, q).len() == 0,
        q.first is Some || q.last is Some,
    ensures
        spec_eval_query(s, q) == BindingView::One(None::<RecordView>),
{
}

/// The records of `v` that satisfy `p`, in their order in `v`.
pub fn filter_records(v: Vec<Record>, p: &Predicate) -> (r: Vec<Record>)
    requires
        pred_ok(p@),
    ensures
        views_of(r@) == spec_keep(views_of(v@), p@),
    decreases v@.len(),
{
    let mut v = v;
    if v.len() == 0 {
        v
    } else {
        let ghost orig = views_of(v@);
        let first = v.remove(0);
        proof {
            assert(views_of(v@) =~= orig.drop_first());
            assert(orig[0] == first@);
        }
        let keep_first = matches_exec(&first, p);
        let mut rest = filter_records(v, p);
        if keep_first {
            rest.insert(0, first);
            proof {
                assert(views_of(rest@) =~= seq![first@] + spec_keep(orig.drop_first(), p@));
            }
        }
        rest
    }
}

} // verus!
