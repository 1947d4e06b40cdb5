//! Query execution: filters, and the two ways of walking a path.

use crate::double::{apart, at_most, is_apart, is_at_most, is_less, is_near, less, near};
use crate::document::{transaction_to_json, transaction_tree};
use crate::error::{Error, Failure};
use crate::transaction::DecodedTransaction;
use crate::hexcode::{encode_hex, hex_text};
use crate::path::{
    has_filter_with_continuation, has_wildcard, needs_fan_out, segments_of, segments_view, Filter,
    FilterExpr, FilterOp, FilterValue, Operand, PathSegment, QueryPath, Segment,
};
use crate::shortcuts::{expand, expand_shortcut, hash_sentinel, is_hash_query};
use crate::text::{
    find_char, find_pattern, index_of, lemma_find, occurs_at, to_chars, to_text,
};
use crate::value::{
    double_of, lemma_array_trees, lemma_trees_add, lemma_trees_push, trees, QueryValue, Tree,
};
use vstd::prelude::*;

verus! {

/// Result of a query execution.
#[derive(Debug, Clone)]
pub enum QueryResult {
    /// The full transaction.
    FullTransaction(QueryValue),
    /// A single value.
    Single(QueryValue),
    /// Multiple values, from wildcards and filters.
    Multiple(Vec<QueryValue>),
}

/// The mathematical value of a `QueryResult`.
pub enum Answer {
    FullTransaction(Tree),
    Single(Tree),
    Multiple(Seq<Tree>),
}

impl View for QueryResult {
    type V = Answer;

    open spec fn view(&self) -> Answer {
        match self {
            QueryResult::FullTransaction(t) => Answer::FullTransaction(t@),
            QueryResult::Single(t) => Answer::Single(t@),
            QueryResult::Multiple(v) => Answer::Multiple(trees(v@)),
        }
    }
}

/// The value that a dotted field path reaches from `t` by looking up one
/// member after another, or `None` where a member is missing.
pub open spec fn nested(t: Tree, path: Seq<char>) -> Option<Tree>
    decreases path.len(),
{
    match index_of(path, '.') {
        None => t.member(path),
        Some(i) => if 0 <= i < path.len() {
            match t.member(path.subrange(0, i)) {
                None => None,
                Some(child) => nested(child, path.subrange(i + 1, path.len() as int)),
            }
        } else {
            None
        },
    }
}

/// Whether `pat` occurs somewhere in `s`.
pub open spec fn contains_text(s: Seq<char>, pat: Seq<char>) -> bool {
    exists|i: int| occurs_at(s, pat, i)
}

/// Whether a candidate element meets a predicate.
pub open spec fn matches(candidate: Tree, f: Filter) -> bool {
    let field = nested(candidate, f.field);
    match f.value {
        Operand::Number { text, bits } => match field {
            Some(Tree::Number(n)) => {
                let x = double_of(n);
                match f.op {
                    FilterOp::Gt => less(bits, x),
                    FilterOp::Lt => less(x, bits),
                    FilterOp::Gte => at_most(bits, x),
                    FilterOp::Lte => at_most(x, bits),
                    FilterOp::Eq => near(x, bits),
                    FilterOp::Ne => apart(x, bits),
                    FilterOp::Contains => false,
                }
            },
            _ => false,
        },
        Operand::Text(s) => match field {
            Some(Tree::Text(x)) => match f.op {
                FilterOp::Eq => x == s,
                FilterOp::Ne => x != s,
                FilterOp::Contains => contains_text(x, s),
                _ => false,
            },
            _ => false,
        },
        Operand::Null => match f.op {
            FilterOp::Eq => field is None || field == Some(Tree::Null),
            FilterOp::Ne => field is Some && field != Some(Tree::Null),
            _ => false,
        },
    }
}

/// The elements of `items` that meet `f`, in their order.
pub open spec fn keep(items: Seq<Tree>, f: Filter) -> Seq<Tree>
    decreases items.len(),
{
    if items.len() == 0 {
        Seq::empty()
    } else if matches(items.last(), f) {
        keep(items.drop_last(), f).push(items.last())
    } else {
        keep(items.drop_last(), f)
    }
}

/// Deterministic execution: the value that a path without wildcards reaches
/// from `t`. A filter turns an array into the array of its matching elements.
pub open spec fn walk(t: Tree, p: Seq<Segment>) -> Result<Tree, Failure>
    decreases p.len(),
{
    if p.len() == 0 {
        Ok(t)
    } else {
        let rest = p.drop_first();
        match p[0] {
            Segment::Field(name) => match t.member(name) {
                Some(child) => walk(child, rest),
                None => Err(Failure::FieldNotFound(name)),
            },
            Segment::Index(i) => match t.item(i as int) {
                Some(child) => walk(child, rest),
                None => Err(Failure::IndexOutOfBounds(i)),
            },
            Segment::Wildcard => Err(Failure::InvalidQuery),
            Segment::Filter(f) => match t {
                Tree::Array(items) => walk(Tree::Array(keep(items, f)), rest),
                _ => Err(Failure::InvalidQuery),
            },
        }
    }
}

/// Fan-out execution: the values that a path reaches from `t`, in order. A
/// wildcard branches into every element of an array, a filter into every
/// matching element.
pub open spec fn fan_out(t: Tree, p: Seq<Segment>) -> Result<Seq<Tree>, Failure>
    decreases p.len(), 0nat,
{
    if p.len() == 0 {
        Ok(seq![t])
    } else {
        let rest = p.drop_first();
        match p[0] {
            Segment::Field(name) => match t.member(name) {
                Some(child) => fan_out(child, rest),
                None => Err(Failure::FieldNotFound(name)),
            },
            Segment::Index(i) => match t.item(i as int) {
                Some(child) => fan_out(child, rest),
                None => Err(Failure::IndexOutOfBounds(i)),
            },
            Segment::Wildcard => match t {
                Tree::Array(items) => fan_each(items, None, rest),
                _ => Err(Failure::InvalidQuery),
            },
            Segment::Filter(f) => match t {
                Tree::Array(items) => fan_each(items, Some(f), rest),
                _ => Err(Failure::InvalidQuery),
            },
        }
    }
}

/// The results of `rest` from each element of `items` that meets `f`, where
/// there is an `f`, one after another; the first failure among them ends it.
pub open spec fn fan_each(items: Seq<Tree>, f: Option<Filter>, rest: Seq<Segment>) -> Result<
    Seq<Tree>,
    Failure,
>
    decreases rest.len(), items.len() + 1,
{
    if items.len() == 0 {
        Ok(Seq::empty())
    } else {
        match fan_each(items.drop_last(), f, rest) {
            Err(e) => Err(e),
            Ok(before) => if f is Some && !matches(items.last(), f.unwrap()) {
                Ok(before)
            } else {
                match fan_out(items.last(), rest) {
                    Err(e) => Err(e),
                    Ok(found) => Ok(before + found),
                }
            },
        }
    }
}

/// The answer that a parsed path gives: the whole tree for the empty path,
/// and else what the path reaches, by fanning out where the path needs it.
pub open spec fn run(tree: Tree, p: Seq<Segment>) -> Result<Answer, Failure> {
    if p.len() == 0 {
        Ok(Answer::FullTransaction(tree))
    } else if needs_fan_out(p) {
        match fan_out(tree, p) {
            Ok(found) => Ok(Answer::Multiple(found)),
            Err(e) => Err(e),
        }
    } else {
        match walk(tree, p) {
            Ok(found) => Ok(Answer::Single(found)),
            Err(e) => Err(e),
        }
    }
}

/// The answer to a query: the hash in hexadecimal for the hash shortcut, and
/// else what the path that the expanded query writes gives.
pub open spec fn answer(tree: Tree, hash: Seq<u8>, query: Seq<char>) -> Result<Answer, Failure> {
    let expanded = expand(query);
    if expanded == hash_sentinel() {
        Ok(Answer::Single(Tree::Text(hex_text(hash))))
    } else {
        match segments_of(expanded) {
            None => Err(Failure::InvalidQuery),
            Some(p) => run(tree, p),
        }
    }
}

/// Get a nested field from a value using dot-notation.
pub fn get_nested_field<'a>(value: &'a QueryValue, path: &str) -> (r: Option<&'a QueryValue>)
    ensures
        match r {
            Some(v) => nested(value@, path@) == Some(v@),
            None => nested(value@, path@) is None,
        },
{
    let chars = to_chars(path);
    let n = chars.len();
    let mut current = value;
    let mut i: usize = 0;
    assert(chars@.subrange(0, n as int) =~= chars@);
    loop
        invariant
            i <= n,
            n == chars.len(),
            chars@ == path@,
            nested(value@, path@) == nested(current@, chars@.subrange(i as int, n as int)),
        decreases n - i,
    {
        let ghost rest = chars@.subrange(i as int, n as int);
        match find_char(&chars, i, '.') {
            None => {
                let name = to_text(&chars, i, n);
                return current.get(name.as_str());
            },
            Some(j) => {
                let name = to_text(&chars, i, j);
                proof {
                    assert(rest.subrange(0, j - i) =~= name@);
                    assert(rest.subrange(j - i + 1, rest.len() as int) =~= chars@.subrange(
                        j + 1,
                        n as int,
                    ));
                }
                match current.get(name.as_str()) {
                    None => {
                        return None;
                    },
                    Some(child) => {
                        current = child;
                        i = j + 1;
                    },
                }
            },
        }
    }
}

fn text_contains(s: &String, pat: &String) -> (r: bool)
    ensures
        r == contains_text(s@, pat@),
{
    let a = to_chars(s.as_str());
    let b = to_chars(pat.as_str());
    proof {
        lemma_find(a@, b@);
    }
    match find_pattern(&a, &b) {
        Some(i) => {
            assert(occurs_at(a@, b@, i as int));
            true
        },
        None => false,
    }
}

/// Evaluate a filter expression against a value.
pub fn evaluate_filter(value: &QueryValue, filter: &FilterExpr) -> (r: bool)
    ensures
        r == matches(value@, filter@),
{
    let field = get_nested_field(value, filter.field.as_str());
    match &filter.value {
        FilterValue::Number(literal) => match field {
            Some(QueryValue::Number(n)) => {
                let x = n.as_double();
                let bits = literal.bits;
                match filter.op {
                    FilterOp::Gt => is_less(bits, x),
                    FilterOp::Lt => is_less(x, bits),
                    FilterOp::Gte => is_at_most(bits, x),
                    FilterOp::Lte => is_at_most(x, bits),
                    FilterOp::Eq => is_near(x, bits),
                    FilterOp::Ne => is_apart(x, bits),
                    FilterOp::Contains => false,
                }
            },
            _ => false,
        },
        FilterValue::String(s) => match field {
            Some(QueryValue::String(x)) => match filter.op {
                FilterOp::Eq => *x == *s,
                FilterOp::Ne => !(*x == *s),
                FilterOp::Contains => text_contains(x, s),
                _ => false,
            },
            _ => false,
        },
        FilterValue::Null => match filter.op {
            FilterOp::Eq => match field {
                None => true,
                Some(QueryValue::Null) => true,
                _ => false,
            },
            FilterOp::Ne => match field {
                None => false,
                Some(QueryValue::Null) => false,
                _ => true,
            },
            _ => false,
        },
    }
}

/// The elements of an array that meet a filter, copied in their order.
fn filter_items(items: &Vec<QueryValue>, filter: &FilterExpr) -> (r: Vec<QueryValue>)
    ensures
        trees(r@) == keep(trees(items@), filter@),
{
    let n = items.len();
    let ghost all = trees(items@);
    let mut out: Vec<QueryValue> = Vec::new();
    let mut i: usize = 0;
    assert(trees(out@) =~= Seq::<Tree>::empty());
    while i < n
        invariant
            i <= n,
            n == items.len(),
            all == trees(items@),
            trees(out@) == keep(all.subrange(0, i as int), filter@),
        decreases n - i,
    {
        proof {
            let w = all.subrange(0, i + 1);
            assert(w.drop_last() =~= all.subrange(0, i as int));
            assert(w.last() == items@[i as int]@);
        }
        if evaluate_filter(&items[i], filter) {
            let copy = items[i].clone();
            proof {
                lemma_trees_push(out@, copy);
            }
            out.push(copy);
        }
        i += 1;
    }
    assert(all.subrange(0, n as int) =~= all);
    out
}

/// What the error `e` reports is what `expected` says.
pub open spec fn reports<T>(e: Error, expected: Result<T, Failure>) -> bool {
    match expected {
        Ok(_) => false,
        Err(f) => e.failure() == Some(f),
    }
}

fn walk_from(value: &QueryValue, segments: &[PathSegment], from: usize) -> (r: Result<
    QueryValue,
    Error,
>)
    requires
        from <= segments.len(),
    ensures
        match r {
            Ok(v) => walk(
                value@,
                segments_view(segments@).subrange(from as int, segments.len() as int),
            ) == Ok::<Tree, Failure>(v@),
            Err(e) => reports(
                e,
                walk(value@, segments_view(segments@).subrange(from as int, segments.len() as int)),
            ),
        },
    decreases segments.len() - from,
{
    let n = segments.len();
    if from == n {
        return Ok(value.clone());
    }
    let ghost p = segments_view(segments@).subrange(from as int, n as int);
    proof {
        assert(p.drop_first() =~= segments_view(segments@).subrange(from + 1, n as int));
        assert(p[0] == segments@[from as int]@);
    }
    match &segments[from] {
        PathSegment::Field(name) => match value.get(name.as_str()) {
            Some(child) => walk_from(child, segments, from + 1),
            None => Err(Error::FieldNotFound(name.clone())),
        },
        PathSegment::Index(i) => match value.at(*i) {
            Some(child) => walk_from(child, segments, from + 1),
            None => Err(Error::IndexOutOfBounds(*i)),
        },
        PathSegment::Wildcard => Err(
            Error::invalid_query("Unexpected wildcard in non-wildcard path"),
        ),
        PathSegment::Filter(filter) => match value {
            QueryValue::Array(items) => {
                let kept = filter_items(items, filter);
                let next = QueryValue::Array(kept);
                proof {
                    lemma_array_trees(*value);
                    lemma_array_trees(next);
                }
                walk_from(&next, segments, from + 1)
            },
            _ => Err(Error::invalid_query("Filter on non-array")),
        },
    }
}

/// Execute a path query without wildcards.
pub fn execute_path(value: &QueryValue, segments: &[PathSegment]) -> (r: Result<QueryValue, Error>)
    ensures
        match r {
            Ok(v) => walk(value@, segments_view(segments@)) == Ok::<Tree, Failure>(v@),
            Err(e) => reports(e, walk(value@, segments_view(segments@))),
        },
{
    assert(segments_view(segments@).subrange(0, segments.len() as int) =~= segments_view(
        segments@,
    ));
    walk_from(value, segments, 0)
}

/// A failure among the first elements is the failure of them all.
proof fn lemma_failure_persists(
    items: Seq<Tree>,
    f: Option<Filter>,
    rest: Seq<Segment>,
    k: int,
    e: Failure,
)
    requires
        0 <= k <= items.len(),
        fan_each(items.subrange(0, k), f, rest) == Err::<Seq<Tree>, Failure>(e),
    ensures
        fan_each(items, f, rest) == Err::<Seq<Tree>, Failure>(e),
    decreases items.len() - k,
{
    if k == items.len() {
        assert(items.subrange(0, k) =~= items);
    } else {
        let w = items.subrange(0, k + 1);
        assert(w.drop_last() =~= items.subrange(0, k));
        lemma_failure_persists(items, f, rest, k + 1, e);
    }
}

fn fan_from(value: &QueryValue, segments: &[PathSegment], from: usize) -> (r: Result<
    Vec<QueryValue>,
    Error,
>)
    requires
        from <= segments.len(),
    ensures
        match r {
            Ok(v) => fan_out(
                value@,
                segments_view(segments@).subrange(from as int, segments.len() as int),
            ) == Ok::<Seq<Tree>, Failure>(trees(v@)),
            Err(e) => reports(
                e,
                fan_out(
                    value@,
                    segments_view(segments@).subrange(from as int, segments.len() as int),
                ),
            ),
        },
    decreases segments.len() - from, 1nat,
{
    let n = segments.len();
    if from == n {
        let mut out: Vec<QueryValue> = Vec::new();
        let copy = value.clone();
        proof {
            lemma_trees_push(out@, copy);
            assert(trees(out@).push(copy@) =~= seq![value@]);
        }
        out.push(copy);
        return Ok(out);
    }
    let ghost p = segments_view(segments@).subrange(from as int, n as int);
    proof {
        assert(p.drop_first() =~= segments_view(segments@).subrange(from + 1, n as int));
        assert(p[0] == segments@[from as int]@);
    }
    match &segments[from] {
        PathSegment::Field(name) => match value.get(name.as_str()) {
            Some(child) => fan_from(child, segments, from + 1),
            None => Err(Error::FieldNotFound(name.clone())),
        },
        PathSegment::Index(i) => match value.at(*i) {
            Some(child) => fan_from(child, segments, from + 1),
            None => Err(Error::IndexOutOfBounds(*i)),
        },
        PathSegment::Wildcard => match value {
            QueryValue::Array(items) => {
                proof {
                    lemma_array_trees(*value);
                }
                fan_items(items, None, segments, from + 1)
            },
            _ => Err(Error::invalid_query("Wildcard on non-array")),
        },
        PathSegment::Filter(filter) => match value {
            QueryValue::Array(items) => {
                proof {
                    lemma_array_trees(*value);
                }
                fan_items(items, Some(filter), segments, from + 1)
            },
            _ => Err(Error::invalid_query("Filter on non-array")),
        },
    }
}

/// The value of an optional filter.
pub open spec fn filter_view(filter: Option<&FilterExpr>) -> Option<Filter> {
    match filter {
        Some(f) => Some(f@),
        None => None,
    }
}

fn fan_items(
    items: &Vec<QueryValue>,
    filter: Option<&FilterExpr>,
    segments: &[PathSegment],
    from: usize,
) -> (r: Result<Vec<QueryValue>, Error>)
    requires
        from <= segments.len(),
    ensures
        match r {
            Ok(v) => fan_each(
                trees(items@),
                filter_view(filter),
                segments_view(segments@).subrange(from as int, segments.len() as int),
            ) == Ok::<Seq<Tree>, Failure>(trees(v@)),
            Err(e) => reports(
                e,
                fan_each(
                    trees(items@),
                    filter_view(filter),
                    segments_view(segments@).subrange(from as int, segments.len() as int),
                ),
            ),
        },
    decreases segments.len() - from, 2nat,
{
    let n = items.len();
    let ghost all = trees(items@);
    let ghost f = filter_view(filter);
    let ghost rest = segments_view(segments@).subrange(from as int, segments.len() as int);
    let mut results: Vec<QueryValue> = Vec::new();
    let mut i: usize = 0;
    assert(trees(results@) =~= Seq::<Tree>::empty());
    while i < n
        invariant
            i <= n,
            n == items.len(),
            from <= segments.len(),
            all == trees(items@),
            f == filter_view(filter),
            rest == segments_view(segments@).subrange(from as int, segments.len() as int),
            fan_each(all.subrange(0, i as int), f, rest) == Ok::<Seq<Tree>, Failure>(
                trees(results@),
            ),
        decreases n - i,
    {
        proof {
            let w = all.subrange(0, i + 1);
            assert(w.drop_last() =~= all.subrange(0, i as int));
            assert(w.last() == items@[i as int]@);
        }
        let wanted = match filter {
            Some(expr) => evaluate_filter(&items[i], expr),
            None => true,
        };
        if wanted {
            match fan_from(&items[i], segments, from) {
                Err(e) => {
                    proof {
                        let failure = fan_out(items@[i as int]@, rest)->Err_0;
                        lemma_failure_persists(all, f, rest, i + 1, failure);
                    }
                    return Err(e);
                },
                Ok(mut found) => {
                    proof {
                        lemma_trees_add(results@, found@);
                    }
                    results.append(&mut found);
                },
            }
        }
        i += 1;
    }
    assert(all.subrange(0, n as int) =~= all);
    Ok(results)
}

/// Recursively execute a path, branching at wildcards and filters.
pub fn execute_path_recursive(value: &QueryValue, segments: &[PathSegment]) -> (r: Result<
    Vec<QueryValue>,
    Error,
>)
    ensures
        match r {
            Ok(v) => fan_out(value@, segments_view(segments@)) == Ok::<Seq<Tree>, Failure>(
                trees(v@),
            ),
            Err(e) => reports(e, fan_out(value@, segments_view(segments@))),
        },
{
    assert(segments_view(segments@).subrange(0, segments.len() as int) =~= segments_view(
        segments@,
    ));
    fan_from(value, segments, 0)
}

/// Execute a path query with wildcards, returning all matching values.
pub fn execute_path_with_wildcards(value: &QueryValue, segments: &[PathSegment]) -> (r: Result<
    Vec<QueryValue>,
    Error,
>)
    ensures
        match r {
            Ok(v) => fan_out(value@, segments_view(segments@)) == Ok::<Seq<Tree>, Failure>(
                trees(v@),
            ),
            Err(e) => reports(e, fan_out(value@, segments_view(segments@))),
        },
{
    execute_path_recursive(value, segments)
}

/// Execute a query against a document: `tx` is the document of a transaction
/// and `hash` the hash of the transaction.
pub fn query_document(tx: &QueryValue, hash: &[u8], query: &str) -> (r: Result<QueryResult, Error>)
    ensures
        match r {
            Ok(v) => answer(tx@, hash@, query@) == Ok::<Answer, Failure>(v@),
            Err(e) => reports(e, answer(tx@, hash@, query@)),
        },
{
    let expanded = expand_shortcut(query);
    if is_hash_query(expanded.as_str()) {
        let hash_hex = encode_hex(hash);
        return Ok(QueryResult::Single(QueryValue::String(hash_hex)));
    }
    let path = match QueryPath::parse(expanded.as_str()) {
        Ok(p) => p,
        Err(e) => {
            return Err(e);
        },
    };
    if path.is_empty() {
        return Ok(QueryResult::FullTransaction(tx.clone()));
    }
    let needs_recursive = path.has_wildcard() || path.has_filter_with_continuation();
    if needs_recursive {
        match execute_path_with_wildcards(tx, path.segments.as_slice()) {
            Ok(results) => Ok(QueryResult::Multiple(results)),
            Err(e) => Err(e),
        }
    } else {
        match execute_path(tx, path.segments.as_slice()) {
            Ok(result) => Ok(QueryResult::Single(result)),
            Err(e) => Err(e),
        }
    }
}

/// A path of which every segment is a field or an index.
pub open spec fn is_plain(p: Seq<Segment>) -> bool {
    forall|i: int| 0 <= i < p.len() ==> (#[trigger] p[i]) is Field || p[i] is Index
}

/// The path that names one field after another.
pub open spec fn fields(names: Seq<Seq<char>>) -> Seq<Segment> {
    Seq::new(names.len(), |i: int| Segment::Field(names[i]))
}

/// The value that is reached from `t` by looking up one name after another.
pub open spec fn descend(t: Tree, names: Seq<Seq<char>>) -> Option<Tree>
    decreases names.len(),
{
    if names.len() == 0 {
        Some(t)
    } else {
        match t.member(names[0]) {
            Some(child) => descend(child, names.drop_first()),
            None => None,
        }
    }
}

/// Walking a path in two parts: the second part starts where the first ends,
/// and a failure of the first part is the failure of the whole.
pub proof fn lemma_walk_append(t: Tree, a: Seq<Segment>, b: Seq<Segment>)
    ensures
        walk(t, a + b) == (match walk(t, a) {
            Ok(v) => walk(v, b),
            Err(e) => Err(e),
        }),
    decreases a.len(),
{
    if a.len() == 0 {
        assert(a + b =~= b);
    } else {
        let p = a + b;
        assert(p[0] == a[0]);
        assert(p.drop_first() =~= a.drop_first() + b);
        match a[0] {
            Segment::Field(name) => {
                if let Some(child) = t.member(name) {
                    lemma_walk_append(child, a.drop_first(), b);
                }
            },
            Segment::Index(i) => {
                if let Some(child) = t.item(i as int) {
                    lemma_walk_append(child, a.drop_first(), b);
                }
            },
            Segment::Wildcard => {},
            Segment::Filter(f) => {
                if let Tree::Array(items) = t {
                    lemma_walk_append(Tree::Array(keep(items, f)), a.drop_first(), b);
                }
            },
        }
    }
}

/// Fanning out after fields and indices: the rest of the path starts where
/// they lead, and their failure is the failure of the whole.
pub proof fn lemma_fan_out_after_plain(t: Tree, a: Seq<Segment>, b: Seq<Segment>)
    requires
        is_plain(a),
    ensures
        fan_out(t, a + b) == (match walk(t, a) {
            Ok(v) => fan_out(v, b),
            Err(e) => Err(e),
        }),
    decreases a.len(),
{
    if a.len() == 0 {
        assert(a + b =~= b);
    } else {
        let p = a + b;
        assert(p[0] == a[0]);
        assert(p.drop_first() =~= a.drop_first() + b);
        assert(is_plain(a.drop_first())) by {
            assert forall|i: int| 0 <= i < a.drop_first().len() implies (
            #[trigger] a.drop_first()[i]) is Field || a.drop_first()[i] is Index by {
                assert(a.drop_first()[i] == a[i + 1]);
            }
        }
        match a[0] {
            Segment::Field(name) => {
                if let Some(child) = t.member(name) {
                    lemma_fan_out_after_plain(child, a.drop_first(), b);
                }
            },
            Segment::Index(i) => {
                if let Some(child) = t.item(i as int) {
                    lemma_fan_out_after_plain(child, a.drop_first(), b);
                }
            },
            _ => {},
        }
    }
}

/// On a path of fields and indices the two ways of execution agree: fanning
/// out gives the one value that walking gives.
pub proof fn lemma_fan_out_plain(t: Tree, p: Seq<Segment>)
    requires
        is_plain(p),
    ensures
        fan_out(t, p) == (match walk(t, p) {
            Ok(v) => Ok(seq![v]),
            Err(e) => Err(e),
        }),
{
    lemma_fan_out_after_plain(t, p, Seq::empty());
    assert(p + Seq::<Segment>::empty() =~= p);
}

/// A path of fields that all exist leads to exactly the value that they
/// address.
pub proof fn lemma_walk_fields_found(t: Tree, names: Seq<Seq<char>>)
    requires
        descend(t, names) is Some,
    ensures
        walk(t, fields(names)) == Ok::<Tree, Failure>(descend(t, names)->Some_0),
    decreases names.len(),
{
    if names.len() > 0 {
        let child = t.member(names[0])->Some_0;
        lemma_walk_fields_found(child, names.drop_first());
        assert(fields(names).drop_first() =~= fields(names.drop_first()));
    }
}

/// A path of fields fails at the first field that names an absent member,
/// with `FieldNotFound` of that name.
pub proof fn lemma_walk_field_missing(t: Tree, names: Seq<Seq<char>>, k: int)
    requires
        0 <= k < names.len(),
        descend(t, names.subrange(0, k)) is Some,
        descend(t, names.subrange(0, k))->Some_0.member(names[k]) is None,
    ensures
        walk(t, fields(names)) == Err::<Tree, Failure>(Failure::FieldNotFound(names[k])),
{
    let before = names.subrange(0, k);
    let after = names.subrange(k, names.len() as int);
    lemma_walk_fields_found(t, before);
    lemma_walk_append(t, fields(before), fields(after));
    assert(fields(before) + fields(after) =~= fields(names));
    assert(fields(after)[0] == Segment::Field(names[k]));
}

/// Fanning out over the elements of an array, with a rest of fields and
/// indices: a success holds one result for each element, in the order of
/// the array, and a failure is that of some element.
pub proof fn lemma_fan_each_plain(items: Seq<Tree>, rest: Seq<Segment>)
    requires
        is_plain(rest),
    ensures
        match fan_each(items, None, rest) {
            Ok(found) => found.len() == items.len() && forall|i: int|
                0 <= i < items.len() ==> walk(#[trigger] items[i], rest) == Ok::<Tree, Failure>(
                    found[i],
                ),
            Err(e) => exists|i: int|
                0 <= i < items.len() && walk(#[trigger] items[i], rest) == Err::<Tree, Failure>(e),
        },
    decreases items.len(),
{
    if items.len() > 0 {
        let head = items.drop_last();
        lemma_fan_each_plain(head, rest);
        lemma_fan_out_plain(items.last(), rest);
        match fan_each(head, None, rest) {
            Ok(before) => {
                match fan_out(items.last(), rest) {
                    Ok(found) => {
                        let all = before + found;
                        assert forall|i: int| 0 <= i < items.len() implies walk(
                            #[trigger] items[i],
                            rest,
                        ) == Ok::<Tree, Failure>(all[i]) by {
                            if i < head.len() {
                                assert(items[i] == head[i]);
                            }
                        }
                    },
                    Err(e) => {
                        assert(walk(items[items.len() - 1], rest) == Err::<Tree, Failure>(e));
                    },
                }
            },
            Err(e) => {
                let i = choose|i: int|
                    0 <= i < head.len() && walk(#[trigger] head[i], rest) == Err::<Tree, Failure>(
                        e,
                    );
                assert(items[i] == head[i]);
            },
        }
    }
}

/// Where the rest succeeds from every element, fanning out over them succeeds.
pub proof fn lemma_fan_each_succeeds(items: Seq<Tree>, rest: Seq<Segment>)
    requires
        is_plain(rest),
        forall|i: int| 0 <= i < items.len() ==> walk(#[trigger] items[i], rest) is Ok,
    ensures
        fan_each(items, None, rest) is Ok,
{
    lemma_fan_each_plain(items, rest);
}

/// One wildcard over an array of N elements, with fields and indices before
/// and after it: fan-out execution that succeeds returns exactly N results,
/// the i-th of them what the rest of the path reaches from the i-th element;
/// and it succeeds where the rest succeeds from every element.
pub proof fn lemma_single_wildcard(
    t: Tree,
    before: Seq<Segment>,
    after: Seq<Segment>,
    items: Seq<Tree>,
)
    requires
        is_plain(before),
        is_plain(after),
        walk(t, before) == Ok::<Tree, Failure>(Tree::Array(items)),
    ensures
        needs_fan_out(before + seq![Segment::Wildcard] + after),
        match fan_out(t, before + seq![Segment::Wildcard] + after) {
            Ok(found) => found.len() == items.len() && forall|i: int|
                0 <= i < items.len() ==> walk(#[trigger] items[i], after) == Ok::<Tree, Failure>(
                    found[i],
                ),
            Err(e) => exists|i: int|
                0 <= i < items.len() && walk(#[trigger] items[i], after) == Err::<Tree, Failure>(e),
        },
        (forall|i: int| 0 <= i < items.len() ==> walk(#[trigger] items[i], after) is Ok)
            ==> fan_out(t, before + seq![Segment::Wildcard] + after) is Ok,
{
    let tail = seq![Segment::Wildcard] + after;
    let p = before + seq![Segment::Wildcard] + after;
    assert(p =~= before + tail);
    assert(p[before.len() as int] is Wildcard);
    lemma_fan_out_after_plain(t, before, tail);
    assert(tail.drop_first() =~= after);
    lemma_fan_each_plain(items, after);
}

/// Filtering and then keeping all is filtering while fanning out.
pub proof fn lemma_fan_each_filtered(items: Seq<Tree>, f: Filter, rest: Seq<Segment>)
    ensures
        fan_each(items, Some(f), rest) == fan_each(keep(items, f), None, rest),
    decreases items.len(),
{
    if items.len() > 0 {
        lemma_fan_each_filtered(items.drop_last(), f, rest);
        if matches(items.last(), f) {
            let kept = keep(items, f);
            assert(kept.drop_last() =~= keep(items.drop_last(), f));
            assert(kept.last() == items.last());
        }
    }
}

/// The elements that a filter keeps are those that `Seq::filter` keeps:
/// exactly the matching ones, in their order.
pub proof fn lemma_keep_is_filter(items: Seq<Tree>, f: Filter)
    ensures
        keep(items, f) == items.filter(|x: Tree| matches(x, f)),
    decreases items.len(),
{
    reveal(Seq::filter);
    if items.len() > 0 {
        lemma_keep_is_filter(items.drop_last(), f);
    }
}

/// Keeping goes through a run piece by piece.
pub proof fn lemma_keep_add(a: Seq<Tree>, b: Seq<Tree>, f: Filter)
    ensures
        keep(a + b, f) == keep(a, f) + keep(b, f),
    decreases b.len(),
{
    if b.len() == 0 {
        assert(a + b =~= a);
        assert(keep(a, f) + keep(b, f) =~= keep(a, f));
    } else {
        let all = a + b;
        assert(all.drop_last() =~= a + b.drop_last());
        assert(all.last() == b.last());
        lemma_keep_add(a, b.drop_last(), f);
        if matches(b.last(), f) {
            assert((keep(a, f) + keep(b.drop_last(), f)).push(b.last()) =~= keep(a, f) + keep(
                b.drop_last(),
                f,
            ).push(b.last()));
        }
    }
}

proof fn lemma_plain_then_filter(before: Seq<Segment>, f: Filter, after: Seq<Segment>)
    requires
        is_plain(before),
    ensures
        !has_wildcard(before + seq![Segment::Filter(f)]),
        !has_filter_with_continuation(before + seq![Segment::Filter(f)]),
        after.len() > 0 ==> has_filter_with_continuation(
            before + seq![Segment::Filter(f)] + after,
        ),
{
    let p = before + seq![Segment::Filter(f)];
    assert forall|i: int| 0 <= i < p.len() - 1 implies !(p[i] is Filter) && !(p[i] is Wildcard) by {
        assert(p[i] == before[i]);
    }
    if after.len() > 0 {
        let q = p + after;
        assert(q[before.len() as int] is Filter);
    }
}

/// A filter at the end of a path of fields and indices: the path is walked,
/// and the answer is the single array of the elements that match, in their
/// order; a value that is no array is an invalid query.
pub proof fn lemma_trailing_filter(t: Tree, before: Seq<Segment>, f: Filter)
    requires
        is_plain(before),
    ensures
        !needs_fan_out(before + seq![Segment::Filter(f)]),
        run(t, before + seq![Segment::Filter(f)]) == (match walk(t, before) {
            Ok(Tree::Array(items)) => Ok(Answer::Single(Tree::Array(keep(items, f)))),
            Ok(_) => Err(Failure::InvalidQuery),
            Err(e) => Err(e),
        }),
{
    let last = seq![Segment::Filter(f)];
    lemma_plain_then_filter(before, f, Seq::empty());
    lemma_walk_append(t, before, last);
    assert(last.drop_first() =~= Seq::<Segment>::empty());
    if let Ok(Tree::Array(items)) = walk(t, before) {
        assert(walk(Tree::Array(items), last) == walk(
            Tree::Array(keep(items, f)),
            last.drop_first(),
        ));
    }
}

/// A filter with segments after it: the answer holds many values, the
/// results of the rest of the path from each element that matches, one
/// element after another in the order of the array.
pub proof fn lemma_continued_filter(
    t: Tree,
    before: Seq<Segment>,
    f: Filter,
    after: Seq<Segment>,
)
    requires
        is_plain(before),
        after.len() > 0,
    ensures
        needs_fan_out(before + seq![Segment::Filter(f)] + after),
        run(t, before + seq![Segment::Filter(f)] + after) == (match walk(t, before) {
            Ok(Tree::Array(items)) => match fan_each(keep(items, f), None, after) {
                Ok(found) => Ok(Answer::Multiple(found)),
                Err(e) => Err(e),
            },
            Ok(_) => Err(Failure::InvalidQuery),
            Err(e) => Err(e),
        }),
{
    let tail = seq![Segment::Filter(f)] + after;
    let p = before + seq![Segment::Filter(f)] + after;
    assert(p =~= before + tail);
    lemma_plain_then_filter(before, f, after);
    lemma_fan_out_after_plain(t, before, tail);
    assert(tail.drop_first() =~= after);
    if let Ok(Tree::Array(items)) = walk(t, before) {
        lemma_fan_each_filtered(items, f, after);
    }
}

/// Comparing with null. `== null` holds of a missing field and of a field
/// that is null, and of nothing else; `!= null` holds exactly where `== null`
/// does not.
pub proof fn lemma_null_filters(candidate: Tree, field: Seq<char>)
    ensures
        matches(candidate, Filter { field, op: FilterOp::Eq, value: Operand::Null }) <==> (nested(
            candidate,
            field,
        ) is None || nested(candidate, field) == Some(Tree::Null)),
        matches(candidate, Filter { field, op: FilterOp::Ne, value: Operand::Null }) <==> !matches(
            candidate,
            Filter { field, op: FilterOp::Eq, value: Operand::Null },
        ),
{
}

/// Execute a query against a decoded transaction.
pub fn execute_query(tx: &DecodedTransaction, query: &str) -> (r: Result<QueryResult, Error>)
    ensures
        match r {
            Ok(v) => answer(transaction_tree(*tx), tx.hash@, query@) == Ok::<Answer, Failure>(v@),
            Err(e) => reports(e, answer(transaction_tree(*tx), tx.hash@, query@)),
        },
{
    let tx_json = transaction_to_json(tx);
    query_document(&tx_json, tx.hash.as_slice(), query)
}

} // verus!
