//! Query paths: the segments of a path, and the grammar that reads them.

use crate::decimal::{double_of_text, parse_double};
use crate::error::{Error, Failure};
use crate::text::{
    find, find_char, find_pattern, index_of, parse_index, read_index, slice, to_chars, to_text,
    trim, trimmed,
};
use vstd::prelude::*;
use vstd::string::StringExecFns;

verus! {

/// A number as a query writes it, together with the double that it denotes,
/// the double given by the 64 bits of its IEEE 754 encoding.
#[derive(Debug, Clone, PartialEq)]
pub struct NumberLiteral {
    /// The token as it is written.
    pub text: String,
    /// The bits of the double that the token denotes.
    pub bits: u64,
}

/// Filter comparison operators.
#[derive(Debug, Clone, Copy, PartialEq, Eq)]
pub enum FilterOp {
    /// Greater than (`>`).
    Gt,
    /// Less than (`<`).
    Lt,
    /// Greater than or equal (`>=`).
    Gte,
    /// Less than or equal (`<=`).
    Lte,
    /// Equal (`==`).
    Eq,
    /// Not equal (`!=`).
    Ne,
    /// String contains (`~`).
    Contains,
}

/// The value that a filter compares with.
#[derive(Debug, Clone, PartialEq)]
pub enum FilterValue {
    /// A number.
    Number(NumberLiteral),
    /// A string.
    String(String),
    /// Null, for existence checks.
    Null,
}

/// One predicate in brackets: a field of the candidate element, an operator
/// and a value.
#[derive(Debug, Clone, PartialEq)]
pub struct FilterExpr {
    /// The field to compare, in dot notation relative to the element.
    pub field: String,
    /// The comparison operator.
    pub op: FilterOp,
    /// The value to compare with.
    pub value: FilterValue,
}

/// A segment in a query path.
#[derive(Debug, Clone, PartialEq)]
pub enum PathSegment {
    /// Named field access.
    Field(String),
    /// Array index access.
    Index(usize),
    /// Every element of an array.
    Wildcard,
    /// The elements of an array that meet a predicate.
    Filter(FilterExpr),
}

/// A parsed query path.
#[derive(Debug, Clone)]
pub struct QueryPath {
    /// The segments that make up this path.
    pub segments: Vec<PathSegment>,
}

/// The mathematical value of a `FilterValue`.
pub enum Operand {
    Number { text: Seq<char>, bits: u64 },
    Text(Seq<char>),
    Null,
}

/// The mathematical value of a `FilterExpr`.
pub struct Filter {
    pub field: Seq<char>,
    pub op: FilterOp,
    pub value: Operand,
}

/// The mathematical value of a `PathSegment`.
pub enum Segment {
    Field(Seq<char>),
    Index(usize),
    Wildcard,
    Filter(Filter),
}

impl View for FilterValue {
    type V = Operand;

    open spec fn view(&self) -> Operand {
        match self {
            FilterValue::Number(n) => Operand::Number { text: n.text@, bits: n.bits },
            FilterValue::String(s) => Operand::Text(s@),
            FilterValue::Null => Operand::Null,
        }
    }
}

impl View for FilterExpr {
    type V = Filter;

    open spec fn view(&self) -> Filter {
        Filter { field: self.field@, op: self.op, value: self.value@ }
    }
}

impl View for PathSegment {
    type V = Segment;

    open spec fn view(&self) -> Segment {
        match self {
            PathSegment::Field(name) => Segment::Field(name@),
            PathSegment::Index(i) => Segment::Index(*i),
            PathSegment::Wildcard => Segment::Wildcard,
            PathSegment::Filter(f) => Segment::Filter(f@),
        }
    }
}

/// The mathematical values of a run of segments.
pub open spec fn segments_view(v: Seq<PathSegment>) -> Seq<Segment> {
    v.map_values(|s: PathSegment| s@)
}

impl View for QueryPath {
    type V = Seq<Segment>;

    open spec fn view(&self) -> Seq<Segment> {
        segments_view(self.segments@)
    }
}

/// The segment that one dot-separated part writes: `*` is the wildcard, an
/// index is an index, anything else names a field.
pub open spec fn segment_of(part: Seq<char>) -> Segment {
    if part == seq!['*'] {
        Segment::Wildcard
    } else {
        match parse_index(part) {
            Some(i) => Segment::Index(i),
            None => Segment::Field(part),
        }
    }
}

/// The segments of a run of parts separated by dots. Every part but the last
/// must hold something; an empty last part is dropped.
pub open spec fn plain_segments(s: Seq<char>) -> Option<Seq<Segment>>
    decreases s.len(),
{
    match index_of(s, '.') {
        None => if s.len() == 0 {
            Some(Seq::empty())
        } else {
            Some(seq![segment_of(s)])
        },
        Some(i) => if 0 < i < s.len() {
            match plain_segments(s.subrange(i + 1, s.len() as int)) {
                None => None,
                Some(rest) => Some(seq![segment_of(s.subrange(0, i))] + rest),
            }
        } else {
            None
        },
    }
}

/// The characters that write an operator.
pub open spec fn op_text(op: FilterOp) -> Seq<char> {
    match op {
        FilterOp::Gte => seq!['>', '='],
        FilterOp::Lte => seq!['<', '='],
        FilterOp::Ne => seq!['!', '='],
        FilterOp::Eq => seq!['=', '='],
        FilterOp::Gt => seq!['>'],
        FilterOp::Lt => seq!['<'],
        FilterOp::Contains => seq!['~'],
    }
}

/// The operator at which a predicate is split, and where it stands: of the
/// operators in the order `>=`, `<=`, `!=`, `==`, `>`, `<`, `~`, the first
/// that occurs at all, at its first occurrence.
pub open spec fn split_point(t: Seq<char>) -> Option<(FilterOp, int)> {
    if let Some(p) = find(t, op_text(FilterOp::Gte)) {
        Some((FilterOp::Gte, p))
    } else if let Some(p) = find(t, op_text(FilterOp::Lte)) {
        Some((FilterOp::Lte, p))
    } else if let Some(p) = find(t, op_text(FilterOp::Ne)) {
        Some((FilterOp::Ne, p))
    } else if let Some(p) = find(t, op_text(FilterOp::Eq)) {
        Some((FilterOp::Eq, p))
    } else if let Some(p) = find(t, op_text(FilterOp::Gt)) {
        Some((FilterOp::Gt, p))
    } else if let Some(p) = find(t, op_text(FilterOp::Lt)) {
        Some((FilterOp::Lt, p))
    } else if let Some(p) = find(t, op_text(FilterOp::Contains)) {
        Some((FilterOp::Contains, p))
    } else {
        None
    }
}

/// Whether a trimmed value is wrapped in a pair of double or single quotes.
pub open spec fn is_quoted(t: Seq<char>) -> bool {
    t.len() >= 2 && ((t[0] == '"' && t.last() == '"') || (t[0] == '\'' && t.last() == '\''))
}

/// The characters of the word `null`.
pub open spec fn null_word() -> Seq<char> {
    seq!['n', 'u', 'l', 'l']
}

/// The value that the right-hand side of a predicate writes: `null`, a quoted
/// string without its quotes, a number where the token is read as a double,
/// and the token itself as a string otherwise.
pub open spec fn operand_of(s: Seq<char>) -> Operand {
    let t = trim(s);
    if t == null_word() {
        Operand::Null
    } else if is_quoted(t) {
        Operand::Text(t.subrange(1, t.len() - 1))
    } else {
        match double_of_text(t) {
            Some(bits) => Operand::Number { text: t, bits },
            None => Operand::Text(t),
        }
    }
}

/// The predicate that the content of one pair of brackets writes, or `None`
/// where it holds no operator or nothing before it.
pub open spec fn filter_of(s: Seq<char>) -> Option<Filter> {
    let t = trim(s);
    match split_point(t) {
        None => None,
        Some((op, p)) => {
            let field = trim(t.subrange(0, p));
            let value = t.subrange(p + op_text(op).len(), t.len() as int);
            if field.len() == 0 {
                None
            } else {
                Some(Filter { field, op, value: operand_of(value) })
            }
        },
    }
}

/// What follows a closing bracket, without the one dot that may lead it.
pub open spec fn after_bracket(rest: Seq<char>) -> Seq<char> {
    if rest.len() > 0 && rest[0] == '.' {
        rest.drop_first()
    } else {
        rest
    }
}

/// The segments that a query string writes, or `None` where it is malformed.
pub open spec fn segments_of(s: Seq<char>) -> Option<Seq<Segment>>
    decreases s.len(),
{
    if s.len() == 0 {
        Some(Seq::empty())
    } else {
        match index_of(s, '[') {
            None => plain_segments(s),
            Some(b) => if 0 <= b < s.len() {
                let after = s.subrange(b + 1, s.len() as int);
                match (plain_segments(s.subrange(0, b)), index_of(after, ']')) {
                    (Some(head), Some(e)) => if 0 <= e < after.len() {
                        let rest = after_bracket(after.subrange(e + 1, after.len() as int));
                        match (filter_of(after.subrange(0, e)), segments_of(rest)) {
                            (Some(f), Some(tail)) => Some(head + seq![Segment::Filter(f)] + tail),
                            _ => None,
                        }
                    } else {
                        None
                    },
                    _ => None,
                }
            } else {
                None
            },
        }
    }
}

/// Whether a path holds a wildcard.
pub open spec fn has_wildcard(p: Seq<Segment>) -> bool {
    exists|i: int| 0 <= i < p.len() && p[i] is Wildcard
}

/// Whether a path holds a filter.
pub open spec fn has_filter(p: Seq<Segment>) -> bool {
    exists|i: int| 0 <= i < p.len() && p[i] is Filter
}

/// Whether a path holds a filter that is not its last segment.
pub open spec fn has_filter_with_continuation(p: Seq<Segment>) -> bool {
    exists|i: int| 0 <= i < p.len() - 1 && p[i] is Filter
}

/// Whether a path must be executed by fanning out: it holds a wildcard, or a
/// filter with segments after it.
pub open spec fn needs_fan_out(p: Seq<Segment>) -> bool {
    has_wildcard(p) || has_filter_with_continuation(p)
}

/// `head` followed by what `tail` holds, where it holds something.
pub open spec fn extended(head: Seq<Segment>, tail: Option<Seq<Segment>>) -> Option<
    Seq<Segment>,
> {
    match tail {
        Some(t) => Some(head + t),
        None => None,
    }
}

proof fn lemma_view_push(v: Seq<PathSegment>, x: PathSegment)
    ensures
        segments_view(v.push(x)) == segments_view(v).push(x@),
{
    assert(segments_view(v.push(x)) =~= segments_view(v).push(x@));
}

/// Reads one non-empty dot-separated part.
fn read_segment(part: &Vec<char>) -> (r: PathSegment)
    ensures
        r@ == segment_of(part@),
{
    if part.len() == 1 && part[0] == '*' {
        assert(part@ =~= seq!['*']);
        return PathSegment::Wildcard;
    }
    assert(part@ != seq!['*']) by {
        if part@ == seq!['*'] {
            assert(part@.len() == 1);
            assert(part@[0] == seq!['*'][0]);
        }
    }
    match read_index(part) {
        Some(i) => PathSegment::Index(i),
        None => {
            assert(part@.subrange(0, part.len() as int) =~= part@);
            PathSegment::Field(to_text(part, 0, part.len()))
        },
    }
}

/// Reads the segments of a run of dot-separated parts.
fn read_plain(chunk: &Vec<char>) -> (r: Option<Vec<PathSegment>>)
    ensures
        match r {
            Some(segs) => plain_segments(chunk@) == Some(segments_view(segs@)),
            None => plain_segments(chunk@) is None,
        },
{
    let n = chunk.len();
    let mut out: Vec<PathSegment> = Vec::new();
    let mut i: usize = 0;
    assert(chunk@.subrange(0, n as int) =~= chunk@);
    assert(segments_view(out@) =~= Seq::<Segment>::empty());
    loop
        invariant
            i <= n,
            n == chunk.len(),
            plain_segments(chunk@) == extended(
                segments_view(out@),
                plain_segments(chunk@.subrange(i as int, n as int)),
            ),
        decreases n - i,
    {
        let ghost rest = chunk@.subrange(i as int, n as int);
        let ghost acc = segments_view(out@);
        match find_char(chunk, i, '.') {
            None => {
                if i < n {
                    let part = slice(chunk, i, n);
                    let seg = read_segment(&part);
                    proof {
                        lemma_view_push(out@, seg);
                        assert(acc + seq![seg@] =~= acc.push(seg@));
                    }
                    out.push(seg);
                } else {
                    assert(acc + Seq::<Segment>::empty() =~= acc);
                }
                return Some(out);
            },
            Some(j) => {
                if j == i {
                    return None;
                }
                let part = slice(chunk, i, j);
                let seg = read_segment(&part);
                proof {
                    lemma_view_push(out@, seg);
                    assert(rest.subrange(0, j - i) =~= part@);
                    assert(rest.subrange(j - i + 1, rest.len() as int) =~= chunk@.subrange(
                        j + 1,
                        n as int,
                    ));
                    if let Some(t) = plain_segments(chunk@.subrange(j + 1, n as int)) {
                        assert(acc + (seq![seg@] + t) =~= acc.push(seg@) + t);
                    }
                }
                out.push(seg);
                i = j + 1;
            },
        }
    }
}

pub(crate) fn op_pattern(op: FilterOp) -> (r: Vec<char>)
    ensures
        r@ == op_text(op),
{
    let r = match op {
        FilterOp::Gte => vec!['>', '='],
        FilterOp::Lte => vec!['<', '='],
        FilterOp::Ne => vec!['!', '='],
        FilterOp::Eq => vec!['=', '='],
        FilterOp::Gt => vec!['>'],
        FilterOp::Lt => vec!['<'],
        FilterOp::Contains => vec!['~'],
    };
    assert(r@ =~= op_text(op));
    r
}

fn find_op(t: &Vec<char>, op: FilterOp) -> (r: Option<usize>)
    ensures
        match r {
            Some(p) => find(t@, op_text(op)) == Some(p as int) && p + op_text(op).len() <= t.len(),
            None => find(t@, op_text(op)) is None,
        },
{
    let pat = op_pattern(op);
    find_pattern(t, &pat)
}

/// Finds the operator at which a trimmed predicate is split.
fn find_split(t: &Vec<char>) -> (r: Option<(FilterOp, usize)>)
    ensures
        match r {
            Some((op, p)) => split_point(t@) == Some((op, p as int)) && p + op_text(op).len()
                <= t.len(),
            None => split_point(t@) is None,
        },
{
    if let Some(p) = find_op(t, FilterOp::Gte) {
        return Some((FilterOp::Gte, p));
    }
    if let Some(p) = find_op(t, FilterOp::Lte) {
        return Some((FilterOp::Lte, p));
    }
    if let Some(p) = find_op(t, FilterOp::Ne) {
        return Some((FilterOp::Ne, p));
    }
    if let Some(p) = find_op(t, FilterOp::Eq) {
        return Some((FilterOp::Eq, p));
    }
    if let Some(p) = find_op(t, FilterOp::Gt) {
        return Some((FilterOp::Gt, p));
    }
    if let Some(p) = find_op(t, FilterOp::Lt) {
        return Some((FilterOp::Lt, p));
    }
    if let Some(p) = find_op(t, FilterOp::Contains) {
        return Some((FilterOp::Contains, p));
    }
    None
}

fn is_null_word(t: &Vec<char>) -> (r: bool)
    ensures
        r == (t@ == null_word()),
{
    if t.len() == 4 && t[0] == 'n' && t[1] == 'u' && t[2] == 'l' && t[3] == 'l' {
        assert(t@ =~= null_word());
        true
    } else {
        assert(t@ != null_word()) by {
            if t@ == null_word() {
                assert(t@.len() == 4);
                assert(t@[0] == 'n' && t@[1] == 'u' && t@[2] == 'l' && t@[3] == 'l');
            }
        }
        false
    }
}

fn quoted(t: &Vec<char>) -> (r: bool)
    ensures
        r == is_quoted(t@),
{
    let n = t.len();
    n >= 2 && ((t[0] == '"' && t[n - 1] == '"') || (t[0] == '\'' && t[n - 1] == '\''))
}

/// Reads the right-hand side of a predicate.
fn read_operand(s: &Vec<char>) -> (r: FilterValue)
    ensures
        r@ == operand_of(s@),
{
    let t = trimmed(s);
    if is_null_word(&t) {
        return FilterValue::Null;
    }
    if quoted(&t) {
        return FilterValue::String(to_text(&t, 1, t.len() - 1));
    }
    assert(t@.subrange(0, t.len() as int) =~= t@);
    let token = to_text(&t, 0, t.len());
    match parse_double(&t) {
        Some(bits) => FilterValue::Number(NumberLiteral { text: token, bits }),
        None => FilterValue::String(token),
    }
}

/// Reads the content of one pair of brackets.
fn read_filter(s: &Vec<char>) -> (r: Result<FilterExpr, Error>)
    ensures
        match r {
            Ok(f) => filter_of(s@) == Some(f@),
            Err(e) => filter_of(s@) is None && e.failure() == Some(
                Failure::InvalidQuery,
            ),
        },
{
    let t = trimmed(s);
    match find_split(&t) {
        None => {
            assert(t@.subrange(0, t.len() as int) =~= t@);
            let shown = to_text(&t, 0, t.len());
            let mut reason = "Invalid filter syntax: '".to_owned();
            reason.append(shown.as_str());
            reason.append("'. Expected: field op value");
            Err(Error::InvalidQuery(reason))
        },
        Some((op, p)) => {
            let left = slice(&t, 0, p);
            let field = trimmed(&left);
            if field.len() == 0 {
                return Err(Error::invalid_query("Filter field is empty"));
            }
            let len = op_pattern(op).len();
            let right = slice(&t, p + len, t.len());
            let value = read_operand(&right);
            assert(field@.subrange(0, field.len() as int) =~= field@);
            Ok(FilterExpr { field: to_text(&field, 0, field.len()), op, value })
        },
    }
}

/// What is read of a pair of brackets: the predicate in them, and where the
/// query goes on after them.
pub open spec fn bracket_of(after: Seq<char>) -> Option<
    (Filter, Seq<char>),
> {
    match index_of(after, ']') {
        Some(e) => if 0 <= e < after.len() {
            match filter_of(after.subrange(0, e)) {
                Some(f) => Some((f, after_bracket(after.subrange(e + 1, after.len() as int)))),
                None => None,
            }
        } else {
            None
        },
        None => None,
    }
}

/// Reads the brackets that open at `open`: the predicate in them, and the
/// place at which the query goes on.
fn read_bracket(chars: &Vec<char>, open: usize) -> (r: Result<
    (FilterExpr, usize),
    Error,
>)
    requires
        open < chars.len(),
    ensures
        match r {
            Ok((filter, next)) => open < next <= chars.len() && bracket_of(
                chars@.subrange(open + 1, chars.len() as int),
                            ) == Some((filter@, chars@.subrange(next as int, chars.len() as int))),
            Err(e) => bracket_of(chars@.subrange(open + 1, chars.len() as int)) is None
                && e.failure() == Some(Failure::InvalidQuery),
        },
{
    let n = chars.len();
    let ghost after = chars@.subrange(open + 1, n as int);
    let close = match find_char(chars, open + 1, ']') {
        None => {
            return Err(Error::invalid_query("Unclosed bracket in filter"));
        },
        Some(e) => e,
    };
    let content = slice(chars, open + 1, close);
    assert(after.subrange(0, close - (open + 1)) =~= content@);
    let filter = match read_filter(&content) {
        Err(e) => {
            return Err(e);
        },
        Ok(f) => f,
    };
    let ghost tail = after.subrange(close - (open + 1) + 1, after.len() as int);
    assert(tail =~= chars@.subrange(close + 1, n as int));
    let mut next = close + 1;
    if next < n && chars[next] == '.' {
        assert(tail[0] == '.');
        assert(tail.drop_first() =~= chars@.subrange(next + 1, n as int));
        next = next + 1;
    }
    Ok((filter, next))
}

/// `segments_of` on a string that holds something, in one step.
proof fn lemma_segments_of_step(s: Seq<char>)
    requires
        s.len() > 0,
    ensures
        segments_of(s) == (match index_of(s, '[') {
            None => plain_segments(s),
            Some(b) => if 0 <= b < s.len() {
                match (
                    plain_segments(s.subrange(0, b)),
                    bracket_of(s.subrange(b + 1, s.len() as int)),
                ) {
                    (Some(head), Some((f, rest))) => extended(
                        head.push(Segment::Filter(f)),
                        segments_of(rest),
                    ),
                    _ => None,
                }
            } else {
                None
            },
        }),
{
    if let Some(b) = index_of(s, '[') {
        if 0 <= b < s.len() {
            if let (Some(head), Some((f, rest))) = (
                plain_segments(s.subrange(0, b)),
                bracket_of(s.subrange(b + 1, s.len() as int)),
            ) {
                assert(head + seq![Segment::Filter(f)] =~= head.push(Segment::Filter(f)));
            }
        }
    }
}

/// Reads the query from `pos` up to and with its next pair of brackets, or to
/// its end where no bracket is left.
fn read_step(chars: &Vec<char>, pos: usize) -> (r: Result<
    (Vec<PathSegment>, usize),
    Error,
>)
    requires
        pos < chars.len(),
    ensures
        match r {
            Ok((added, next)) => pos < next <= chars.len() && segments_of(
                chars@.subrange(pos as int, chars.len() as int),
                            ) == extended(
                segments_view(added@),
                segments_of(chars@.subrange(next as int, chars.len() as int)),
            ),
            Err(e) => segments_of(chars@.subrange(pos as int, chars.len() as int))
                is None && e.failure() == Some(Failure::InvalidQuery),
        },
{
    let n = chars.len();
    let ghost rest = chars@.subrange(pos as int, n as int);
    proof {
        lemma_segments_of_step(rest);
    }
    match find_char(chars, pos, '[') {
        None => {
            let chunk = slice(chars, pos, n);
            match read_plain(&chunk) {
                None => Err(Error::invalid_query("Empty path segment (consecutive dots?)")),
                Some(added) => {
                    proof {
                        assert(chars@.subrange(n as int, n as int).len() == 0);
                        assert(segments_view(added@) + Seq::<Segment>::empty() =~= segments_view(
                            added@,
                        ));
                    }
                    Ok((added, n))
                },
            }
        },
        Some(b) => {
            let chunk = slice(chars, pos, b);
            proof {
                assert(rest.subrange(0, b - pos) =~= chunk@);
                assert(rest.subrange(b - pos + 1, rest.len() as int) =~= chars@.subrange(
                    b + 1,
                    n as int,
                ));
            }
            let mut added = match read_plain(&chunk) {
                None => {
                    return Err(Error::invalid_query("Empty path segment (consecutive dots?)"));
                },
                Some(head) => head,
            };
            match read_bracket(chars, b) {
                Err(e) => Err(e),
                Ok((filter, next)) => {
                    proof {
                        lemma_view_push(added@, PathSegment::Filter(filter));
                    }
                    added.push(PathSegment::Filter(filter));
                    Ok((added, next))
                },
            }
        },
    }
}

impl QueryPath {
    /// Parse a single path segment (without filter). Nothing is no segment.
    pub fn parse_segment(s: &str) -> (r: Result<PathSegment, Error>)
        ensures
            match r {
                Ok(segment) => s@.len() > 0 && segment@ == segment_of(s@),
                Err(e) => s@.len() == 0 && e.failure() == Some(Failure::InvalidQuery),
            },
    {
        let part = to_chars(s);
        if part.len() == 0 {
            return Err(Error::invalid_query("Empty path segment (consecutive dots?)"));
        }
        Ok(read_segment(&part))
    }

    /// Parse a filter expression inside brackets: a field, an operator and a
    /// value. The value is read as `parse_filter_value` reads it.
    pub fn parse_filter(s: &str) -> (r: Result<FilterExpr, Error>)
        ensures
            match r {
                Ok(f) => filter_of(s@) == Some(f@),
                Err(e) => filter_of(s@) is None && e.failure() == Some(
                    Failure::InvalidQuery,
                ),
            },
    {
        let content = to_chars(s);
        read_filter(&content)
    }

    /// Parse a filter value: `null`, a string in quotes, a number where the
    /// token is read as a double, and else the token as a string.
    pub fn parse_filter_value(s: &str) -> (r: Result<
        FilterValue,
        Error,
    >)
        ensures
            r is Ok,
            r->Ok_0@ == operand_of(s@),
    {
        let token = to_chars(s);
        Ok(read_operand(&token))
    }

    /// Parse a dot-notation query path, with filters in brackets.
    pub fn parse(input: &str) -> (r: Result<QueryPath, Error>)
        ensures
            match r {
                Ok(p) => segments_of(input@) == Some(p@),
                Err(e) => segments_of(input@) is None && e.failure() == Some(
                    Failure::InvalidQuery,
                ),
            },
    {
        let chars = to_chars(input);
        let n = chars.len();
        let mut segments: Vec<PathSegment> = Vec::new();
        let mut pos: usize = 0;
        assert(chars@.subrange(0, n as int) =~= chars@);
        assert(segments_view(segments@) =~= Seq::<Segment>::empty());
        while pos < n
            invariant
                pos <= n,
                n == chars.len(),
                chars@ == input@,
                segments_of(input@) == extended(
                    segments_view(segments@),
                    segments_of(chars@.subrange(pos as int, n as int)),
                ),
            decreases n - pos,
        {
            let ghost before = segments_view(segments@);
            match read_step(&chars, pos) {
                Err(e) => {
                    return Err(e);
                },
                Ok((mut added, next)) => {
                    proof {
                        let more = segments_view(added@);
                        assert(segments_view(segments@ + added@) =~= before + more);
                        if let Some(t) = segments_of(chars@.subrange(next as int, n as int)) {
                            assert(before + (more + t) =~= (before + more) + t);
                        }
                    }
                    segments.append(&mut added);
                    pos = next;
                },
            }
        }
        assert(segments_view(segments@) + Seq::<Segment>::empty() =~= segments_view(segments@));
        Ok(QueryPath { segments })
    }

    /// Whether this path holds a wildcard.
    pub fn has_wildcard(&self) -> (r: bool)
        ensures
            r == has_wildcard(self@),
    {
        let mut i: usize = 0;
        while i < self.segments.len()
            invariant
                i <= self.segments.len(),
                forall|j: int| 0 <= j < i ==> !(self@[j] is Wildcard),
            decreases self.segments.len() - i,
        {
            if let PathSegment::Wildcard = self.segments[i] {
                assert(self@[i as int] is Wildcard);
                return true;
            }
            i += 1;
        }
        false
    }

    /// Whether this path holds a filter.
    pub fn has_filter(&self) -> (r: bool)
        ensures
            r == has_filter(self@),
    {
        let mut i: usize = 0;
        while i < self.segments.len()
            invariant
                i <= self.segments.len(),
                forall|j: int| 0 <= j < i ==> !(self@[j] is Filter),
            decreases self.segments.len() - i,
        {
            if let PathSegment::Filter(_) = self.segments[i] {
                assert(self@[i as int] is Filter);
                return true;
            }
            i += 1;
        }
        false
    }

    /// Whether this path holds a filter that is followed by more segments.
    pub fn has_filter_with_continuation(&self) -> (r: bool)
        ensures
            r == has_filter_with_continuation(self@),
    {
        let n = self.segments.len();
        if n == 0 {
            return false;
        }
        let mut i: usize = 0;
        while i < n - 1
            invariant
                i <= n - 1,
                n == self.segments.len(),
                forall|j: int| 0 <= j < i ==> !(self@[j] is Filter),
            decreases n - i,
        {
            if let PathSegment::Filter(_) = self.segments[i] {
                assert(self@[i as int] is Filter);
                return true;
            }
            i += 1;
        }
        false
    }

    /// Whether this path has no segments.
    pub fn is_empty(&self) -> (r: bool)
        ensures
            r == (self@.len() == 0),
    {
        self.segments.len() == 0
    }
}

} // verus!
