//! Writing a path back in dot and bracket notation, and reading it again.

use crate::path::{
    after_bracket, extended, filter_of, is_quoted, null_word, op_pattern, op_text, operand_of,
    plain_segments, segment_of, segments_of, split_point, Filter,
    FilterExpr, FilterOp, FilterValue, Operand, PathSegment, QueryPath, Segment,
};
use crate::decimal::double_of_text;
use crate::text::{
    digits_of, find, first_at, first_occurrence, index_of, is_digit, is_tight,
    is_whitespace, lemma_digits_of, lemma_find, lemma_find_none, lemma_find_some, lemma_index_of,
    lemma_index_of_none, lemma_index_of_some, lemma_parse_index_digits, lemma_trim,
    lemma_trim_padded, lemma_trim_tight, occurs_at, parse_index, push_digits, to_chars, to_text,
    trim,
};
use vstd::prelude::*;

verus! {

/// The text of the right-hand side of a predicate: `null`, a string in
/// double quotes, a number as it was written.
pub open spec fn render_operand(v: Operand) -> Seq<char> {
    match v {
        Operand::Null => null_word(),
        Operand::Text(s) => seq!['"'] + s + seq!['"'],
        Operand::Number { text, bits } => text,
    }
}

/// A field, an operator and a value with one space between them; nothing
/// follows the operator where the value is written with no character.
pub open spec fn glue(field: Seq<char>, op: Seq<char>, value: Seq<char>) -> Seq<char> {
    field + seq![' '] + op + (if value.len() == 0 {
        Seq::empty()
    } else {
        seq![' '] + value
    })
}

/// The text of a predicate.
pub open spec fn render_filter(f: Filter) -> Seq<char> {
    glue(f.field, op_text(f.op), render_operand(f.value))
}

/// The text of a segment that is no filter.
pub open spec fn render_plain(seg: Segment) -> Seq<char> {
    match seg {
        Segment::Field(name) => name,
        Segment::Index(i) => digits_of(i as nat),
        Segment::Wildcard => seq!['*'],
        Segment::Filter(_) => Seq::empty(),
    }
}

/// The text of a path: its segments in order, a filter in brackets, and a
/// dot in front of every segment but the first that is no filter.
pub open spec fn render(p: Seq<Segment>) -> Seq<char>
    decreases p.len(),
{
    if p.len() == 0 {
        Seq::empty()
    } else {
        let rest = p.drop_first();
        let tail = if rest.len() > 0 && !(rest[0] is Filter) {
            seq!['.'] + render(rest)
        } else {
            render(rest)
        };
        match p[0] {
            Segment::Filter(f) => seq!['['] + render_filter(f) + seq![']'] + tail,
            seg => render_plain(seg) + tail,
        }
    }
}

/// The characters that operators are written with.
pub open spec fn is_op_char(c: char) -> bool {
    c == '>' || c == '<' || c == '!' || c == '=' || c == '~'
}

/// The place of an operator in the order in which operators are looked for.
pub open spec fn rank(op: FilterOp) -> int {
    match op {
        FilterOp::Gte => 0,
        FilterOp::Lte => 1,
        FilterOp::Ne => 2,
        FilterOp::Eq => 3,
        FilterOp::Gt => 4,
        FilterOp::Lt => 5,
        FilterOp::Contains => 6,
    }
}

/// `pat` stands nowhere in `s`.
pub open spec fn free_of(s: Seq<char>, pat: Seq<char>) -> bool {
    forall|j: int| !occurs_at(s, pat, j)
}

/// The first character of an operator.
pub open spec fn first_char(op: FilterOp) -> char {
    match op {
        FilterOp::Gte | FilterOp::Gt => '>',
        FilterOp::Lte | FilterOp::Lt => '<',
        FilterOp::Ne => '!',
        FilterOp::Eq => '=',
        FilterOp::Contains => '~',
    }
}

/// An operator is one or two operator characters; the second is `=`.
proof fn lemma_op_text(op: FilterOp)
    ensures
        1 <= op_text(op).len() <= 2,
        forall|k: int| 0 <= k < op_text(op).len() ==> is_op_char(#[trigger] op_text(op)[k]),
        rank(op) < 4 <==> op_text(op).len() == 2,
        op_text(op)[0] == first_char(op),
        op_text(op).len() == 2 ==> op_text(op)[1] == '=',
{
}

/// Two operators that are written alike are the same.
proof fn lemma_op_text_distinct(a: FilterOp, b: FilterOp)
    requires
        op_text(a) == op_text(b),
    ensures
        a == b,
{
    lemma_op_text(a);
    lemma_op_text(b);
    assert(first_char(a) == first_char(b));
    assert(op_text(a).len() == op_text(b).len());
}

/// `split_point` in terms of `find`: the operator is found, and no operator
/// that is looked for before it is.
proof fn lemma_split_point(t: Seq<char>, op: FilterOp, p: int)
    ensures
        split_point(t) == Some((op, p)) <==> (find(t, op_text(op)) == Some(p) && forall|
            other: FilterOp,
        |
            rank(other) < rank(op) ==> find(t, #[trigger] op_text(other)) is None),
{
    if split_point(t) == Some((op, p)) {
        assert forall|other: FilterOp| rank(other) < rank(op) implies find(
            t,
            #[trigger] op_text(other),
        ) is None by {
            match other {
                FilterOp::Gte => {},
                FilterOp::Lte => {},
                FilterOp::Ne => {},
                FilterOp::Eq => {},
                FilterOp::Gt => {},
                FilterOp::Lt => {},
                FilterOp::Contains => {},
            }
        }
    }
    if find(t, op_text(op)) == Some(p) && forall|other: FilterOp|
        rank(other) < rank(op) ==> find(t, #[trigger] op_text(other)) is None {
        assert(rank(FilterOp::Gte) == 0);
        assert(rank(FilterOp::Lte) == 1);
        assert(rank(FilterOp::Ne) == 2);
        assert(rank(FilterOp::Eq) == 3);
        assert(rank(FilterOp::Gt) == 4);
        assert(rank(FilterOp::Lt) == 5);
        assert(rank(FilterOp::Contains) == 6);
    }
}

/// A pattern that stands in a stretch of `t` stands in `t`.
proof fn lemma_occurs_within(t: Seq<char>, a: int, b: int, pat: Seq<char>, j: int)
    requires
        0 <= a <= b <= t.len(),
        occurs_at(t.subrange(a, b), pat, j),
    ensures
        occurs_at(t, pat, a + j),
        a + j + pat.len() <= b,
{
    assert(t.subrange(a, b).subrange(j, j + pat.len()) =~= t.subrange(a + j, a + j + pat.len()));
}

/// A pattern that stands in `x c y` and does not hold `c` stands in `x` or
/// in `y`.
proof fn lemma_occurs_around(x: Seq<char>, c: char, y: Seq<char>, pat: Seq<char>, j: int)
    requires
        pat.len() > 0,
        forall|k: int| 0 <= k < pat.len() ==> pat[k] != c,
        occurs_at(x + seq![c] + y, pat, j),
    ensures
        occurs_at(x, pat, j) || (j > x.len() && occurs_at(y, pat, j - x.len() - 1)),
{
    let s = x + seq![c] + y;
    let w = s.subrange(j, j + pat.len());
    if j <= x.len() < j + pat.len() {
        assert(w[x.len() - j] == s[x.len() as int]);
        assert(pat[x.len() - j] == c);
    } else if j + pat.len() <= x.len() {
        assert(w =~= x.subrange(j, j + pat.len()));
    } else {
        assert(w =~= y.subrange(j - x.len() - 1, j - x.len() - 1 + pat.len()));
    }
}

/// Whether every character of an operator text is an operator character.
pub open spec fn is_op_pattern(pat: Seq<char>) -> bool {
    pat.len() > 0 && forall|k: int| 0 <= k < pat.len() ==> is_op_char(#[trigger] pat[k])
}

/// The text of a value is read as that value, and neither begins nor ends
/// with white space.
proof fn lemma_operand_round_trip(right: Seq<char>)
    ensures
        is_tight(render_operand(operand_of(right))),
        operand_of(render_operand(operand_of(right))) == operand_of(
            right,
                    ),
{
    let tv = trim(right);
    let v = operand_of(right);
    let rv = render_operand(v);
    lemma_trim(right);
    if tv == null_word() {
        assert(rv[0] == 'n' && rv.last() == 'l');
        lemma_trim_tight(rv);
    } else if is_quoted(tv) || double_of_text(tv) is None {
        let s = v->Text_0;
        assert(rv[0] == '"' && rv.last() == '"');
        lemma_trim_tight(rv);
        assert(rv.subrange(1, rv.len() - 1) =~= s);
        assert(rv != null_word()) by {
            assert(null_word()[0] == 'n');
        }
    } else {
        lemma_trim_tight(tv);
    }
}

/// An operator text that stands nowhere in the source of a value stands
/// nowhere in the text of the value.
proof fn lemma_operand_free(right: Seq<char>, pat: Seq<char>)
    requires
        is_op_pattern(pat),
        free_of(right, pat),
    ensures
        free_of(render_operand(operand_of(right)), pat),
{
    let tv = trim(right);
    let v = operand_of(right);
    let rv = render_operand(v);
    let (lo, hi) = lemma_trim(right);
    assert forall|j: int| !occurs_at(rv, pat, j) by {
        if occurs_at(rv, pat, j) {
            if tv == null_word() {
                assert(rv.subrange(j, j + pat.len())[0] == rv[j]);
                assert(is_op_char(pat[0]));
            } else if is_quoted(tv) || double_of_text(tv) is None {
                let s = v->Text_0;
                let (a, b) = if is_quoted(tv) {
                    (lo + 1, hi - 1)
                } else {
                    (lo, hi)
                };
                assert(s =~= right.subrange(a, b));
                let x = seq!['"'] + s;
                assert(rv =~= x + seq!['"'] + Seq::<char>::empty());
                assert(is_op_char(pat[0]));
                lemma_occurs_around(x, '"', Seq::empty(), pat, j);
                assert(x =~= Seq::<char>::empty() + seq!['"'] + s);
                lemma_occurs_around(Seq::empty(), '"', s, pat, j);
                lemma_occurs_within(right, a, b, pat, j - 1);
            } else {
                lemma_occurs_within(right, lo, hi, pat, j);
            }
        }
    }
}

/// A closing bracket that is not in the source of a value is not in the text
/// of the value.
proof fn lemma_operand_no_bracket(right: Seq<char>)
    requires
        forall|i: int| 0 <= i < right.len() ==> right[i] != ']',
    ensures
        forall|i: int|
            0 <= i < render_operand(operand_of(right)).len() ==> render_operand(
                operand_of(right),
            )[i] != ']',
{
    let tv = trim(right);
    let v = operand_of(right);
    let rv = render_operand(v);
    let (lo, hi) = lemma_trim(right);
    assert forall|i: int| 0 <= i < rv.len() implies rv[i] != ']' by {
        if tv == null_word() {
        } else if is_quoted(tv) || double_of_text(tv) is None {
            let s = v->Text_0;
            let (a, b) = if is_quoted(tv) {
                (lo + 1, hi - 1)
            } else {
                (lo, hi)
            };
            assert(s =~= right.subrange(a, b));
            if 0 < i < rv.len() - 1 {
                assert(rv[i] == s[i - 1]);
                assert(s[i - 1] == right[a + i - 1]);
            }
        } else {
            assert(rv[i] == right[lo + i]);
        }
    }
}

/// An operator text that stands in another operator text is it, or is
/// looked for after it.
proof fn lemma_op_in_op(op: FilterOp, other: FilterOp, j: int)
    requires
        occurs_at(op_text(op), op_text(other), j),
    ensures
        rank(other) >= rank(op),
{
    lemma_op_text(op);
    lemma_op_text(other);
    if op_text(other).len() == op_text(op).len() {
        assert(op_text(op).subrange(0, op_text(op).len() as int) =~= op_text(op));
        lemma_op_text_distinct(op, other);
    }
}

/// How a glued predicate is split: at its operator, into its field and its
/// value.
proof fn lemma_glue_split(field: Seq<char>, op: FilterOp, rv: Seq<char>)
    requires
        field.len() > 0,
        is_tight(field),
        is_tight(rv),
        free_of(field, op_text(op)),
        forall|other: FilterOp|
            rank(other) < rank(op) ==> free_of(field, #[trigger] op_text(other)) && free_of(
                rv,
                op_text(other),
            ),
    ensures
        trim(glue(field, op_text(op), rv)) == glue(field, op_text(op), rv),
        split_point(glue(field, op_text(op), rv)) == Some((op, field.len() as int + 1)),
        trim(glue(field, op_text(op), rv).subrange(0, field.len() as int + 1)) == field,
        trim(
            glue(field, op_text(op), rv).subrange(
                field.len() as int + 1 + op_text(op).len(),
                glue(field, op_text(op), rv).len() as int,
            ),
        ) == rv,
{
    let pat = op_text(op);
    let n = field.len() as int;
    let tail = if rv.len() == 0 {
        Seq::<char>::empty()
    } else {
        seq![' '] + rv
    };
    let r = glue(field, pat, rv);
    let y = pat + tail;
    lemma_op_text(op);
    assert(r =~= field + seq![' '] + y);
    assert(r[0] == field[0]);
    assert(!is_whitespace(pat.last()));
    if rv.len() == 0 {
        assert(r.last() == pat.last());
    } else {
        assert(r.last() == rv.last());
    }
    lemma_trim_tight(r);
    assert(r.subrange(n + 1, n + 1 + pat.len()) =~= pat);
    assert(first_occurrence(r, pat, n + 1)) by {
        assert forall|j: int| 0 <= j < n + 1 implies !occurs_at(r, pat, j) by {
            if occurs_at(r, pat, j) {
                lemma_occurs_around(field, ' ', y, pat, j);
            }
        }
    }
    lemma_find_some(r, pat, n + 1);
    assert forall|other: FilterOp| rank(other) < rank(op) implies find(
        r,
        #[trigger] op_text(other),
    ) is None by {
        let q = op_text(other);
        lemma_op_text(other);
        assert forall|j: int| 0 <= j <= r.len() implies !occurs_at(r, q, j) by {
            if occurs_at(r, q, j) {
                lemma_occurs_around(field, ' ', y, q, j);
                let k = j - n - 1;
                if rv.len() == 0 {
                    assert(y =~= pat);
                    lemma_op_in_op(op, other, k);
                } else {
                    assert(y =~= pat + seq![' '] + rv);
                    lemma_occurs_around(pat, ' ', rv, q, k);
                    if occurs_at(pat, q, k) {
                        lemma_op_in_op(op, other, k);
                    }
                }
            }
        }
        lemma_find_none(r, q);
    }
    lemma_split_point(r, op, n + 1);
    assert(r.subrange(0, n + 1) =~= Seq::<char>::empty() + field + seq![' ']);
    lemma_trim_padded(Seq::empty(), field, seq![' ']);
    let rest = r.subrange(n + 1 + pat.len(), r.len() as int);
    if rv.len() == 0 {
        assert(rest =~= Seq::<char>::empty());
        assert(rest =~= rv);
        lemma_trim_tight(rv);
    } else {
        assert(rest =~= seq![' '] + rv + Seq::<char>::empty());
        lemma_trim_padded(seq![' '], rv, Seq::empty());
    }
}

/// What holds of a predicate that was read from brackets: its text is read
/// as the predicate, and holds no closing bracket.
pub open spec fn is_readable_filter(f: Filter) -> bool {
    &&& filter_of(render_filter(f)) == Some(f)
    &&& forall|i: int| 0 <= i < render_filter(f).len() ==> render_filter(f)[i] != ']'
}

/// A predicate that was read from text without a closing bracket is read
/// again from its own text.
pub proof fn lemma_filter_round_trip(content: Seq<char>)
    requires
        filter_of(content) is Some,
        forall|i: int| 0 <= i < content.len() ==> content[i] != ']',
    ensures
        is_readable_filter(filter_of(content)->Some_0),
{
    let f = filter_of(content)->Some_0;
    let t = trim(content);
    let (ta, tb) = lemma_trim(content);
    let op = split_point(t)->Some_0.0;
    let p = split_point(t)->Some_0.1;
    let pat = op_text(op);
    lemma_split_point(t, op, p);
    lemma_find(t, pat);
    lemma_op_text(op);
    let left = t.subrange(0, p);
    let (fa, fb) = lemma_trim(left);
    let field = trim(left);
    assert(field =~= t.subrange(fa, fb));
    let q = p + pat.len();
    let right = t.subrange(q, t.len() as int);
    let v = operand_of(right);
    let rv = render_operand(v);
    assert(f == Filter { field, op, value: v });
    lemma_operand_round_trip(right);
    assert(free_of(field, pat)) by {
        assert forall|j: int| !occurs_at(field, pat, j) by {
            if occurs_at(field, pat, j) {
                lemma_occurs_within(t, fa, fb, pat, j);
            }
        }
    }
    assert forall|other: FilterOp| rank(other) < rank(op) implies free_of(
        field,
        #[trigger] op_text(other),
    ) && free_of(rv, op_text(other)) by {
        let o = op_text(other);
        lemma_op_text(other);
        lemma_find(t, o);
        assert forall|j: int| !occurs_at(field, o, j) by {
            if occurs_at(field, o, j) {
                lemma_occurs_within(t, fa, fb, o, j);
            }
        }
        assert(free_of(right, o)) by {
            assert forall|j: int| !occurs_at(right, o, j) by {
                if occurs_at(right, o, j) {
                    lemma_occurs_within(t, q, t.len() as int, o, j);
                }
            }
        }
        lemma_operand_free(right, o);
    }
    lemma_glue_split(field, op, rv);
    let r = render_filter(f);
    let n = field.len() as int;
    let again = r.subrange(n + 1 + pat.len(), r.len() as int);
    assert(operand_of(again) == operand_of(rv)) by {
        lemma_trim_tight(rv);
    }
    assert(filter_of(r) == Some(f));
    assert forall|i: int| 0 <= i < right.len() implies right[i] != ']' by {
        assert(right[i] == content[ta + q + i]);
    }
    lemma_operand_no_bracket(right);
    assert forall|i: int| 0 <= i < r.len() implies r[i] != ']' by {
        if i < n {
            assert(r[i] == field[i]);
            assert(field[i] == content[ta + fa + i]);
        } else if i == n {
        } else if i < n + 1 + pat.len() {
            assert(r[i] == pat[i - n - 1]);
            assert(is_op_char(pat[i - n - 1]));
        } else {
            assert(rv.len() > 0);
            if i > n + 1 + pat.len() {
                assert(r[i] == rv[i - n - 2 - pat.len()]);
            }
        }
    }
}

/// Whether `s` holds the character `c`.
pub open spec fn has_char(s: Seq<char>, c: char) -> bool {
    exists|i: int| 0 <= i < s.len() && s[i] == c
}

/// What holds of a segment that was read from between dots: its text holds
/// something, no dot and no opening bracket, and is read as the segment.
pub open spec fn is_readable_plain(seg: Segment) -> bool {
    &&& !(seg is Filter)
    &&& render_plain(seg).len() > 0
    &&& !has_char(render_plain(seg), '.')
    &&& !has_char(render_plain(seg), '[')
    &&& segment_of(render_plain(seg)) == seg
}

/// What holds of a path that was read: each of its segments is read again
/// from its own text.
pub open spec fn is_readable(p: Seq<Segment>) -> bool {
    forall|i: int|
        0 <= i < p.len() ==> match #[trigger] p[i] {
            Segment::Filter(f) => is_readable_filter(f),
            seg => is_readable_plain(seg),
        }
}

/// A part between dots gives a segment that is read again from its own text.
proof fn lemma_part_readable(part: Seq<char>)
    requires
        part.len() > 0,
        !has_char(part, '.'),
        !has_char(part, '['),
    ensures
        is_readable_plain(segment_of(part)),
{
    let seg = segment_of(part);
    if part == seq!['*'] {
        let r = render_plain(seg);
        assert(r =~= seq!['*']);
        assert forall|i: int| 0 <= i < r.len() implies r[i] != '.' && r[i] != '[' by {}
    } else if let Some(i) = parse_index(part) {
        let d = digits_of(i as nat);
        lemma_digits_of(i as nat);
        lemma_parse_index_digits(i);
        assert(d != seq!['*']) by {
            assert(is_digit(d[0]));
        }
        assert forall|k: int| 0 <= k < d.len() implies d[k] != '.' && d[k] != '[' by {
            assert(is_digit(d[k]));
        }
    } else {
    }
}

/// The segments of a run of parts between dots are read again from their
/// own texts.
proof fn lemma_plain_segments_readable(chunk: Seq<char>)
    requires
        plain_segments(chunk) is Some,
        !has_char(chunk, '['),
    ensures
        is_readable(plain_segments(chunk)->Some_0),
        forall|i: int|
            0 <= i < plain_segments(chunk)->Some_0.len() ==> !(
            #[trigger] plain_segments(chunk)->Some_0[i] is Filter),
    decreases chunk.len(),
{
    let run = plain_segments(chunk)->Some_0;
    lemma_index_of(chunk, '.');
    match index_of(chunk, '.') {
        None => {
            if chunk.len() > 0 {
                lemma_part_readable(chunk);
                assert(run[0] == segment_of(chunk));
            }
        },
        Some(i) => {
            let part = chunk.subrange(0, i);
            let rest = chunk.subrange(i + 1, chunk.len() as int);
            assert(!has_char(part, '.')) by {
                if has_char(part, '.') {
                    let k = choose|k: int| 0 <= k < part.len() && part[k] == '.';
                    assert(chunk[k] == '.');
                }
            }
            assert(!has_char(part, '[')) by {
                if has_char(part, '[') {
                    let k = choose|k: int| 0 <= k < part.len() && part[k] == '[';
                    assert(chunk[k] == '[');
                }
            }
            assert(!has_char(rest, '[')) by {
                if has_char(rest, '[') {
                    let k = choose|k: int| 0 <= k < rest.len() && rest[k] == '[';
                    assert(chunk[i + 1 + k] == '[');
                }
            }
            lemma_part_readable(part);
            lemma_plain_segments_readable(rest);
            let tail = plain_segments(rest)->Some_0;
            assert(run == seq![segment_of(part)] + tail);
            assert forall|k: int| 0 <= k < run.len() implies (match #[trigger] run[k] {
                Segment::Filter(f) => is_readable_filter(f),
                seg => is_readable_plain(seg),
            }) && !(run[k] is Filter) by {
                if k > 0 {
                    assert(run[k] == tail[k - 1]);
                }
            }
        },
    }
}

/// A path that was read is read again, segment by segment, from its text.
pub proof fn lemma_segments_readable(s: Seq<char>)
    requires
        segments_of(s) is Some,
    ensures
        is_readable(segments_of(s)->Some_0),
    decreases s.len(),
{
    let p = segments_of(s)->Some_0;
    if s.len() > 0 {
        lemma_index_of(s, '[');
        match index_of(s, '[') {
            None => {
                assert(!has_char(s, '['));
                lemma_plain_segments_readable(s);
            },
            Some(b) => {
                let chunk = s.subrange(0, b);
                let after = s.subrange(b + 1, s.len() as int);
                lemma_index_of(after, ']');
                let e = index_of(after, ']')->Some_0;
                let content = after.subrange(0, e);
                let rest = after_bracket(after.subrange(e + 1, after.len() as int));
                assert(!has_char(chunk, '[')) by {
                    if has_char(chunk, '[') {
                        let k = choose|k: int| 0 <= k < chunk.len() && chunk[k] == '[';
                        assert(s[k] == '[');
                    }
                }
                lemma_plain_segments_readable(chunk);
                assert forall|i: int| 0 <= i < content.len() implies content[i] != ']' by {
                    assert(content[i] == after[i]);
                }
                lemma_filter_round_trip(content);
                lemma_segments_readable(rest);
                let head = plain_segments(chunk)->Some_0;
                let f = filter_of(content)->Some_0;
                let tail = segments_of(rest)->Some_0;
                assert(p == head + seq![Segment::Filter(f)] + tail);
                assert forall|i: int| 0 <= i < p.len() implies match #[trigger] p[i] {
                    Segment::Filter(f) => is_readable_filter(f),
                    seg => is_readable_plain(seg),
                } by {
                    if i < head.len() {
                        assert(p[i] == head[i]);
                    } else if i == head.len() {
                    } else {
                        assert(p[i] == tail[i - head.len() - 1]);
                    }
                }
            },
        }
    }
}

/// A part that stands alone is one segment.
proof fn lemma_plain_alone(name: Seq<char>)
    requires
        name.len() > 0,
        !has_char(name, '.'),
    ensures
        plain_segments(name) == Some(seq![segment_of(name)]),
{
    lemma_index_of_none(name, '.');
}

/// A part in front of a dot is one segment in front of the others.
proof fn lemma_plain_dot_join(name: Seq<char>, w: Seq<char>)
    requires
        name.len() > 0,
        !has_char(name, '.'),
    ensures
        plain_segments(name + seq!['.'] + w) == extended(
            seq![segment_of(name)],
            plain_segments(w),
        ),
{
    let s = name + seq!['.'] + w;
    let n = name.len() as int;
    assert(first_at(s, '.', n)) by {
        assert forall|j: int| 0 <= j < n implies s[j] != '.' by {
            assert(s[j] == name[j]);
        }
    }
    lemma_index_of_some(s, '.', n);
    assert(s.subrange(0, n) =~= name);
    assert(s.subrange(n + 1, s.len() as int) =~= w);
}

/// Reading a part, a dot and a query is reading the query, with the segment
/// of the part in front.
proof fn lemma_parse_dot_join(name: Seq<char>, u: Seq<char>)
    requires
        name.len() > 0,
        !has_char(name, '.'),
        !has_char(name, '['),
    ensures
        segments_of(name + seq!['.'] + u) == extended(
            seq![segment_of(name)],
            segments_of(u),
        ),
{
    let s = name + seq!['.'] + u;
    let n = name.len() as int;
    let seg = segment_of(name);
    lemma_index_of(u, '[');
    match index_of(u, '[') {
        None => {
            assert forall|j: int| 0 <= j < s.len() implies s[j] != '[' by {
                if j < n {
                    assert(s[j] == name[j]);
                } else if j > n {
                    assert(s[j] == u[j - n - 1]);
                }
            }
            lemma_index_of_none(s, '[');
            lemma_plain_dot_join(name, u);
            if u.len() == 0 {
                lemma_index_of_none(u, '.');
            }
        },
        Some(b) => {
            let at = n + 1 + b;
            assert(first_at(s, '[', at)) by {
                assert(s[at] == u[b]);
                assert forall|j: int| 0 <= j < at implies s[j] != '[' by {
                    if j < n {
                        assert(s[j] == name[j]);
                    } else if j > n {
                        assert(s[j] == u[j - n - 1]);
                    }
                }
            }
            lemma_index_of_some(s, '[', at);
            let w = u.subrange(0, b);
            assert(s.subrange(0, at) =~= name + seq!['.'] + w);
            lemma_plain_dot_join(name, w);
            assert(s.subrange(at + 1, s.len() as int) =~= u.subrange(b + 1, u.len() as int));
            let after = u.subrange(b + 1, u.len() as int);
            if let (Some(head), Some(e)) = (plain_segments(w), index_of(after, ']')) {
                if 0 <= e < after.len() {
                    let rest = after_bracket(after.subrange(e + 1, after.len() as int));
                    if let (Some(f), Some(tail)) = (
                        filter_of(after.subrange(0, e)),
                        segments_of(rest),
                    ) {
                        assert((seq![seg] + head) + seq![Segment::Filter(f)] + tail =~= seq![seg]
                            + (head + seq![Segment::Filter(f)] + tail));
                    }
                }
            }
        },
    }
}

/// Reading a part and a query that begins with a bracket is reading the
/// query, with the segment of the part in front.
proof fn lemma_parse_bracket_join(name: Seq<char>, u: Seq<char>)
    requires
        name.len() > 0,
        !has_char(name, '.'),
        !has_char(name, '['),
        u.len() > 0,
        u[0] == '[',
    ensures
        segments_of(name + u) == extended(
            seq![segment_of(name)],
            segments_of(u),
        ),
{
    let s = name + u;
    let n = name.len() as int;
    let seg = segment_of(name);
    assert(first_at(u, '[', 0));
    lemma_index_of_some(u, '[', 0);
    assert(first_at(s, '[', n)) by {
        assert(s[n] == u[0]);
        assert forall|j: int| 0 <= j < n implies s[j] != '[' by {
            assert(s[j] == name[j]);
        }
    }
    lemma_index_of_some(s, '[', n);
    assert(s.subrange(0, n) =~= name);
    assert(u.subrange(0, 0) =~= Seq::<char>::empty());
    lemma_plain_alone(name);
    lemma_index_of_none(Seq::<char>::empty(), '.');
    assert(s.subrange(n + 1, s.len() as int) =~= u.subrange(1, u.len() as int));
    let after = u.subrange(1, u.len() as int);
    if let Some(e) = index_of(after, ']') {
        if 0 <= e < after.len() {
            let rest = after_bracket(after.subrange(e + 1, after.len() as int));
            if let (Some(f), Some(tail)) = (
                filter_of(after.subrange(0, e)),
                segments_of(rest),
            ) {
                assert(seq![seg] + seq![Segment::Filter(f)] + tail =~= seq![seg] + (
                Seq::<Segment>::empty() + seq![Segment::Filter(f)] + tail));
            }
        }
    }
}

/// Reading a predicate in brackets and what follows it.
proof fn lemma_parse_filter_front(f: Filter, tail: Seq<char>)
    requires
        is_readable_filter(f),
    ensures
        segments_of(seq!['['] + render_filter(f) + seq![']'] + tail) == extended(
            seq![Segment::Filter(f)],
            segments_of(after_bracket(tail)),
        ),
{
    let rf = render_filter(f);
    let s = seq!['['] + rf + seq![']'] + tail;
    let m = rf.len() as int;
    assert(first_at(s, '[', 0));
    lemma_index_of_some(s, '[', 0);
    assert(s.subrange(0, 0) =~= Seq::<char>::empty());
    lemma_index_of_none(Seq::<char>::empty(), '.');
    let after = s.subrange(1, s.len() as int);
    assert(after =~= rf + seq![']'] + tail);
    assert(first_at(after, ']', m)) by {
        assert forall|j: int| 0 <= j < m implies after[j] != ']' by {
            assert(after[j] == rf[j]);
        }
    }
    lemma_index_of_some(after, ']', m);
    assert(after.subrange(0, m) =~= rf);
    assert(after.subrange(m + 1, after.len() as int) =~= tail);
    if let Some(rest) = segments_of(after_bracket(tail)) {
        assert(Seq::<Segment>::empty() + seq![Segment::Filter(f)] + rest =~= seq![
            Segment::Filter(f),
        ] + rest);
    }
}

/// The text of a path whose segments are each read again from their own
/// texts is read as the path.
pub proof fn lemma_render_parses(p: Seq<Segment>)
    requires
        is_readable(p),
    ensures
        segments_of(render(p)) == Some(p),
        p.len() > 0 && p[0] is Filter ==> render(p).len() > 0 && render(p)[0] == '[',
    decreases p.len(),
{
    if p.len() > 0 {
        let rest = p.drop_first();
        assert(is_readable(rest)) by {
            assert forall|i: int| 0 <= i < rest.len() implies match #[trigger] rest[i] {
                Segment::Filter(f) => is_readable_filter(f),
                seg => is_readable_plain(seg),
            } by {
                assert(rest[i] == p[i + 1]);
            }
        }
        lemma_render_parses(rest);
        let dotted = rest.len() > 0 && !(rest[0] is Filter);
        let tail = if dotted {
            seq!['.'] + render(rest)
        } else {
            render(rest)
        };
        assert(seq![p[0]] + rest =~= p);
        match p[0] {
            Segment::Filter(f) => {
                assert(after_bracket(tail) == render(rest)) by {
                    if dotted {
                        assert(tail.drop_first() =~= render(rest));
                    } else if rest.len() == 0 {
                    } else {
                    }
                }
                lemma_parse_filter_front(f, tail);
            },
            seg => {
                let name = render_plain(seg);
                assert(is_readable_plain(p[0]));
                if rest.len() == 0 {
                    assert(name + tail =~= name);
                    lemma_plain_alone(name);
                    assert forall|j: int| 0 <= j < name.len() implies name[j] != '[' by {}
                    lemma_index_of_none(name, '[');
                } else if dotted {
                    assert(name + tail =~= name + seq!['.'] + render(rest));
                    lemma_parse_dot_join(name, render(rest));
                } else {
                    lemma_parse_bracket_join(name, render(rest));
                }
            },
        }
    }
}

/// Writing a path that was read and reading it again gives the same path.
pub proof fn lemma_round_trip(s: Seq<char>)
    requires
        segments_of(s) is Some,
    ensures
        segments_of(render(segments_of(s)->Some_0)) == segments_of(s),
{
    lemma_segments_readable(s);
    lemma_render_parses(segments_of(s)->Some_0);
}

/// The text of what follows the first segment of a path: a dot first where
/// the next segment is no filter.
pub open spec fn render_rest(rest: Seq<Segment>) -> Seq<char> {
    if rest.len() > 0 && !(rest[0] is Filter) {
        seq!['.'] + render(rest)
    } else {
        render(rest)
    }
}

/// The text of one segment, a filter in its brackets.
pub open spec fn render_segment(seg: Segment) -> Seq<char> {
    match seg {
        Segment::Filter(f) => seq!['['] + render_filter(f) + seq![']'],
        plain => render_plain(plain),
    }
}

fn push_all(out: &mut Vec<char>, s: &Vec<char>)
    ensures
        final(out)@ == old(out)@ + s@,
{
    let mut i: usize = 0;
    assert(out@ =~= old(out)@ + s@.subrange(0, 0));
    while i < s.len()
        invariant
            i <= s.len(),
            out@ == old(out)@ + s@.subrange(0, i as int),
        decreases s.len() - i,
    {
        out.push(s[i]);
        i += 1;
        assert(old(out)@ + s@.subrange(0, i as int) =~= (old(out)@ + s@.subrange(0, i - 1)).push(
            s@[i - 1],
        ));
    }
    assert(s@.subrange(0, s.len() as int) =~= s@);
}

fn push_text(out: &mut Vec<char>, s: &str)
    ensures
        final(out)@ == old(out)@ + s@,
{
    let chars = to_chars(s);
    push_all(out, &chars);
}

fn push_operand(out: &mut Vec<char>, value: &FilterValue)
    ensures
        final(out)@ == old(out)@ + render_operand(value@),
{
    match value {
        FilterValue::Null => {
            out.push('n');
            out.push('u');
            out.push('l');
            out.push('l');
            assert(out@ =~= old(out)@ + null_word());
        },
        FilterValue::String(s) => {
            out.push('"');
            push_text(out, s.as_str());
            out.push('"');
            assert(out@ =~= old(out)@ + (seq!['"'] + s@ + seq!['"']));
        },
        FilterValue::Number(n) => {
            push_text(out, n.text.as_str());
        },
    }
}

fn push_filter(out: &mut Vec<char>, filter: &FilterExpr)
    ensures
        final(out)@ == old(out)@ + render_filter(filter@),
{
    let mut piece: Vec<char> = Vec::new();
    push_text(&mut piece, filter.field.as_str());
    piece.push(' ');
    let pat = op_pattern(filter.op);
    push_all(&mut piece, &pat);
    let mut value: Vec<char> = Vec::new();
    push_operand(&mut value, &filter.value);
    assert(value@ =~= render_operand(filter@.value));
    if value.len() > 0 {
        piece.push(' ');
        push_all(&mut piece, &value);
    }
    assert(piece@ =~= render_filter(filter@));
    push_all(out, &piece);
}

fn push_segment(out: &mut Vec<char>, segment: &PathSegment)
    ensures
        final(out)@ == old(out)@ + render_segment(segment@),
{
    match segment {
        PathSegment::Field(name) => {
            push_text(out, name.as_str());
        },
        PathSegment::Index(i) => {
            push_digits(*i as u64, out);
        },
        PathSegment::Wildcard => {
            out.push('*');
            assert(out@ =~= old(out)@ + seq!['*']);
        },
        PathSegment::Filter(filter) => {
            let mut piece: Vec<char> = Vec::new();
            piece.push('[');
            push_filter(&mut piece, filter);
            piece.push(']');
            assert(piece@ =~= seq!['['] + render_filter(filter@) + seq![']']);
            push_all(out, &piece);
        },
    }
}

impl QueryPath {
    /// This path in dot and bracket notation. `QueryPath::parse` reads the
    /// text of a path that it gave as that path again.
    pub fn render(&self) -> (r: String)
        ensures
            r@ == render(self@),
    {
        let n = self.segments.len();
        let ghost all = self@;
        let mut out: Vec<char> = Vec::new();
        let mut i: usize = 0;
        assert(all.subrange(0, n as int) =~= all);
        while i < n
            invariant
                i <= n,
                n == self.segments.len(),
                all == self@,
                render(all) == out@ + (if i == 0 {
                    render(all.subrange(i as int, n as int))
                } else {
                    render_rest(all.subrange(i as int, n as int))
                }),
            decreases n - i,
        {
            let ghost here = all.subrange(i as int, n as int);
            let ghost before = out@;
            proof {
                assert(here[0] == self.segments@[i as int]@);
                assert(here.drop_first() =~= all.subrange(i + 1, n as int));
                assert(render(here) == render_segment(here[0]) + render_rest(here.drop_first()))
                    by {
                    match here[0] {
                        Segment::Filter(f) => {},
                        _ => {},
                    }
                }
            }
            let dotted = i > 0 && match &self.segments[i] {
                PathSegment::Filter(_) => false,
                _ => true,
            };
            if dotted {
                out.push('.');
            }
            push_segment(&mut out, &self.segments[i]);
            proof {
                let next = render_rest(all.subrange(i + 1, n as int));
                if dotted {
                    assert(before + (seq!['.'] + (render_segment(here[0]) + next)) =~= before.push(
                        '.',
                    ) + render_segment(here[0]) + next);
                } else {
                    assert(before + (render_segment(here[0]) + next) =~= before + render_segment(
                        here[0],
                    ) + next);
                }
            }
            i += 1;
        }
        assert(out@ + Seq::<char>::empty() =~= out@);
        assert(out@.subrange(0, out.len() as int) =~= out@);
        to_text(&out, 0, out.len())
    }
}

} // verus!
