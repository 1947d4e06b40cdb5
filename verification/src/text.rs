//! Character sequences: searching, trimming and reading decimal indices.

use vstd::prelude::*;

verus! {

/// Whether a character is white space: the characters that Unicode gives
/// the property White_Space.
pub open spec fn is_whitespace(c: char) -> bool {
    let u = c as u32;
    ||| 0x09 <= u <= 0x0d
    ||| u == 0x20
    ||| u == 0x85
    ||| u == 0xa0
    ||| u == 0x1680
    ||| 0x2000 <= u <= 0x200a
    ||| u == 0x2028
    ||| u == 0x2029
    ||| u == 0x202f
    ||| u == 0x205f
    ||| u == 0x3000
}

/// Whether a character is white space.
pub fn is_space(c: char) -> (r: bool)
    ensures
        r == is_whitespace(c),
{
    let u = c as u32;
    (0x09 <= u && u <= 0x0d) || u == 0x20 || u == 0x85 || u == 0xa0 || u == 0x1680 || (0x2000 <= u
        && u <= 0x200a) || u == 0x2028 || u == 0x2029 || u == 0x202f || u == 0x205f || u == 0x3000
}

/// `String::push` of std appends one character at the end.
pub assume_specification[ std::string::String::push ](s: &mut std::string::String, c: char)
    ensures
        final(s)@ == old(s)@.push(c),
;

/// The characters of a string slice, in order.
pub fn to_chars(s: &str) -> (v: Vec<char>)
    ensures
        v@ == s@,
{
    let mut v: Vec<char> = Vec::new();
    for c in it: s.chars()
        invariant
            v@ == it.seq().take(it.index() as int),
            it.seq() == s@,
    {
        v.push(c);
    }
    v
}

/// The string made of `s[from..to]`.
pub fn to_text(s: &Vec<char>, from: usize, to: usize) -> (r: String)
    requires
        from <= to <= s.len(),
    ensures
        r@ == s@.subrange(from as int, to as int),
{
    let mut r = String::new();
    let mut i: usize = from;
    while i < to
        invariant
            from <= i <= to <= s.len(),
            r@ == s@.subrange(from as int, i as int),
        decreases to - i,
    {
        r.push(s[i]);
        i += 1;
        assert(s@.subrange(from as int, i as int) == s@.subrange(from as int, i - 1).push(
            s@[i - 1],
        ));
    }
    r
}

/// Whether two string slices hold the same characters.
pub fn same_text(a: &str, b: &str) -> (r: bool)
    ensures
        r == (a@ == b@),
{
    let x = a.to_owned();
    let y = b.to_owned();
    x == y
}

/// `i` is the first position of `c` in `s`.
pub open spec fn first_at(s: Seq<char>, c: char, i: int) -> bool {
    &&& 0 <= i < s.len()
    &&& s[i] == c
    &&& forall|j: int| 0 <= j < i ==> s[j] != c
}

/// The first position of `c` in `s`, if it occurs.
#[verifier::opaque]
pub open spec fn index_of(s: Seq<char>, c: char) -> Option<int> {
    if exists|i: int| first_at(s, c, i) {
        Some(choose|i: int| first_at(s, c, i))
    } else {
        None
    }
}

/// The first position of a character is what `index_of` gives.
pub proof fn lemma_index_of_some(s: Seq<char>, c: char, i: int)
    requires
        first_at(s, c, i),
    ensures
        index_of(s, c) == Some(i),
{
    reveal(index_of);
    let k = choose|k: int| first_at(s, c, k);
    assert(first_at(s, c, k));
    if k < i {
        assert(s[k] != c);
    }
    if i < k {
        assert(s[i] != c);
    }
}

/// `index_of` gives nothing for a character that does not occur.
pub proof fn lemma_index_of_none(s: Seq<char>, c: char)
    requires
        forall|j: int| 0 <= j < s.len() ==> s[j] != c,
    ensures
        index_of(s, c) is None,
{
    reveal(index_of);
    if exists|i: int| first_at(s, c, i) {
        let k = choose|k: int| first_at(s, c, k);
        assert(s[k] == c);
    }
}

/// What `index_of` returns, spelled out.
pub proof fn lemma_index_of(s: Seq<char>, c: char)
    ensures
        match index_of(s, c) {
            Some(i) => first_at(s, c, i),
            None => forall|j: int| 0 <= j < s.len() ==> s[j] != c,
        },
{
    reveal(index_of);
    if exists|i: int| first_at(s, c, i) {
    } else {
        assert forall|j: int| 0 <= j < s.len() implies s[j] != c by {
            if s[j] == c {
                lemma_some_first(s, c, j);
            }
        }
    }
}

proof fn lemma_some_first(s: Seq<char>, c: char, j: int)
    requires
        0 <= j < s.len(),
        s[j] == c,
    ensures
        exists|i: int| first_at(s, c, i),
    decreases j,
{
    if forall|k: int| 0 <= k < j ==> s[k] != c {
        assert(first_at(s, c, j));
    } else {
        let k = choose|k: int| 0 <= k < j && s[k] == c;
        lemma_some_first(s, c, k);
    }
}

/// The first position of `c` in `s[from..]`, counted from the start of `s`.
pub fn find_char(s: &Vec<char>, from: usize, c: char) -> (r: Option<usize>)
    requires
        from <= s.len(),
    ensures
        match r {
            Some(i) => from <= i < s.len() && index_of(s@.subrange(from as int, s.len() as int), c)
                == Some(i - from),
            None => index_of(s@.subrange(from as int, s.len() as int), c) is None,
        },
{
    let ghost rest = s@.subrange(from as int, s.len() as int);
    let mut i: usize = from;
    while i < s.len()
        invariant
            from <= i <= s.len(),
            rest == s@.subrange(from as int, s.len() as int),
            forall|j: int| 0 <= j < i - from ==> rest[j] != c,
        decreases s.len() - i,
    {
        if s[i] == c {
            proof {
                assert(rest[i - from] == c);
                lemma_index_of_some(rest, c, i - from);
            }
            return Some(i);
        }
        i += 1;
    }
    proof {
        lemma_index_of_none(rest, c);
    }
    None
}

/// A copy of `s[from..to]`.
pub fn slice(s: &Vec<char>, from: usize, to: usize) -> (r: Vec<char>)
    requires
        from <= to <= s.len(),
    ensures
        r@ == s@.subrange(from as int, to as int),
{
    let mut r: Vec<char> = Vec::new();
    let mut i: usize = from;
    while i < to
        invariant
            from <= i <= to <= s.len(),
            r@ == s@.subrange(from as int, i as int),
        decreases to - i,
    {
        r.push(s[i]);
        i += 1;
        assert(s@.subrange(from as int, i as int) == s@.subrange(from as int, i - 1).push(
            s@[i - 1],
        ));
    }
    r
}

/// `pat` stands in `s` at position `i`.
pub open spec fn occurs_at(s: Seq<char>, pat: Seq<char>, i: int) -> bool {
    &&& 0 <= i
    &&& i + pat.len() <= s.len()
    &&& s.subrange(i, i + pat.len()) == pat
}

/// `i` is the first position at which `pat` stands in `s`.
pub open spec fn first_occurrence(s: Seq<char>, pat: Seq<char>, i: int) -> bool {
    &&& occurs_at(s, pat, i)
    &&& forall|j: int| 0 <= j < i ==> !occurs_at(s, pat, j)
}

/// The first position at which `pat` stands in `s`, if there is one.
#[verifier::opaque]
pub open spec fn find(s: Seq<char>, pat: Seq<char>) -> Option<int> {
    if exists|i: int| first_occurrence(s, pat, i) {
        Some(choose|i: int| first_occurrence(s, pat, i))
    } else {
        None
    }
}

/// The first position at which a pattern stands is what `find` gives.
pub proof fn lemma_find_some(s: Seq<char>, pat: Seq<char>, i: int)
    requires
        first_occurrence(s, pat, i),
    ensures
        find(s, pat) == Some(i),
{
    reveal(find);
    let k = choose|k: int| first_occurrence(s, pat, k);
    assert(first_occurrence(s, pat, k));
    if k < i {
        assert(!occurs_at(s, pat, k));
    }
    if i < k {
        assert(!occurs_at(s, pat, i));
    }
}

/// `find` gives nothing for a pattern that stands nowhere.
pub proof fn lemma_find_none(s: Seq<char>, pat: Seq<char>)
    requires
        forall|j: int| 0 <= j <= s.len() ==> !occurs_at(s, pat, j),
    ensures
        find(s, pat) is None,
{
    reveal(find);
    if exists|i: int| first_occurrence(s, pat, i) {
        let k = choose|k: int| first_occurrence(s, pat, k);
        assert(occurs_at(s, pat, k));
    }
}

proof fn lemma_some_occurrence(s: Seq<char>, pat: Seq<char>, j: int)
    requires
        occurs_at(s, pat, j),
    ensures
        exists|i: int| first_occurrence(s, pat, i),
    decreases j,
{
    if forall|k: int| 0 <= k < j ==> !occurs_at(s, pat, k) {
        assert(first_occurrence(s, pat, j));
    } else {
        let k = choose|k: int| 0 <= k < j && occurs_at(s, pat, k);
        lemma_some_occurrence(s, pat, k);
    }
}

/// What `find` returns, spelled out.
pub proof fn lemma_find(s: Seq<char>, pat: Seq<char>)
    ensures
        match find(s, pat) {
            Some(i) => first_occurrence(s, pat, i),
            None => forall|j: int| !occurs_at(s, pat, j),
        },
{
    reveal(find);
    if exists|i: int| first_occurrence(s, pat, i) {
    } else {
        assert forall|j: int| !occurs_at(s, pat, j) by {
            if occurs_at(s, pat, j) {
                lemma_some_occurrence(s, pat, j);
            }
        }
    }
}

/// Whether `pat` stands in `s` at position `i`.
pub fn stands_at(s: &Vec<char>, pat: &Vec<char>, i: usize) -> (r: bool)
    ensures
        r == occurs_at(s@, pat@, i as int),
{
    if pat.len() > s.len() || i > s.len() - pat.len() {
        return false;
    }
    let mut k: usize = 0;
    while k < pat.len()
        invariant
            k <= pat.len(),
            i + pat.len() <= s.len(),
            forall|j: int| 0 <= j < k ==> s@[i + j] == pat@[j],
        decreases pat.len() - k,
    {
        if s[i + k] != pat[k] {
            proof {
                let w = s@.subrange(i as int, i + pat.len());
                assert(w[k as int] == s@[i + k]);
            }
            return false;
        }
        k += 1;
    }
    assert(s@.subrange(i as int, i + pat.len()) =~= pat@);
    true
}

/// The first position at which `pat` stands in `s`.
pub fn find_pattern(s: &Vec<char>, pat: &Vec<char>) -> (r: Option<usize>)
    ensures
        match r {
            Some(i) => find(s@, pat@) == Some(i as int) && i + pat.len() <= s.len(),
            None => find(s@, pat@) is None,
        },
{
    if pat.len() > s.len() {
        proof {
            lemma_find_none(s@, pat@);
        }
        return None;
    }
    let last = s.len() - pat.len();
    let mut i: usize = 0;
    while i < last
        invariant
            i <= last,
            last + pat.len() == s.len(),
            forall|j: int| 0 <= j < i ==> !occurs_at(s@, pat@, j),
        decreases last - i,
    {
        if stands_at(s, pat, i) {
            proof {
                lemma_find_some(s@, pat@, i as int);
            }
            return Some(i);
        }
        i += 1;
    }
    if stands_at(s, pat, last) {
        proof {
            lemma_find_some(s@, pat@, last as int);
        }
        return Some(last);
    }
    proof {
        lemma_find_none(s@, pat@);
    }
    None
}

/// `s` without its leading white space.
pub open spec fn trim_start(s: Seq<char>) -> Seq<char>
    decreases s.len(),
{
    if s.len() > 0 && is_whitespace(s[0]) {
        trim_start(s.drop_first())
    } else {
        s
    }
}

/// `s` without its trailing white space.
pub open spec fn trim_end(s: Seq<char>) -> Seq<char>
    decreases s.len(),
{
    if s.len() > 0 && is_whitespace(s.last()) {
        trim_end(s.drop_last())
    } else {
        s
    }
}

/// `s` without leading and trailing white space.
pub open spec fn trim(s: Seq<char>) -> Seq<char> {
    trim_end(trim_start(s))
}

/// A copy of `s` without leading and trailing white space.
pub fn trimmed(s: &Vec<char>) -> (r: Vec<char>)
    ensures
        r@ == trim(s@),
{
    let n = s.len();
    let mut start: usize = 0;
    assert(s@.subrange(0, n as int) =~= s@);
    while start < n && is_space(s[start])
        invariant
            start <= n,
            n == s.len(),
            trim_start(s@) == trim_start(s@.subrange(start as int, n as int)),
        decreases n - start,
    {
        proof {
            let w = s@.subrange(start as int, n as int);
            assert(w.drop_first() =~= s@.subrange(start + 1, n as int));
        }
        start += 1;
    }
    let ghost body = s@.subrange(start as int, n as int);
    assert(trim_start(s@) == body);
    let mut end: usize = n;
    while end > start && is_space(s[end - 1])
        invariant
            start <= end <= n,
            n == s.len(),
            body == s@.subrange(start as int, n as int),
            trim_end(body) == trim_end(s@.subrange(start as int, end as int)),
        decreases end - start,
    {
        proof {
            let w = s@.subrange(start as int, end as int);
            assert(w.drop_last() =~= s@.subrange(start as int, end - 1));
        }
        end -= 1;
    }
    assert(trim_end(body) == s@.subrange(start as int, end as int));
    slice(s, start, end)
}

/// Whether `c` is one of the ten decimal digits.
pub open spec fn is_digit(c: char) -> bool {
    '0' <= c <= '9'
}

/// The value of the digit `c`.
pub open spec fn digit_value(c: char) -> nat {
    (c as u32 - '0' as u32) as nat
}

/// Whether all characters are decimal digits.
pub open spec fn all_digits(s: Seq<char>) -> bool {
    forall|i: int| 0 <= i < s.len() ==> is_digit(#[trigger] s[i])
}

/// The number that the digits of `s` write in base ten.
pub open spec fn decimal(s: Seq<char>) -> nat
    decreases s.len(),
{
    if s.len() == 0 {
        0
    } else {
        decimal(s.drop_last()) * 10 + digit_value(s.last())
    }
}

/// The number that `s` writes where it is at most `max`: an optional `+`,
/// then one digit or more.
pub open spec fn parse_bounded(s: Seq<char>, max: nat) -> Option<nat> {
    let d = if s.len() > 0 && s[0] == '+' {
        s.drop_first()
    } else {
        s
    };
    if d.len() > 0 && all_digits(d) && decimal(d) <= max {
        Some(decimal(d))
    } else {
        None
    }
}

/// The index that `s` writes: an optional `+`, then one digit or more, with a
/// value that the machine word holds.
pub open spec fn parse_index(s: Seq<char>) -> Option<usize> {
    match parse_bounded(s, usize::MAX as nat) {
        Some(v) => Some(v as usize),
        None => None,
    }
}

proof fn lemma_decimal_prefix(s: Seq<char>, k: int)
    requires
        all_digits(s),
        0 <= k <= s.len(),
    ensures
        decimal(s.subrange(0, k)) <= decimal(s),
    decreases s.len() - k,
{
    if k == s.len() {
        assert(s.subrange(0, k) =~= s);
    } else {
        lemma_decimal_prefix(s, k + 1);
        let w = s.subrange(0, k + 1);
        assert(w.drop_last() =~= s.subrange(0, k));
        assert(is_digit(s[k]));
    }
}

/// Reads `s` as a number that is at most `max`.
pub fn read_bounded(s: &Vec<char>, max: u64) -> (r: Option<u64>)
    ensures
        match r {
            Some(v) => parse_bounded(s@, max as nat) == Some(v as nat),
            None => parse_bounded(s@, max as nat) is None,
        },
{
    let n = s.len();
    let start: usize = if n > 0 && s[0] == '+' {
        1
    } else {
        0
    };
    let ghost d = s@.subrange(start as int, n as int);
    assert(d =~= if s@.len() > 0 && s@[0] == '+' {
        s@.drop_first()
    } else {
        s@
    });
    if start == n {
        return None;
    }
    let mut acc: u64 = 0;
    let mut i: usize = start;
    while i < n
        invariant
            start <= i <= n,
            n == s.len(),
            d == s@.subrange(start as int, n as int),
            d.len() > 0,
            parse_bounded(s@, max as nat) == (if all_digits(d) && decimal(d) <= max {
                Some(decimal(d))
            } else {
                None
            }),
            all_digits(d.subrange(0, i - start)),
            acc == decimal(d.subrange(0, i - start)),
            acc <= max,
        decreases n - i,
    {
        let c = s[i];
        assert(d[i - start] == c);
        if !(c >= '0' && c <= '9') {
            assert(!is_digit(d[i - start]));
            return None;
        }
        let v: u64 = (c as u32 - '0' as u32) as u64;
        proof {
            let w = d.subrange(0, i - start + 1);
            assert(w.drop_last() =~= d.subrange(0, i - start));
            assert(w.last() == c);
            assert(decimal(w) == acc * 10 + v);
            assert forall|j: int| 0 <= j < w.len() implies is_digit(#[trigger] w[j]) by {
                if j < i - start {
                    assert(w[j] == d.subrange(0, i - start)[j]);
                }
            }
        }
        if v > max || acc > (max - v) / 10 {
            proof {
                let w = d.subrange(0, i - start + 1);
                assert(decimal(w) > max);
                if all_digits(d) {
                    lemma_decimal_prefix(d, i - start + 1);
                }
            }
            return None;
        }
        acc = acc * 10 + v;
        i += 1;
    }
    assert(d.subrange(0, n - start) =~= d);
    Some(acc)
}

/// Reads `s` as an index.
pub fn read_index(s: &Vec<char>) -> (r: Option<usize>)
    ensures
        r == parse_index(s@),
{
    match read_bounded(s, usize::MAX as u64) {
        Some(v) => Some(v as usize),
        None => None,
    }
}

/// The parts of `s` between the occurrences of `sep`.
pub open spec fn split(s: Seq<char>, sep: char) -> Seq<Seq<char>>
    decreases s.len(),
{
    match index_of(s, sep) {
        Some(i) => if 0 <= i < s.len() {
            seq![s.subrange(0, i)] + split(s.subrange(i + 1, s.len() as int), sep)
        } else {
            seq![s]
        },
        None => seq![s],
    }
}

/// The views of a run of character vectors.
pub open spec fn rows(v: Seq<Vec<char>>) -> Seq<Seq<char>> {
    v.map_values(|r: Vec<char>| r@)
}

/// Splits `s` at every occurrence of `sep`.
pub fn split_at_each(s: &Vec<char>, sep: char) -> (r: Vec<Vec<char>>)
    ensures
        rows(r@) == split(s@, sep),
{
    let n = s.len();
    let mut parts: Vec<Vec<char>> = Vec::new();
    let mut i: usize = 0;
    assert(s@.subrange(0, n as int) =~= s@);
    assert(rows(parts@) =~= Seq::<Seq<char>>::empty());
    loop
        invariant
            i <= n,
            n == s.len(),
            split(s@, sep) == rows(parts@) + split(s@.subrange(i as int, n as int), sep),
        decreases n - i,
    {
        let ghost rest = s@.subrange(i as int, n as int);
        let ghost before = rows(parts@);
        match find_char(s, i, sep) {
            None => {
                let last = slice(s, i, n);
                proof {
                    assert(rows(parts@.push(last)) =~= before.push(last@));
                    assert(before + seq![rest] =~= before.push(rest));
                }
                parts.push(last);
                return parts;
            },
            Some(j) => {
                let part = slice(s, i, j);
                proof {
                    assert(rest.subrange(0, j - i) =~= part@);
                    assert(rest.subrange(j - i + 1, rest.len() as int) =~= s@.subrange(
                        j + 1,
                        n as int,
                    ));
                    let tail = split(s@.subrange(j + 1, n as int), sep);
                    assert(rows(parts@.push(part)) =~= before.push(part@));
                    assert(before + (seq![part@] + tail) =~= before.push(part@) + tail);
                }
                parts.push(part);
                i = j + 1;
            },
        }
    }
}

/// The digit that writes `d`, which is below ten.
pub open spec fn digit_char(d: nat) -> char {
    seq!['0', '1', '2', '3', '4', '5', '6', '7', '8', '9'][d as int]
}

/// The digits that write `n` in base ten.
pub open spec fn digits_of(n: nat) -> Seq<char>
    decreases n,
{
    if n < 10 {
        seq![digit_char(n)]
    } else {
        digits_of(n / 10).push(digit_char(n % 10))
    }
}

fn digit(d: u128) -> (c: char)
    requires
        d < 10,
    ensures
        c == digit_char(d as nat),
{
    if d == 0 {
        '0'
    } else if d == 1 {
        '1'
    } else if d == 2 {
        '2'
    } else if d == 3 {
        '3'
    } else if d == 4 {
        '4'
    } else if d == 5 {
        '5'
    } else if d == 6 {
        '6'
    } else if d == 7 {
        '7'
    } else if d == 8 {
        '8'
    } else {
        '9'
    }
}

/// Appends the digits of `n` to `out`.
pub fn push_digits(n: u64, out: &mut Vec<char>)
    ensures
        final(out)@ == old(out)@ + digits_of(n as nat),
{
    push_wide_digits(n as u128, out);
}

/// Appends the digits of `n` to `out`.
pub fn push_wide_digits(n: u128, out: &mut Vec<char>)
    ensures
        final(out)@ == old(out)@ + digits_of(n as nat),
    decreases n,
{
    if n >= 10 {
        push_wide_digits(n / 10, out);
    }
    let ghost before = out@;
    out.push(digit(n % 10));
    proof {
        if n >= 10 {
            assert(out@ =~= old(out)@ + digits_of(n as nat));
        } else {
            assert(out@ =~= old(out)@ + digits_of(n as nat));
        }
    }
}

/// An integer in decimal, with a minus sign where it is negative.
pub open spec fn integer_text(i: int) -> Seq<char> {
    if i < 0 {
        seq!['-'] + digits_of((-i) as nat)
    } else {
        digits_of(i as nat)
    }
}

/// Appends an integer in decimal to `out`.
pub fn push_integer(i: i128, out: &mut Vec<char>)
    ensures
        final(out)@ == old(out)@ + integer_text(i as int),
{
    if i < 0 {
        out.push('-');
        let magnitude: u128 = (-(i + 1)) as u128 + 1;
        push_wide_digits(magnitude, out);
        assert(out@ =~= old(out)@ + integer_text(i as int));
    } else {
        push_wide_digits(i as u128, out);
    }
}

/// Whether `s` neither begins nor ends with white space.
pub open spec fn is_tight(s: Seq<char>) -> bool {
    s.len() > 0 ==> !is_whitespace(s[0]) && !is_whitespace(s.last())
}

/// What `trim_start` leaves is the end of `s`, from its first character that
/// is no white space.
pub proof fn lemma_trim_start(s: Seq<char>) -> (a: int)
    ensures
        0 <= a <= s.len(),
        trim_start(s) == s.subrange(a, s.len() as int),
        forall|i: int| 0 <= i < a ==> is_whitespace(s[i]),
        a < s.len() ==> !is_whitespace(s[a]),
    decreases s.len(),
{
    if s.len() > 0 && is_whitespace(s[0]) {
        let b = lemma_trim_start(s.drop_first());
        assert(s.drop_first().subrange(b, s.len() - 1) =~= s.subrange(b + 1, s.len() as int));
        assert forall|i: int| 0 <= i < b + 1 implies is_whitespace(s[i]) by {
            if i > 0 {
                assert(s[i] == s.drop_first()[i - 1]);
            }
        }
        if b + 1 < s.len() {
            assert(s[b + 1] == s.drop_first()[b]);
        }
        b + 1
    } else {
        assert(s.subrange(0, s.len() as int) =~= s);
        0
    }
}

/// What `trim_end` leaves is the start of `s`, up to its last character that
/// is no white space.
pub proof fn lemma_trim_end(s: Seq<char>) -> (b: int)
    ensures
        0 <= b <= s.len(),
        trim_end(s) == s.subrange(0, b),
        forall|i: int| b <= i < s.len() ==> is_whitespace(s[i]),
        b > 0 ==> !is_whitespace(s[b - 1]),
    decreases s.len(),
{
    if s.len() > 0 && is_whitespace(s.last()) {
        let b = lemma_trim_end(s.drop_last());
        assert(s.drop_last().subrange(0, b) =~= s.subrange(0, b));
        assert forall|i: int| b <= i < s.len() implies is_whitespace(s[i]) by {
            if i < s.len() - 1 {
                assert(s[i] == s.drop_last()[i]);
            }
        }
        if b > 0 {
            assert(s[b - 1] == s.drop_last()[b - 1]);
        }
        b
    } else {
        assert(s.subrange(0, s.len() as int) =~= s);
        s.len() as int
    }
}

/// What `trim` leaves is a stretch of `s` that neither begins nor ends with
/// white space.
pub proof fn lemma_trim(s: Seq<char>) -> (r: (int, int))
    ensures
        0 <= r.0 <= r.1 <= s.len(),
        trim(s) == s.subrange(r.0, r.1),
        is_tight(trim(s)),
{
    let a = lemma_trim_start(s);
    let rest = s.subrange(a, s.len() as int);
    let b = lemma_trim_end(rest);
    assert(rest.subrange(0, b) =~= s.subrange(a, a + b));
    if b > 0 {
        assert(rest[0] == s[a]);
    }
    (a, a + b)
}

/// Trimming leaves alone what neither begins nor ends with white space.
pub proof fn lemma_trim_tight(s: Seq<char>)
    requires
        is_tight(s),
    ensures
        trim(s) == s,
{
}

/// Trimming white space in front of and behind what neither begins nor ends
/// with white space gives that back.
pub proof fn lemma_trim_padded(front: Seq<char>, s: Seq<char>, back: Seq<char>)
    requires
        is_tight(s),
        forall|i: int| 0 <= i < front.len() ==> is_whitespace(front[i]),
        forall|i: int| 0 <= i < back.len() ==> is_whitespace(back[i]),
    ensures
        trim(front + s + back) == s,
{
    let all = front + s + back;
    let a = lemma_trim_start(all);
    if a < front.len() {
        assert(all[a] == front[a]);
    }
    if a > front.len() {
        if s.len() > 0 {
            assert(all[front.len() as int] == s[0]);
        } else {
            assert(forall|i: int| 0 <= i < all.len() ==> is_whitespace(all[i])) by {
                assert forall|i: int| 0 <= i < all.len() implies is_whitespace(all[i]) by {
                    if i < front.len() {
                        assert(all[i] == front[i]);
                    } else {
                        assert(all[i] == back[i - front.len()]);
                    }
                }
            }
        }
    }
    let rest = all.subrange(a, all.len() as int);
    let b = lemma_trim_end(rest);
    if s.len() > 0 {
        assert(a == front.len());
        assert(rest =~= s + back);
        if b < s.len() {
            assert(rest[s.len() - 1] == s.last());
        }
        if b > s.len() {
            assert(rest[b - 1] == back[b - 1 - s.len()]);
        }
        assert(rest.subrange(0, b) =~= s);
    } else {
        if b > 0 {
            assert(rest[b - 1] == all[a + b - 1]);
            if a + b - 1 < front.len() {
                assert(all[a + b - 1] == front[a + b - 1]);
            } else {
                assert(all[a + b - 1] == back[a + b - 1 - front.len()]);
            }
        }
        assert(rest.subrange(0, b) =~= s);
    }
}

/// The digits of a number are digits, and write the number.
pub proof fn lemma_digits_of(n: nat)
    ensures
        digits_of(n).len() > 0,
        all_digits(digits_of(n)),
        decimal(digits_of(n)) == n,
    decreases n,
{
    let d = digits_of(n);
    if n < 10 {
        assert(d.drop_last() =~= Seq::<char>::empty());
        assert(decimal(d) == decimal(d.drop_last()) * 10 + digit_value(d.last()));
        assert(decimal(d.drop_last()) == 0);
    } else {
        lemma_digits_of(n / 10);
        let head = digits_of(n / 10);
        assert(d.drop_last() =~= head);
        assert(d.last() == digit_char(n % 10));
        assert forall|i: int| 0 <= i < d.len() implies is_digit(#[trigger] d[i]) by {
            if i < head.len() {
                assert(d[i] == head[i]);
            }
        }
    }
}

/// The digits of an index are read as that index.
pub proof fn lemma_parse_index_digits(i: usize)
    ensures
        parse_index(digits_of(i as nat)) == Some(i),
{
    let d = digits_of(i as nat);
    lemma_digits_of(i as nat);
    assert(is_digit(d[0]));
}

} // verus!
