//! CBOR diagnostic notation.

use crate::hexcode::{encode_hex, hex_text};
use crate::text::{digits_of, integer_text, push_digits, push_integer, to_chars, to_text};
use vstd::prelude::*;

verus! {

/// A CBOR value, held as plain values. A number with a fraction is held by
/// the text that shows it.
#[derive(Debug)]
pub enum CborValue {
    Integer(i128),
    Bytes(Vec<u8>),
    Text(String),
    Array(Vec<CborValue>),
    /// Keys with their values, in the order in which they were written.
    Entries(Vec<(CborValue, CborValue)>),
    Tag(u64, Box<CborValue>),
    Bool(bool),
    Null,
    Float(String),
    /// Any other value.
    Other,
}

/// The texts one after another, with a comma and a space between them.
pub open spec fn comma_separated(items: Seq<Seq<char>>) -> Seq<char>
    decreases items.len(),
{
    if items.len() == 0 {
        Seq::empty()
    } else if items.len() == 1 {
        items[0]
    } else {
        comma_separated(items.drop_last()) + seq![',', ' '] + items.last()
    }
}

/// A value in CBOR diagnostic notation: bytes as `h'..'` in hexadecimal,
/// text in double quotes, an array in square brackets, keys and values in
/// braces, a tag in front of its value in round brackets, and `?` for a
/// value of any other kind.
pub open spec fn diagnostic(v: CborValue) -> Seq<char>
    decreases v, 0nat,
{
    match v {
        CborValue::Integer(i) => integer_text(i as int),
        CborValue::Bytes(b) => seq!['h', '\''] + hex_text(b@) + seq!['\''],
        CborValue::Text(s) => seq!['"'] + s@ + seq!['"'],
        CborValue::Array(items) => seq!['['] + comma_separated(diagnostics(items@)) + seq![']'],
        CborValue::Entries(entries) => seq!['{'] + comma_separated(entry_diagnostics(entries@))
            + seq!['}'],
        CborValue::Tag(tag, inner) => digits_of(tag as nat) + seq!['('] + diagnostic(*inner)
            + seq![')'],
        CborValue::Bool(b) => if b {
            "true"@
        } else {
            "false"@
        },
        CborValue::Null => "null"@,
        CborValue::Float(shown) => shown@,
        CborValue::Other => seq!['?'],
    }
}

/// The values in diagnostic notation, in order.
pub open spec fn diagnostics(items: Seq<CborValue>) -> Seq<Seq<char>>
    decreases items, 1nat,
{
    Seq::new(
        items.len(),
        |i: int|
            if 0 <= i < items.len() {
                diagnostic(items[i])
            } else {
                Seq::empty()
            },
    )
}

/// Each key, a colon, a space and its value, in order.
pub open spec fn entry_diagnostics(entries: Seq<(CborValue, CborValue)>) -> Seq<Seq<char>>
    decreases entries, 1nat,
{
    Seq::new(
        entries.len(),
        |i: int|
            if 0 <= i < entries.len() {
                diagnostic(entries[i].0) + seq![':', ' '] + diagnostic(entries[i].1)
            } else {
                Seq::empty()
            },
    )
}

fn push_all(out: &mut Vec<char>, s: &Vec<char>)
    ensures
        final(out)@ == old(out)@ + s@,
{
    let mut i: usize = 0;
    assert(out@ =~= old(out)@ + s@.subrange(0, 0));
    while i < s.len()
        invariant
            i <= s.len(),
            out@ == old(out)@ + s@.subrange(0, i as int),
        decreases s.len() - i,
    {
        out.push(s[i]);
        i += 1;
        assert(old(out)@ + s@.subrange(0, i as int) =~= (old(out)@ + s@.subrange(0, i - 1)).push(
            s@[i - 1],
        ));
    }
    assert(s@.subrange(0, s.len() as int) =~= s@);
}

/// Appends one more text to texts that are separated by commas.
fn push_separated(
    out: &mut Vec<char>,
    first: bool,
    item: &Vec<char>,
    Ghost(before): Ghost<Seq<Seq<char>>>,
)
    requires
        old(out)@ == comma_separated(before),
        first == (before.len() == 0),
    ensures
        final(out)@ == comma_separated(before.push(item@)),
{
    let ghost all = before.push(item@);
    assert(all.drop_last() =~= before);
    if !first {
        out.push(',');
        out.push(' ');
    }
    push_all(out, item);
    proof {
        if first {
            assert(out@ =~= item@);
        } else {
            assert(out@ =~= comma_separated(before) + seq![',', ' '] + item@);
        }
    }
}

fn diagnostic_chars(value: &CborValue) -> (r: Vec<char>)
    ensures
        r@ == diagnostic(*value),
    decreases value,
{
    let mut out: Vec<char> = Vec::new();
    match value {
        CborValue::Integer(i) => {
            push_integer(*i, &mut out);
        },
        CborValue::Bytes(b) => {
            out.push('h');
            out.push('\'');
            let shown = encode_hex(b.as_slice());
            let digits = to_chars(shown.as_str());
            push_all(&mut out, &digits);
            out.push('\'');
            assert(out@ =~= diagnostic(*value));
        },
        CborValue::Text(s) => {
            out.push('"');
            let chars = to_chars(s.as_str());
            push_all(&mut out, &chars);
            out.push('"');
            assert(out@ =~= diagnostic(*value));
        },
        CborValue::Array(items) => {
            let mut inner: Vec<char> = Vec::new();
            let mut i: usize = 0;
            let ghost all = diagnostics(items@);
            assert(all.subrange(0, 0) =~= Seq::<Seq<char>>::empty());
            while i < items.len()
                invariant
                    i <= items.len(),
                    *value is Array,
                    value->Array_0 == *items,
                    all == diagnostics(items@),
                    inner@ == comma_separated(all.subrange(0, i as int)),
                decreases items.len() - i,
            {
                let item = diagnostic_chars(&items[i]);
                proof {
                    assert(all.subrange(0, i + 1) =~= all.subrange(0, i as int).push(item@));
                }
                push_separated(&mut inner, i == 0, &item, Ghost(all.subrange(0, i as int)));
                i += 1;
            }
            assert(all.subrange(0, items.len() as int) =~= all);
            out.push('[');
            push_all(&mut out, &inner);
            out.push(']');
            assert(out@ =~= diagnostic(*value));
        },
        CborValue::Entries(entries) => {
            let mut inner: Vec<char> = Vec::new();
            let mut i: usize = 0;
            let ghost all = entry_diagnostics(entries@);
            assert(all.subrange(0, 0) =~= Seq::<Seq<char>>::empty());
            while i < entries.len()
                invariant
                    i <= entries.len(),
                    *value is Entries,
                    value->Entries_0 == *entries,
                    all == entry_diagnostics(entries@),
                    inner@ == comma_separated(all.subrange(0, i as int)),
                decreases entries.len() - i,
            {
                let mut item = diagnostic_chars(&entries[i].0);
                item.push(':');
                item.push(' ');
                let shown = diagnostic_chars(&entries[i].1);
                push_all(&mut item, &shown);
                proof {
                    assert(item@ =~= all[i as int]);
                    assert(all.subrange(0, i + 1) =~= all.subrange(0, i as int).push(item@));
                }
                push_separated(&mut inner, i == 0, &item, Ghost(all.subrange(0, i as int)));
                i += 1;
            }
            assert(all.subrange(0, entries.len() as int) =~= all);
            out.push('{');
            push_all(&mut out, &inner);
            out.push('}');
            assert(out@ =~= diagnostic(*value));
        },
        CborValue::Tag(tag, inner) => {
            push_digits(*tag, &mut out);
            out.push('(');
            let shown = diagnostic_chars(inner);
            push_all(&mut out, &shown);
            out.push(')');
            assert(out@ =~= diagnostic(*value));
        },
        CborValue::Bool(b) => {
            let word = if *b {
                to_chars("true")
            } else {
                to_chars("false")
            };
            push_all(&mut out, &word);
        },
        CborValue::Null => {
            let word = to_chars("null");
            push_all(&mut out, &word);
        },
        CborValue::Float(shown) => {
            let chars = to_chars(shown.as_str());
            push_all(&mut out, &chars);
        },
        CborValue::Other => {
            out.push('?');
            assert(out@ =~= diagnostic(*value));
        },
    }
    out
}

/// Convert a CBOR value to CBOR diagnostic notation.
pub fn cbor_value_to_diagnostic(value: &CborValue) -> (r: String)
    ensures
        r@ == diagnostic(*value),
{
    let chars = diagnostic_chars(value);
    assert(chars@.subrange(0, chars.len() as int) =~= chars@);
    to_text(&chars, 0, chars.len())
}

} // verus!
