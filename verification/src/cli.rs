//! Command-line arguments: what the positional arguments mean.

use crate::text::{find_char, index_of, occurs_at, slice, stands_at, to_chars, to_text};
use vstd::prelude::*;

verus! {

/// The arguments of the program.
#[derive(Debug)]
pub struct Args {
    /// Subcommand to run.
    pub command: Option<Command>,
    /// Query path or input (file path or hex string): the input if it stands
    /// alone, the query if a second argument follows.
    pub first: Option<String>,
    /// Input file or hex string when a query is given.
    pub second: Option<String>,
    /// Output as JSON.
    pub json: bool,
    /// Output raw CBOR diagnostic notation.
    pub raw: bool,
    /// Display ADA amounts instead of lovelace.
    pub ada: bool,
    /// Validate only.
    pub check: bool,
    /// Disable colored output.
    pub no_color: bool,
}

/// Available subcommands.
#[derive(Debug)]
pub enum Command {
    /// Decode and display a Cardano address.
    Address {
        /// The bech32 address to decode.
        address: String,
        /// Output as JSON.
        json: bool,
    },
    /// Check for updates and show upgrade instructions.
    Update,
}

/// Specifies how to obtain input bytes.
#[derive(Debug, Clone)]
pub enum InputSpec {
    /// Read from stdin.
    Stdin,
    /// Read from a file path.
    File(String),
    /// Parse hex string directly.
    Hex(String),
}

/// The mathematical value of an `InputSpec`.
pub enum Source {
    Stdin,
    File(Seq<char>),
    Hex(Seq<char>),
}

impl View for InputSpec {
    type V = Source;

    open spec fn view(&self) -> Source {
        match self {
            InputSpec::Stdin => Source::Stdin,
            InputSpec::File(p) => Source::File(p@),
            InputSpec::Hex(h) => Source::Hex(h@),
        }
    }
}

/// Whether `s` begins with `prefix`.
pub open spec fn starts_with(s: Seq<char>, prefix: Seq<char>) -> bool {
    occurs_at(s, prefix, 0)
}

/// Whether `s` ends with `suffix`.
pub open spec fn ends_with(s: Seq<char>, suffix: Seq<char>) -> bool {
    occurs_at(s, suffix, s.len() - suffix.len())
}

/// Whether a character is a hexadecimal digit of either case.
pub open spec fn is_hex_char(c: char) -> bool {
    ('0' <= c <= '9') || ('a' <= c <= 'f') || ('A' <= c <= 'F')
}

/// Whether all characters are hexadecimal digits.
pub open spec fn all_hex(s: Seq<char>) -> bool {
    forall|i: int| 0 <= i < s.len() ==> is_hex_char(#[trigger] s[i])
}

/// `s` without a leading `0x`.
pub open spec fn without_0x(s: Seq<char>) -> Seq<char> {
    if starts_with(s, seq!['0', 'x']) {
        s.subrange(2, s.len() as int)
    } else {
        s
    }
}

/// What an input argument is: a hex string where it holds at least eight
/// hexadecimal digits that begin with `84`, after an optional `0x`, and the
/// path of a file otherwise.
pub open spec fn detected(s: Seq<char>) -> Source {
    let candidate = without_0x(s);
    if candidate.len() >= 8 && all_hex(candidate) && starts_with(candidate, seq!['8', '4']) {
        Source::Hex(candidate)
    } else {
        Source::File(s)
    }
}

/// Whether `s` is one of the shortcuts that are taken for a query.
pub open spec fn is_known_shortcut(s: Seq<char>) -> bool {
    ||| s == "fee"@
    ||| s == "inputs"@
    ||| s == "outputs"@
    ||| s == "metadata"@
    ||| s == "witnesses"@
    ||| s == "hash"@
    ||| s == "ttl"@
    ||| s == "mint"@
    ||| s == "certs"@
    ||| s == "withdrawals"@
    ||| s == "collateral"@
}

/// Whether `s` ends like the name of a file.
pub open spec fn has_file_extension(s: Seq<char>) -> bool {
    ||| ends_with(s, ".cbor"@)
    ||| ends_with(s, ".bin"@)
    ||| ends_with(s, ".hex"@)
    ||| ends_with(s, ".raw"@)
    ||| ends_with(s, ".tx"@)
    ||| ends_with(s, ".json"@)
}

/// Whether a lone argument is taken for a query rather than for an input.
pub open spec fn query_like(s: Seq<char>) -> bool {
    if is_known_shortcut(s) {
        true
    } else if has_file_extension(s) {
        false
    } else {
        ||| index_of(s, '.') is Some
        ||| index_of(s, '*') is Some
        ||| starts_with(s, "body"@)
        ||| starts_with(s, "auxiliary"@)
        ||| starts_with(s, "witness"@)
    }
}

/// The query and the input that the positional arguments give.
pub open spec fn resolved(first: Option<Seq<char>>, second: Option<Seq<char>>) -> (
    Option<Seq<char>>,
    Source,
) {
    match (first, second) {
        (Some(a), Some(b)) => (Some(a), detected(b)),
        (Some(a), None) => if query_like(a) {
            (Some(a), Source::Stdin)
        } else {
            (None, detected(a))
        },
        _ => (None, Source::Stdin),
    }
}

/// The view of an optional string.
pub open spec fn text_view(s: Option<String>) -> Option<Seq<char>> {
    match s {
        Some(t) => Some(t@),
        None => None,
    }
}

fn begins(s: &Vec<char>, prefix: &str) -> (r: bool)
    ensures
        r == starts_with(s@, prefix@),
{
    let p = to_chars(prefix);
    stands_at(s, &p, 0)
}

fn ends(s: &Vec<char>, suffix: &str) -> (r: bool)
    ensures
        r == ends_with(s@, suffix@),
{
    let p = to_chars(suffix);
    if p.len() > s.len() {
        return false;
    }
    stands_at(s, &p, s.len() - p.len())
}

fn spells(s: &Vec<char>, word: &str) -> (r: bool)
    ensures
        r == (s@ == word@),
{
    let p = to_chars(word);
    if p.len() != s.len() {
        return false;
    }
    let r = stands_at(s, &p, 0);
    assert(s@.subrange(0, s.len() as int) =~= s@);
    r
}

fn hex_char(c: char) -> (r: bool)
    ensures
        r == is_hex_char(c),
{
    (c >= '0' && c <= '9') || (c >= 'a' && c <= 'f') || (c >= 'A' && c <= 'F')
}

/// Whether all characters of `s[from..]` are hexadecimal digits.
pub fn all_hex_from(s: &Vec<char>, from: usize) -> (r: bool)
    requires
        from <= s.len(),
    ensures
        r == all_hex(s@.subrange(from as int, s.len() as int)),
{
    let ghost w = s@.subrange(from as int, s.len() as int);
    let mut i: usize = from;
    while i < s.len()
        invariant
            from <= i <= s.len(),
            w == s@.subrange(from as int, s.len() as int),
            forall|j: int| 0 <= j < i - from ==> is_hex_char(#[trigger] w[j]),
        decreases s.len() - i,
    {
        if !hex_char(s[i]) {
            assert(!is_hex_char(w[i - from]));
            return false;
        }
        i += 1;
    }
    true
}

impl Args {
    /// Resolve the query and input from positional arguments.
    ///
    /// Returns (optional query path, input specification).
    pub fn resolve(&self) -> (r: (Option<&str>, InputSpec))
        requires
            self.first is None ==> self.second is None,
        ensures
            r.1@ == resolved(text_view(self.first), text_view(self.second)).1,
            match r.0 {
                Some(q) => resolved(text_view(self.first), text_view(self.second)).0 == Some(q@),
                None => resolved(text_view(self.first), text_view(self.second)).0 is None,
            },
    {
        match (&self.first, &self.second) {
            (None, _) => (None, InputSpec::Stdin),
            (Some(first), None) => {
                if Self::looks_like_query(first.as_str()) {
                    (Some(first.as_str()), InputSpec::Stdin)
                } else {
                    (None, InputSpec::detect(first.as_str()))
                }
            },
            (Some(query), Some(input)) => (Some(query.as_str()), InputSpec::detect(input.as_str())),
        }
    }

    /// Heuristic to determine if a string looks like a query path.
    pub fn looks_like_query(s: &str) -> (r: bool)
        ensures
            r == query_like(s@),
    {
        let c = to_chars(s);
        if spells(&c, "fee") || spells(&c, "inputs") || spells(&c, "outputs") || spells(&c, "metadata") || spells(&c,
            "witnesses",
        ) || spells(&c, "hash") || spells(&c, "ttl") || spells(&c, "mint") || spells(&c, "certs") || spells(&c,
            "withdrawals",
        ) || spells(&c, "collateral") {
            return true;
        }
        if ends(&c, ".cbor") || ends(&c, ".bin") || ends(&c, ".hex") || ends(&c, ".raw") || ends(
            &c,
            ".tx",
        ) || ends(&c, ".json") {
            return false;
        }
        assert(c@.subrange(0, c.len() as int) =~= c@);
        if find_char(&c, 0, '.').is_some() || find_char(&c, 0, '*').is_some() {
            return true;
        }
        begins(&c, "body") || begins(&c, "auxiliary") || begins(&c, "witness")
    }
}

impl InputSpec {
    /// Detect input type from a string argument.
    pub fn detect(s: &str) -> (r: InputSpec)
        ensures
            r@ == detected(s@),
    {
        let c = to_chars(s);
        let n = c.len();
        let zero_x: Vec<char> = vec!['0', 'x'];
        let eight_four: Vec<char> = vec!['8', '4'];
        assert(zero_x@ =~= seq!['0', 'x']);
        assert(eight_four@ =~= seq!['8', '4']);
        let start: usize = if stands_at(&c, &zero_x, 0) {
            2
        } else {
            0
        };
        let candidate = slice(&c, start, n);
        assert(candidate@ =~= without_0x(c@));
        if candidate.len() >= 8 && all_hex_from(&candidate, 0) && stands_at(
            &candidate,
            &eight_four,
            0,
        ) {
            assert(candidate@.subrange(0, candidate.len() as int) =~= candidate@);
            return InputSpec::Hex(to_text(&candidate, 0, candidate.len()));
        }
        proof {
            assert(candidate@.subrange(0, candidate.len() as int) =~= candidate@);
        }
        InputSpec::File(s.to_owned())
    }
}

} // verus!
