//! Input sources: where the bytes come from, and what piped text means.

use crate::cli::{all_hex, all_hex_from, without_0x, InputSpec, Source};
use crate::error::Error;
use crate::hexcode::{decode_hex, hex_bytes, is_hex};
use crate::text::{slice, stands_at, to_chars, trim, trimmed};
use vstd::prelude::*;
use vstd::utf8::{decode_utf8, encode_utf8, valid_utf8};

verus! {

/// Resolved input source ready for reading.
#[derive(Debug)]
pub enum InputSource {
    /// Read from a file path.
    File(String),
    /// Hex string already decoded to bytes.
    Bytes(Vec<u8>),
    /// Read from stdin.
    Stdin,
}

/// `std::str::from_utf8`: the text that the bytes encode, where they are
/// well-formed UTF-8, and nothing otherwise.
#[verifier::external_body]
pub(crate) fn text_of_bytes(bytes: &[u8]) -> (r: Option<String>)
    ensures
        match r {
            Some(s) => valid_utf8(bytes@) && s@ == decode_utf8(bytes@),
            None => !valid_utf8(bytes@),
        },
{
    match std::str::from_utf8(bytes) {
        Ok(s) => Some(s.to_owned()),
        Err(_) => None,
    }
}

/// The bytes of characters that are all below 256.
pub open spec fn narrow(s: Seq<char>) -> Seq<u8> {
    s.map_values(|c: char| c as u8)
}

/// What piped input means. Bytes that are not text stand for themselves. Text
/// is trimmed; nothing is left: there is no input. What is left, after an
/// optional `0x`, is hexadecimal where it is four or more hexadecimal digits,
/// and then stands for the bytes it writes, which takes an even number of
/// digits. Any other text stands for itself.
pub open spec fn piped(buffer: Seq<u8>) -> Option<Seq<u8>> {
    if !valid_utf8(buffer) {
        Some(buffer)
    } else if trim(decode_utf8(buffer)).len() == 0 {
        None
    } else {
        let candidate = without_0x(trim(decode_utf8(buffer)));
        if all_hex(candidate) && candidate.len() >= 4 {
            if candidate.len() % 2 == 0 {
                Some(hex_bytes(narrow(candidate)))
            } else {
                None
            }
        } else {
            Some(buffer)
        }
    }
}

/// Whether piped input holds nothing but white space.
pub open spec fn piped_nothing(buffer: Seq<u8>) -> bool {
    valid_utf8(buffer) && trim(decode_utf8(buffer)).len() == 0
}

fn narrowed(s: &Vec<char>) -> (r: Vec<u8>)
    requires
        all_hex(s@),
    ensures
        r@ == narrow(s@),
        is_hex(r@) == (s.len() % 2 == 0),
{
    let mut r: Vec<u8> = Vec::new();
    let mut i: usize = 0;
    while i < s.len()
        invariant
            i <= s.len(),
            all_hex(s@),
            r@.len() == i,
            forall|j: int| 0 <= j < i ==> r@[j] == s@[j] as u8,
            forall|j: int| 0 <= j < i ==> crate::hexcode::hex_value(#[trigger] r@[j]) is Some,
        decreases s.len() - i,
    {
        let c = s[i];
        assert(crate::cli::is_hex_char(s@[i as int]));
        r.push(c as u8);
        i += 1;
    }
    assert(r@ =~= narrow(s@));
    r
}

/// Detect if stdin content is hex-encoded and decode if necessary.
pub fn detect_and_decode_stdin(buffer: Vec<u8>) -> (r: Result<Vec<u8>, Error>)
    ensures
        match r {
            Ok(bytes) => piped(buffer@) == Some(bytes@),
            Err(e) => piped(buffer@) is None && (if piped_nothing(buffer@) {
                e is NoInput
            } else {
                e is InvalidHex
            }),
        },
{
    let text = match text_of_bytes(buffer.as_slice()) {
        None => {
            return Ok(buffer);
        },
        Some(t) => t,
    };
    let chars = to_chars(text.as_str());
    let body = trimmed(&chars);
    if body.len() == 0 {
        return Err(Error::NoInput);
    }
    let zero_x: Vec<char> = vec!['0', 'x'];
    assert(zero_x@ =~= seq!['0', 'x']);
    let start: usize = if stands_at(&body, &zero_x, 0) {
        2
    } else {
        0
    };
    let candidate = slice(&body, start, body.len());
    assert(candidate@ =~= without_0x(body@));
    assert(candidate@.subrange(0, candidate.len() as int) =~= candidate@);
    if all_hex_from(&candidate, 0) && candidate.len() >= 4 {
        let digits = narrowed(&candidate);
        match decode_hex(digits.as_slice()) {
            Ok(bytes) => Ok(bytes),
            Err(e) => Err(Error::InvalidHex(e)),
        }
    } else {
        Ok(buffer)
    }
}

/// The mathematical value of an `InputSource`.
pub enum Input {
    File(Seq<char>),
    Bytes(Seq<u8>),
    Stdin,
}

impl View for InputSource {
    type V = Input;

    open spec fn view(&self) -> Input {
        match self {
            InputSource::File(p) => Input::File(p@),
            InputSource::Bytes(b) => Input::Bytes(b@),
            InputSource::Stdin => Input::Stdin,
        }
    }
}

/// The source that an input specification resolves to, or `None` where it
/// fails: standard input that is a terminal, a file that does not exist, a
/// hex string that is malformed.
pub open spec fn source_of(spec: Source, stdin_is_terminal: bool, file_exists: bool) -> Option<
    Input,
> {
    match spec {
        Source::Stdin => if stdin_is_terminal {
            None
        } else {
            Some(Input::Stdin)
        },
        Source::File(path) => if file_exists {
            Some(Input::File(path))
        } else {
            None
        },
        Source::Hex(text) => if is_hex(encode_utf8(text)) {
            Some(Input::Bytes(hex_bytes(encode_utf8(text))))
        } else {
            None
        },
    }
}

impl InputSource {
    /// Create an `InputSource` from an `InputSpec`. The caller says whether
    /// standard input is a terminal and, for a file, whether it exists.
    pub fn from_spec(spec: &InputSpec, stdin_is_terminal: bool, file_exists: bool) -> (r: Result<
        InputSource,
        Error,
    >)
        ensures
            match r {
                Ok(source) => source_of(spec@, stdin_is_terminal, file_exists) == Some(source@),
                Err(e) => source_of(spec@, stdin_is_terminal, file_exists) is None && (match spec {
                    InputSpec::Stdin => e is NoInput,
                    InputSpec::File(path) => e is FileNotFound && e->FileNotFound_0@ == path@,
                    InputSpec::Hex(_) => e is InvalidHex,
                }),
            },
    {
        match spec {
            InputSpec::Stdin => {
                if stdin_is_terminal {
                    return Err(Error::NoInput);
                }
                Ok(InputSource::Stdin)
            },
            InputSpec::File(path) => {
                if !file_exists {
                    return Err(Error::FileNotFound(path.clone()));
                }
                Ok(InputSource::File(path.clone()))
            },
            InputSpec::Hex(hex_str) => {
                match decode_hex(hex_str.as_str().as_bytes()) {
                    Ok(bytes) => Ok(InputSource::Bytes(bytes)),
                    Err(e) => Err(Error::InvalidHex(e)),
                }
            },
        }
    }
}

} // verus!
