//! Text for display: grouped numbers, shortened hashes and addresses, and
//! the names of certificates.

use crate::cli::{all_hex, all_hex_from, starts_with, Args};
use crate::double::{lemma_powers, nearest_integer, rounded_ratio, to_nearest_integer};
use crate::text::{
    digit_char, digits_of, push_digits, push_wide_digits, same_text, stands_at, to_chars, to_text,
};
use vstd::arithmetic::power2::{lemma_pow2_unfold, pow2};
use vstd::prelude::*;
use vstd::string::{StringExecFns, StringSliceAdditionalSpecFns};
use vstd::utf8::{encode_utf8, is_ascii_chars, is_ascii_chars_encode_utf8};

verus! {

/// Digits in groups of three, counted from the right, with commas between
/// the groups.
pub open spec fn grouped(d: Seq<char>) -> Seq<char>
    decreases d.len(),
{
    if d.len() <= 3 {
        d
    } else {
        grouped(d.subrange(0, d.len() - 3)) + seq![','] + d.subrange(d.len() - 3, d.len() as int)
    }
}

fn group_into(d: &Vec<char>, end: usize, out: &mut Vec<char>)
    requires
        end <= d.len(),
    ensures
        final(out)@ == old(out)@ + grouped(d@.subrange(0, end as int)),
    decreases end,
{
    let ghost w = d@.subrange(0, end as int);
    let start: usize = if end <= 3 {
        0
    } else {
        end - 3
    };
    if end > 3 {
        group_into(d, start, out);
        out.push(',');
        assert(w.subrange(0, w.len() - 3) =~= d@.subrange(0, start as int));
    }
    let ghost head = out@;
    let mut i: usize = start;
    while i < end
        invariant
            start <= i <= end <= d.len(),
            out@ == head + d@.subrange(start as int, i as int),
        decreases end - i,
    {
        out.push(d[i]);
        i += 1;
        assert(head + d@.subrange(start as int, i as int) =~= (head + d@.subrange(
            start as int,
            i - 1,
        )).push(d@[i - 1]));
    }
    proof {
        if end > 3 {
            assert(w.subrange(w.len() - 3, w.len() as int) =~= d@.subrange(
                start as int,
                end as int,
            ));
            assert(out@ =~= old(out)@ + grouped(w));
        } else {
            assert(head + d@.subrange(0, end as int) =~= old(out)@ + grouped(w));
        }
    }
}

/// Format a number with thousand separators.
pub fn format_number_with_separators(n: u64) -> (r: String)
    ensures
        r@ == grouped(digits_of(n as nat)),
{
    let mut digits: Vec<char> = Vec::new();
    push_digits(n, &mut digits);
    assert(digits@ =~= digits_of(n as nat));
    let mut out: Vec<char> = Vec::new();
    group_into(&digits, digits.len(), &mut out);
    assert(digits@.subrange(0, digits.len() as int) =~= digits@);
    assert(out@ =~= grouped(digits@));
    assert(out@.subrange(0, out.len() as int) =~= out@);
    to_text(&out, 0, out.len())
}

/// The three dots that stand for what was cut out.
pub open spec fn ellipsis() -> Seq<char> {
    seq!['.', '.', '.']
}

/// The number of bytes that a text takes.
pub open spec fn byte_len(s: Seq<char>) -> nat {
    encode_utf8(s).len()
}

/// A hash cut down for display: as it is where it takes at most `max_len`
/// bytes, and else its first and last `(max_len - 3) / 2` characters with
/// three dots between them.
pub open spec fn truncated_hash(hash: Seq<char>, max_len: int) -> Seq<char> {
    if byte_len(hash) <= max_len {
        hash
    } else {
        let half = (max_len - 3) / 2;
        hash.subrange(0, half) + ellipsis() + hash.subrange(hash.len() - half, hash.len() as int)
    }
}

/// An address cut down for display: as it is where it takes at most
/// `max_len` bytes, and else its first `max_len - 11` and its last eight
/// characters with three dots between them.
pub open spec fn truncated_address(addr: Seq<char>, max_len: int) -> Seq<char> {
    if byte_len(addr) <= max_len {
        addr
    } else {
        addr.subrange(0, max_len - 11) + ellipsis() + addr.subrange(
            addr.len() - 8,
            addr.len() as int,
        )
    }
}

fn joined(s: &Vec<char>, head: usize, tail: usize) -> (r: String)
    requires
        head <= s.len(),
        tail <= s.len(),
    ensures
        r@ == s@.subrange(0, head as int) + ellipsis() + s@.subrange(
            s.len() - tail,
            s.len() as int,
        ),
{
    let mut out: Vec<char> = Vec::new();
    let mut i: usize = 0;
    while i < head
        invariant
            i <= head <= s.len(),
            out@ == s@.subrange(0, i as int),
        decreases head - i,
    {
        out.push(s[i]);
        i += 1;
        assert(s@.subrange(0, i as int) =~= s@.subrange(0, i - 1).push(s@[i - 1]));
    }
    out.push('.');
    out.push('.');
    out.push('.');
    let ghost front = out@;
    assert(front =~= s@.subrange(0, head as int) + ellipsis());
    let from = s.len() - tail;
    let mut j: usize = from;
    while j < s.len()
        invariant
            from <= j <= s.len(),
            out@ == front + s@.subrange(from as int, j as int),
        decreases s.len() - j,
    {
        out.push(s[j]);
        j += 1;
        assert(front + s@.subrange(from as int, j as int) =~= (front + s@.subrange(
            from as int,
            j - 1,
        )).push(s@[j - 1]));
    }
    assert(out@.subrange(0, out.len() as int) =~= out@);
    to_text(&out, 0, out.len())
}

/// Truncate a hash for display. A hash that is cut is cut at bytes, so it
/// must be ASCII and leave room for the three dots.
pub fn truncate_hash(hash: &str, max_len: usize) -> (r: String)
    requires
        byte_len(hash@) > max_len ==> is_ascii_chars(hash@) && max_len >= 3,
    ensures
        r@ == truncated_hash(hash@, max_len as int),
{
    if hash.as_bytes().len() <= max_len {
        hash.to_owned()
    } else {
        proof {
            is_ascii_chars_encode_utf8(hash@);
        }
        let c = to_chars(hash);
        let half = (max_len - 3) / 2;
        joined(&c, half, half)
    }
}

/// Truncate an address for display. An address that is cut is cut at bytes,
/// so it must be ASCII and leave room for the three dots and the eight
/// characters behind them.
pub fn truncate_address(addr: &str, max_len: usize) -> (r: String)
    requires
        byte_len(addr@) > max_len ==> is_ascii_chars(addr@) && max_len >= 11,
    ensures
        r@ == truncated_address(addr@, max_len as int),
{
    if addr.as_bytes().len() <= max_len {
        addr.to_owned()
    } else {
        proof {
            is_ascii_chars_encode_utf8(addr@);
        }
        let c = to_chars(addr);
        joined(&c, max_len - 11, 8)
    }
}

/// The name under which a type of certificate is shown; a type that is not
/// known is shown as it is.
pub open spec fn cert_type_title(t: Seq<char>) -> Seq<char> {
    if t == "stake_registration"@ {
        "Stake Registration"@
    } else if t == "stake_deregistration"@ {
        "Stake Deregistration"@
    } else if t == "stake_delegation"@ {
        "Stake Delegation"@
    } else if t == "pool_registration"@ {
        "Pool Registration"@
    } else if t == "pool_retirement"@ {
        "Pool Retirement"@
    } else if t == "reg_cert"@ {
        "Registration (Conway)"@
    } else if t == "unreg_cert"@ {
        "Deregistration (Conway)"@
    } else if t == "vote_deleg_cert"@ {
        "Vote Delegation"@
    } else if t == "stake_vote_deleg_cert"@ {
        "Stake+Vote Delegation"@
    } else if t == "stake_reg_deleg_cert"@ {
        "Stake Reg+Delegation"@
    } else if t == "vote_reg_deleg_cert"@ {
        "Vote Reg+Delegation"@
    } else if t == "stake_vote_reg_deleg_cert"@ {
        "Stake+Vote Reg+Del"@
    } else if t == "auth_committee_hot_cert"@ {
        "Auth Committee Hot"@
    } else if t == "resign_committee_cold_cert"@ {
        "Resign Committee Cold"@
    } else if t == "reg_drep_cert"@ {
        "Register DRep"@
    } else if t == "unreg_drep_cert"@ {
        "Unregister DRep"@
    } else if t == "update_drep_cert"@ {
        "Update DRep"@
    } else {
        t
    }
}

/// Format certificate type for display.
pub fn format_cert_type(cert_type: &str) -> (r: String)
    ensures
        r@ == cert_type_title(cert_type@),
{
    let title = if same_text(cert_type, "stake_registration") {
        "Stake Registration"
    } else if same_text(cert_type, "stake_deregistration") {
        "Stake Deregistration"
    } else if same_text(cert_type, "stake_delegation") {
        "Stake Delegation"
    } else if same_text(cert_type, "pool_registration") {
        "Pool Registration"
    } else if same_text(cert_type, "pool_retirement") {
        "Pool Retirement"
    } else if same_text(cert_type, "reg_cert") {
        "Registration (Conway)"
    } else if same_text(cert_type, "unreg_cert") {
        "Deregistration (Conway)"
    } else if same_text(cert_type, "vote_deleg_cert") {
        "Vote Delegation"
    } else if same_text(cert_type, "stake_vote_deleg_cert") {
        "Stake+Vote Delegation"
    } else if same_text(cert_type, "stake_reg_deleg_cert") {
        "Stake Reg+Delegation"
    } else if same_text(cert_type, "vote_reg_deleg_cert") {
        "Vote Reg+Delegation"
    } else if same_text(cert_type, "stake_vote_reg_deleg_cert") {
        "Stake+Vote Reg+Del"
    } else if same_text(cert_type, "auth_committee_hot_cert") {
        "Auth Committee Hot"
    } else if same_text(cert_type, "resign_committee_cold_cert") {
        "Resign Committee Cold"
    } else if same_text(cert_type, "reg_drep_cert") {
        "Register DRep"
    } else if same_text(cert_type, "unreg_drep_cert") {
        "Unregister DRep"
    } else if same_text(cert_type, "update_drep_cert") {
        "Update DRep"
    } else {
        cert_type
    };
    title.to_owned()
}

/// A string in raw notation: as bytes, `h'..'`, where it is an even number
/// of hexadecimal digits and at least two, and in double quotes otherwise.
pub open spec fn raw_string(s: Seq<char>) -> Seq<char> {
    if all_hex(s) && s.len() >= 2 && s.len() % 2 == 0 {
        seq!['h', '\''] + s + seq!['\'']
    } else {
        seq!['"'] + s + seq!['"']
    }
}

/// Format a string in raw mode.
pub fn format_string_raw(s: &str) -> (r: String)
    ensures
        r@ == raw_string(s@),
{
    let c = to_chars(s);
    assert(c@.subrange(0, c.len() as int) =~= c@);
    let mut out: Vec<char> = Vec::new();
    let bytes = all_hex_from(&c, 0) && c.len() >= 2 && c.len() % 2 == 0;
    if bytes {
        out.push('h');
        out.push('\'');
    } else {
        out.push('"');
    }
    let ghost front = out@;
    let mut i: usize = 0;
    while i < c.len()
        invariant
            i <= c.len(),
            out@ == front + c@.subrange(0, i as int),
        decreases c.len() - i,
    {
        out.push(c[i]);
        i += 1;
        assert(front + c@.subrange(0, i as int) =~= (front + c@.subrange(0, i - 1)).push(
            c@[i - 1],
        ));
    }
    if bytes {
        out.push('\'');
    } else {
        out.push('"');
    }
    assert(out@ =~= raw_string(s@));
    assert(out@.subrange(0, out.len() as int) =~= out@);
    to_text(&out, 0, out.len())
}

/// A string as it is shown alone: a hash, which is sixteen hexadecimal
/// digits or more, is cut down to 24 characters; an address, which begins
/// with `addr`, and any other string are shown as they are.
pub open spec fn shown_string(s: Seq<char>) -> Seq<char> {
    if !starts_with(s, "addr"@) && all_hex(s) && s.len() >= 16 {
        truncated_hash(s, 24)
    } else {
        s
    }
}

/// Format a string that is a single value.
pub fn format_string_value(s: &str) -> (r: String)
    ensures
        r@ == shown_string(s@),
{
    let c = to_chars(s);
    assert(c@.subrange(0, c.len() as int) =~= c@);
    let prefix = to_chars("addr");
    if !stands_at(&c, &prefix, 0) && all_hex_from(&c, 0) && c.len() >= 16 {
        proof {
            assert(is_ascii_chars(s@)) by {
                assert forall|i: int| 0 <= i < s@.len() implies '\0' <= #[trigger] s@[i]
                    <= '\u{7f}' by {
                    assert(crate::cli::is_hex_char(s@[i]));
                }
            }
        }
        truncate_hash(s, 24)
    } else {
        s.to_owned()
    }
}

/// The least `j` from `k` on at which `x` times two to the power `j`
/// reaches `d` times 2^52, looked for up to 128.
pub open spec fn lift(x: nat, d: nat, k: nat) -> nat
    decreases 128 - k,
{
    if k >= 128 || x * pow2(k) >= 0x10_0000_0000_0000 * d {
        k
    } else {
        lift(x, d, k + 1)
    }
}

/// An amount of lovelace in millionths of an ADA, as doubles give it: the
/// amount as a double, divided by a million with the quotient rounded to a
/// double of 53 binary digits, and that rounded to six decimals.
pub open spec fn micro_ada(lovelace: u64) -> nat {
    let x = nearest_integer(lovelace as nat);
    if x == 0 {
        0
    } else {
        let k = lift(x, 1_000_000, 0);
        let m = rounded_ratio(x * pow2(k), 1_000_000);
        rounded_ratio(m * 1_000_000, pow2(k))
    }
}

/// The six digits of a number below a million, with zeros in front.
pub open spec fn six_digits(n: nat) -> Seq<char> {
    seq![
        digit_char(n / 100_000 % 10),
        digit_char(n / 10_000 % 10),
        digit_char(n / 1_000 % 10),
        digit_char(n / 100 % 10),
        digit_char(n / 10 % 10),
        digit_char(n % 10),
    ]
}

/// An amount of lovelace as it is shown: in ADA with six decimals, or in
/// lovelace with its digits in groups of three.
pub open spec fn lovelace_text(lovelace: u64, ada: bool) -> Seq<char> {
    if ada {
        digits_of(micro_ada(lovelace) / 1_000_000) + seq!['.'] + six_digits(
            micro_ada(lovelace) % 1_000_000,
        ) + " ADA"@
    } else {
        grouped(digits_of(lovelace as nat)) + " lovelace"@
    }
}

fn ratio(n: u128, d: u128) -> (r: u128)
    requires
        0 < d <= 0x1_0000_0000_0000_0000_0000,
        n <= 0x1_0000_0000_0000_0000_0000,
    ensures
        r == rounded_ratio(n as nat, d as nat),
        r <= n / d + 1,
{
    let q = n / d;
    let r = n % d;
    if 2 * r > d || (2 * r == d && q % 2 == 1) {
        q + 1
    } else {
        q
    }
}

/// An amount of lovelace in millionths of an ADA, as doubles give it.
pub fn to_micro_ada(lovelace: u64) -> (r: u128)
    ensures
        r == micro_ada(lovelace),
        r <= 0x1_0000_0000_0000_0000_0000,
{
    let x = to_nearest_integer(lovelace);
    if x == 0 {
        return 0;
    }
    let mut k: u32 = 0;
    let mut pk: u128 = 1;
    proof {
        lemma_powers();
        assert(x * pk == x) by (nonlinear_arith)
            requires
                pk == 1,
        ;
    }
    while x * pk < 0x10_0000_0000_0000 * 1_000_000
        invariant
            0 < x <= 0x1_0000_0000_0000_0000,
            pk == pow2(k as nat),
            0 < pk,
            k <= 72,
            x * pk < 2 * (0x10_0000_0000_0000 * 1_000_000),
            lift(x as nat, 1_000_000, 0) == lift(x as nat, 1_000_000, k as nat),
        decreases 2 * (0x10_0000_0000_0000 * 1_000_000) - x * pk,
    {
        proof {
            lemma_pow2_unfold((k + 1) as nat);
            assert(pk <= x * pk && x * pk > 0 && x * (2 * pk) == 2 * (x * pk)) by (nonlinear_arith)
                requires
                    x >= 1,
                    pk >= 1,
            ;
            if k >= 72 {
                crate::double::lemma_pow2_monotone(72, k as nat);
                vstd::arithmetic::power2::lemma_pow2_adds(64, 8);
                vstd::arithmetic::power2::lemma2_to64();
            }
        }
        pk = pk * 2;
        k = k + 1;
    }
    let n = x * pk;
    let m = ratio(n, 1_000_000);
    proof {
        assert(n / 1_000_000 <= 2 * 0x10_0000_0000_0000);
        assert(pk <= n) by (nonlinear_arith)
            requires
                n == x * pk,
                x >= 1,
                pk >= 1,
        ;
    }
    let r = ratio(m * 1_000_000, pk);
    proof {
        assert((m * 1_000_000) / pk as int <= m * 1_000_000) by (nonlinear_arith)
            requires
                pk >= 1,
                m >= 0,
        ;
    }
    r
}

fn push_six_digits(n: u64, out: &mut Vec<char>)
    requires
        n < 1_000_000,
    ensures
        final(out)@ == old(out)@ + six_digits(n as nat),
{
    let ghost before = out@;
    let mut divisor: u64 = 100_000;
    let mut i: usize = 0;
    let ghost all = six_digits(n as nat);
    assert(before + all.subrange(0, 0) =~= before);
    while i < 6
        invariant
            i <= 6,
            n < 1_000_000,
            all == six_digits(n as nat),
            i == 0 ==> divisor == 100_000,
            i == 1 ==> divisor == 10_000,
            i == 2 ==> divisor == 1_000,
            i == 3 ==> divisor == 100,
            i == 4 ==> divisor == 10,
            i == 5 ==> divisor == 1,
            out@ == before + all.subrange(0, i as int),
        decreases 6 - i,
    {
        let d = n / divisor % 10;
        let mut one: Vec<char> = Vec::new();
        push_digits(d, &mut one);
        assert(one@ =~= seq![digit_char(d as nat)]);
        assert(all[i as int] == digit_char(d as nat));
        out.push(one[0]);
        assert(before + all.subrange(0, i + 1) =~= (before + all.subrange(0, i as int)).push(
            all[i as int],
        ));
        if i < 5 {
            divisor = divisor / 10;
        }
        i += 1;
    }
    assert(all.subrange(0, 6) =~= all);
}

/// Format lovelace amount, optionally as ADA.
pub fn format_lovelace(lovelace: u64, args: &Args) -> (r: String)
    ensures
        r@ == lovelace_text(lovelace, args.ada),
{
    let mut out: Vec<char> = Vec::new();
    if args.ada {
        let micro = to_micro_ada(lovelace);
        push_wide_digits(micro / 1_000_000, &mut out);
        out.push('.');
        push_six_digits((micro % 1_000_000) as u64, &mut out);
        let unit = to_chars(" ADA");
        let ghost front = out@;
        let mut i: usize = 0;
        while i < unit.len()
            invariant
                i <= unit.len(),
                out@ == front + unit@.subrange(0, i as int),
            decreases unit.len() - i,
        {
            out.push(unit[i]);
            i += 1;
            assert(front + unit@.subrange(0, i as int) =~= (front + unit@.subrange(0, i - 1)).push(
                unit@[i - 1],
            ));
        }
        assert(unit@.subrange(0, unit.len() as int) =~= unit@);
        assert(out@ =~= lovelace_text(lovelace, true));
        assert(out@.subrange(0, out.len() as int) =~= out@);
        to_text(&out, 0, out.len())
    } else {
        let grouped = format_number_with_separators(lovelace);
        grouped.concat(" lovelace")
    }
}

} // verus!
