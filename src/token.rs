use vstd::prelude::*;
use vstd::string::StringExecFns;

verus! {

/// Number of hex digits a token code carries at least.
pub const TOKEN_WIDTH: u64 = 8;

/// The uppercase hexadecimal digit for `d` (meaningful for `d < 16`).
pub open spec fn hex_digit(d: nat) -> char {
    seq!['0', '1', '2', '3', '4', '5', '6', '7', '8', '9', 'A', 'B', 'C', 'D', 'E', 'F'][d as int]
}

/// The uppercase hexadecimal digits of `n`, padded on the left with zeros to
/// at least `width` digits; no digit at all for zero at width zero.
pub open spec fn hex_padded(n: nat, width: nat) -> Seq<char>
    decreases n, width,
{
    if n == 0 && width == 0 {
        seq![]
    } else {
        let rest = if width > 0 { (width - 1) as nat } else { 0nat };
        hex_padded(n / 16, rest).push(hex_digit(n % 16))
    }
}

/// The display code of a ticket: `VRN-` followed by its id in uppercase hex,
/// zero-padded to eight digits.
pub open spec fn token_code(id: u64) -> Seq<char> {
    seq!['V', 'R', 'N', '-'] + hex_padded(id as nat, TOKEN_WIDTH as nat)
}

fn hex_digit_str(d: u64) -> (r: &'static str)
    requires
        d < 16,
    ensures
        r@ == seq![hex_digit(d as nat)],
{
    proof {
        reveal_strlit("0"); reveal_strlit("1"); reveal_strlit("2"); reveal_strlit("3");
        reveal_strlit("4"); reveal_strlit("5"); reveal_strlit("6"); reveal_strlit("7");
        reveal_strlit("8"); reveal_strlit("9"); reveal_strlit("A"); reveal_strlit("B");
        reveal_strlit("C"); reveal_strlit("D"); reveal_strlit("E"); reveal_strlit("F");
    }
    let r = if d == 0 { "0" } else if d == 1 { "1" } else if d == 2 { "2" } else if d == 3 {
        "3"
    } else if d == 4 { "4" } else if d == 5 { "5" } else if d == 6 { "6" } else if d == 7 {
        "7"
    } else if d == 8 { "8" } else if d == 9 { "9" } else if d == 10 { "A" } else if d == 11 {
        "B"
    } else if d == 12 { "C" } else if d == 13 { "D" } else if d == 14 { "E" } else { "F" };
    assert(r@ =~= seq![hex_digit(d as nat)]);
    r
}

fn append_hex(s: &mut String, n: u64, width: u64)
    ensures
        final(s)@ == old(s)@ + hex_padded(n as nat, width as nat),
    decreases n, width,
{
    if n == 0 && width == 0 {
        assert(old(s)@ + hex_padded(0, 0) =~= old(s)@);
        return;
    }
    let rest: u64 = if width > 0 { width - 1 } else { 0 };
    append_hex(s, n / 16, rest);
    s.append(hex_digit_str(n % 16));
    assert(final(s)@ =~= old(s)@ + hex_padded(n as nat, width as nat));
}

/// The ticket's display code, `VRN-` and the id in zero-padded uppercase hex.
pub fn generate_token_id(ticket_id: u64) -> (r: String)
    ensures
        r@ == token_code(ticket_id),
{
    proof {
        reveal_strlit("VRN-");
    }
    let mut s = String::from_str("VRN-");
    append_hex(&mut s, ticket_id, TOKEN_WIDTH);
    s
}

} // verus!
