use vstd::prelude::*;
use vstd::string::StringExecFns;

verus! {

/// The decimal digit character for `d`.
pub open spec fn digit_char(d: int) -> char {
    ((d + 48) as u8) as char
}

/// The decimal digits of `n`, most significant first.
pub open spec fn dec_digits(n: nat) -> Seq<char>
    decreases n,
{
    if n < 10 {
        seq![digit_char(n as int)]
    } else {
        dec_digits(n / 10).push(digit_char((n % 10) as int))
    }
}

/// The decimal rendering of the signed 32-bit value carried by the word `w`
/// (two's complement).
pub open spec fn signed_word_chars(w: u32) -> Seq<char> {
    if w >= 0x8000_0000 {
        seq!['-'] + dec_digits((0x1_0000_0000 - w) as nat)
    } else {
        dec_digits(w as nat)
    }
}

pub(crate) fn digit_str(d: u32) -> (s: &'static str)
    requires
        d < 10,
    ensures
        s@ == seq![digit_char(d as int)],
{
    proof {
        reveal_strlit("0");
        reveal_strlit("1");
        reveal_strlit("2");
        reveal_strlit("3");
        reveal_strlit("4");
        reveal_strlit("5");
        reveal_strlit("6");
        reveal_strlit("7");
        reveal_strlit("8");
        reveal_strlit("9");
    }
    match d {
        0 => "0",
        1 => "1",
        2 => "2",
        3 => "3",
        4 => "4",
        5 => "5",
        6 => "6",
        7 => "7",
        8 => "8",
        _ => "9",
    }
}

/// The characters a whitespace-delimited token may hold: printable ASCII
/// other than the space itself.
pub open spec fn token_chars(cs: Seq<char>) -> bool {
    cs.len() >= 1 && (forall|i: int| 0 <= i < cs.len() ==> '!' <= #[trigger] cs[i] <= '~')
}

/// A decimal rendering is a nonempty run of digit characters.
pub proof fn lemma_dec_digits_chars(n: nat)
    ensures
        dec_digits(n).len() >= 1,
        forall|i: int| 0 <= i < dec_digits(n).len() ==> '0' <= #[trigger] dec_digits(n)[i] <= '9',
        token_chars(dec_digits(n)),
    decreases n,
{
    if n >= 10 {
        lemma_dec_digits_chars(n / 10);
    }
}

/// Renders `n` in decimal.
pub fn u32_to_string(n: u32) -> (s: String)
    ensures
        s@ == dec_digits(n as nat),
    decreases n,
{
    if n < 10 {
        String::from_str(digit_str(n))
    } else {
        let mut s = u32_to_string(n / 10);
        s.append(digit_str(n % 10));
        s
    }
}

/// Renders `n` in decimal.
pub fn u128_to_string(n: u128) -> (s: String)
    ensures
        s@ == dec_digits(n as nat),
    decreases n,
{
    if n < 10 {
        String::from_str(digit_str(n as u32))
    } else {
        let mut s = u128_to_string(n / 10);
        s.append(digit_str((n % 10) as u32));
        s
    }
}

/// Renders the word `w` as the signed 32-bit value it carries on disk.
pub fn u32_word_to_signed_string(w: u32) -> (s: String)
    ensures
        s@ == signed_word_chars(w),
{
    if w >= 0x8000_0000 {
        let mag = (0xFFFF_FFFFu32 - w) + 1;
        proof {
            reveal_strlit("-");
        }
        let mut s = String::from_str("-");
        let m = u32_to_string(mag);
        s.append(m.as_str());
        s
    } else {
        u32_to_string(w)
    }
}

} // verus!
