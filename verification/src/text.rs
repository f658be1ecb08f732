//! Numbers and paths in messages.
use vstd::prelude::*;
use vstd::string::StringExecFns;

verus! {

/// A hexadecimal digit.
pub open spec fn digit_text(d: nat) -> Seq<char> {
    if d == 0 {
        "0"@
    } else if d == 1 {
        "1"@
    } else if d == 2 {
        "2"@
    } else if d == 3 {
        "3"@
    } else if d == 4 {
        "4"@
    } else if d == 5 {
        "5"@
    } else if d == 6 {
        "6"@
    } else if d == 7 {
        "7"@
    } else if d == 8 {
        "8"@
    } else if d == 9 {
        "9"@
    } else if d == 10 {
        "a"@
    } else if d == 11 {
        "b"@
    } else if d == 12 {
        "c"@
    } else if d == 13 {
        "d"@
    } else if d == 14 {
        "e"@
    } else {
        "f"@
    }
}

fn digit(d: u64) -> (r: &'static str)
    ensures
        r@ == digit_text(d as nat),
{
    match d {
        0 => "0",
        1 => "1",
        2 => "2",
        3 => "3",
        4 => "4",
        5 => "5",
        6 => "6",
        7 => "7",
        8 => "8",
        9 => "9",
        10 => "a",
        11 => "b",
        12 => "c",
        13 => "d",
        14 => "e",
        _ => "f",
    }
}

/// A number in decimal.
pub open spec fn decimal(n: nat) -> Seq<char>
    decreases n,
{
    if n < 10 {
        digit_text(n)
    } else {
        decimal(n / 10) + digit_text(n % 10)
    }
}

/// Append a number in decimal.
pub fn push_decimal(out: &mut String, n: u64)
    ensures
        final(out)@ == old(out)@ + decimal(n as nat),
    decreases n,
{
    if n < 10 {
        out.append(digit(n));
    } else {
        let ghost before = out@;
        push_decimal(out, n / 10);
        out.append(digit(n % 10));
        assert(out@ =~= before + (decimal(n as nat / 10) + digit_text(n as nat % 10)));
    }
}

/// The lowest `k` hexadecimal digits of a number, zeros included.
pub open spec fn hex_digits(n: nat, k: nat) -> Seq<char>
    decreases k,
{
    if k == 0 {
        Seq::empty()
    } else {
        hex_digits(n / 16, (k - 1) as nat) + digit_text(n % 16)
    }
}

fn push_hex(out: &mut String, n: u64, k: u64)
    ensures
        final(out)@ == old(out)@ + hex_digits(n as nat, k as nat),
    decreases k,
{
    if k > 0 {
        let ghost before = out@;
        push_hex(out, n / 16, k - 1);
        out.append(digit(n % 16));
        assert(out@ =~= before + (hex_digits(n as nat / 16, (k - 1) as nat) + digit_text(
            n as nat % 16,
        )));
    } else {
        assert(out@ =~= out@ + hex_digits(n as nat, 0));
    }
}

/// A 32-bit word in hexadecimal, all eight digits of it.
pub open spec fn hex32(n: u32) -> Seq<char> {
    "0x"@ + hex_digits(n as nat, 8)
}

/// Append a 32-bit word in hexadecimal.
pub fn push_hex32(out: &mut String, n: u32)
    ensures
        final(out)@ == old(out)@ + hex32(n),
{
    let ghost before = out@;
    out.append("0x");
    push_hex(out, n as u64, 8);
    assert(out@ =~= before + ("0x"@ + hex_digits(n as nat, 8)));
}

/// The text that stands for bytes which need not be UTF-8.
pub uninterp spec fn lossy_text(bytes: Seq<u8>) -> Seq<char>;

/// `String::from_utf8_lossy`: the text that the bytes encode. Where they are not
/// UTF-8, a replacement character stands for what encodes nothing; of that text
/// no more is said than that the bytes determine it.
#[verifier::external_body]
pub(crate) fn shown(bytes: &[u8]) -> (r: String)
    ensures
        r@ == lossy_text(bytes@),
        vstd::utf8::valid_utf8(bytes@) ==> r@ == vstd::utf8::decode_utf8(bytes@),
{
    String::from_utf8_lossy(bytes).into_owned()
}

/// The value of a digit.
pub open spec fn digit_value(c: char) -> nat {
    if '0' <= c && c <= '9' {
        (c as nat - '0' as nat) as nat
    } else {
        (c as nat - 'a' as nat + 10) as nat
    }
}

/// The number that digits stand for in a base.
pub open spec fn number_in(s: Seq<char>, base: nat) -> nat
    decreases s.len(),
{
    if s.len() == 0 {
        0
    } else {
        number_in(s.drop_last(), base) * base + digit_value(s.last())
    }
}

proof fn lemma_digit(d: nat)
    requires
        d < 16,
    ensures
        digit_text(d).len() == 1,
        digit_value(digit_text(d)[0]) == d,
        d < 10 ==> '0' <= digit_text(d)[0] && digit_text(d)[0] <= '9',
{
    reveal_strlit("0");
    reveal_strlit("1");
    reveal_strlit("2");
    reveal_strlit("3");
    reveal_strlit("4");
    reveal_strlit("5");
    reveal_strlit("6");
    reveal_strlit("7");
    reveal_strlit("8");
    reveal_strlit("9");
    reveal_strlit("a");
    reveal_strlit("b");
    reveal_strlit("c");
    reveal_strlit("d");
    reveal_strlit("e");
    reveal_strlit("f");
}

/// The decimal form of a number reads back as it, and has no zero in front.
pub proof fn law_decimal_reads_back(n: nat)
    ensures
        decimal(n).len() >= 1,
        number_in(decimal(n), 10) == n,
        n > 0 ==> decimal(n)[0] != '0',
    decreases n,
{
    if n < 10 {
        lemma_digit(n);
        let s = decimal(n);
        assert(s.drop_last() =~= Seq::<char>::empty());
        assert(number_in(s.drop_last(), 10) == 0);
    } else {
        law_decimal_reads_back(n / 10);
        lemma_digit(n % 10);
        let s = decimal(n);
        assert(s.drop_last() =~= decimal(n / 10));
        assert(s.last() == digit_text(n % 10)[0]);
    }
}

/// Sixteen to the power `k`.
pub open spec fn places(k: nat) -> nat
    decreases k,
{
    if k == 0 {
        1
    } else {
        16 * places((k - 1) as nat)
    }
}

/// The hexadecimal form of a number that fits its digits reads back as it.
pub proof fn law_hexadecimal_reads_back(n: nat, k: nat)
    requires
        n < places(k),
    ensures
        hex_digits(n, k).len() == k,
        number_in(hex_digits(n, k), 16) == n,
    decreases k,
{
    if k > 0 {
        law_hexadecimal_reads_back(n / 16, (k - 1) as nat);
        lemma_digit(n % 16);
        let s = hex_digits(n, k);
        assert(s.drop_last() =~= hex_digits(n / 16, (k - 1) as nat));
        assert(s.last() == digit_text(n % 16)[0]);
    }
}

/// A word in hexadecimal is `0x` and eight digits, which read back as it.
pub proof fn law_word_reads_back(n: u32)
    ensures
        hex32(n).len() == 10,
        hex32(n)[0] == '0',
        hex32(n)[1] == 'x',
        number_in(hex32(n).skip(2), 16) == n,
{
    reveal_strlit("0x");
    reveal_with_fuel(places, 9);
    assert(places(8) == 0x1_0000_0000);
    law_hexadecimal_reads_back(n as nat, 8);
    assert(hex32(n).skip(2) =~= hex_digits(n as nat, 8));
}

} // verus!
