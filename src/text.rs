use vstd::prelude::*;

verus! {

/// The digits used for hexadecimal and decimal text, in upper case.
pub open spec fn digit_chars() -> Seq<char> {
    seq!['0', '1', '2', '3', '4', '5', '6', '7', '8', '9', 'A', 'B', 'C', 'D', 'E', 'F']
}

/// `n` in hexadecimal, upper case, without leading zeros ("0" for zero).
pub open spec fn hex_text(n: nat) -> Seq<char>
    decreases n,
{
    if n < 16 {
        seq![digit_chars()[n as int]]
    } else {
        hex_text(n / 16).push(digit_chars()[(n % 16) as int])
    }
}

/// `n` in decimal, without leading zeros ("0" for zero).
pub open spec fn dec_text(n: nat) -> Seq<char>
    decreases n,
{
    if n < 10 {
        seq![digit_chars()[n as int]]
    } else {
        dec_text(n / 10).push(digit_chars()[(n % 10) as int])
    }
}

/// Two hexadecimal digits for one byte.
pub open spec fn byte_hex(b: u8) -> Seq<char> {
    seq![digit_chars()[(b / 16) as int], digit_chars()[(b % 16) as int]]
}

/// Bytes read as a little-endian number and written as hexadecimal with two digits per byte:
/// the last byte comes first.
pub open spec fn le_hex(b: Seq<u8>) -> Seq<char>
    decreases b.len(),
{
    if b.len() == 0 {
        Seq::empty()
    } else {
        le_hex(b.drop_first()) + byte_hex(b[0])
    }
}

/// Relies on String::push: the character is added at the end.
#[verifier::external_body]
pub(crate) fn push_char(s: &mut String, c: char)
    ensures
        final(s)@ == old(s)@.push(c),
{
    s.push(c);
}

pub fn digit(d: u64) -> (c: char)
    requires
        d < 16,
    ensures
        c == digit_chars()[d as int],
{
    match d {
        0 => '0',
        1 => '1',
        2 => '2',
        3 => '3',
        4 => '4',
        5 => '5',
        6 => '6',
        7 => '7',
        8 => '8',
        9 => '9',
        10 => 'A',
        11 => 'B',
        12 => 'C',
        13 => 'D',
        14 => 'E',
        _ => 'F',
    }
}

/// Appends `n` in hexadecimal.
pub fn push_hex(s: &mut String, n: u64)
    ensures
        final(s)@ == old(s)@ + hex_text(n as nat),
    decreases n,
{
    if n >= 16 {
        push_hex(s, n / 16);
    }
    push_char(s, digit(n % 16));
}

/// Appends `n` in decimal.
pub fn push_dec(s: &mut String, n: u64)
    ensures
        final(s)@ == old(s)@ + dec_text(n as nat),
    decreases n,
{
    if n >= 10 {
        push_dec(s, n / 10);
    }
    push_char(s, digit(n % 10));
}

/// Appends the bytes as a zero-padded little-endian hexadecimal number.
pub fn push_le_hex(s: &mut String, b: &[u8])
    ensures
        final(s)@ == old(s)@ + le_hex(b@),
{
    let mut i: usize = b.len();
    while i > 0
        invariant
            i <= b.len(),
            s@ == old(s)@ + le_hex(b@.subrange(i as int, b.len() as int)),
        decreases i,
    {
        let x = b[i - 1];
        push_char(s, digit((x / 16) as u64));
        push_char(s, digit((x % 16) as u64));
        proof {
            let tail = b@.subrange(i as int - 1, b.len() as int);
            assert(tail.drop_first() =~= b@.subrange(i as int, b.len() as int));
            assert(s@ =~= old(s)@ + le_hex(tail));
        }
        i = i - 1;
    }
    proof {
        assert(b@.subrange(0, b.len() as int) =~= b@);
    }
}

} // verus!
