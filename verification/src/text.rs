//! String helpers: hexadecimal rendering of byte strings and conversion of
//! ASCII bytes into strings.

use vstd::prelude::*;
use vstd::string::{StrSliceExecFns, StringExecFns};

verus! {

/// The lower-case hexadecimal digit for a value below 16.
pub open spec fn hex_digit(n: int) -> char {
    if n == 0 {
        '0'
    } else if n == 1 {
        '1'
    } else if n == 2 {
        '2'
    } else if n == 3 {
        '3'
    } else if n == 4 {
        '4'
    } else if n == 5 {
        '5'
    } else if n == 6 {
        '6'
    } else if n == 7 {
        '7'
    } else if n == 8 {
        '8'
    } else if n == 9 {
        '9'
    } else if n == 10 {
        'a'
    } else if n == 11 {
        'b'
    } else if n == 12 {
        'c'
    } else if n == 13 {
        'd'
    } else if n == 14 {
        'e'
    } else {
        'f'
    }
}

/// Lower-case hexadecimal rendering of a byte string, two digits per byte.
pub open spec fn hex_of(bs: Seq<u8>) -> Seq<char> {
    Seq::new(2 * bs.len(), |i: int| if i % 2 == 0 {
        hex_digit(bs[i / 2] as int / 16)
    } else {
        hex_digit(bs[i / 2] as int % 16)
    })
}

/// Appends the hexadecimal rendering of `bytes` to `out`.
pub fn append_hex(out: &mut String, bytes: &Vec<u8>)
    ensures
        final(out)@ == old(out)@ + hex_of(bytes@),
{
    let table = "0123456789abcdef";
    proof {
        reveal_strlit("0123456789abcdef");
        assert(table.is_ascii());
    }
    let mut i: usize = 0;
    while i < bytes.len()
        invariant
            i <= bytes@.len(),
            out@ == old(out)@ + hex_of(bytes@.subrange(0, i as int)),
            table@ =~= "0123456789abcdef"@,
            table.is_ascii(),
            table@.len() == 16,
            forall|d: int| 0 <= d < 16 ==> table@[d] == hex_digit(d),
        decreases bytes@.len() - i,
    {
        let b = bytes[i];
        let hi: usize = (b / 16) as usize;
        let lo: usize = (b % 16) as usize;
        out.append(table.substring_ascii(hi, hi + 1));
        out.append(table.substring_ascii(lo, lo + 1));
        proof {
            let pre = bytes@.subrange(0, i as int);
            let cur = bytes@.subrange(0, i + 1);
            assert(table@.subrange(hi as int, hi as int + 1)
                =~= seq![hex_digit(b as int / 16)]);
            assert(table@.subrange(lo as int, lo as int + 1)
                =~= seq![hex_digit(b as int % 16)]);
            assert(hex_of(cur) =~= hex_of(pre) + seq![hex_digit(b as int / 16), hex_digit(b as int % 16)]);
            assert(out@ =~= old(out)@ + hex_of(cur));
        }
        i += 1;
    }
    proof {
        assert(bytes@.subrange(0, bytes@.len() as int) =~= bytes@);
    }
}

/// The rendering `0x` followed by the hexadecimal digits of `bytes`.
pub open spec fn hex_render(bs: Seq<u8>) -> Seq<char> {
    seq!['0', 'x'] + hex_of(bs)
}

/// Renders `bytes` as `0x`-prefixed lower-case hexadecimal.
pub fn hex_string(bytes: &Vec<u8>) -> (r: String)
    ensures
        r@ == hex_render(bytes@),
{
    let mut out = String::from_str("0x");
    proof {
        reveal_strlit("0x");
        assert(out@ =~= seq!['0', 'x']);
    }
    append_hex(&mut out, bytes);
    proof {
        assert(out@ =~= hex_render(bytes@));
    }
    out
}

/// The characters of an ASCII byte string, code point for code point.
pub open spec fn chars_of(bs: Seq<u8>) -> Seq<char> {
    Seq::new(bs.len(), |i: int| bs[i] as char)
}

/// Relies on String::from_utf8: bytes below 128 decode to the string of
/// exactly those code points.
#[verifier::external_body]
pub fn ascii_string(bytes: &Vec<u8>) -> (r: String)
    requires
        forall|i: int| 0 <= i < bytes@.len() ==> bytes@[i] < 128,
    ensures
        r@ == chars_of(bytes@),
{
    match String::from_utf8(bytes.clone()) {
        Ok(s) => s,
        Err(_) => String::new(),
    }
}

} // verus!
