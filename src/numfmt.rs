//! Numbers as console text: hexadecimal words, decimal numbers and sizes.

use vstd::prelude::*;

verus! {

/// The ASCII digit for the value `n` (0 to 15), upper-case past 9.
pub open spec fn hex_char(n: u64) -> u8 {
    if n < 10 {
        (0x30 + n) as u8
    } else {
        (0x37 + n) as u8
    }
}

/// The ASCII decimal digits of `v`, most significant first, with no
/// leading zero.
pub open spec fn decimal(v: nat) -> Seq<u8>
    decreases v,
{
    if v < 10 {
        seq![(0x30 + v) as u8]
    } else {
        decimal(v / 10).push((0x30 + v % 10) as u8)
    }
}

/// A byte count as text: whole MiB when there is at least one, else whole
/// KiB when there is at least one, else bytes.
pub open spec fn size_text_spec(bytes: u64) -> Seq<u8> {
    let kb = bytes / 1024;
    let mb = kb / 1024;
    if mb > 0 {
        decimal(mb as nat) + " MB"@.map_values(|c: char| c as u8)
    } else if kb > 0 {
        decimal(kb as nat) + " KB"@.map_values(|c: char| c as u8)
    } else {
        decimal(bytes as nat) + " bytes"@.map_values(|c: char| c as u8)
    }
}

/// The sixteen hexadecimal digits of `value`, most significant first.
pub fn hex_digits(value: u64) -> (r: Vec<u8>)
    ensures
        r@.len() == 16,
        forall|i: int| 0 <= i < 16 ==> #[trigger] r@[i] == hex_char((value >> ((60 - 4 * i) as u64)) & 0xF),
{
    let mut out: Vec<u8> = Vec::with_capacity(16);
    let mut i: u64 = 0;
    while i < 16
        invariant
            i <= 16,
            out@.len() == i,
            forall|j: int| 0 <= j < i ==> #[trigger] out@[j] == hex_char((value >> ((60 - 4 * j) as u64)) & 0xF),
        decreases 16 - i,
    {
        let shift: u64 = 60 - i * 4;
        let nibble = (value >> shift) & 0xF;
        assert(nibble < 16) by (bit_vector)
            requires
                nibble == (value >> shift) & 0xF,
        ;
        let c: u8 = if nibble < 10 {
            (0x30 + nibble) as u8
        } else {
            (0x37 + nibble) as u8
        };
        out.push(c);
        i = i + 1;
    }
    out
}

/// The decimal digits of `value`, most significant first.
pub fn decimal_digits(value: u64) -> (r: Vec<u8>)
    ensures
        r@ == decimal(value as nat),
    decreases value,
{
    if value < 10 {
        let mut out: Vec<u8> = Vec::new();
        out.push((0x30 + value) as u8);
        assert(out@ =~= decimal(value as nat));
        out
    } else {
        let mut out = decimal_digits(value / 10);
        out.push((0x30 + value % 10) as u8);
        out
    }
}

fn push_str(out: &mut Vec<u8>, s: &str)
    requires
        s.is_ascii(),
    ensures
        final(out)@ == old(out)@ + s@.map_values(|c: char| c as u8),
{
    let bytes = s.as_bytes();
    let mut i: usize = 0;
    while i < bytes.len()
        invariant
            i <= bytes@.len(),
            bytes@ == s@.map_values(|c: char| c as u8),
            out@ == old(out)@ + bytes@.take(i as int),
        decreases bytes.len() - i,
    {
        out.push(bytes[i]);
        proof {
            assert(bytes@.take(i + 1) =~= bytes@.take(i as int).push(bytes@[i as int]));
        }
        i = i + 1;
    }
    assert(bytes@.take(i as int) =~= bytes@);
}

/// A byte count as text: whole MiB, whole KiB or bytes.
pub fn size_text(bytes: u64) -> (r: Vec<u8>)
    ensures
        r@ == size_text_spec(bytes),
{
    let kb = bytes / 1024;
    let mb = kb / 1024;
    proof {
        reveal_strlit(" MB");
        reveal_strlit(" KB");
        reveal_strlit(" bytes");
    }
    if mb > 0 {
        let mut out = decimal_digits(mb);
        push_str(&mut out, " MB");
        out
    } else if kb > 0 {
        let mut out = decimal_digits(kb);
        push_str(&mut out, " KB");
        out
    } else {
        let mut out = decimal_digits(bytes);
        push_str(&mut out, " bytes");
        out
    }
}

} // verus!
