//! Rendering of numbers and bytes as text.

use vstd::prelude::*;
use vstd::string::*;

verus! {

/// The digits of the renderings below, by value.
pub open spec fn digits() -> Seq<char> {
    "0123456789abcdef"@
}

/// The digit that stands for `d`, for `d` below sixteen.
pub open spec fn digit(d: nat) -> char
    recommends
        d < 16,
{
    digits()[d as int]
}

/// The decimal rendering of `n`: no sign, no leading zero but for zero itself.
pub open spec fn decimal(n: nat) -> Seq<char>
    decreases n,
{
    if n < 10 {
        seq![digit(n)]
    } else {
        decimal(n / 10).push(digit(n % 10))
    }
}

/// A byte as two lowercase hexadecimal digits.
pub open spec fn hex_byte(b: u8) -> Seq<char> {
    seq![digit((b / 16) as nat), digit((b % 16) as nat)]
}

/// A run of bytes, each as a space followed by its two hexadecimal digits.
pub open spec fn hex_run(bytes: Seq<u8>) -> Seq<char>
    decreases bytes.len(),
{
    if bytes.len() == 0 {
        Seq::empty()
    } else {
        hex_run(bytes.drop_last()) + seq![' '] + hex_byte(bytes.last())
    }
}

/// Appends the digit that stands for `d`.
pub fn push_digit(out: &mut String, d: usize)
    requires
        d < 16,
    ensures
        final(out)@ == old(out)@.push(digit(d as nat)),
{
    let table = "0123456789abcdef";
    proof {
        reveal_strlit("0123456789abcdef");
        assert(table@.len() == 16);
        assert(table.is_ascii());
    }
    let one = table.substring_ascii(d, d + 1);
    assert(one@ =~= seq![digit(d as nat)]);
    out.append(one);
    assert(out@ =~= old(out)@.push(digit(d as nat)));
}

/// Appends the decimal rendering of `n`.
pub fn push_decimal(out: &mut String, n: usize)
    ensures
        final(out)@ == old(out)@ + decimal(n as nat),
    decreases n,
{
    if n >= 10 {
        push_decimal(out, n / 10);
    }
    push_digit(out, n % 10);
    assert(out@ =~= old(out)@ + decimal(n as nat));
}

/// Appends a space and the two hexadecimal digits of `b`.
pub fn push_hex_byte(out: &mut String, b: u8)
    ensures
        final(out)@ == old(out)@ + seq![' '] + hex_byte(b),
{
    out.append(" ");
    proof {
        reveal_strlit(" ");
        assert(" "@ =~= seq![' ']);
    }
    push_digit(out, (b / 16) as usize);
    push_digit(out, (b % 16) as usize);
    assert(out@ =~= old(out)@ + seq![' '] + hex_byte(b));
}

/// Appends the bytes of `bytes`, each as a space and two hexadecimal digits.
pub fn push_hex_run(out: &mut String, bytes: &[u8])
    ensures
        final(out)@ == old(out)@ + hex_run(bytes@),
{
    let mut i: usize = 0;
    assert(hex_run(bytes@.subrange(0, 0)) =~= Seq::<char>::empty());
    assert(out@ =~= old(out)@ + hex_run(bytes@.subrange(0, 0)));
    while i < bytes.len()
        invariant
            i <= bytes@.len(),
            out@ == old(out)@ + hex_run(bytes@.subrange(0, i as int)),
        decreases bytes@.len() - i,
    {
        let ghost before = out@;
        push_hex_byte(out, bytes[i]);
        proof {
            let next = bytes@.subrange(0, i + 1);
            assert(next.drop_last() =~= bytes@.subrange(0, i as int));
            assert(next.last() == bytes@[i as int]);
            assert(out@ =~= old(out)@ + hex_run(next));
        }
        i = i + 1;
    }
    assert(bytes@.subrange(0, i as int) =~= bytes@);
}

} // verus!
