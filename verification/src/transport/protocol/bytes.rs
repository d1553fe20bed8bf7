//! Big-endian integers as byte sequences.

use vstd::arithmetic::div_mod::lemma_div_denominator;
use vstd::arithmetic::power::{lemma_pow_positive, pow};
use vstd::prelude::*;

verus! {

/// The number that `bytes` spells in base 256, most significant byte first.
pub open spec fn be_value(bytes: Seq<u8>) -> nat
    decreases bytes.len(),
{
    if bytes.len() == 0 {
        0
    } else {
        be_value(bytes.drop_last()) * 256 + bytes.last() as nat
    }
}

/// The last `width` base-256 digits of `value`, most significant digit first.
pub open spec fn be_bytes(value: nat, width: nat) -> Seq<u8>
    decreases width,
{
    if width == 0 {
        seq![]
    } else {
        be_bytes(value / 256, (width - 1) as nat).push((value % 256) as u8)
    }
}

/// The numbers that fit in `width` bytes.
pub open spec fn fits(value: nat, width: nat) -> bool {
    value < pow(256, width)
}

/// Two bytes hold the numbers below 65536, and eight those of sixty-four bits.
pub proof fn law_what_fits(value: nat)
    ensures
        fits(value, 2) <==> value <= 65535,
        fits(value, 8) <==> value <= u64::MAX,
{
    lemma_small_powers();
}

pub proof fn lemma_be_bytes_len(value: nat, width: nat)
    ensures
        be_bytes(value, width).len() == width,
    decreases width,
{
    if width > 0 {
        lemma_be_bytes_len(value / 256, (width - 1) as nat);
    }
}

/// The byte at `i` is the digit that counts powers of 256 from the last byte.
pub proof fn law_most_significant_first(value: nat, width: nat, i: int)
    requires
        0 <= i < width,
    ensures
        be_bytes(value, width).len() == width,
        be_bytes(value, width)[i] == (value as int / pow(256, (width - 1 - i) as nat)) % 256,
    decreases width,
{
    reveal(pow);
    lemma_be_bytes_len(value / 256, (width - 1) as nat);
    if i < width - 1 {
        let k = (width - 2 - i) as nat;
        law_most_significant_first(value / 256, (width - 1) as nat, i);
        lemma_pow_positive(256, k);
        lemma_div_denominator(value as int, 256, pow(256, k));
    }
}

/// Bytes spell a number that fits in as many bytes.
pub proof fn lemma_be_value_fits(bytes: Seq<u8>)
    ensures
        fits(be_value(bytes), bytes.len()),
    decreases bytes.len(),
{
    reveal(pow);
    if bytes.len() > 0 {
        lemma_be_value_fits(bytes.drop_last());
        let rest = be_value(bytes.drop_last());
        let bound = pow(256, (bytes.len() - 1) as nat);
        assert(pow(256, bytes.len()) == 256 * bound);
    }
}

/// Reading back the bytes of a number gives the number.
pub proof fn lemma_be_value_of_be_bytes(value: nat, width: nat)
    requires
        fits(value, width),
    ensures
        be_value(be_bytes(value, width)) == value,
    decreases width,
{
    reveal(pow);
    if width > 0 {
        let bound = pow(256, (width - 1) as nat);
        assert(pow(256, width) == 256 * bound);
        lemma_be_value_of_be_bytes(value / 256, (width - 1) as nat);
        let bytes = be_bytes(value, width);
        assert(bytes.drop_last() =~= be_bytes(value / 256, (width - 1) as nat));
    }
}

/// Writing the number that bytes spell gives the bytes.
pub proof fn lemma_be_bytes_of_be_value(bytes: Seq<u8>)
    ensures
        be_bytes(be_value(bytes), bytes.len()) =~= bytes,
    decreases bytes.len(),
{
    if bytes.len() > 0 {
        lemma_be_bytes_of_be_value(bytes.drop_last());
        let value = be_value(bytes);
        assert(value / 256 == be_value(bytes.drop_last()));
        assert(value % 256 == bytes.last() as nat);
        assert(bytes.drop_last().push(bytes.last()) =~= bytes);
    }
}

pub proof fn lemma_small_powers()
    ensures
        pow(256, 2) == 0x1_0000,
        pow(256, 8) == 0x1_0000_0000_0000_0000,
{
    reveal(pow);
    reveal_with_fuel(pow, 9);
}

/// Appends the low `width` bytes of `value` to `out`, most significant first.
pub fn push_be(out: &mut Vec<u8>, value: u64, width: usize)
    requires
        width <= 8,
    ensures
        final(out)@ == old(out)@ + be_bytes(value as nat, width as nat),
    decreases width,
{
    if width > 0 {
        push_be(out, value / 256, width - 1);
        out.push((value % 256) as u8);
    }
    assert(out@ =~= old(out)@ + be_bytes(value as nat, width as nat));
}

/// Reads `bytes[start..end]` as a big-endian number of at most eight bytes.
pub fn read_be(bytes: &[u8], start: usize, end: usize) -> (value: u64)
    requires
        start <= end <= bytes@.len(),
        end - start <= 8,
    ensures
        value == be_value(bytes@.subrange(start as int, end as int)),
    decreases end - start,
{
    let ghost span = bytes@.subrange(start as int, end as int);
    if start == end {
        0
    } else {
        let rest: u64 = read_be(bytes, start, end - 1);
        proof {
            assert(span.drop_last() =~= bytes@.subrange(start as int, end - 1));
            lemma_be_value_fits(span);
            lemma_small_powers();
            vstd::arithmetic::power::lemma_pow_increases(256, span.len(), 8);
        }
        rest * 256 + bytes[end - 1] as u64
    }
}

} // verus!
