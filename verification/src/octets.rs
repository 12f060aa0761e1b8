//! Fixed-width integers as octets.

use vstd::prelude::*;

verus! {

/// The little-endian octets of a value.
pub open spec fn le_octets(value: nat, count: nat) -> Seq<u8>
    decreases count,
{
    if count == 0 {
        Seq::empty()
    } else {
        seq![(value % 256) as u8] + le_octets(value / 256, (count - 1) as nat)
    }
}

/// The big-endian octets of a value.
pub open spec fn be_octets(value: nat, count: nat) -> Seq<u8> {
    le_octets(value, count).reverse()
}

/// 256 to a power.
pub open spec fn octet_range(count: nat) -> nat
    decreases count,
{
    if count == 0 {
        1
    } else {
        256 * octet_range((count - 1) as nat)
    }
}

/// As many octets as asked for.
pub proof fn octets_have_their_count(value: nat, count: nat)
    ensures
        le_octets(value, count).len() == count,
        be_octets(value, count).len() == count,
    decreases count,
{
    if count > 0 {
        octets_have_their_count(value / 256, (count - 1) as nat);
    }
}

/// Two values within range that have the same octets are the same.
pub proof fn octets_tell_values_apart(a: nat, b: nat, count: nat)
    requires
        a < octet_range(count),
        b < octet_range(count),
        le_octets(a, count) == le_octets(b, count) || be_octets(a, count) == be_octets(b, count),
    ensures
        a == b,
    decreases count,
{
    if be_octets(a, count) == be_octets(b, count) {
        assert(le_octets(a, count) =~= be_octets(a, count).reverse());
        assert(le_octets(b, count) =~= be_octets(b, count).reverse());
    }
    if count > 0 {
        let x = le_octets(a, count);
        let y = le_octets(b, count);
        octets_have_their_count(a / 256, (count - 1) as nat);
        octets_have_their_count(b / 256, (count - 1) as nat);
        assert(x[0] == (a % 256) as u8 && y[0] == (b % 256) as u8);
        assert(x.skip(1) =~= le_octets(a / 256, (count - 1) as nat));
        assert(y.skip(1) =~= le_octets(b / 256, (count - 1) as nat));
        octets_tell_values_apart(a / 256, b / 256, (count - 1) as nat);
    }
}

/// Append the eight little-endian octets of a value.
pub(crate) fn push_le(bytes: &mut Vec<u8>, value: u64)
    ensures
        final(bytes)@ == old(bytes)@ + le_octets(value as nat, 8),
{
    let ghost before = bytes@;
    let mut rest: u64 = value;
    let mut left: u64 = 8;
    while left > 0
        invariant
            left <= 8,
            before + le_octets(value as nat, 8) == bytes@ + le_octets(rest as nat, left as nat),
        decreases left,
    {
        let octet: u8 = (rest % 256) as u8;
        let ghost now = bytes@;
        bytes.push(octet);
        proof {
            assert(now + le_octets(rest as nat, left as nat) =~= bytes@ + le_octets(
                (rest / 256) as nat,
                (left - 1) as nat,
            ));
        }
        rest = rest / 256;
        left = left - 1;
    }
    assert(bytes@ + le_octets(rest as nat, 0) =~= bytes@);
}

/// Each little-endian octet is the value's digit to the base 256 at its place.
pub proof fn an_octet_is_its_digit(value: nat, count: nat, i: int)
    requires
        0 <= i < count,
    ensures
        le_octets(value, count).len() == count,
        le_octets(value, count)[i] == (value / octet_range(i as nat)) % 256,
        be_octets(value, count)[count - 1 - i] == (value / octet_range(i as nat)) % 256,
    decreases count,
{
    octets_have_their_count(value, count);
    octets_have_their_count(value / 256, (count - 1) as nat);
    let octets = le_octets(value, count);
    if i > 0 {
        an_octet_is_its_digit(value / 256, (count - 1) as nat, i - 1);
        assert(octets[i] == le_octets(value / 256, (count - 1) as nat)[i - 1]);
        let range = octet_range((i - 1) as nat);
        octet_range_is_positive((i - 1) as nat);
        vstd::arithmetic::div_mod::lemma_div_denominator(value as int, 256, range as int);
        assert(octet_range(i as nat) == 256 * range);
        assert(value / octet_range(i as nat) == (value / 256) / range);
        assert(octets[i] == ((value / 256) / range) % 256);
    } else {
        assert(octet_range(0) == 1);
        assert(value / 1 == value);
        assert(octets[0] == (value % 256) as u8);
    }
    assert(octets.reverse()[count - 1 - i] == octets[i]);
}

/// A power of 256 is positive.
proof fn octet_range_is_positive(count: nat)
    ensures
        octet_range(count) >= 1,
    decreases count,
{
    if count > 0 {
        octet_range_is_positive((count - 1) as nat);
    }
}

} // verus!
