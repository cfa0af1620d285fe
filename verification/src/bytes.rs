//! Numbers as bytes, most significant byte first.

use vstd::prelude::*;

verus! {

/// The number that bytes hold, most significant byte first.
pub open spec fn big_endian(bytes: Seq<u8>) -> nat
    decreases bytes.len(),
{
    if bytes.len() == 0 {
        0
    } else {
        big_endian(bytes.drop_last()) * 256 + bytes.last() as nat
    }
}

/// The bytes of a number, most significant byte first.
pub open spec fn to_big_endian(n: nat, width: nat) -> Seq<u8>
    decreases width,
{
    if width == 0 {
        Seq::empty()
    } else {
        to_big_endian(n / 256, (width - 1) as nat).push((n % 256) as u8)
    }
}

/// A `u64` as eight bytes.
pub fn u64_to_bytes(n: u64) -> (bytes: [u8; 8])
    ensures
        bytes@ == to_big_endian(n as nat, 8),
        big_endian(bytes@) == n,
{
    let high = u32_to_bytes((n / 0x1_0000_0000) as u32);
    let low = u32_to_bytes((n % 0x1_0000_0000) as u32);
    let bytes = [high[0], high[1], high[2], high[3], low[0], low[1], low[2], low[3]];
    proof {
        four_bytes(high@);
        four_bytes(low@);
        eight_bytes(bytes@);
        bytes_of_number_of_bytes(bytes@);
    }
    bytes
}

/// The `u64` that eight bytes hold.
pub fn u64_from_bytes(bytes: &[u8]) -> (n: u64)
    requires
        bytes@.len() == 8,
    ensures
        n == big_endian(bytes@),
{
    proof {
        eight_bytes(bytes@);
    }
    bytes[0] as u64 * 0x100_0000_0000_0000 + bytes[1] as u64 * 0x1_0000_0000_0000
        + bytes[2] as u64 * 0x100_0000_0000 + bytes[3] as u64 * 0x1_0000_0000
        + bytes[4] as u64 * 0x100_0000 + bytes[5] as u64 * 0x1_0000 + bytes[6] as u64 * 0x100
        + bytes[7] as u64
}

/// A `u32` as four bytes.
pub fn u32_to_bytes(n: u32) -> (bytes: [u8; 4])
    ensures
        bytes@ == to_big_endian(n as nat, 4),
        big_endian(bytes@) == n,
{
    let bytes = [
        (n / 0x100_0000) as u8,
        (n / 0x1_0000 % 256) as u8,
        (n / 0x100 % 256) as u8,
        (n % 256) as u8,
    ];
    proof {
        four_bytes(bytes@);
        bytes_of_number_of_bytes(bytes@);
    }
    bytes
}

/// The `u32` that four bytes hold.
pub fn u32_from_bytes(bytes: &[u8]) -> (n: u32)
    requires
        bytes@.len() == 4,
    ensures
        n == big_endian(bytes@),
{
    proof {
        four_bytes(bytes@);
    }
    bytes[0] as u32 * 0x100_0000 + bytes[1] as u32 * 0x1_0000 + bytes[2] as u32 * 0x100
        + bytes[3] as u32
}

/// What four bytes hold, written out.
pub proof fn four_bytes(b: Seq<u8>)
    requires
        b.len() == 4,
    ensures
        big_endian(b) == b[0] * 0x100_0000 + b[1] * 0x1_0000 + b[2] * 0x100 + b[3],
{
    reveal_with_fuel(big_endian, 5);
}

/// What eight bytes hold, written out.
pub proof fn eight_bytes(b: Seq<u8>)
    requires
        b.len() == 8,
    ensures
        big_endian(b) == b[0] * 0x100_0000_0000_0000 + b[1] * 0x1_0000_0000_0000 + b[2]
            * 0x100_0000_0000 + b[3] * 0x1_0000_0000 + b[4] * 0x100_0000 + b[5] * 0x1_0000 + b[6]
            * 0x100 + b[7],
{
    reveal_with_fuel(big_endian, 9);
}

/// Bytes are read back: the bytes of the number that bytes hold are the bytes.
pub proof fn bytes_of_number_of_bytes(bytes: Seq<u8>)
    ensures
        to_big_endian(big_endian(bytes), bytes.len()) == bytes,
    decreases bytes.len(),
{
    if bytes.len() == 0 {
        assert(bytes =~= Seq::empty());
    } else {
        bytes_of_number_of_bytes(bytes.drop_last());
        assert(bytes =~= bytes.drop_last().push(bytes.last()));
    }
}

/// How many numbers fit in so many bytes.
pub open spec fn numbers_in(width: nat) -> nat
    decreases width,
{
    if width == 0 {
        1
    } else {
        256 * numbers_in((width - 1) as nat)
    }
}

/// Numbers are read back: bytes of a number hold the number, if it fits.
pub proof fn number_of_bytes_of_number(n: nat, width: nat)
    ensures
        to_big_endian(n, width).len() == width,
        n < numbers_in(width) ==> big_endian(to_big_endian(n, width)) == n,
    decreases width,
{
    if width > 0 {
        number_of_bytes_of_number(n / 256, (width - 1) as nat);
        let bytes = to_big_endian(n, width);
        assert(bytes.drop_last() =~= to_big_endian(n / 256, (width - 1) as nat));
    }
}

/// Every `u64` is read back.
pub proof fn u64_is_read_back(n: u64)
    ensures
        to_big_endian(n as nat, 8).len() == 8,
        big_endian(to_big_endian(n as nat, 8)) == n,
{
    number_of_bytes_of_number(n as nat, 8);
    assert(numbers_in(8) == 0x1_0000_0000_0000_0000) by {
        reveal_with_fuel(numbers_in, 9);
    }
}

/// Every `u32` is read back.
pub proof fn u32_is_read_back(n: u32)
    ensures
        to_big_endian(n as nat, 4).len() == 4,
        big_endian(to_big_endian(n as nat, 4)) == n,
{
    number_of_bytes_of_number(n as nat, 4);
    assert(numbers_in(4) == 0x1_0000_0000) by {
        reveal_with_fuel(numbers_in, 5);
    }
}

/// Bytes of the same length that hold the same number are the same.
pub proof fn big_endian_determines_bytes(a: Seq<u8>, b: Seq<u8>)
    requires
        a.len() == b.len(),
        big_endian(a) == big_endian(b),
    ensures
        a == b,
{
    bytes_of_number_of_bytes(a);
    bytes_of_number_of_bytes(b);
}

} // verus!
