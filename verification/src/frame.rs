//! Frames of the Stub protocol: markers, message types, big-endian numbers and
//! the XOR check byte that ends every frame.

use vstd::prelude::*;

verus! {

pub const SOH: u8 = 0x01;

pub const DLE: u8 = 0x10;

pub const ACK: u8 = 0x06;

pub const NAK: u8 = 0x15;

// The Stub protocol uses 0x14 for CAN (rather than ASCII CAN, 0x18).
pub const CAN: u8 = 0x14;

pub const EM: u8 = 0x19;

pub const WRITE: u8 = 0x01;

pub const ADDRESS: u8 = 0x02;

pub const EXECUTE: u8 = 0x04;

pub const END: u8 = 0x08;

pub const READ: u8 = 0x81;

pub const BAUDRATE: u8 = 0x80;

/// Allocate a temporary buffer in the full Stub.
pub const BUFFER: u8 = 0x82;

/// Select the full Stub's saved 68000 registers as the current data area.
pub const REGISTERS: u8 = 0x83;

/// Invoke an OS-9 system call through the full Stub.
pub const OS9CALL: u8 = 0x84;

/// Mask bit for the 68000 D0 register in a full Stub register request.
pub const REG_D0: u32 = 0x0000_0001;

/// Mask bit for the 68000 D1 register in a full Stub register request.
pub const REG_D1: u32 = 0x0000_0002;

/// Mask bit for the 68000 A0 register in a full Stub register request.
pub const REG_A0: u32 = 0x0000_0100;

/// Set in an OS-9-call response when the OS-9 call failed. D1 contains the
/// OS-9 error code when this bit is present in the returned mask.
pub const REG_CARRY: u32 = 0x8000_0000;

/// The XOR of all bytes.
pub open spec fn xor_of(bytes: Seq<u8>) -> u8
    decreases bytes.len(),
{
    if bytes.len() == 0 {
        0
    } else {
        xor_of(bytes.drop_last()) ^ bytes.last()
    }
}

/// The two bytes of a 16-bit number, the more significant one first.
pub open spec fn be16(number: u16) -> Seq<u8> {
    seq![(number / 0x100) as u8, (number % 0x100) as u8]
}

/// The four bytes of a 32-bit number, the most significant one first.
pub open spec fn be32(number: u32) -> Seq<u8> {
    seq![
        (number / 0x100_0000) as u8,
        (number / 0x1_0000 % 0x100) as u8,
        (number / 0x100 % 0x100) as u8,
        (number % 0x100) as u8,
    ]
}

/// The 16-bit number that the first two bytes stand for.
pub open spec fn value16(bytes: Seq<u8>) -> u16 {
    (bytes[0] * 0x100 + bytes[1]) as u16
}

/// The 32-bit number that the first four bytes stand for.
pub open spec fn value32(bytes: Seq<u8>) -> u32 {
    (bytes[0] * 0x100_0000 + bytes[1] * 0x1_0000 + bytes[2] * 0x100 + bytes[3]) as u32
}

/// The number of one bits.
pub open spec fn ones(mask: u32) -> nat
    decreases mask,
{
    if mask == 0 {
        0
    } else {
        (mask % 2) as nat + ones(mask / 2)
    }
}

/// Bytes, followed by their check byte.
pub open spec fn checked(bytes: Seq<u8>) -> Seq<u8> {
    bytes.push(xor_of(bytes))
}

/// A request frame: the start marker, the message type, the body and the check
/// byte over all of them.
pub open spec fn request_frame(kind: u8, body: Seq<u8>) -> Seq<u8> {
    checked(seq![SOH, kind] + body)
}

/// A response frame of a full Stub: like a request, but it starts with DLE.
pub open spec fn response_frame(kind: u8, body: Seq<u8>) -> Seq<u8> {
    checked(seq![DLE, kind] + body)
}

/// The XOR of all bytes.
pub fn xor_bytes(bytes: &[u8]) -> (check: u8)
    ensures
        check == xor_of(bytes@),
{
    let mut check: u8 = 0;
    let mut i: usize = 0;
    while i < bytes.len()
        invariant
            i <= bytes@.len(),
            check == xor_of(bytes@.take(i as int)),
        decreases bytes@.len() - i,
    {
        proof {
            let longer = bytes@.take(i + 1);
            assert(longer.drop_last() =~= bytes@.take(i as int));
        }
        check = check ^ bytes[i];
        i = i + 1;
    }
    assert(bytes@.take(i as int) =~= bytes@);
    check
}

/// The two bytes of a 16-bit number, the more significant one first.
pub fn be16_bytes(number: u16) -> (bytes: Vec<u8>)
    ensures
        bytes@ == be16(number),
{
    vec![(number / 0x100) as u8, (number % 0x100) as u8]
}

/// The four bytes of a 32-bit number, the most significant one first.
pub fn be32_bytes(number: u32) -> (bytes: Vec<u8>)
    ensures
        bytes@ == be32(number),
{
    vec![
        (number / 0x100_0000) as u8,
        (number / 0x1_0000 % 0x100) as u8,
        (number / 0x100 % 0x100) as u8,
        (number % 0x100) as u8,
    ]
}

/// The 16-bit number that the first two bytes stand for.
pub fn read_be16(bytes: &[u8]) -> (number: u16)
    requires
        bytes@.len() >= 2,
    ensures
        number == value16(bytes@),
{
    bytes[0] as u16 * 0x100 + bytes[1] as u16
}

/// The 32-bit number that the first four bytes stand for.
pub fn read_be32(bytes: &[u8]) -> (number: u32)
    requires
        bytes@.len() >= 4,
    ensures
        number == value32(bytes@),
{
    bytes[0] as u32 * 0x100_0000 + bytes[1] as u32 * 0x1_0000 + bytes[2] as u32 * 0x100
        + bytes[3] as u32
}

/// A number has at most as many one bits as its value.
proof fn lemma_ones_bounded(mask: u32)
    ensures
        ones(mask) <= mask,
    decreases mask,
{
    if mask != 0 {
        lemma_ones_bounded(mask / 2);
    }
}

/// The number of one bits.
pub fn count_ones(mask: u32) -> (count: u32)
    ensures
        count == ones(mask),
{
    let mut rest: u32 = mask;
    let mut count: u32 = 0;
    while rest != 0
        invariant
            count + ones(rest) == ones(mask),
        decreases rest,
    {
        proof {
            lemma_ones_bounded(mask);
        }
        count = count + rest % 2;
        rest = rest / 2;
    }
    count
}

/// Builds a host request. `body` excludes the SOH and message-type bytes.
pub fn request(kind: u8, body: &[u8]) -> (frame: Vec<u8>)
    ensures
        frame@ == request_frame(kind, body@),
{
    let mut frame: Vec<u8> = vec![SOH, kind];
    frame.extend_from_slice(body);
    assert(frame@ =~= seq![SOH, kind] + body@);
    let check: u8 = xor_bytes(frame.as_slice());
    frame.push(check);
    frame
}

} // verus!
