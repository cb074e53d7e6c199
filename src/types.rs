//! Four-character codes, type codes, message flags and handler tokens.
use vstd::prelude::*;

verus! {

/// The 32-bit code made of four characters, the first in the high byte.
pub open spec fn four_char_code(a: u8, b: u8, c: u8, d: u8) -> u32 {
    ((a as int) * 0x1000000 + (b as int) * 0x10000 + (c as int) * 0x100 + (d as int)) as u32
}

/// Build a 32-bit code from four characters, as in `haiku_constant('a', 'b', 'c', 'd')`.
pub fn haiku_constant(a: char, b: char, c: char, d: char) -> (r: u32)
    requires
        a as u32 <= 0xff,
        b as u32 <= 0xff,
        c as u32 <= 0xff,
        d as u32 <= 0xff,
    ensures
        r == four_char_code(a as u8, b as u8, c as u8, d as u8),
{
    let a8 = a as u8;
    let b8 = b as u8;
    let c8 = c as u8;
    let d8 = d as u8;
    assert(a8 == a as u8 && b8 == b as u8 && c8 == c as u8 && d8 == d as u8);
    (a8 as u32) * 0x1000000 + (b8 as u32) * 0x10000 + (c8 as u32) * 0x100 + (d8 as u32)
}

pub const B_ANY_TYPE: u32 = 0x414e5954;

pub const B_BOOL_TYPE: u32 = 0x424f4f4c;

pub const B_INT8_TYPE: u32 = 0x42595445;

pub const B_INT16_TYPE: u32 = 0x53485254;

pub const B_INT32_TYPE: u32 = 0x4c4f4e47;

pub const B_INT64_TYPE: u32 = 0x4c4c4e47;

pub const B_UINT8_TYPE: u32 = 0x55425954;

pub const B_UINT16_TYPE: u32 = 0x55534854;

pub const B_UINT32_TYPE: u32 = 0x554c4e47;

pub const B_UINT64_TYPE: u32 = 0x554c4c47;

pub const B_STRING_TYPE: u32 = 0x43535452;

pub const B_MESSAGE_TYPE: u32 = 0x4d534747;

/// The message that hands command line arguments to an application.
pub const B_ARGV_RECEIVED: u32 = 0x5f415247;

/// The message that tells an application its loop has started.
pub const B_READY_TO_RUN: u32 = 0x5f525452;

/// A request to quit; it does not by itself end a loop.
pub const B_QUIT_REQUESTED: u32 = 0x5f515251;

/// The message that ends a loop.
pub const QUIT: u32 = 0x5f514954;

/// The magic that opens a flattened message: the bytes "HMF1".
pub const MESSAGE_FORMAT_HAIKU: u32 = 0x31464d48;

pub const MESSAGE_FLAG_VALID: u32 = 0x0001;

pub const MESSAGE_FLAG_REPLY_REQUIRED: u32 = 0x0002;

pub const MESSAGE_FLAG_REPLY_DONE: u32 = 0x0004;

pub const MESSAGE_FLAG_IS_REPLY: u32 = 0x0008;

pub const MESSAGE_FLAG_WAS_DELIVERED: u32 = 0x0010;

pub const MESSAGE_FLAG_HAS_SPECIFIERS: u32 = 0x0020;

pub const MESSAGE_FLAG_WAS_DROPPED: u32 = 0x0040;

pub const MESSAGE_FLAG_PASS_BY_AREA: u32 = 0x0080;

pub const MESSAGE_FLAG_REPLY_AS_KMESSAGE: u32 = 0x0100;

pub const FIELD_FLAG_VALID: u16 = 0x0001;

pub const FIELD_FLAG_FIXED_SIZE: u16 = 0x0002;

/// The token that addresses the preferred handler of a looper.
pub const B_PREFERRED_TOKEN: i32 = -2;

/// The token that addresses no handler.
pub const B_NULL_TOKEN: i32 = -1;

pub const B_ANY_TOKEN: i32 = 0;

pub const B_HANDLER_TOKEN: i32 = 1;

pub const B_SERVER_TOKEN: i32 = 2;

} // verus!
