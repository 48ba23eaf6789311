//! Keys of the terminal, decoded from the bytes that a raw-mode terminal
//! sends. Reading the bytes is left to the caller.

use vstd::prelude::*;
use vstd::utf8::{decode_utf8, valid_utf8};
use crate::text::chars_of;

verus! {

#[derive(Debug, Clone, Copy, PartialEq, Eq, Structural)]
pub enum Key {
    Char(char),
    Enter,
    Backspace,
    Tab,
    ShiftTab,
    Up,
    Down,
    Left,
    Right,
    Escape,
    CtrlA,
    CtrlC,
    CtrlD,
    CtrlE,
    CtrlG,
    CtrlJ,
    CtrlK,
    CtrlL,
    CtrlN,
    CtrlP,
    CtrlQ,
    CtrlU,
    CtrlX,
    CtrlSlash,
    Unknown,
}

/// What the first byte of a key tells.
#[derive(Debug, Clone, Copy, PartialEq, Eq, Structural)]
pub enum FirstByte {
    /// The whole key.
    Key(Key),
    /// An escape: up to two more bytes say which key.
    Escape,
    /// The lead byte of a UTF-8 character of this many bytes in all.
    Utf8(usize),
}

/// The meaning of the first byte of a key.
pub open spec fn first_byte_spec(b: u8) -> FirstByte {
    if b == 0x01 {
        FirstByte::Key(Key::CtrlA)
    } else if b == 0x03 {
        FirstByte::Key(Key::CtrlC)
    } else if b == 0x07 {
        FirstByte::Key(Key::CtrlG)
    } else if b == 0x09 {
        FirstByte::Key(Key::Tab)
    } else if b == 0x04 {
        FirstByte::Key(Key::CtrlD)
    } else if b == 0x05 {
        FirstByte::Key(Key::CtrlE)
    } else if b == 0x0a {
        FirstByte::Key(Key::CtrlJ)
    } else if b == 0x0b {
        FirstByte::Key(Key::CtrlK)
    } else if b == 0x0c {
        FirstByte::Key(Key::CtrlL)
    } else if b == 0x0d {
        FirstByte::Key(Key::Enter)
    } else if b == 0x0e {
        FirstByte::Key(Key::CtrlN)
    } else if b == 0x10 {
        FirstByte::Key(Key::CtrlP)
    } else if b == 0x11 {
        FirstByte::Key(Key::CtrlQ)
    } else if b == 0x15 {
        FirstByte::Key(Key::CtrlU)
    } else if b == 0x18 {
        FirstByte::Key(Key::CtrlX)
    } else if b == 0x1f {
        FirstByte::Key(Key::CtrlSlash)
    } else if b == 0x7f || b == 0x08 {
        FirstByte::Key(Key::Backspace)
    } else if b == 0x1b {
        FirstByte::Escape
    } else if 0x20 <= b < 0x7f {
        FirstByte::Key(Key::Char(b as char))
    } else if b >= 0xc0 {
        FirstByte::Utf8(if b < 0xe0 { 2 } else if b < 0xf0 { 3 } else { 4 })
    } else {
        FirstByte::Key(Key::Unknown)
    }
}

/// Decodes the first byte of a key.
pub fn decode_first_byte(b: u8) -> (r: FirstByte)
    ensures
        r == first_byte_spec(b),
{
    match b {
        0x01 => FirstByte::Key(Key::CtrlA),
        0x03 => FirstByte::Key(Key::CtrlC),
        0x07 => FirstByte::Key(Key::CtrlG),
        0x09 => FirstByte::Key(Key::Tab),
        0x04 => FirstByte::Key(Key::CtrlD),
        0x05 => FirstByte::Key(Key::CtrlE),
        0x0a => FirstByte::Key(Key::CtrlJ),
        0x0b => FirstByte::Key(Key::CtrlK),
        0x0c => FirstByte::Key(Key::CtrlL),
        0x0d => FirstByte::Key(Key::Enter),
        0x0e => FirstByte::Key(Key::CtrlN),
        0x10 => FirstByte::Key(Key::CtrlP),
        0x11 => FirstByte::Key(Key::CtrlQ),
        0x15 => FirstByte::Key(Key::CtrlU),
        0x18 => FirstByte::Key(Key::CtrlX),
        0x1f => FirstByte::Key(Key::CtrlSlash),
        0x7f | 0x08 => FirstByte::Key(Key::Backspace),
        0x1b => FirstByte::Escape,
        _ => {
            if 0x20 <= b && b < 0x7f {
                FirstByte::Key(Key::Char(b as char))
            } else if b >= 0xc0 {
                FirstByte::Utf8(
                    if b < 0xe0 {
                        2
                    } else if b < 0xf0 {
                        3
                    } else {
                        4
                    },
                )
            } else {
                FirstByte::Key(Key::Unknown)
            }
        },
    }
}

/// What follows the key of an escape sequence and must be read past.
#[derive(Debug, Clone, Copy, PartialEq, Eq, Structural)]
pub enum EscapeTail {
    /// Nothing.
    Nothing,
    /// This many bytes (a legacy mouse report).
    Bytes(usize),
    /// Bytes up to and including the first ASCII letter (an SGR mouse report).
    ThroughLetter,
}

/// The key of an escape sequence, given the bytes read after the escape
/// byte (a full sequence is two bytes), and what remains to be read past.
pub open spec fn escape_spec(seq: Seq<u8>) -> (Key, EscapeTail) {
    if seq.len() != 2 || seq[0] != 0x5b {
        (Key::Escape, EscapeTail::Nothing)
    } else if seq[1] == 0x41 {
        (Key::Up, EscapeTail::Nothing)
    } else if seq[1] == 0x42 {
        (Key::Down, EscapeTail::Nothing)
    } else if seq[1] == 0x43 {
        (Key::Right, EscapeTail::Nothing)
    } else if seq[1] == 0x44 {
        (Key::Left, EscapeTail::Nothing)
    } else if seq[1] == 0x5a {
        (Key::ShiftTab, EscapeTail::Nothing)
    } else if seq[1] == 0x4d {
        (Key::Unknown, EscapeTail::Bytes(3))
    } else if seq[1] == 0x3c {
        (Key::Unknown, EscapeTail::ThroughLetter)
    } else {
        (Key::Unknown, EscapeTail::Nothing)
    }
}

/// Decodes the bytes that follow an escape byte.
pub fn decode_escape(seq: &[u8]) -> (r: (Key, EscapeTail))
    ensures
        r == escape_spec(seq@),
{
    if seq.len() != 2 || seq[0] != 0x5b {
        return (Key::Escape, EscapeTail::Nothing);
    }
    match seq[1] {
        0x41 => (Key::Up, EscapeTail::Nothing),
        0x42 => (Key::Down, EscapeTail::Nothing),
        0x43 => (Key::Right, EscapeTail::Nothing),
        0x44 => (Key::Left, EscapeTail::Nothing),
        0x5a => (Key::ShiftTab, EscapeTail::Nothing),
        0x4d => (Key::Unknown, EscapeTail::Bytes(3)),
        0x3c => (Key::Unknown, EscapeTail::ThroughLetter),
        _ => (Key::Unknown, EscapeTail::Nothing),
    }
}

/// `u8::is_ascii_alphabetic`.
pub fn is_ascii_letter(b: u8) -> (r: bool)
    ensures
        r == ((0x41 <= b && b <= 0x5a) || (0x61 <= b && b <= 0x7a)),
{
    (0x41 <= b && b <= 0x5a) || (0x61 <= b && b <= 0x7a)
}

/// `std::str::from_utf8`: the string when `bytes` are valid UTF-8, and its
/// characters are their decoding; nothing otherwise.
#[verifier::external_body]
fn str_from_utf8(bytes: &[u8]) -> (r: Option<&str>)
    ensures
        match r {
            Some(s) => valid_utf8(bytes@) && s@ == decode_utf8(bytes@),
            None => !valid_utf8(bytes@),
        },
{
    std::str::from_utf8(bytes).ok()
}

/// The key of a multi-byte character: its first character when the bytes
/// are valid UTF-8, else `Unknown`.
pub fn utf8_key(bytes: &[u8]) -> (k: Key)
    ensures
        k == (if valid_utf8(bytes@) && decode_utf8(bytes@).len() > 0 {
            Key::Char(decode_utf8(bytes@)[0])
        } else {
            Key::Unknown
        }),
{
    match str_from_utf8(bytes) {
        Some(s) => {
            let cs = chars_of(s);
            if cs.len() > 0 {
                Key::Char(cs[0])
            } else {
                Key::Unknown
            }
        },
        None => Key::Unknown,
    }
}

} // verus!
