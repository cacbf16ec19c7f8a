//! Text in the Windows-1252 code page, in which savefiles and localisation
//! files are written.

use vstd::prelude::*;
use crate::text::string_of;

verus! {

/// The character a byte stands for in Windows-1252 as the WHATWG Encoding
/// Standard defines it: bytes `0x80` to `0x9F` are the code page's
/// typographic characters, the five it leaves unassigned being the C1
/// controls of the same value; every other byte is the code point of its
/// value.
pub open spec fn windows_1252_char(b: u8) -> char {
    if b == 0x80u8 {
        '\u{20AC}'
    } else if b == 0x82u8 {
        '\u{201A}'
    } else if b == 0x83u8 {
        '\u{0192}'
    } else if b == 0x84u8 {
        '\u{201E}'
    } else if b == 0x85u8 {
        '\u{2026}'
    } else if b == 0x86u8 {
        '\u{2020}'
    } else if b == 0x87u8 {
        '\u{2021}'
    } else if b == 0x88u8 {
        '\u{02C6}'
    } else if b == 0x89u8 {
        '\u{2030}'
    } else if b == 0x8Au8 {
        '\u{0160}'
    } else if b == 0x8Bu8 {
        '\u{2039}'
    } else if b == 0x8Cu8 {
        '\u{0152}'
    } else if b == 0x8Eu8 {
        '\u{017D}'
    } else if b == 0x91u8 {
        '\u{2018}'
    } else if b == 0x92u8 {
        '\u{2019}'
    } else if b == 0x93u8 {
        '\u{201C}'
    } else if b == 0x94u8 {
        '\u{201D}'
    } else if b == 0x95u8 {
        '\u{2022}'
    } else if b == 0x96u8 {
        '\u{2013}'
    } else if b == 0x97u8 {
        '\u{2014}'
    } else if b == 0x98u8 {
        '\u{02DC}'
    } else if b == 0x99u8 {
        '\u{2122}'
    } else if b == 0x9Au8 {
        '\u{0161}'
    } else if b == 0x9Bu8 {
        '\u{203A}'
    } else if b == 0x9Cu8 {
        '\u{0153}'
    } else if b == 0x9Eu8 {
        '\u{017E}'
    } else if b == 0x9Fu8 {
        '\u{0178}'
    } else {
        b as char
    }
}

/// The character for one Windows-1252 byte.
pub fn windows_1252_to_char(b: u8) -> (r: char)
    ensures
        r == windows_1252_char(b),
{
    match b {
        0x80 => '\u{20AC}',
        0x82 => '\u{201A}',
        0x83 => '\u{0192}',
        0x84 => '\u{201E}',
        0x85 => '\u{2026}',
        0x86 => '\u{2020}',
        0x87 => '\u{2021}',
        0x88 => '\u{02C6}',
        0x89 => '\u{2030}',
        0x8A => '\u{0160}',
        0x8B => '\u{2039}',
        0x8C => '\u{0152}',
        0x8E => '\u{017D}',
        0x91 => '\u{2018}',
        0x92 => '\u{2019}',
        0x93 => '\u{201C}',
        0x94 => '\u{201D}',
        0x95 => '\u{2022}',
        0x96 => '\u{2013}',
        0x97 => '\u{2014}',
        0x98 => '\u{02DC}',
        0x99 => '\u{2122}',
        0x9A => '\u{0161}',
        0x9B => '\u{203A}',
        0x9C => '\u{0153}',
        0x9E => '\u{017E}',
        0x9F => '\u{0178}',
        _ => b as char,
    }
}

/// The text that Windows-1252 bytes stand for, one character per byte.
pub fn decode_windows_1252(bytes: &[u8]) -> (r: String)
    ensures
        r@ == bytes@.map_values(|b: u8| windows_1252_char(b)),
{
    let mut chars: Vec<char> = Vec::new();
    let mut i: usize = 0;
    while i < bytes.len()
        invariant
            i <= bytes@.len(),
            chars@ == bytes@.take(i as int).map_values(|b: u8| windows_1252_char(b)),
        decreases bytes.len() - i,
    {
        chars.push(windows_1252_to_char(bytes[i]));
        i += 1;
        assert(chars@ =~= bytes@.take(i as int).map_values(|b: u8| windows_1252_char(b)));
    }
    assert(bytes@.take(i as int) =~= bytes@);
    string_of(&chars)
}

} // verus!
