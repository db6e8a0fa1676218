use vstd::prelude::*;

verus! {

/// `b` continues a multi-byte UTF-8 sequence.
pub open spec fn is_cont(b: u8) -> bool {
    0x80 <= b <= 0xbf
}

/// The length of the well-formed UTF-8 sequence at the start of `s`, or 0
/// where `s` does not start with one (no overlong forms, no surrogates,
/// nothing above U+10FFFF).
pub open spec fn char_len(s: Seq<u8>) -> int {
    if s.len() == 0 {
        0
    } else if s[0] <= 0x7f {
        1
    } else if 0xc2 <= s[0] <= 0xdf {
        if s.len() >= 2 && is_cont(s[1]) { 2 } else { 0 }
    } else if 0xe0 <= s[0] <= 0xef {
        let lo: u8 = if s[0] == 0xe0 { 0xa0 } else { 0x80 };
        let hi: u8 = if s[0] == 0xed { 0x9f } else { 0xbf };
        if s.len() >= 3 && lo <= s[1] <= hi && is_cont(s[2]) { 3 } else { 0 }
    } else if 0xf0 <= s[0] <= 0xf4 {
        let lo: u8 = if s[0] == 0xf0 { 0x90 } else { 0x80 };
        let hi: u8 = if s[0] == 0xf4 { 0x8f } else { 0xbf };
        if s.len() >= 4 && lo <= s[1] <= hi && is_cont(s[2]) && is_cont(s[3]) { 4 } else { 0 }
    } else {
        0
    }
}

/// `s` is well-formed UTF-8 text.
pub open spec fn utf8_spec(s: Seq<u8>) -> bool
    decreases s.len(),
{
    if s.len() == 0 {
        true
    } else {
        let n = char_len(s);
        n > 0 && utf8_spec(s.skip(n))
    }
}

fn char_len_at(s: &Vec<u8>, pos: usize) -> (n: usize)
    requires
        pos < s.len(),
    ensures
        n == char_len(s@.skip(pos as int)),
{
    let ghost t = s@.skip(pos as int);
    let rem = s.len() - pos;
    let b0 = s[pos];
    if b0 <= 0x7f {
        1
    } else if 0xc2 <= b0 && b0 <= 0xdf {
        if rem >= 2 && 0x80 <= s[pos + 1] && s[pos + 1] <= 0xbf { 2 } else { 0 }
    } else if 0xe0 <= b0 && b0 <= 0xef {
        let lo: u8 = if b0 == 0xe0 { 0xa0 } else { 0x80 };
        let hi: u8 = if b0 == 0xed { 0x9f } else { 0xbf };
        if rem >= 3 && lo <= s[pos + 1] && s[pos + 1] <= hi && 0x80 <= s[pos + 2] && s[pos + 2] <= 0xbf {
            3
        } else {
            0
        }
    } else if 0xf0 <= b0 && b0 <= 0xf4 {
        let lo: u8 = if b0 == 0xf0 { 0x90 } else { 0x80 };
        let hi: u8 = if b0 == 0xf4 { 0x8f } else { 0xbf };
        if rem >= 4 && lo <= s[pos + 1] && s[pos + 1] <= hi && 0x80 <= s[pos + 2] && s[pos + 2] <= 0xbf
            && 0x80 <= s[pos + 3] && s[pos + 3] <= 0xbf {
            4
        } else {
            0
        }
    } else {
        0
    }
}

/// Whether `s` is well-formed UTF-8 text.
pub fn is_utf8(s: &Vec<u8>) -> (r: bool)
    ensures
        r == utf8_spec(s@),
{
    let mut pos: usize = 0;
    assert(s@.skip(0) =~= s@);
    while pos < s.len()
        invariant
            pos <= s.len(),
            utf8_spec(s@) == utf8_spec(s@.skip(pos as int)),
        decreases s.len() - pos,
    {
        let n = char_len_at(s, pos);
        if n == 0 {
            return false;
        }
        assert(s@.skip(pos as int).skip(n as int) =~= s@.skip(pos + n));
        pos = pos + n;
    }
    assert(s@.skip(pos as int).len() == 0);
    true
}

} // verus!
