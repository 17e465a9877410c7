//! UTF-8 validity of byte sequences, used to reject frames whose
//! channel names are not valid UTF-8 text.

use vstd::prelude::*;

verus! {

/// UTF-8 continuation byte (10xxxxxx).
pub open spec fn is_cont(b: u8) -> bool {
    0x80 <= b && b <= 0xBF
}

/// `s` is a sequence of well-formed UTF-8 scalar encodings from index
/// `i` to the end, per the byte-range table of the encoding: overlong
/// forms, surrogates and values above U+10FFFF are excluded.
pub open spec fn utf8_from(s: Seq<u8>, i: int) -> bool
    decreases s.len() - i,
        when 0 <= i <= s.len()
{
    if i >= s.len() {
        true
    } else {
        let b = s[i];
        if b < 0x80 {
            utf8_from(s, i + 1)
        } else if 0xC2 <= b && b <= 0xDF {
            if i + 2 <= s.len() {
                is_cont(s[i + 1]) && utf8_from(s, i + 2)
            } else {
                false
            }
        } else if b == 0xE0 {
            if i + 3 <= s.len() {
                0xA0 <= s[i + 1] && s[i + 1] <= 0xBF && is_cont(s[i + 2]) && utf8_from(s, i + 3)
            } else {
                false
            }
        } else if b == 0xED {
            if i + 3 <= s.len() {
                0x80 <= s[i + 1] && s[i + 1] <= 0x9F && is_cont(s[i + 2]) && utf8_from(s, i + 3)
            } else {
                false
            }
        } else if 0xE1 <= b && b <= 0xEF {
            if i + 3 <= s.len() {
                is_cont(s[i + 1]) && is_cont(s[i + 2]) && utf8_from(s, i + 3)
            } else {
                false
            }
        } else if b == 0xF0 {
            if i + 4 <= s.len() {
                0x90 <= s[i + 1] && s[i + 1] <= 0xBF && is_cont(s[i + 2]) && is_cont(s[i + 3])
                    && utf8_from(s, i + 4)
            } else {
                false
            }
        } else if 0xF1 <= b && b <= 0xF3 {
            if i + 4 <= s.len() {
                is_cont(s[i + 1]) && is_cont(s[i + 2]) && is_cont(s[i + 3]) && utf8_from(s, i + 4)
            } else {
                false
            }
        } else if b == 0xF4 {
            if i + 4 <= s.len() {
                0x80 <= s[i + 1] && s[i + 1] <= 0x8F && is_cont(s[i + 2]) && is_cont(s[i + 3])
                    && utf8_from(s, i + 4)
            } else {
                false
            }
        } else {
            false
        }
    }
}

/// Decide whether `s` is valid UTF-8.
pub fn check_utf8(s: &[u8]) -> (r: bool)
    ensures
        r == utf8_from(s@, 0),
{
    let n = s.len();
    let mut i: usize = 0;
    while i < n
        invariant
            0 <= i <= n,
            n == s@.len(),
            utf8_from(s@, 0) == utf8_from(s@, i as int),
        decreases n - i,
    {
        let b = s[i];
        if b < 0x80 {
            i += 1;
        } else if 0xC2 <= b && b <= 0xDF {
            if n - i < 2 {
                return false;
            }
            let b1 = s[i + 1];
            if !(0x80 <= b1 && b1 <= 0xBF) {
                return false;
            }
            i += 2;
        } else if b == 0xE0 {
            if n - i < 3 {
                return false;
            }
            let b1 = s[i + 1];
            let b2 = s[i + 2];
            if !(0xA0 <= b1 && b1 <= 0xBF) || !(0x80 <= b2 && b2 <= 0xBF) {
                return false;
            }
            i += 3;
        } else if b == 0xED {
            if n - i < 3 {
                return false;
            }
            let b1 = s[i + 1];
            let b2 = s[i + 2];
            if !(0x80 <= b1 && b1 <= 0x9F) || !(0x80 <= b2 && b2 <= 0xBF) {
                return false;
            }
            i += 3;
        } else if 0xE1 <= b && b <= 0xEF {
            if n - i < 3 {
                return false;
            }
            let b1 = s[i + 1];
            let b2 = s[i + 2];
            if !(0x80 <= b1 && b1 <= 0xBF) || !(0x80 <= b2 && b2 <= 0xBF) {
                return false;
            }
            i += 3;
        } else if b == 0xF0 {
            if n - i < 4 {
                return false;
            }
            let b1 = s[i + 1];
            let b2 = s[i + 2];
            let b3 = s[i + 3];
            if !(0x90 <= b1 && b1 <= 0xBF) || !(0x80 <= b2 && b2 <= 0xBF)
                || !(0x80 <= b3 && b3 <= 0xBF) {
                return false;
            }
            i += 4;
        } else if 0xF1 <= b && b <= 0xF3 {
            if n - i < 4 {
                return false;
            }
            let b1 = s[i + 1];
            let b2 = s[i + 2];
            let b3 = s[i + 3];
            if !(0x80 <= b1 && b1 <= 0xBF) || !(0x80 <= b2 && b2 <= 0xBF)
                || !(0x80 <= b3 && b3 <= 0xBF) {
                return false;
            }
            i += 4;
        } else if b == 0xF4 {
            if n - i < 4 {
                return false;
            }
            let b1 = s[i + 1];
            let b2 = s[i + 2];
            let b3 = s[i + 3];
            if !(0x80 <= b1 && b1 <= 0x8F) || !(0x80 <= b2 && b2 <= 0xBF)
                || !(0x80 <= b3 && b3 <= 0xBF) {
                return false;
            }
            i += 4;
        } else {
            return false;
        }
    }
    true
}

} // verus!
