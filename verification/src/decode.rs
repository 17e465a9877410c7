//! Record decoding: parse an extracted byte slice as one JSON-style
//! object of channel name to decimal literal. The grammar is defined by
//! the spec functions here (`parse_frame` at the top); the executable
//! decoder returns exactly what the grammar yields, and a malformed
//! slice — truncated, non-UTF-8 names, values that are not numeric
//! literals, trailing bytes after the object — yields `None` in full:
//! no partial reading is ever produced.

use vstd::prelude::*;
use crate::encode::BACKSLASH;
use crate::encode::COLON;
use crate::encode::COMMA;
use crate::encode::DOT;
use crate::encode::LBRACE;
use crate::encode::EXP_LOWER;
use crate::encode::EXP_UPPER;
use crate::encode::MINUS;
use crate::encode::PLUS;
use crate::encode::QUOTE;
use crate::encode::RBRACE;
use crate::reading::Channel;
use crate::reading::ChannelModel;
use crate::reading::Number;
use crate::reading::NumberModel;
use crate::reading::Reading;
use crate::reading::channel_wf;
use crate::reading::is_digit;
use crate::reading::all_digits;
use crate::reading::name_char_ok;
use crate::reading::name_wf;
use crate::reading::number_wf;
use crate::reading::reading_wf;
use crate::utf8::check_utf8;
use crate::utf8::utf8_from;

verus! {

/// Whitespace accepted between tokens of a frame.
pub open spec fn is_ws(b: u8) -> bool {
    b == 0x20 || b == 0x09 || b == 0x0A || b == 0x0D
}

/// First index at or after `i` holding a non-whitespace byte (or the
/// end of `s`).
pub open spec fn skip_ws(s: Seq<u8>, i: int) -> int
    decreases s.len() - i,
        when 0 <= i <= s.len()
{
    if i >= s.len() {
        i
    } else if is_ws(s[i]) {
        skip_ws(s, i + 1)
    } else {
        i
    }
}

pub proof fn lemma_skip_ws_bounds(s: Seq<u8>, i: int)
    requires
        0 <= i <= s.len(),
    ensures
        i <= skip_ws(s, i) <= s.len(),
        skip_ws(s, i) < s.len() ==> !is_ws(s[skip_ws(s, i)]),
    decreases s.len() - i,
{
    if i < s.len() && is_ws(s[i]) {
        lemma_skip_ws_bounds(s, i + 1);
    }
}

/// First index at or after `i` holding a non-digit byte (or the end).
pub open spec fn digits_end(s: Seq<u8>, i: int) -> int
    decreases s.len() - i,
        when 0 <= i <= s.len()
{
    if i >= s.len() {
        i
    } else if is_digit(s[i]) {
        digits_end(s, i + 1)
    } else {
        i
    }
}

pub proof fn lemma_digits_end_bounds(s: Seq<u8>, i: int)
    requires
        0 <= i <= s.len(),
    ensures
        i <= digits_end(s, i) <= s.len(),
        forall|k: int| i <= k < digits_end(s, i) ==> is_digit(#[trigger] s[k]),
        digits_end(s, i) < s.len() ==> !is_digit(s[digits_end(s, i)]),
    decreases s.len() - i,
{
    if i < s.len() && is_digit(s[i]) {
        lemma_digits_end_bounds(s, i + 1);
    }
}

/// The stored byte for an escape letter after a backslash, or `None`
/// for a letter outside the escape set (the `\uXXXX` form stays out of
/// the grammar).
pub open spec fn unesc(b: u8) -> Option<u8> {
    if b == QUOTE {
        Some(QUOTE)
    } else if b == BACKSLASH {
        Some(BACKSLASH)
    } else if b == 0x2F {
        Some(0x2F)
    } else if b == 0x62 {
        Some(0x08)
    } else if b == 0x66 {
        Some(0x0C)
    } else if b == 0x6E {
        Some(0x0A)
    } else if b == 0x72 {
        Some(0x0D)
    } else if b == 0x74 {
        Some(0x09)
    } else {
        None
    }
}

/// Scan a name's content after its opening quote: raw bytes pass
/// through, backslash escapes are unescaped, the closing quote ends
/// the scan. Yields the stored name bytes and the index after the
/// closing quote; `None` on a bad escape, a control byte, or a missing
/// close.
pub open spec fn parse_name_raw(s: Seq<u8>, i: int) -> Option<(Seq<u8>, int)>
    decreases s.len() - i,
        when 0 <= i <= s.len()
{
    if i >= s.len() {
        None
    } else if s[i] == QUOTE {
        Some((Seq::<u8>::empty(), i + 1))
    } else if s[i] == BACKSLASH {
        if i + 1 < s.len() {
            match unesc(s[i + 1]) {
                Some(b) => match parse_name_raw(s, i + 2) {
                    Some((t, e)) => Some((seq![b] + t, e)),
                    None => None,
                },
                None => None,
            }
        } else {
            None
        }
    } else if s[i] >= 0x20 {
        match parse_name_raw(s, i + 1) {
            Some((t, e)) => Some((seq![s[i]] + t, e)),
            None => None,
        }
    } else {
        None
    }
}

pub proof fn lemma_parse_name_raw_props(s: Seq<u8>, i: int)
    requires
        0 <= i <= s.len(),
    ensures
        parse_name_raw(s, i) matches Some(r) ==> i < r.1 <= s.len() && forall|k: int|
            0 <= k < r.0.len() ==> name_char_ok(#[trigger] r.0[k]),
    decreases s.len() - i,
{
    if i < s.len() && s[i] != QUOTE {
        if s[i] == BACKSLASH {
            if i + 1 < s.len() && unesc(s[i + 1]) is Some {
                lemma_parse_name_raw_props(s, i + 2);
            }
        } else if s[i] >= 0x20 {
            lemma_parse_name_raw_props(s, i + 1);
        }
    }
}

/// Parse a name after its opening quote: the unescaped content, which
/// must form valid UTF-8. Yields the name and the index after the
/// closing quote.
pub open spec fn parse_name(s: Seq<u8>, i: int) -> Option<(Seq<u8>, int)> {
    match parse_name_raw(s, i) {
        Some((t, e)) => if utf8_from(t, 0) {
            Some((t, e))
        } else {
            None
        },
        None => None,
    }
}

/// Parse an optional exponent part at `i`: an `e` or `E`, an optional
/// sign, and at least one digit. Absence is not an error: the result
/// then has empty digits and the index unchanged.
pub open spec fn parse_exponent(s: Seq<u8>, i: int) -> Option<(bool, Seq<u8>, int)> {
    if i < s.len() && (s[i] == EXP_LOWER || s[i] == EXP_UPPER) {
        let has_sign = i + 1 < s.len() && (s[i + 1] == MINUS || s[i + 1] == PLUS);
        let sgn_neg = i + 1 < s.len() && s[i + 1] == MINUS;
        let d0 = if has_sign {
            i + 2
        } else {
            i + 1
        };
        let e = digits_end(s, d0);
        if e == d0 {
            None
        } else {
            Some((sgn_neg, s.subrange(d0, e), e))
        }
    } else {
        Some((false, Seq::<u8>::empty(), i))
    }
}

pub proof fn lemma_parse_exponent_props(s: Seq<u8>, i: int)
    requires
        0 <= i <= s.len(),
    ensures
        parse_exponent(s, i) matches Some(r) ==> i <= r.2 <= s.len() && all_digits(r.1) && (
        r.1.len() == 0 ==> !r.0 && r.2 == i),
{
    if i < s.len() && (s[i] == EXP_LOWER || s[i] == EXP_UPPER) {
        let has_sign = i + 1 < s.len() && (s[i + 1] == MINUS || s[i + 1] == PLUS);
        let d0: int = if has_sign {
            i + 2
        } else {
            i + 1
        };
        lemma_digits_end_bounds(s, d0);
        let e = digits_end(s, d0);
        if e > d0 {
            assert forall|k: int| 0 <= k < s.subrange(d0, e).len() implies is_digit(
                #[trigger] s.subrange(d0, e)[k],
            ) by {
                assert(s.subrange(d0, e)[k] == s[d0 + k]);
            }
        }
    }
}

/// Parse a numeric literal: optional minus, integer digits with no
/// leading zero (except zero itself), optional dot with at least one
/// fractional digit, optional exponent. Yields the value and the index
/// after it.
pub open spec fn parse_number(s: Seq<u8>, i: int) -> Option<(NumberModel, int)> {
    let neg = i < s.len() && s[i] == MINUS;
    let j = if neg {
        i + 1
    } else {
        i
    };
    let k = digits_end(s, j);
    if k == j {
        None
    } else {
        let ip = s.subrange(j, k);
        if ip.len() > 1 && ip[0] == 0x30 {
            None
        } else if k < s.len() && s[k] == DOT {
            let m = digits_end(s, k + 1);
            if m == k + 1 {
                None
            } else {
                match parse_exponent(s, m) {
                    Some((en, ed, e)) => Some(
                        (NumberModel {
                            neg,
                            int_digits: ip,
                            frac_digits: s.subrange(k + 1, m),
                            exp_neg: en,
                            exp_digits: ed,
                        }, e),
                    ),
                    None => None,
                }
            }
        } else {
            match parse_exponent(s, k) {
                Some((en, ed, e)) => Some(
                    (NumberModel {
                        neg,
                        int_digits: ip,
                        frac_digits: Seq::<u8>::empty(),
                        exp_neg: en,
                        exp_digits: ed,
                    }, e),
                ),
                None => None,
            }
        }
    }
}

pub proof fn lemma_parse_number_props(s: Seq<u8>, i: int)
    requires
        0 <= i <= s.len(),
    ensures
        parse_number(s, i) matches Some(r) ==> i < r.1 <= s.len() && number_wf(r.0),
{
    let neg = i < s.len() && s[i] == MINUS;
    let j: int = if neg {
        i + 1
    } else {
        i
    };
    lemma_digits_end_bounds(s, j);
    let k = digits_end(s, j);
    if k > j {
        if k < s.len() && s[k] == DOT {
            lemma_digits_end_bounds(s, k + 1);
            let m = digits_end(s, k + 1);
            if m > k + 1 {
                lemma_parse_exponent_props(s, m);
            }
        } else {
            lemma_parse_exponent_props(s, k);
        }
    }
}

/// Parse one member: quoted name, optional whitespace, colon, optional
/// whitespace, value. Yields the channel and the index after its value.
pub open spec fn parse_entry(s: Seq<u8>, i: int) -> Option<(ChannelModel, int)> {
    if 0 <= i && i < s.len() && s[i] == QUOTE {
        match parse_name(s, i + 1) {
            Some((nm, j)) => {
                let k = skip_ws(s, j);
                if k < s.len() && s[k] == COLON {
                    let m = skip_ws(s, k + 1);
                    match parse_number(s, m) {
                        Some((val, e)) => Some((ChannelModel { name: nm, value: val }, e)),
                        None => None,
                    }
                } else {
                    None
                }
            },
            None => None,
        }
    } else {
        None
    }
}

pub proof fn lemma_parse_entry_props(s: Seq<u8>, i: int)
    requires
        0 <= i <= s.len(),
    ensures
        parse_entry(s, i) matches Some(r) ==> i < r.1 <= s.len() && channel_wf(r.0),
{
    if i < s.len() && s[i] == QUOTE {
        lemma_parse_name_raw_props(s, i + 1);
        match parse_name_raw(s, i + 1) {
            Some((nm, j)) => {
                if utf8_from(nm, 0) {
                    assert(name_wf(nm));
                    lemma_skip_ws_bounds(s, j);
                    let k = skip_ws(s, j);
                    if k < s.len() && s[k] == COLON {
                        lemma_skip_ws_bounds(s, k + 1);
                        let m = skip_ws(s, k + 1);
                        lemma_parse_number_props(s, m);
                    }
                }
            },
            None => {},
        }
    }
}

/// Parse the members of a non-empty object starting at the first name,
/// consuming the closing brace. Yields the channels in order and the
/// index after the closing brace.
pub open spec fn parse_members(s: Seq<u8>, i: int) -> Option<(Seq<ChannelModel>, int)>
    decreases s.len() - i,
        when 0 <= i <= s.len()
{
    match parse_entry(s, i) {
        Some((c, j)) => {
            let k = skip_ws(s, j);
            if k < s.len() && s[k] == COMMA {
                let m = skip_ws(s, k + 1);
                proof {
                    lemma_parse_entry_props(s, i);
                    lemma_skip_ws_bounds(s, j);
                    lemma_skip_ws_bounds(s, k + 1);
                }
                match parse_members(s, m) {
                    Some((rest, e)) => Some((seq![c] + rest, e)),
                    None => None,
                }
            } else if k < s.len() && s[k] == RBRACE {
                Some((seq![c], k + 1))
            } else {
                None
            }
        },
        None => None,
    }
}

pub proof fn lemma_parse_members_props(s: Seq<u8>, i: int)
    requires
        0 <= i <= s.len(),
    ensures
        parse_members(s, i) matches Some(r) ==> i < r.1 <= s.len() && reading_wf(r.0)
            && r.0.len() >= 1,
    decreases s.len() - i,
{
    lemma_parse_entry_props(s, i);
    match parse_entry(s, i) {
        Some((c, j)) => {
            lemma_skip_ws_bounds(s, j);
            let k = skip_ws(s, j);
            if k < s.len() && s[k] == COMMA {
                lemma_skip_ws_bounds(s, k + 1);
                let m = skip_ws(s, k + 1);
                lemma_parse_members_props(s, m);
                match parse_members(s, m) {
                    Some((rest, e)) => {
                        assert forall|q: int|
                            0 <= q < (seq![c] + rest).len() implies channel_wf(
                            #[trigger] (seq![c] + rest)[q],
                        ) by {
                            if q > 0 {
                                assert((seq![c] + rest)[q] == rest[q - 1]);
                            }
                        }
                    },
                    None => {},
                }
            } else if k < s.len() && s[k] == RBRACE {
                assert(reading_wf(seq![c]));
            }
        },
        None => {},
    }
}

/// The frame grammar: optional whitespace, an object of zero or more
/// name-value members, optional whitespace, end of input. `None` on
/// anything else.
pub open spec fn parse_frame(s: Seq<u8>) -> Option<Seq<ChannelModel>> {
    let i = skip_ws(s, 0);
    if i < s.len() && s[i] == LBRACE {
        let j = skip_ws(s, i + 1);
        if j < s.len() && s[j] == RBRACE {
            if skip_ws(s, j + 1) == s.len() {
                Some(Seq::<ChannelModel>::empty())
            } else {
                None
            }
        } else {
            match parse_members(s, j) {
                Some((cs, k)) => if skip_ws(s, k) == s.len() {
                    Some(cs)
                } else {
                    None
                },
                None => None,
            }
        }
    } else {
        None
    }
}

/// Whatever a frame parses to is a well-formed reading.
pub proof fn lemma_parse_frame_wf(s: Seq<u8>)
    ensures
        parse_frame(s) matches Some(cs) ==> reading_wf(cs),
{
    lemma_skip_ws_bounds(s, 0);
    let i = skip_ws(s, 0);
    if i < s.len() && s[i] == LBRACE {
        lemma_skip_ws_bounds(s, i + 1);
        let j = skip_ws(s, i + 1);
        lemma_parse_members_props(s, j);
        match parse_members(s, j) {
            Some((cs, k)) => {
                lemma_skip_ws_bounds(s, k);
            },
            None => {},
        }
    }
}

fn skip_ws_x(s: &[u8], i: usize) -> (r: usize)
    requires
        i <= s@.len(),
    ensures
        r as int == skip_ws(s@, i as int),
        i <= r <= s@.len(),
    decreases s@.len() - i,
{
    if i < s.len() {
        let b = s[i];
        if b == 0x20 || b == 0x09 || b == 0x0A || b == 0x0D {
            return skip_ws_x(s, i + 1);
        }
    }
    i
}

fn digits_end_x(s: &[u8], i: usize) -> (r: usize)
    requires
        i <= s@.len(),
    ensures
        r as int == digits_end(s@, i as int),
        i <= r <= s@.len(),
    decreases s@.len() - i,
{
    if i < s.len() {
        let b = s[i];
        if 0x30 <= b && b <= 0x39 {
            return digits_end_x(s, i + 1);
        }
    }
    i
}

fn parse_name_raw_x(s: &[u8], i: usize) -> (r: Option<(Vec<u8>, usize)>)
    requires
        i <= s@.len(),
    ensures
        (r is Some) == (parse_name_raw(s@, i as int) is Some),
        r matches Some(p) ==> parse_name_raw(s@, i as int) == Some((p.0@, p.1 as int)) && i < p.1
            <= s@.len(),
    decreases s@.len() - i,
{
    proof {
        lemma_parse_name_raw_props(s@, i as int);
    }
    if i >= s.len() {
        return None;
    }
    let b = s[i];
    if b == QUOTE {
        let v: Vec<u8> = Vec::new();
        proof {
            assert(v@ =~= Seq::<u8>::empty());
        }
        return Some((v, i + 1));
    }
    if b == BACKSLASH {
        if i + 1 >= s.len() {
            return None;
        }
        let c = s[i + 1];
        let u: u8;
        if c == QUOTE {
            u = QUOTE;
        } else if c == BACKSLASH {
            u = BACKSLASH;
        } else if c == 0x2F {
            u = 0x2F;
        } else if c == 0x62 {
            u = 0x08;
        } else if c == 0x66 {
            u = 0x0C;
        } else if c == 0x6E {
            u = 0x0A;
        } else if c == 0x72 {
            u = 0x0D;
        } else if c == 0x74 {
            u = 0x09;
        } else {
            return None;
        }
        assert(unesc(s@[i + 1]) == Some(u));
        match parse_name_raw_x(s, i + 2) {
            Some((rest, e)) => {
                let ghost prev = rest@;
                let mut rest = rest;
                rest.insert(0, u);
                proof {
                    assert(rest@ =~= seq![u] + prev);
                }
                Some((rest, e))
            },
            None => None,
        }
    } else if b >= 0x20 {
        match parse_name_raw_x(s, i + 1) {
            Some((rest, e)) => {
                let ghost prev = rest@;
                let mut rest = rest;
                rest.insert(0, b);
                proof {
                    assert(rest@ =~= seq![b] + prev);
                }
                Some((rest, e))
            },
            None => None,
        }
    } else {
        None
    }
}

fn parse_exponent_x(s: &[u8], i: usize) -> (r: Option<(bool, Vec<u8>, usize)>)
    requires
        i <= s@.len(),
    ensures
        (r is Some) == (parse_exponent(s@, i as int) is Some),
        r matches Some(p) ==> parse_exponent(s@, i as int) == Some((p.0, p.1@, p.2 as int))
            && i <= p.2 <= s@.len(),
{
    if i < s.len() && (s[i] == EXP_LOWER || s[i] == EXP_UPPER) {
        let has_sign = i + 1 < s.len() && (s[i + 1] == MINUS || s[i + 1] == PLUS);
        let sgn_neg = i + 1 < s.len() && s[i + 1] == MINUS;
        let d0 = if has_sign {
            i + 2
        } else {
            i + 1
        };
        let e = digits_end_x(s, d0);
        if e == d0 {
            None
        } else {
            let ed = vstd::slice::slice_to_vec(vstd::slice::slice_subrange(s, d0, e));
            Some((sgn_neg, ed, e))
        }
    } else {
        let ed: Vec<u8> = Vec::new();
        proof {
            assert(ed@ =~= Seq::<u8>::empty());
        }
        Some((false, ed, i))
    }
}

fn parse_number_x(s: &[u8], i: usize) -> (r: Option<(Number, usize)>)
    requires
        i <= s@.len(),
    ensures
        (r is Some) == (parse_number(s@, i as int) is Some),
        r matches Some(p) ==> parse_number(s@, i as int) == Some((p.0@, p.1 as int)),
{
    let neg = i < s.len() && s[i] == MINUS;
    let j = if neg {
        i + 1
    } else {
        i
    };
    let k = digits_end_x(s, j);
    if k == j {
        return None;
    }
    let ip = vstd::slice::slice_to_vec(vstd::slice::slice_subrange(s, j, k));
    if ip.len() > 1 && ip[0] == 0x30 {
        return None;
    }
    if k < s.len() && s[k] == DOT {
        let m = digits_end_x(s, k + 1);
        if m == k + 1 {
            return None;
        }
        let fp = vstd::slice::slice_to_vec(vstd::slice::slice_subrange(s, k + 1, m));
        match parse_exponent_x(s, m) {
            Some((en, ed, e)) => Some((Number::from_raw_parts(neg, ip, fp, en, ed), e)),
            None => None,
        }
    } else {
        let fp: Vec<u8> = Vec::new();
        proof {
            assert(fp@ =~= Seq::<u8>::empty());
        }
        match parse_exponent_x(s, k) {
            Some((en, ed, e)) => Some((Number::from_raw_parts(neg, ip, fp, en, ed), e)),
            None => None,
        }
    }
}

fn parse_entry_x(s: &[u8], i: usize) -> (r: Option<(Channel, usize)>)
    requires
        i <= s@.len(),
    ensures
        (r is Some) == (parse_entry(s@, i as int) is Some),
        r matches Some(p) ==> parse_entry(s@, i as int) == Some((p.0@, p.1 as int)) && i < p.1
            <= s@.len(),
{
    proof {
        lemma_parse_entry_props(s@, i as int);
    }
    if !(i < s.len() && s[i] == QUOTE) {
        return None;
    }
    match parse_name_raw_x(s, i + 1) {
        None => None,
        Some((nm, j)) => {
            if !check_utf8(nm.as_slice()) {
                return None;
            }
            let k = skip_ws_x(s, j);
            if !(k < s.len() && s[k] == COLON) {
                return None;
            }
            let m = skip_ws_x(s, k + 1);
            match parse_number_x(s, m) {
                None => None,
                Some((val, e)) => Some((Channel::from_raw(nm, val), e)),
            }
        },
    }
}

fn parse_members_x(s: &[u8], i: usize) -> (r: Option<(Vec<Channel>, usize)>)
    requires
        i <= s@.len(),
    ensures
        (r is Some) == (parse_members(s@, i as int) is Some),
        r matches Some(p) ==> parse_members(s@, i as int) == Some(
            (p.0@.map_values(|c: Channel| c@), p.1 as int),
        ) && i < p.1 <= s@.len(),
    decreases s@.len() - i,
{
    proof {
        lemma_parse_members_props(s@, i as int);
    }
    match parse_entry_x(s, i) {
        None => None,
        Some((c, j)) => {
            let k = skip_ws_x(s, j);
            if k < s.len() && s[k] == COMMA {
                let m = skip_ws_x(s, k + 1);
                match parse_members_x(s, m) {
                    None => None,
                    Some((rest, e)) => {
                        let ghost prev = rest@;
                        let mut rest = rest;
                        rest.insert(0, c);
                        proof {
                            assert(rest@ =~= seq![c] + prev);
                            assert(rest@.map_values(|ch: Channel| ch@) =~= seq![c@]
                                + prev.map_values(|ch: Channel| ch@));
                        }
                        Some((rest, e))
                    },
                }
            } else if k < s.len() && s[k] == RBRACE {
                let mut v: Vec<Channel> = Vec::new();
                v.push(c);
                proof {
                    assert(v@.map_values(|ch: Channel| ch@) =~= seq![c@]);
                }
                Some((v, k + 1))
            } else {
                None
            }
        },
    }
}

/// Decode an extracted slice into a Reading: exactly the readings the
/// frame grammar yields, rejected in full otherwise. A decoded reading
/// is always well formed.
pub fn decode(input: &[u8]) -> (r: Option<Reading>)
    ensures
        (r is Some) == (parse_frame(input@) is Some),
        r matches Some(rd) ==> parse_frame(input@) == Some(rd@) && reading_wf(rd@),
{
    proof {
        lemma_parse_frame_wf(input@);
    }
    let i = skip_ws_x(input, 0);
    if !(i < input.len() && input[i] == LBRACE) {
        return None;
    }
    let j = skip_ws_x(input, i + 1);
    if j < input.len() && input[j] == RBRACE {
        if skip_ws_x(input, j + 1) == input.len() {
            Some(Reading::new())
        } else {
            None
        }
    } else {
        match parse_members_x(input, j) {
            None => None,
            Some((v, k)) => {
                if skip_ws_x(input, k) == input.len() {
                    Some(Reading::from_channels(v))
                } else {
                    None
                }
            },
        }
    }
}

} // verus!
