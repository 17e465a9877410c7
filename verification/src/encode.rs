//! Frame encoding: serialize a Reading as a JSON-style object of
//! channel name to decimal literal, followed by the CR LF terminator.
//! The byte layout is pinned down by `frame_bytes`, and the encoder is
//! proved to produce exactly those bytes.

use vstd::prelude::*;
use crate::extract::CR;
use crate::extract::LF;
use crate::extract::cr_free;
use crate::reading::ChannelModel;
use crate::reading::Number;
use crate::reading::NumberModel;
use crate::reading::Reading;
use crate::reading::all_digits;
use crate::reading::channel_wf;
use crate::reading::is_digit;
use crate::reading::number_wf;
use crate::reading::reading_wf;

verus! {

pub const QUOTE: u8 = 0x22;
pub const PLUS: u8 = 0x2B;
pub const COMMA: u8 = 0x2C;
pub const MINUS: u8 = 0x2D;
pub const DOT: u8 = 0x2E;
pub const COLON: u8 = 0x3A;
pub const BACKSLASH: u8 = 0x5C;
pub const EXP_LOWER: u8 = 0x65;
pub const EXP_UPPER: u8 = 0x45;
pub const LBRACE: u8 = 0x7B;
pub const RBRACE: u8 = 0x7D;

/// Wire bytes of one stored name byte: the quote, the backslash and
/// the escapable controls become two-byte escape sequences; everything
/// else passes through.
pub open spec fn esc_byte(b: u8) -> Seq<u8> {
    if b == QUOTE {
        seq![BACKSLASH, QUOTE]
    } else if b == BACKSLASH {
        seq![BACKSLASH, BACKSLASH]
    } else if b == 0x08 {
        seq![BACKSLASH, 0x62]
    } else if b == 0x09 {
        seq![BACKSLASH, 0x74]
    } else if b == 0x0A {
        seq![BACKSLASH, 0x6E]
    } else if b == 0x0C {
        seq![BACKSLASH, 0x66]
    } else if b == 0x0D {
        seq![BACKSLASH, 0x72]
    } else {
        seq![b]
    }
}

/// Wire text of a stored channel name: each byte escaped as needed.
pub open spec fn esc_name(s: Seq<u8>) -> Seq<u8>
    decreases s.len(),
{
    if s.len() == 0 {
        Seq::<u8>::empty()
    } else {
        esc_byte(s[0]) + esc_name(s.skip(1))
    }
}

/// Wire text of one numeric literal: optional minus, integer digits,
/// optional dot and fractional digits, optional exponent.
pub open spec fn num_bytes(n: NumberModel) -> Seq<u8> {
    (if n.neg {
        seq![MINUS]
    } else {
        Seq::<u8>::empty()
    }) + n.int_digits + (if n.frac_digits.len() > 0 {
        seq![DOT] + n.frac_digits
    } else {
        Seq::<u8>::empty()
    }) + (if n.exp_digits.len() > 0 {
        seq![EXP_LOWER] + (if n.exp_neg {
            seq![MINUS]
        } else {
            Seq::<u8>::empty()
        }) + n.exp_digits
    } else {
        Seq::<u8>::empty()
    })
}

/// Wire text of one member: quoted escaped name, colon, value.
pub open spec fn entry_bytes(c: ChannelModel) -> Seq<u8> {
    seq![QUOTE] + esc_name(c.name) + seq![QUOTE, COLON] + num_bytes(c.value)
}

/// Wire text of the members after the first, each preceded by a comma.
pub open spec fn entries_rest(cs: Seq<ChannelModel>) -> Seq<u8>
    decreases cs.len(),
{
    if cs.len() == 0 {
        Seq::<u8>::empty()
    } else {
        seq![COMMA] + entry_bytes(cs[0]) + entries_rest(cs.skip(1))
    }
}

/// Wire text of all members, comma-separated.
pub open spec fn entries_bytes(cs: Seq<ChannelModel>) -> Seq<u8> {
    if cs.len() == 0 {
        Seq::<u8>::empty()
    } else {
        entry_bytes(cs[0]) + entries_rest(cs.skip(1))
    }
}

/// The frame payload: the serialized object, without the terminator.
pub open spec fn payload_bytes(r: Seq<ChannelModel>) -> Seq<u8> {
    seq![LBRACE] + entries_bytes(r) + seq![RBRACE]
}

/// The full wire frame: payload plus CR LF.
pub open spec fn frame_bytes(r: Seq<ChannelModel>) -> Seq<u8> {
    payload_bytes(r) + seq![CR, LF]
}

proof fn lemma_entries_rest_push(cs: Seq<ChannelModel>, c: ChannelModel)
    ensures
        entries_rest(cs.push(c)) == entries_rest(cs) + seq![COMMA] + entry_bytes(c),
    decreases cs.len(),
{
    let e = cs.push(c);
    assert(e.len() == cs.len() + 1);
    assert(entries_rest(e) == seq![COMMA] + entry_bytes(e[0]) + entries_rest(e.skip(1)));
    if cs.len() == 0 {
        assert(e[0] == c);
        assert(e.skip(1) =~= Seq::<ChannelModel>::empty());
        assert(entries_rest(e.skip(1)) == Seq::<u8>::empty());
        assert(entries_rest(cs) == Seq::<u8>::empty());
        assert(entries_rest(e) =~= entries_rest(cs) + seq![COMMA] + entry_bytes(c));
    } else {
        assert(e[0] == cs[0]);
        assert(e.skip(1) =~= cs.skip(1).push(c));
        lemma_entries_rest_push(cs.skip(1), c);
        assert(entries_rest(cs) == seq![COMMA] + entry_bytes(cs[0]) + entries_rest(cs.skip(1)));
        assert(entries_rest(e) =~= entries_rest(cs) + seq![COMMA] + entry_bytes(c));
    }
}

proof fn lemma_entries_bytes_push(cs: Seq<ChannelModel>, c: ChannelModel)
    ensures
        cs.len() == 0 ==> entries_bytes(cs.push(c)) == entry_bytes(c),
        cs.len() > 0 ==> entries_bytes(cs.push(c)) == entries_bytes(cs) + seq![COMMA]
            + entry_bytes(c),
{
    if cs.len() == 0 {
        assert(cs.push(c).skip(1) =~= Seq::<ChannelModel>::empty());
        assert(entries_bytes(cs.push(c)) =~= entry_bytes(c));
    } else {
        assert(cs.push(c).skip(1) =~= cs.skip(1).push(c));
        lemma_entries_rest_push(cs.skip(1), c);
        assert(entries_bytes(cs.push(c)) =~= entries_bytes(cs) + seq![COMMA] + entry_bytes(c));
    }
}

/// Joining carriage-return-free pieces stays carriage-return-free.
proof fn lemma_cr_free_concat(a: Seq<u8>, b: Seq<u8>)
    requires
        cr_free(a),
        cr_free(b),
    ensures
        cr_free(a + b),
{
    assert forall|k: int| 0 <= k < (a + b).len() implies (a + b)[k] != CR by {
        if k < a.len() {
            assert((a + b)[k] == a[k]);
        } else {
            assert((a + b)[k] == b[k - a.len()]);
        }
    }
}

/// Digit text holds no carriage return.
proof fn lemma_digits_cr_free(s: Seq<u8>)
    requires
        all_digits(s),
    ensures
        cr_free(s),
{
    assert forall|k: int| 0 <= k < s.len() implies s[k] != CR by {
        assert(is_digit(s[k]));
    }
}

/// An escaped name holds no bare carriage return, whatever the stored
/// name holds: the escapable controls (the carriage return among them)
/// leave as two-byte sequences.
proof fn lemma_esc_name_cr_free(s: Seq<u8>)
    ensures
        cr_free(esc_name(s)),
    decreases s.len(),
{
    if s.len() > 0 {
        assert(cr_free(esc_byte(s[0])));
        lemma_esc_name_cr_free(s.skip(1));
        lemma_cr_free_concat(esc_byte(s[0]), esc_name(s.skip(1)));
    }
}

/// A well-formed numeric literal's wire text holds no carriage return.
proof fn lemma_num_bytes_cr_free(n: NumberModel)
    requires
        number_wf(n),
    ensures
        cr_free(num_bytes(n)),
{
    let sign: Seq<u8> = if n.neg { seq![MINUS] } else { Seq::<u8>::empty() };
    let frac: Seq<u8> = if n.frac_digits.len() > 0 { seq![DOT] + n.frac_digits } else {
        Seq::<u8>::empty()
    };
    let exp: Seq<u8> = if n.exp_digits.len() > 0 {
        seq![EXP_LOWER] + (if n.exp_neg { seq![MINUS] } else { Seq::<u8>::empty() })
            + n.exp_digits
    } else {
        Seq::<u8>::empty()
    };
    assert(cr_free(sign));
    lemma_digits_cr_free(n.int_digits);
    lemma_digits_cr_free(n.frac_digits);
    lemma_digits_cr_free(n.exp_digits);
    if n.frac_digits.len() > 0 {
        lemma_cr_free_concat(seq![DOT], n.frac_digits);
    }
    if n.exp_digits.len() > 0 {
        let esign: Seq<u8> = if n.exp_neg { seq![MINUS] } else { Seq::<u8>::empty() };
        assert(cr_free(esign));
        lemma_cr_free_concat(seq![EXP_LOWER], esign);
        lemma_cr_free_concat(seq![EXP_LOWER] + esign, n.exp_digits);
    }
    lemma_cr_free_concat(sign, n.int_digits);
    lemma_cr_free_concat(sign + n.int_digits, frac);
    lemma_cr_free_concat(sign + n.int_digits + frac, exp);
}

/// No byte of a well-formed member is a carriage return, so the only
/// carriage return in a frame is its terminator.
proof fn lemma_entry_cr_free(c: ChannelModel)
    requires
        channel_wf(c),
    ensures
        cr_free(entry_bytes(c)),
{
    lemma_esc_name_cr_free(c.name);
    lemma_num_bytes_cr_free(c.value);
    lemma_cr_free_concat(seq![QUOTE], esc_name(c.name));
    lemma_cr_free_concat(seq![QUOTE] + esc_name(c.name), seq![QUOTE, COLON]);
    lemma_cr_free_concat(seq![QUOTE] + esc_name(c.name) + seq![QUOTE, COLON], num_bytes(c.value));
}

proof fn lemma_entries_rest_cr_free(cs: Seq<ChannelModel>)
    requires
        forall|i: int| 0 <= i < cs.len() ==> channel_wf(#[trigger] cs[i]),
    ensures
        cr_free(entries_rest(cs)),
    decreases cs.len(),
{
    if cs.len() > 0 {
        lemma_entry_cr_free(cs[0]);
        lemma_entries_rest_cr_free(cs.skip(1));
        let e = entries_rest(cs);
        assert forall|k: int| 0 <= k < e.len() implies e[k] != CR by {
            if 1 <= k < 1 + entry_bytes(cs[0]).len() {
                assert(entry_bytes(cs[0])[k - 1] != CR);
            } else if k >= 1 + entry_bytes(cs[0]).len() {
                assert(entries_rest(cs.skip(1))[k - 1 - entry_bytes(cs[0]).len()] != CR);
            }
        }
    }
}

/// The payload of a well-formed reading holds no carriage return.
pub proof fn lemma_payload_cr_free(r: Seq<ChannelModel>)
    requires
        reading_wf(r),
    ensures
        cr_free(payload_bytes(r)),
{
    let p = payload_bytes(r);
    if r.len() > 0 {
        lemma_entry_cr_free(r[0]);
        lemma_entries_rest_cr_free(r.skip(1));
    }
    assert forall|k: int| 0 <= k < p.len() implies p[k] != CR by {
        let eb = entries_bytes(r);
        if 1 <= k < 1 + eb.len() {
            assert(eb[k - 1] == p[k]);
            if r.len() > 0 {
                let e0 = entry_bytes(r[0]);
                if k - 1 < e0.len() {
                    assert(e0[k - 1] != CR);
                } else {
                    assert(entries_rest(r.skip(1))[k - 1 - e0.len()] != CR);
                }
            }
        }
    }
}

/// Append every byte of `s` to `out`.
fn push_bytes(out: &mut Vec<u8>, s: &[u8])
    ensures
        final(out)@ == old(out)@ + s@,
{
    let ghost start = out@;
    let mut i: usize = 0;
    while i < s.len()
        invariant
            0 <= i <= s@.len(),
            out@ == start + s@.subrange(0, i as int),
        decreases s@.len() - i,
    {
        out.push(s[i]);
        proof {
            assert(start + s@.subrange(0, i + 1) =~= (start + s@.subrange(0, i as int)).push(
                s@[i as int],
            ));
        }
        i += 1;
    }
    proof {
        assert(start + s@.subrange(0, s@.len() as int) =~= start + s@);
    }
}

/// Append the wire text of one value to `out`.
fn push_number(out: &mut Vec<u8>, n: &Number)
    ensures
        final(out)@ == old(out)@ + num_bytes(n@),
{
    let ghost start = out@;
    if n.is_negative() {
        out.push(MINUS);
    }
    push_bytes(out, n.int_digits().as_slice());
    if n.frac_digits().len() > 0 {
        out.push(DOT);
        push_bytes(out, n.frac_digits().as_slice());
    }
    if n.exp_digits().len() > 0 {
        out.push(EXP_LOWER);
        if n.exp_is_negative() {
            out.push(MINUS);
        }
        push_bytes(out, n.exp_digits().as_slice());
    }
    proof {
        assert(out@ =~= start + num_bytes(n@));
    }
}

proof fn lemma_esc_name_push(s: Seq<u8>, b: u8)
    ensures
        esc_name(s.push(b)) == esc_name(s) + esc_byte(b),
    decreases s.len(),
{
    let e = s.push(b);
    if s.len() == 0 {
        assert(e[0] == b);
        assert(e.skip(1) =~= Seq::<u8>::empty());
        assert(esc_name(e.skip(1)) == Seq::<u8>::empty());
        assert(esc_name(e) =~= esc_name(s) + esc_byte(b));
    } else {
        assert(e[0] == s[0]);
        assert(e.skip(1) =~= s.skip(1).push(b));
        lemma_esc_name_push(s.skip(1), b);
        assert(esc_name(e) =~= esc_name(s) + esc_byte(b));
    }
}

/// Append the wire text of a stored name, escaping as it goes.
fn push_name(out: &mut Vec<u8>, s: &[u8])
    ensures
        final(out)@ == old(out)@ + esc_name(s@),
{
    let ghost start = out@;
    proof {
        assert(s@.take(0) =~= Seq::<u8>::empty());
        assert(start + esc_name(s@.take(0)) =~= start);
    }
    let mut i: usize = 0;
    while i < s.len()
        invariant
            0 <= i <= s@.len(),
            out@ == start + esc_name(s@.take(i as int)),
        decreases s@.len() - i,
    {
        let b = s[i];
        if b == QUOTE {
            out.push(BACKSLASH);
            out.push(QUOTE);
        } else if b == BACKSLASH {
            out.push(BACKSLASH);
            out.push(BACKSLASH);
        } else if b == 0x08 {
            out.push(BACKSLASH);
            out.push(0x62);
        } else if b == 0x09 {
            out.push(BACKSLASH);
            out.push(0x74);
        } else if b == 0x0A {
            out.push(BACKSLASH);
            out.push(0x6E);
        } else if b == 0x0C {
            out.push(BACKSLASH);
            out.push(0x66);
        } else if b == 0x0D {
            out.push(BACKSLASH);
            out.push(0x72);
        } else {
            out.push(b);
        }
        proof {
            assert(s@.take(i + 1) =~= s@.take(i as int).push(s@[i as int]));
            lemma_esc_name_push(s@.take(i as int), s@[i as int]);
            assert(out@ =~= start + esc_name(s@.take(i + 1)));
        }
        i += 1;
    }
    proof {
        assert(s@.take(s@.len() as int) =~= s@);
    }
}

/// Serialize `r` into a fresh frame: payload followed by CR LF. This is
/// the producer's encoding discipline.
pub fn encode_frame(r: &Reading) -> (out: Vec<u8>)
    ensures
        out@ == frame_bytes(r@),
{
    let mut out: Vec<u8> = Vec::new();
    out.push(LBRACE);
    proof {
        assert(out@ =~= seq![LBRACE] + entries_bytes(r@.take(0)));
    }
    let mut i: usize = 0;
    let n = r.len();
    while i < n
        invariant
            0 <= i <= n,
            n == r@.len(),
            out@ == seq![LBRACE] + entries_bytes(r@.take(i as int)),
        decreases n - i,
    {
        if i > 0 {
            out.push(COMMA);
        }
        let c = r.channel_at(i);
        out.push(QUOTE);
        push_name(&mut out, c.name().as_slice());
        out.push(QUOTE);
        out.push(COLON);
        push_number(&mut out, c.value());
        proof {
            assert(r@.take(i + 1) =~= r@.take(i as int).push(r@[i as int]));
            lemma_entries_bytes_push(r@.take(i as int), r@[i as int]);
            assert(out@ =~= seq![LBRACE] + entries_bytes(r@.take(i + 1)));
        }
        i += 1;
    }
    out.push(RBRACE);
    out.push(CR);
    out.push(LF);
    proof {
        assert(r@.take(r@.len() as int) =~= r@);
        assert(out@ =~= frame_bytes(r@));
    }
    out
}

/// Write the frame of `r` into the producer's pre-allocated buffer.
/// Returns the frame length when it fits; `None` — with the buffer
/// untouched — when the buffer is too small, the producer-side fatal
/// condition. Bytes past the frame keep their old values.
pub fn write_frame(r: &Reading, buf: &mut Vec<u8>) -> (n: Option<usize>)
    ensures
        frame_bytes(r@).len() <= old(buf)@.len() ==> (n matches Some(k) && k == frame_bytes(
            r@,
        ).len() && final(buf)@ == frame_bytes(r@) + old(buf)@.skip(k as int)),
        frame_bytes(r@).len() > old(buf)@.len() ==> (n is None && final(buf)@ == old(buf)@),
{
    let f = encode_frame(r);
    if f.len() > buf.len() {
        return None;
    }
    let mut i: usize = 0;
    while i < f.len()
        invariant
            0 <= i <= f@.len() <= buf@.len(),
            buf@.len() == old(buf)@.len(),
            forall|j: int| 0 <= j < i ==> buf@[j] == f@[j],
            forall|j: int| i <= j < buf@.len() ==> buf@[j] == old(buf)@[j],
        decreases f@.len() - i,
    {
        let b = f[i];
        buf.set(i, b);
        i += 1;
    }
    proof {
        assert(buf@ =~= f@ + old(buf)@.skip(f@.len() as int));
    }
    Some(f.len())
}

/// Zero the whole buffer: the producer's hygiene step after a write, so
/// a shorter next frame leaves no stale trailing bytes.
pub fn clear_slice(s: &mut Vec<u8>)
    ensures
        final(s)@.len() == old(s)@.len(),
        forall|i: int| 0 <= i < final(s)@.len() ==> final(s)@[i] == 0,
{
    let mut i: usize = 0;
    let n = s.len();
    while i < n
        invariant
            0 <= i <= n,
            n == s@.len(),
            forall|j: int| 0 <= j < i ==> s@[j] == 0,
        decreases n - i,
    {
        s.set(i, 0);
        i += 1;
    }
}

} // verus!
