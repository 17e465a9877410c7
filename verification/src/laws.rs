//! The laws that tie the pipeline's stages together: a frame produced
//! by the encoder, surrounded by the stale bytes the link can leave,
//! extracts and decodes back to the original reading.

use vstd::prelude::*;
use crate::decode::digits_end;
use crate::decode::is_ws;
use crate::decode::parse_name_raw;
use crate::decode::unesc;
use crate::decode::parse_entry;
use crate::decode::parse_exponent;
use crate::decode::parse_frame;
use crate::decode::parse_members;
use crate::decode::parse_number;
use crate::decode::skip_ws;
use crate::encode::COLON;
use crate::encode::COMMA;
use crate::encode::DOT;
use crate::encode::LBRACE;
use crate::encode::MINUS;
use crate::encode::QUOTE;
use crate::encode::RBRACE;
use crate::encode::BACKSLASH;
use crate::encode::EXP_LOWER;
use crate::encode::EXP_UPPER;
use crate::encode::PLUS;
use crate::encode::entries_bytes;
use crate::encode::esc_byte;
use crate::encode::esc_name;
use crate::encode::entries_rest;
use crate::encode::entry_bytes;
use crate::encode::frame_bytes;
use crate::encode::num_bytes;
use crate::encode::payload_bytes;
use crate::extract::CR;
use crate::extract::LF;
use crate::extract::cr_free;
use crate::extract::extracted;
use crate::extract::lemma_last_cr_append_cr_free;
use crate::extract::lemma_last_cr_at_end;
use crate::reading::ChannelModel;
use crate::reading::NumberModel;
use crate::reading::channel_wf;
use crate::reading::is_digit;
use crate::reading::name_char_ok;
use crate::reading::number_wf;
use crate::reading::reading_wf;

verus! {

/// Positions of the pieces of a serialized number.
proof fn lemma_num_bytes_layout(n: NumberModel)
    ensures
        ({
            let off: int = if n.neg { 1int } else { 0int };
            let fl: int = if n.frac_digits.len() > 0 { 1 + n.frac_digits.len() as int } else { 0int };
            let eoff: int = off + n.int_digits.len() + fl;
            let es: int = if n.exp_neg { 1int } else { 0int };
            let el: int = if n.exp_digits.len() > 0 { 1 + es + n.exp_digits.len() as int } else { 0int };
            &&& num_bytes(n).len() == eoff + el
            &&& (n.neg ==> num_bytes(n)[0] == MINUS)
            &&& forall|t: int| 0 <= t < n.int_digits.len() ==> num_bytes(n)[off + t]
                == n.int_digits[t]
            &&& (n.frac_digits.len() > 0 ==> num_bytes(n)[off + n.int_digits.len()] == DOT)
            &&& forall|u: int| 0 <= u < n.frac_digits.len() ==> num_bytes(n)[off
                + n.int_digits.len() + 1 + u] == n.frac_digits[u]
            &&& (n.exp_digits.len() > 0 ==> num_bytes(n)[eoff] == EXP_LOWER)
            &&& (n.exp_digits.len() > 0 && n.exp_neg ==> num_bytes(n)[eoff + 1] == MINUS)
            &&& forall|w: int| 0 <= w < n.exp_digits.len() ==> num_bytes(n)[eoff + 1 + es + w]
                == n.exp_digits[w]
        }),
{
    let sign: Seq<u8> = if n.neg { seq![MINUS] } else { Seq::<u8>::empty() };
    let frac: Seq<u8> = if n.frac_digits.len() > 0 { seq![DOT] + n.frac_digits } else {
        Seq::<u8>::empty()
    };
    let esign: Seq<u8> = if n.exp_neg { seq![MINUS] } else { Seq::<u8>::empty() };
    let exp: Seq<u8> = if n.exp_digits.len() > 0 { seq![EXP_LOWER] + esign + n.exp_digits } else {
        Seq::<u8>::empty()
    };
    assert(num_bytes(n) == sign + n.int_digits + frac + exp);
}

/// Positions of the pieces of a serialized member.
proof fn lemma_entry_bytes_layout(c: ChannelModel)
    ensures
        entry_bytes(c).len() == 3 + esc_name(c.name).len() + num_bytes(c.value).len(),
        entry_bytes(c)[0] == QUOTE,
        forall|t: int| 0 <= t < esc_name(c.name).len() ==> entry_bytes(c)[1 + t]
            == esc_name(c.name)[t],
        entry_bytes(c)[1 + esc_name(c.name).len() as int] == QUOTE,
        entry_bytes(c)[2 + esc_name(c.name).len() as int] == COLON,
        forall|u: int| 0 <= u < num_bytes(c.value).len() ==> entry_bytes(c)[3
            + esc_name(c.name).len() + u] == num_bytes(c.value)[u],
{
    assert(entry_bytes(c) == seq![QUOTE] + esc_name(c.name) + seq![QUOTE, COLON] + num_bytes(
        c.value,
    ));
}

/// A digit run bounded by a non-digit ends exactly at the bound.
proof fn lemma_digits_end_run(s: Seq<u8>, i: int, j: int)
    requires
        0 <= i <= j <= s.len(),
        forall|k: int| i <= k < j ==> is_digit(#[trigger] s[k]),
        j == s.len() || !is_digit(s[j]),
    ensures
        digits_end(s, i) == j,
    decreases j - i,
{
    if i < j {
        assert(is_digit(s[i]));
        lemma_digits_end_run(s, i + 1, j);
    }
}

/// A printed (escaped) name closed by a quote scans back to the stored
/// name.
proof fn lemma_parse_name_print(s: Seq<u8>, i: int, name: Seq<u8>)
    requires
        forall|k: int| 0 <= k < name.len() ==> name_char_ok(#[trigger] name[k]),
        0 <= i,
        i + esc_name(name).len() < s.len(),
        s.subrange(i, i + esc_name(name).len()) == esc_name(name),
        s[i + esc_name(name).len()] == QUOTE,
    ensures
        parse_name_raw(s, i) == Some((name, i + esc_name(name).len() + 1)),
    decreases name.len(),
{
    let en = esc_name(name);
    let ln = en.len();
    assert forall|k: int| 0 <= k < ln implies s[i + k] == en[k] by {
        assert(s.subrange(i, i + ln)[k] == s[i + k]);
    }
    if name.len() == 0 {
        assert(s[i] == QUOTE);
        assert(Seq::<u8>::empty() =~= name);
    } else {
        let b = name[0];
        let eb = esc_byte(b);
        let rest = esc_name(name.skip(1));
        assert(en == eb + rest);
        let l1 = eb.len() as int;
        assert(s.subrange(i + l1, i + ln) =~= rest) by {
            assert forall|u: int| 0 <= u < rest.len() implies s.subrange(i + l1, i + ln)[u]
                == rest[u] by {
                assert(s.subrange(i + l1, i + ln)[u] == s[i + l1 + u]);
                assert(s[i + l1 + u] == en[l1 + u]);
                assert(en[l1 + u] == rest[u]);
            }
        }
        assert((i + l1) + esc_name(name.skip(1)).len() == i + ln);
        assert forall|k: int| 0 <= k < name.skip(1).len() implies name_char_ok(
            #[trigger] name.skip(1)[k],
        ) by {
            assert(name.skip(1)[k] == name[k + 1]);
        }
        lemma_parse_name_print(s, i + l1, name.skip(1));
        if b == QUOTE || b == BACKSLASH || b == 0x08 || b == 0x09 || b == 0x0A || b == 0x0C || b
            == 0x0D {
            // Escaped byte: backslash plus its escape letter.
            assert(eb[0] == BACKSLASH && l1 == 2);
            assert(s[i] == en[0]);
            assert(s[i] == BACKSLASH);
            assert(s[i + 1] == en[1]);
            assert(s[i + 1] == eb[1]);
            assert(unesc(s[i + 1]) == Some(b));
            assert(parse_name_raw(s, i) == Some((seq![b] + name.skip(1), i + ln + 1)));
        } else {
            // Raw byte: name bytes outside the escape set are at least
            // 0x20 and are neither quote nor backslash.
            assert(eb =~= seq![b]);
            assert(l1 == 1);
            assert(s[i + 0] == en[0]);
            assert(en[0] == eb[0]);
            assert(s[i] == b);
            assert(name_char_ok(b));
            assert(b >= 0x20);
            assert(parse_name_raw(s, i) == Some((seq![b] + name.skip(1), i + ln + 1)));
        }
        assert(seq![b] + name.skip(1) =~= name);
    }
}

/// A printed number embedded at `i`, followed by nothing that could
/// extend it, parses back to itself.
#[verifier::rlimit(60)]
proof fn lemma_parse_number_print(s: Seq<u8>, i: int, n: NumberModel)
    requires
        number_wf(n),
        0 <= i,
        i + num_bytes(n).len() <= s.len(),
        s.subrange(i, i + num_bytes(n).len()) == num_bytes(n),
        i + num_bytes(n).len() == s.len() || (!is_digit(s[i + num_bytes(n).len()]) && s[i
            + num_bytes(n).len()] != DOT && s[i + num_bytes(n).len()] != EXP_LOWER && s[i
            + num_bytes(n).len()] != EXP_UPPER),
    ensures
        parse_number(s, i) == Some((n, i + num_bytes(n).len())),
{
    let m = num_bytes(n);
    let ln = m.len();
    lemma_num_bytes_layout(n);
    assert forall|k: int| 0 <= k < ln implies s[i + k] == m[k] by {
        assert(s.subrange(i, i + ln)[k] == s[i + k]);
    }
    let off: int = if n.neg { 1int } else { 0int };
    let ip = n.int_digits;
    // The sign is read as the spec reads it.
    if n.neg {
        assert(s[i] == MINUS);
    } else {
        assert(is_digit(ip[0]));
        assert(s[i] == ip[0]);
        assert(s[i] != MINUS);
    }
    let j = i + off;
    let k = j + ip.len();
    let fl: int = if n.frac_digits.len() > 0 { 1 + n.frac_digits.len() as int } else { 0int };
    let p = k + fl;
    let es: int = if n.exp_neg { 1int } else { 0int };
    assert forall|q: int| j <= q < k implies is_digit(#[trigger] s[q]) by {
        assert(s[q] == m[off + (q - j)]);
        assert(m[off + (q - j)] == ip[q - j]);
    }
    // The byte after the last digit run is never a digit: a dot, the
    // exponent letter, or the frame's own punctuation.
    if n.exp_digits.len() > 0 {
        assert(s[p] == m[p - i]);
        assert(s[p] == EXP_LOWER);
    }
    if n.frac_digits.len() > 0 {
        assert(s[k] == m[off + ip.len()]);
        assert(s[k] == DOT);
        assert(!is_digit(s[k]));
        lemma_digits_end_run(s, j, k);
        assert(s.subrange(j, k) =~= ip);
        let fend = k + 1 + n.frac_digits.len();
        assert(fend == p);
        assert forall|q: int| k + 1 <= q < fend implies is_digit(#[trigger] s[q]) by {
            assert(s[q] == m[off + ip.len() + 1 + (q - k - 1)]);
            assert(m[off + ip.len() + 1 + (q - k - 1)] == n.frac_digits[q - k - 1]);
        }
        if n.exp_digits.len() > 0 {
            assert(!is_digit(s[p]));
        }
        lemma_digits_end_run(s, k + 1, fend);
        assert(s.subrange(k + 1, fend) =~= n.frac_digits);
    } else {
        if n.exp_digits.len() > 0 {
            assert(!is_digit(s[k]));
            assert(s[k] != DOT);
        }
        lemma_digits_end_run(s, j, k);
        assert(s.subrange(j, k) =~= ip);
        assert(n.frac_digits =~= Seq::<u8>::empty());
    }
    // The exponent part.
    if n.exp_digits.len() > 0 {
        let d0 = p + 1 + es;
        if n.exp_neg {
            assert(s[p + 1] == m[p - i + 1]);
            assert(s[p + 1] == MINUS);
        } else {
            assert(s[p + 1] == m[(p - i) + 1 + 0]);
            assert(m[(p - i) + 1 + 0] == n.exp_digits[0]);
            assert(is_digit(s[p + 1]));
            assert(s[p + 1] != MINUS && s[p + 1] != PLUS);
        }
        assert forall|q: int| d0 <= q < i + ln implies is_digit(#[trigger] s[q]) by {
            assert(s[q] == m[(p - i) + 1 + es + (q - d0)]);
            assert(m[(p - i) + 1 + es + (q - d0)] == n.exp_digits[q - d0]);
        }
        lemma_digits_end_run(s, d0, i + ln);
        assert(s.subrange(d0, i + ln) =~= n.exp_digits);
        assert(parse_exponent(s, p) == Some((n.exp_neg, n.exp_digits, i + ln)));
    } else {
        assert(p == i + ln);
        assert(parse_exponent(s, p) == Some((false, Seq::<u8>::empty(), p)));
        assert(!n.exp_neg);
        assert(n.exp_digits =~= Seq::<u8>::empty());
    }
    assert(parse_number(s, i) == Some(
        (NumberModel {
            neg: n.neg,
            int_digits: ip,
            frac_digits: n.frac_digits,
            exp_neg: n.exp_neg,
            exp_digits: n.exp_digits,
        }, i + ln),
    ));
    assert(NumberModel {
        neg: n.neg,
        int_digits: ip,
        frac_digits: n.frac_digits,
        exp_neg: n.exp_neg,
        exp_digits: n.exp_digits,
    } == n);
}

/// A printed member embedded at `i`, followed by frame punctuation,
/// parses back to itself.
proof fn lemma_parse_entry_print(s: Seq<u8>, i: int, c: ChannelModel)
    requires
        channel_wf(c),
        0 <= i,
        i + entry_bytes(c).len() <= s.len(),
        s.subrange(i, i + entry_bytes(c).len()) == entry_bytes(c),
        i + entry_bytes(c).len() == s.len() || (!is_digit(s[i + entry_bytes(c).len()]) && s[i
            + entry_bytes(c).len()] != DOT && s[i + entry_bytes(c).len()] != EXP_LOWER && s[i
            + entry_bytes(c).len()] != EXP_UPPER),
    ensures
        parse_entry(s, i) == Some((c, i + entry_bytes(c).len())),
{
    let e = entry_bytes(c);
    let le = e.len();
    let nl = esc_name(c.name).len() as int;
    lemma_entry_bytes_layout(c);
    assert forall|k: int| 0 <= k < le implies s[i + k] == e[k] by {
        assert(s.subrange(i, i + le)[k] == s[i + k]);
    }
    assert(s[i] == QUOTE);
    // The escaped name closed by its quote scans back to the stored
    // name, which is valid UTF-8 by well-formedness.
    assert(s.subrange(i + 1, i + 1 + nl) =~= esc_name(c.name)) by {
        assert forall|u: int| 0 <= u < nl implies s.subrange(i + 1, i + 1 + nl)[u] == esc_name(
            c.name,
        )[u] by {
            assert(s.subrange(i + 1, i + 1 + nl)[u] == s[i + 1 + u]);
            assert(s[i + 1 + u] == e[1 + u]);
        }
    }
    assert(s[i + 1 + nl] == QUOTE);
    lemma_parse_name_print(s, i + 1, c.name);
    assert(parse_name_raw(s, i + 1) == Some((c.name, i + 2 + nl)));
    let j = i + 2 + nl;
    assert(s[j] == COLON);
    assert(!is_ws(s[j]));
    assert(skip_ws(s, j) == j);
    let m0 = j + 1;
    assert(s[m0] == e[3 + nl]);
    assert(e[3 + nl] == num_bytes(c.value)[0]);
    lemma_num_bytes_layout(c.value);
    // The first byte of a number is a minus or a digit, never
    // whitespace.
    if c.value.neg {
        assert(num_bytes(c.value)[0] == MINUS);
    } else {
        assert(num_bytes(c.value)[0] == c.value.int_digits[0]);
        assert(is_digit(num_bytes(c.value)[0]));
    }
    assert(!is_ws(s[m0]));
    assert(skip_ws(s, m0) == m0);
    assert(s.subrange(m0, m0 + num_bytes(c.value).len()) =~= num_bytes(c.value)) by {
        assert forall|u: int| 0 <= u < num_bytes(c.value).len() implies s.subrange(
            m0,
            m0 + num_bytes(c.value).len(),
        )[u] == num_bytes(c.value)[u] by {
            assert(s.subrange(m0, m0 + num_bytes(c.value).len())[u] == s[m0 + u]);
            assert(s[m0 + u] == e[3 + nl + u]);
        }
    }
    lemma_parse_number_print(s, m0, c.value);
    assert(parse_entry(s, i) == Some((ChannelModel { name: c.name, value: c.value }, i + le)));
    assert(ChannelModel { name: c.name, value: c.value } == c);
}

/// The comma-prefixed tail of a member list is a comma followed by the
/// list serialized on its own.
proof fn lemma_entries_rest_as_bytes(cs: Seq<ChannelModel>)
    requires
        cs.len() >= 1,
    ensures
        entries_rest(cs) == seq![COMMA] + entries_bytes(cs),
{
    assert(entries_rest(cs) =~= seq![COMMA] + entries_bytes(cs));
}

/// Printed members followed by the closing brace parse back to the
/// member list, consuming the brace.
proof fn lemma_parse_members_print(s: Seq<u8>, i: int, cs: Seq<ChannelModel>)
    requires
        reading_wf(cs),
        cs.len() >= 1,
        0 <= i,
        i + entries_bytes(cs).len() + 1 <= s.len(),
        s.subrange(i, i + entries_bytes(cs).len() + 1) == entries_bytes(cs) + seq![RBRACE],
    ensures
        parse_members(s, i) == Some((cs, i + entries_bytes(cs).len() + 1)),
    decreases cs.len(),
{
    let eb = entries_bytes(cs);
    let total = eb.len() + 1;
    assert forall|k: int| 0 <= k < total implies s[i + k] == (eb + seq![RBRACE])[k] by {
        assert(s.subrange(i, i + total)[k] == s[i + k]);
    }
    let c0 = cs[0];
    assert(channel_wf(c0));
    let e0 = entry_bytes(c0);
    assert(eb == e0 + entries_rest(cs.skip(1)));
    assert forall|k: int| 0 <= k < e0.len() implies s.subrange(i, i + e0.len() as int)[k]
        == e0[k] by {
        assert(s.subrange(i, i + e0.len() as int)[k] == s[i + k]);
        assert((eb + seq![RBRACE])[k] == eb[k]);
        assert(eb[k] == e0[k]);
    }
    assert(s.subrange(i, i + e0.len() as int) =~= e0);
    let j = i + e0.len() as int;
    if cs.len() == 1 {
        assert(cs.skip(1) =~= Seq::<ChannelModel>::empty());
        assert(entries_rest(cs.skip(1)) == Seq::<u8>::empty());
        assert(eb =~= e0);
        assert(s[j] == (eb + seq![RBRACE])[e0.len() as int]);
        assert(s[j] == RBRACE);
        lemma_parse_entry_print(s, i, c0);
        assert(!is_ws(s[j]));
        assert(skip_ws(s, j) == j);
        assert(parse_members(s, i) == Some((seq![c0], j + 1)));
        assert(seq![c0] =~= cs);
    } else {
        let rest = cs.skip(1);
        assert(rest.len() >= 1);
        lemma_entries_rest_as_bytes(rest);
        assert(eb == e0 + (seq![COMMA] + entries_bytes(rest)));
        assert(eb.len() == e0.len() + 1 + entries_bytes(rest).len());
        assert(s[i + e0.len() as int] == (eb + seq![RBRACE])[e0.len() as int]);
        assert((eb + seq![RBRACE])[e0.len() as int] == eb[e0.len() as int]);
        assert(eb[e0.len() as int] == (seq![COMMA] + entries_bytes(rest))[0]);
        assert(eb[e0.len() as int] == COMMA);
        assert(s[j] == COMMA);
        lemma_parse_entry_print(s, i, c0);
        assert(!is_ws(s[j]));
        assert(skip_ws(s, j) == j);
        let m = j + 1;
        // The next member starts with its opening quote.
        let e1 = entry_bytes(rest[0]);
        assert(entries_bytes(rest) == e1 + entries_rest(rest.skip(1)));
        lemma_entry_bytes_layout(rest[0]);
        assert(s[i + (e0.len() + 1int)] == (eb + seq![RBRACE])[e0.len() + 1int]);
        assert((eb + seq![RBRACE])[e0.len() + 1int] == eb[e0.len() + 1int]);
        assert(eb[e0.len() + 1int] == (seq![COMMA] + entries_bytes(rest))[1]);
        assert((seq![COMMA] + entries_bytes(rest))[1] == entries_bytes(rest)[0]);
        assert(entries_bytes(rest)[0] == e1[0]);
        assert(entries_bytes(rest)[0] == QUOTE);
        assert(s[m] == QUOTE);
        assert(!is_ws(s[m]));
        assert(skip_ws(s, m) == m);
        assert forall|q: int| 0 <= q < rest.len() implies channel_wf(#[trigger] rest[q]) by {
            assert(rest[q] == cs[q + 1]);
        }
        assert(s.subrange(m, m + entries_bytes(rest).len() + 1) =~= entries_bytes(rest) + seq![
            RBRACE,
        ]) by {
            assert forall|u: int| 0 <= u < entries_bytes(rest).len() + 1 implies s.subrange(
                m,
                m + entries_bytes(rest).len() + 1,
            )[u] == (entries_bytes(rest) + seq![RBRACE])[u] by {
                assert(s.subrange(m, m + entries_bytes(rest).len() + 1)[u] == s[m + u]);
                assert(s[m + u] == (eb + seq![RBRACE])[e0.len() + 1 + u]);
            }
        }
        lemma_parse_members_print(s, m, rest);
        assert(parse_members(s, i) == Some((seq![c0] + rest, i + total)));
        assert(seq![c0] + rest =~= cs);
    }
}

/// The payload printed from a well-formed reading parses back to it.
pub proof fn lemma_parse_of_print(r: Seq<ChannelModel>)
    requires
        reading_wf(r),
    ensures
        parse_frame(payload_bytes(r)) == Some(r),
{
    let s = payload_bytes(r);
    assert(s[0] == LBRACE);
    assert(!is_ws(s[0]));
    assert(skip_ws(s, 0) == 0);
    if r.len() == 0 {
        assert(entries_bytes(r) == Seq::<u8>::empty());
        assert(s =~= seq![LBRACE, RBRACE]);
        assert(s[1] == RBRACE);
        assert(!is_ws(s[1]));
        assert(skip_ws(s, 1) == 1);
        assert(skip_ws(s, 2) == 2);
        assert(parse_frame(s) == Some(Seq::<ChannelModel>::empty()));
        assert(Seq::<ChannelModel>::empty() =~= r);
    } else {
        let eb = entries_bytes(r);
        let e0 = entry_bytes(r[0]);
        assert(eb == e0 + entries_rest(r.skip(1)));
        lemma_entry_bytes_layout(r[0]);
        assert(s[1] == eb[0]);
        assert(eb[0] == e0[0]);
        assert(e0[0] == QUOTE);
        assert(!is_ws(s[1]));
        assert(skip_ws(s, 1) == 1);
        assert(s[1] != RBRACE);
        assert(s.subrange(1, 2 + eb.len() as int) =~= eb + seq![RBRACE]) by {
            assert forall|u: int| 0 <= u < eb.len() + 1 implies s.subrange(1, 2 + eb.len() as int)[u]
                == (eb + seq![RBRACE])[u] by {
                assert(s.subrange(1, 2 + eb.len() as int)[u] == s[1 + u]);
            }
        }
        lemma_parse_members_print(s, 1, r);
        assert(1 + eb.len() + 1 == s.len());
        assert(skip_ws(s, s.len() as int) == s.len());
        assert(parse_frame(s) == Some(r));
    }
}

/// Framing round trip: a frame encoded from a well-formed reading,
/// followed by any carriage-return-free stale bytes in the reused
/// buffer, extracts to exactly the frame payload and decodes back to
/// the reading.
pub proof fn lemma_round_trip(r: Seq<ChannelModel>, garbage: Seq<u8>)
    requires
        reading_wf(r),
        cr_free(garbage),
    ensures
        extracted(frame_bytes(r) + garbage) == payload_bytes(r),
        parse_frame(extracted(frame_bytes(r) + garbage)) == Some(r),
{
    let p = payload_bytes(r);
    let s = frame_bytes(r) + garbage;
    let head = p + seq![CR];
    let tail = seq![LF] + garbage;
    assert(s =~= head + tail);
    assert(cr_free(tail)) by {
        assert(forall|k: int| 0 <= k < tail.len() ==> tail[k] == (if k == 0 { LF } else {
            garbage[k - 1]
        }));
    }
    lemma_last_cr_append_cr_free(head, tail);
    lemma_last_cr_at_end(head);
    assert(crate::extract::last_cr_index(s) == p.len());
    assert(extracted(s) =~= p);
    lemma_parse_of_print(r);
}

/// Extractor tie-break at the frame level: a buffer holding two whole
/// encoded frames extracts to the first frame in full plus the second
/// frame's payload — the last-occurrence rule lands on the second
/// terminator, and the concatenated slice is what reaches the decoder.
pub proof fn lemma_tie_break_frames(ra: Seq<ChannelModel>, rb: Seq<ChannelModel>)
    requires
        reading_wf(ra),
        reading_wf(rb),
    ensures
        extracted(frame_bytes(ra) + frame_bytes(rb)) == frame_bytes(ra) + payload_bytes(rb),
{
    let pa = payload_bytes(ra);
    let pb = payload_bytes(rb);
    crate::encode::lemma_payload_cr_free(ra);
    crate::encode::lemma_payload_cr_free(rb);
    crate::extract::lemma_tie_break_last_frame(pa, pb);
    assert(frame_bytes(ra) + frame_bytes(rb) =~= pa + seq![CR, LF] + pb + seq![CR, LF]);
    assert(frame_bytes(ra) + payload_bytes(rb) =~= pa + seq![CR, LF] + pb);
}

/// A terminator-free buffer (all zeros included) extracts to the empty
/// slice, and the empty slice is a decode fault, never a crash.
pub proof fn lemma_no_terminator_decode_fault(s: Seq<u8>)
    requires
        cr_free(s),
    ensures
        extracted(s) == Seq::<u8>::empty(),
        parse_frame(extracted(s)) is None,
{
    crate::extract::lemma_no_terminator_empty(s);
    assert(skip_ws(Seq::<u8>::empty(), 0) == 0);
}

} // verus!
