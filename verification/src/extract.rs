//! Frame extraction: find the last carriage-return terminator in a raw
//! read buffer and return the prefix before it.
//!
//! The consumer's read buffer is fixed-size and reused across reads, so
//! a chunk may hold a partial frame, one frame plus stale bytes from an
//! earlier longer frame, or several concatenated frames. The extraction
//! rule is deliberate: take the prefix ending at the *last* carriage
//! return in the buffer, so that a stale terminator left near the front
//! by a previous frame is skipped in favour of the newest complete one.

use vstd::prelude::*;

verus! {

/// The carriage-return byte that ends a frame payload on the wire.
pub const CR: u8 = 13;

/// The line-feed byte that follows the carriage return.
pub const LF: u8 = 10;

/// True when no byte of `s` is a carriage return.
pub open spec fn cr_free(s: Seq<u8>) -> bool {
    forall|k: int| 0 <= k < s.len() ==> s[k] != CR
}

/// Index of the last carriage return in `s`, or 0 when there is none.
/// The fallback to 0 mirrors the scan's accumulator starting at 0: a
/// terminator-free buffer and a buffer whose only terminator is its
/// first byte are indistinguishable to the extractor (both yield an
/// empty slice).
pub open spec fn last_cr_index(s: Seq<u8>) -> int
    decreases s.len(),
{
    if s.len() == 0 {
        0
    } else if s[s.len() - 1] == CR {
        s.len() - 1
    } else {
        last_cr_index(s.drop_last())
    }
}

/// What extraction returns: the prefix of `s` strictly before the last
/// carriage return (empty when there is none).
pub open spec fn extracted(s: Seq<u8>) -> Seq<u8> {
    s.subrange(0, last_cr_index(s))
}

/// The last-carriage-return index is always a valid cut point.
pub proof fn lemma_last_cr_index_bounds(s: Seq<u8>)
    ensures
        0 <= last_cr_index(s) <= s.len(),
    decreases s.len(),
{
    if s.len() > 0 && s[s.len() - 1] != CR {
        lemma_last_cr_index_bounds(s.drop_last());
    }
}

/// Appending carriage-return-free bytes does not move the cut point.
pub proof fn lemma_last_cr_append_cr_free(s: Seq<u8>, t: Seq<u8>)
    requires
        cr_free(t),
    ensures
        last_cr_index(s + t) == last_cr_index(s),
    decreases t.len(),
{
    if t.len() == 0 {
        assert(s + t =~= s);
    } else {
        assert((s + t).drop_last() =~= s + t.drop_last());
        assert((s + t)[(s + t).len() - 1] == t[t.len() - 1]);
        assert(cr_free(t.drop_last()));
        lemma_last_cr_append_cr_free(s, t.drop_last());
    }
}

/// A sequence that ends with a carriage return cuts exactly there.
pub proof fn lemma_last_cr_at_end(s: Seq<u8>)
    requires
        s.len() > 0,
        s[s.len() - 1] == CR,
    ensures
        last_cr_index(s) == s.len() - 1,
{
}

/// Return the prefix of `buf` that ends just before the last carriage
/// return in it, scanning the whole buffer; an empty slice when no
/// carriage return is present. This is the consumer-side framing rule.
pub fn eliminate_trailing_characters(buf: &[u8]) -> (out: &[u8])
    ensures
        out@ == extracted(buf@),
{
    let mut pos: usize = 0;
    let mut i: usize = 0;
    while i < buf.len()
        invariant
            0 <= i <= buf.len(),
            pos == last_cr_index(buf@.subrange(0, i as int)),
            pos <= i,
        decreases buf.len() - i,
    {
        proof {
            assert(buf@.subrange(0, i + 1).drop_last() =~= buf@.subrange(0, i as int));
            assert(buf@.subrange(0, i + 1)[i as int] == buf@[i as int]);
        }
        if buf[i] == CR {
            pos = i;
        }
        i += 1;
    }
    proof {
        assert(buf@.subrange(0, buf@.len() as int) =~= buf@);
        lemma_last_cr_index_bounds(buf@);
    }
    vstd::slice::slice_subrange(buf, 0, pos)
}

/// A buffer without any terminator extracts to the empty slice.
pub proof fn lemma_no_terminator_empty(s: Seq<u8>)
    requires
        cr_free(s),
    ensures
        extracted(s) == Seq::<u8>::empty(),
{
    assert(s =~= Seq::<u8>::empty() + s);
    lemma_last_cr_append_cr_free(Seq::<u8>::empty(), s);
    assert(extracted(s) =~= Seq::<u8>::empty());
}

/// Stale bytes left past the newest terminator do not change the
/// extracted slice: extraction only depends on the buffer up to its
/// last carriage return.
pub proof fn lemma_stale_suffix_ignored(s: Seq<u8>, stale: Seq<u8>)
    requires
        cr_free(stale),
    ensures
        extracted(s + stale) == extracted(s),
{
    lemma_last_cr_append_cr_free(s, stale);
    lemma_last_cr_index_bounds(s);
    assert((s + stale).subrange(0, last_cr_index(s)) =~= s.subrange(0, last_cr_index(s)));
}

/// Tie-break between two whole frames in one buffer: with frame bytes
/// `pa ++ CR LF ++ pb ++ CR LF` the extractor lands on the *last*
/// carriage return, yielding the first frame in full followed by the
/// second frame's payload — a concatenated slice, kept as the observable
/// behaviour of the last-occurrence rule.
pub proof fn lemma_tie_break_last_frame(pa: Seq<u8>, pb: Seq<u8>)
    requires
        cr_free(pa),
        cr_free(pb),
    ensures
        extracted(pa + seq![CR, LF] + pb + seq![CR, LF])
            == pa + seq![CR, LF] + pb,
{
    let s = pa + seq![CR, LF] + pb + seq![CR, LF];
    let head = pa + seq![CR, LF] + pb + seq![CR];
    assert(head[head.len() - 1] == CR);
    lemma_last_cr_at_end(head);
    assert(s.drop_last() =~= head);
    assert(s[s.len() - 1] == LF);
    assert(last_cr_index(s) == head.len() - 1);
    assert(s.subrange(0, head.len() - 1) =~= pa + seq![CR, LF] + pb);
}

} // verus!
