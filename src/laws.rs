//! Properties that hold across operations of the cursor, stated over its
//! model.
use vstd::prelude::*;
use vstd::utf8::*;

use crate::model::{
    fill_gap, lemma_read, lemma_start, lemma_synchronise, lemma_take_start, lemma_write, CursorState, FILLER,
};

verus! {

broadcast use group_utf8_lib;

/// Every operation keeps the invariant: reading, writing a character that
/// fits, synchronising, and both kinds of extraction.
pub proof fn lemma_operations_keep_invariant(m: CursorState, c: char)
    requires
        m.wf(),
    ensures
        m.after_read().wf(),
        m.fits(c) ==> m.after_write(c).wf(),
        m.synchronised().wf(),
        m.after_start().wf(),
        m.after_take_start().wf(),
{
    lemma_read(m);
    if m.fits(c) {
        lemma_write(m, c);
    }
    lemma_synchronise(m);
    lemma_start(m);
    lemma_take_start(m);
}

/// Synchronising twice is synchronising once; afterwards the gap is empty
/// and the bytes it held are all filler.
pub proof fn lemma_synchronise_idempotent(m: CursorState)
    requires
        m.wf(),
    ensures
        m.synchronised().synchronised() == m.synchronised(),
        m.synchronised().gap_len() == 0,
        forall|i: int| m.write_at() <= i < m.read_at() ==> #[trigger] m.synchronised().buffer[i] == FILLER,
{
    let s = m.synchronised();
    assert(fill_gap(s.buffer, s.write_at(), s.read_at()) =~= s.buffer);
}

/// Writing is refused exactly when a character's encoding is longer than the
/// gap: `write_char` requires `fits`, so for every gap size from zero up to
/// the encoded length minus one a call is rejected, and no byte is written.
pub proof fn lemma_overflow_refused(m: CursorState, c: char)
    ensures
        m.fits(c) <==> encode_scalar(c as u32).len() <= m.gap_len(),
        forall|g: nat|
            g <= m.read && g < encode_scalar(c as u32).len() ==> !(#[trigger] (CursorState {
                write: (m.read - g) as nat,
                ..m
            }).fits(c)),
{
}

/// The encoding of a text with one more character at its end is the
/// encoding of the text followed by that character's bytes.
proof fn lemma_encode_push(cs: Seq<char>, c: char)
    ensures
        encode_utf8(cs.push(c)) == encode_utf8(cs) + encode_scalar(c as u32),
    decreases cs.len(),
{
    reveal_with_fuel(encode_utf8, 2);
    if cs.len() == 0 {
        assert(cs.push(c) =~= seq![c]);
        assert(encode_utf8(cs.push(c)) =~= encode_utf8(cs) + encode_scalar(c as u32));
    } else {
        lemma_encode_push(cs.drop_first(), c);
        assert(cs.push(c).drop_first() =~= cs.drop_first().push(c));
        assert(encode_utf8(cs.push(c)) =~= encode_utf8(cs) + encode_scalar(c as u32));
    }
}

/// Writing the characters of `cs` in turn, where their encoding fits the
/// gap, keeps the invariant and appends exactly `cs` to the start segment.
pub proof fn lemma_writes_append(m: CursorState, cs: Seq<char>)
    requires
        m.wf(),
        encode_utf8(cs).len() <= m.gap_len(),
    ensures
        m.after_writes(cs).wf(),
        m.after_writes(cs).start_text() == m.start_text() + cs,
        m.after_writes(cs).gap_len() == m.gap_len() - encode_utf8(cs).len(),
        m.after_writes(cs).remainder_text() == m.remainder_text(),
    decreases cs.len(),
{
    if cs.len() == 0 {
        assert(m.start_text() + cs =~= m.start_text());
    } else {
        let init = cs.drop_last();
        let c = cs.last();
        lemma_encode_push(init, c);
        assert(init.push(c) =~= cs);
        lemma_writes_append(m, init);
        let p = m.after_writes(init);
        lemma_write(p, c);
        assert(m.start_text() + cs =~= (m.start_text() + init).push(c));
    }
}

/// Extraction is exact: after `start` or `take_start` the start segment is
/// empty and the write position is at the window's start (after
/// `take_start` the read position too); text written from there on is
/// exactly what the next extraction returns.
pub proof fn lemma_extraction_exact(m: CursorState, cs: Seq<char>)
    requires
        m.wf(),
    ensures
        m.after_start().write == 0,
        m.after_start().start_text() == Seq::<char>::empty(),
        m.after_take_start().write == 0,
        m.after_take_start().read == 0,
        m.after_take_start().start_text() == Seq::<char>::empty(),
        encode_utf8(cs).len() <= m.after_start().gap_len() ==> m.after_start().after_writes(
            cs,
        ).start_text() == cs,
{
    lemma_start(m);
    lemma_take_start(m);
    if encode_utf8(cs).len() <= m.after_start().gap_len() {
        lemma_writes_append(m.after_start(), cs);
        assert(Seq::<char>::empty() + cs =~= cs);
    }
}

/// Skipping a character copies it through: the bytes written at the old
/// write position are the character's encoding, the same bytes that were
/// read, and both positions move by its length.
pub proof fn lemma_skip(m: CursorState)
    requires
        m.wf(),
    ensures
        m.remainder_text().len() > 0 ==> ({
            let c = m.remainder_text()[0];
            let k = encode_scalar(c as u32).len();
            let n = m.after_read().after_write(c);
            &&& m.after_read().fits(c)
            &&& n.wf()
            &&& n.write == m.write + k
            &&& n.read == m.read + k
            &&& n.buffer.subrange(m.write_at(), m.write_at() + k) == encode_scalar(c as u32)
            &&& m.buffer.subrange(m.read_at(), m.read_at() + k) == encode_scalar(c as u32)
            &&& n.remainder_text() == m.remainder_text().drop_first()
        }),
{
    lemma_read(m);
    if m.remainder_text().len() > 0 {
        let c = m.remainder_text()[0];
        let k = encode_scalar(c as u32).len() as int;
        let a = m.after_read();
        lemma_write(a, c);
        let n = a.after_write(c);
        assert(n.buffer.subrange(m.write_at(), m.write_at() + k) =~= encode_scalar(c as u32));
        assert(m.buffer.subrange(m.read_at(), m.read_at() + k) =~= m.remainder_bytes().subrange(0, k));
    }
}

/// Finalizing leaves the whole buffer valid UTF-8, of its old length.
pub proof fn lemma_finalized(m: CursorState)
    requires
        m.wf(),
    ensures
        valid_utf8(m.finalized()),
        m.finalized().len() == m.buffer.len(),
{
    lemma_synchronise(m);
    let n = m.synchronised();
    assert(n.buffer =~= n.fixed_bytes() + n.start_bytes() + n.remainder_bytes());
    valid_utf8_concat(n.fixed_bytes(), n.start_bytes());
    valid_utf8_concat(n.fixed_bytes() + n.start_bytes(), n.remainder_bytes());
}

} // verus!
