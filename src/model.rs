//! The mathematical model of a cursor: one buffer of bytes, the offset at
//! which the cursor's window starts, and the write and read positions inside
//! that window.
use vstd::prelude::*;
use vstd::utf8::*;

verus! {

/// The byte written over the gap when the cursor is synchronised (a space).
pub const FILLER: u8 = 0x20;

/// `n` filler bytes.
pub open spec fn filler(n: nat) -> Seq<u8> {
    Seq::new(n, |_i: int| FILLER)
}

/// `buffer` with the bytes `[lo, hi)` replaced by filler bytes.
pub open spec fn fill_gap(buffer: Seq<u8>, lo: int, hi: int) -> Seq<u8> {
    buffer.subrange(0, lo) + filler((hi - lo) as nat) + buffer.subrange(hi, buffer.len() as int)
}

/// `buffer` with `bytes` written over it from index `at` on.
pub open spec fn overwrite(buffer: Seq<u8>, at: int, bytes: Seq<u8>) -> Seq<u8> {
    buffer.subrange(0, at) + bytes + buffer.subrange(at + bytes.len(), buffer.len() as int)
}

/// The state of a cursor.
///
/// The window is `buffer[offset..]`. Inside it, `[0, write)` is the start
/// segment (text written so far), `[write, read)` is the gap, and `[read, ..)`
/// is the remainder (text not yet read). Bytes before the window were handed
/// out by earlier extractions and stay fixed.
pub struct CursorState {
    pub buffer: Seq<u8>,
    pub offset: nat,
    pub write: nat,
    pub read: nat,
}

impl CursorState {
    /// Absolute index of the write position.
    pub open spec fn write_at(self) -> int {
        (self.offset + self.write) as int
    }

    /// Absolute index of the read position.
    pub open spec fn read_at(self) -> int {
        (self.offset + self.read) as int
    }

    /// Bytes before the window.
    pub open spec fn fixed_bytes(self) -> Seq<u8> {
        self.buffer.subrange(0, self.offset as int)
    }

    /// Bytes of the start segment.
    pub open spec fn start_bytes(self) -> Seq<u8> {
        self.buffer.subrange(self.offset as int, self.write_at())
    }

    /// Bytes of the remainder.
    pub open spec fn remainder_bytes(self) -> Seq<u8> {
        self.buffer.subrange(self.read_at(), self.buffer.len() as int)
    }

    /// The text written since the last extraction.
    pub open spec fn start_text(self) -> Seq<char> {
        decode_utf8(self.start_bytes())
    }

    /// The text not yet read.
    pub open spec fn remainder_text(self) -> Seq<char> {
        decode_utf8(self.remainder_bytes())
    }

    /// Number of bytes in the gap: the most that can be written now.
    pub open spec fn gap_len(self) -> nat {
        (self.read - self.write) as nat
    }

    /// The invariant of every cursor: the positions are in order and inside
    /// the buffer, and everything outside the gap is valid UTF-8.
    pub open spec fn wf(self) -> bool {
        &&& self.write <= self.read
        &&& self.read_at() <= self.buffer.len()
        &&& valid_utf8(self.fixed_bytes())
        &&& valid_utf8(self.start_bytes())
        &&& valid_utf8(self.remainder_bytes())
    }

    /// Whether `c` can be written now without running into the remainder.
    pub open spec fn fits(self, c: char) -> bool {
        encode_scalar(c as u32).len() <= self.gap_len()
    }

    /// The state after the gap is filled and closed.
    pub open spec fn synchronised(self) -> CursorState {
        CursorState {
            buffer: fill_gap(self.buffer, self.write_at(), self.read_at()),
            write: self.read,
            ..self
        }
    }

    /// The state after the first character of the remainder is read.
    pub open spec fn after_read(self) -> CursorState {
        if self.remainder_text().len() == 0 {
            self
        } else {
            CursorState {
                read: self.read + encode_scalar(self.remainder_text()[0] as u32).len(),
                ..self
            }
        }
    }

    /// The state after `c` is written at the write position.
    pub open spec fn after_write(self, c: char) -> CursorState {
        CursorState {
            buffer: overwrite(self.buffer, self.write_at(), encode_scalar(c as u32)),
            write: self.write + encode_scalar(c as u32).len(),
            ..self
        }
    }

    /// The state after the start segment is peeled off without closing the
    /// gap: the window then begins at the old write position.
    pub open spec fn after_start(self) -> CursorState {
        CursorState {
            offset: self.offset + self.write,
            write: 0,
            read: (self.read - self.write) as nat,
            ..self
        }
    }

    /// The state after the gap is closed and everything read so far is cut
    /// off: the window then begins at the old read position.
    pub open spec fn after_take_start(self) -> CursorState {
        CursorState {
            offset: self.offset + self.read,
            write: 0,
            read: 0,
            ..self.synchronised()
        }
    }

    /// The state after each character of `cs` is written in turn.
    pub open spec fn after_writes(self, cs: Seq<char>) -> CursorState
        decreases cs.len(),
    {
        if cs.len() == 0 {
            self
        } else {
            self.after_writes(cs.drop_last()).after_write(cs.last())
        }
    }

    /// The whole buffer once the cursor is finalized.
    pub open spec fn finalized(self) -> Seq<u8> {
        self.synchronised().buffer
    }
}


/// Filler bytes are valid UTF-8 and decode to as many spaces.
pub proof fn lemma_filler_text(n: nat)
    ensures
        valid_utf8(filler(n)),
        decode_utf8(filler(n)) == Seq::new(n, |_i: int| ' '),
    decreases n,
{
    if n > 0 {
        lemma_filler_text((n - 1) as nat);
        let f = filler(n);
        assert(pop_first_scalar(f) =~= filler((n - 1) as nat));
        assert((0x20u8 & 0x7Fu8) == 0x20u8) by (bit_vector);
        char_u32_cast(' ', 0x20u32);
        assert(decode_first_scalar(f) as char == ' ');
        assert(decode_utf8(f) =~= Seq::new(n, |_i: int| ' '));
    }
}

/// Decoding distributes over concatenation of valid UTF-8.
pub proof fn lemma_decode_concat(a: Seq<u8>, b: Seq<u8>)
    requires
        valid_utf8(a),
        valid_utf8(b),
    ensures
        valid_utf8(a + b),
        decode_utf8(a + b) == decode_utf8(a) + decode_utf8(b),
    decreases a.len(),
{
    valid_utf8_concat(a, b);
    if a.len() == 0 {
        assert(a + b =~= b);
        assert(decode_utf8(a) + decode_utf8(b) =~= decode_utf8(b));
    } else {
        let rest = pop_first_scalar(a);
        lemma_decode_concat(rest, b);
        assert(pop_first_scalar(a + b) =~= rest + b);
        assert(decode_utf8(a + b) =~= decode_utf8(a) + decode_utf8(b));
    }
}

/// The encoding of one character is valid UTF-8 and decodes to that character.
pub proof fn lemma_decode_char(c: char)
    ensures
        valid_utf8(encode_scalar(c as u32)),
        decode_utf8(encode_scalar(c as u32)) == seq![c],
{
    reveal_with_fuel(encode_utf8, 2);
    assert(encode_utf8(seq![c]) =~= encode_scalar(c as u32));
    encode_utf8_valid_utf8(seq![c]);
    encode_utf8_decode_utf8(seq![c]);
}

/// The first character of valid UTF-8 is encoded by its first bytes, and the
/// bytes after them are valid UTF-8 that decode to the other characters.
pub proof fn lemma_first_char(bytes: Seq<u8>)
    requires
        valid_utf8(bytes),
        bytes.len() > 0,
    ensures
        decode_utf8(bytes).len() > 0,
        ({
            let c = decode_utf8(bytes)[0];
            let k = encode_scalar(c as u32).len() as int;
            &&& 1 <= k <= bytes.len()
            &&& bytes.subrange(0, k) == encode_scalar(c as u32)
            &&& valid_utf8(bytes.subrange(k, bytes.len() as int))
            &&& decode_utf8(bytes.subrange(k, bytes.len() as int)) == decode_utf8(
                bytes,
            ).drop_first()
        }),
{
    decode_utf8_first_scalar(bytes);
    let d = decode_utf8(bytes);
    assert(d[0] == decode_first_scalar(bytes) as char);
    assert(d.drop_first() =~= decode_utf8(pop_first_scalar(bytes)));
}

/// A buffer that differs from a valid state's buffer only inside the gap
/// gives a valid state with the same segments.
pub proof fn lemma_gap_is_free(m: CursorState, b: Seq<u8>)
    requires
        m.wf(),
        b.len() == m.buffer.len(),
        forall|i: int|
            0 <= i < b.len() && !(m.write_at() <= i < m.read_at()) ==> b[i] == m.buffer[i],
    ensures
        ({
            let n = CursorState { buffer: b, ..m };
            &&& n.wf()
            &&& n.fixed_bytes() == m.fixed_bytes()
            &&& n.start_bytes() == m.start_bytes()
            &&& n.remainder_bytes() == m.remainder_bytes()
        }),
{
    let n = CursorState { buffer: b, ..m };
    assert(n.fixed_bytes() =~= m.fixed_bytes());
    assert(n.start_bytes() =~= m.start_bytes());
    assert(n.remainder_bytes() =~= m.remainder_bytes());
}


/// Reading keeps the invariant and the start segment; when the remainder is
/// not empty its first character comes off it and the read position moves
/// past that character's bytes.
pub proof fn lemma_read(m: CursorState)
    requires
        m.wf(),
    ensures
        m.after_read().wf(),
        m.after_read().start_text() == m.start_text(),
        m.remainder_text().len() == 0 <==> m.remainder_bytes().len() == 0,
        m.remainder_text().len() > 0 ==> {
            &&& m.after_read().remainder_text() == m.remainder_text().drop_first()
            &&& m.remainder_bytes().subrange(0, encode_scalar(m.remainder_text()[0] as u32).len() as int)
                == encode_scalar(m.remainder_text()[0] as u32)
        },
{
    let r = m.remainder_bytes();
    if r.len() > 0 {
        lemma_first_char(r);
        let n = m.after_read();
        let k = encode_scalar(m.remainder_text()[0] as u32).len() as int;
        assert(n.remainder_bytes() =~= r.subrange(k, r.len() as int));
        assert(n.start_bytes() =~= m.start_bytes());
        assert(n.fixed_bytes() =~= m.fixed_bytes());
    } else {
        assert(m.remainder_text() =~= Seq::<char>::empty());
    }
}

/// Writing a character that fits keeps the invariant, appends the character
/// to the start segment and leaves the remainder alone; the buffer with the
/// bytes written but the write position not yet moved is valid too.
pub proof fn lemma_write(m: CursorState, c: char)
    requires
        m.wf(),
        m.fits(c),
    ensures
        (CursorState { buffer: overwrite(m.buffer, m.write_at(), encode_scalar(c as u32)), ..m }).wf(),
        m.after_write(c).wf(),
        m.after_write(c).start_text() == m.start_text().push(c),
        m.after_write(c).remainder_text() == m.remainder_text(),
        m.after_write(c).fixed_bytes() == m.fixed_bytes(),
{
    let e = encode_scalar(c as u32);
    let b = overwrite(m.buffer, m.write_at(), e);
    assert(b.len() == m.buffer.len());
    assert forall|i: int|
        0 <= i < b.len() && !(m.write_at() <= i < m.read_at()) implies b[i] == m.buffer[i] by {}
    lemma_gap_is_free(m, b);
    let n = m.after_write(c);
    lemma_decode_char(c);
    assert(n.start_bytes() =~= m.start_bytes() + e);
    lemma_decode_concat(m.start_bytes(), e);
    assert(n.start_text() =~= m.start_text().push(c));
    assert(n.remainder_bytes() =~= m.remainder_bytes());
    assert(n.fixed_bytes() =~= m.fixed_bytes());
}

/// Filling the gap while the write position stays put keeps the invariant.
pub proof fn lemma_fill(m: CursorState)
    requires
        m.wf(),
    ensures
        (CursorState { buffer: fill_gap(m.buffer, m.write_at(), m.read_at()), ..m }).wf(),
{
    let b = fill_gap(m.buffer, m.write_at(), m.read_at());
    assert(b.len() == m.buffer.len());
    assert forall|j: int|
        0 <= j < b.len() && !(m.write_at() <= j < m.read_at()) implies b[j] == m.buffer[j] by {}
    lemma_gap_is_free(m, b);
}

/// Synchronising keeps the invariant, closes the gap and appends one space
/// to the start segment for each byte the gap held.
pub proof fn lemma_synchronise(m: CursorState)
    requires
        m.wf(),
    ensures
        m.synchronised().wf(),
        m.synchronised().gap_len() == 0,
        m.synchronised().start_text() == m.start_text() + Seq::new(m.gap_len(), |_i: int| ' '),
        m.synchronised().remainder_text() == m.remainder_text(),
        m.synchronised().fixed_bytes() == m.fixed_bytes(),
        m.synchronised().buffer.len() == m.buffer.len(),
        m.synchronised().buffer.subrange(m.offset as int, m.write_at()) == m.start_bytes(),
{
    let n = m.synchronised();
    lemma_filler_text(m.gap_len());
    assert(n.start_bytes() =~= m.start_bytes() + filler(m.gap_len()));
    lemma_decode_concat(m.start_bytes(), filler(m.gap_len()));
    assert(n.remainder_bytes() =~= m.remainder_bytes());
    assert(n.fixed_bytes() =~= m.fixed_bytes());
    assert(n.buffer.subrange(m.offset as int, m.write_at()) =~= m.start_bytes());
}

/// Peeling off the start segment keeps the invariant: the window then starts
/// at the old write position, the start segment is empty and the gap and the
/// remainder are kept.
pub proof fn lemma_start(m: CursorState)
    requires
        m.wf(),
    ensures
        m.after_start().wf(),
        m.after_start().start_text() == Seq::<char>::empty(),
        m.after_start().remainder_text() == m.remainder_text(),
        m.after_start().gap_len() == m.gap_len(),
        m.after_start().fixed_bytes() == m.fixed_bytes() + m.start_bytes(),
{
    let n = m.after_start();
    assert(n.fixed_bytes() =~= m.fixed_bytes() + m.start_bytes());
    valid_utf8_concat(m.fixed_bytes(), m.start_bytes());
    assert(n.start_bytes() =~= Seq::<u8>::empty());
    assert(n.start_text() =~= Seq::<char>::empty());
    assert(n.remainder_bytes() =~= m.remainder_bytes());
}

/// Taking the start segment keeps the invariant: the gap is filled, the
/// window then starts at the old read position, and both positions are at
/// its start.
pub proof fn lemma_take_start(m: CursorState)
    requires
        m.wf(),
    ensures
        m.after_take_start().wf(),
        m.after_take_start().start_text() == Seq::<char>::empty(),
        m.after_take_start().remainder_text() == m.remainder_text(),
        m.after_take_start().write == 0,
        m.after_take_start().read == 0,
        m.after_take_start().buffer == m.synchronised().buffer,
        m.synchronised().buffer.subrange(m.offset as int, m.write_at()) == m.start_bytes(),
{
    lemma_synchronise(m);
    lemma_start(m.synchronised());
    assert(m.after_take_start() == m.synchronised().after_start());
}


} // verus!
