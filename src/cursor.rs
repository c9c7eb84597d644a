//! The cursor itself.
use vstd::prelude::*;
use vstd::string::*;
use vstd::utf8::*;
use vstd::slice::*;

use crate::laws::{lemma_finalized, lemma_skip};
use crate::model::{
    lemma_fill, lemma_read, lemma_start, lemma_synchronise, lemma_take_start, lemma_write,
    CursorState,
};
use crate::text::{bytes_of, encode_into, encoded_len, fill_with_filler, string_of, text_of};

verus! {

broadcast use group_utf8_lib;

/// A partially rewritten text buffer.
///
/// The buffer holds three consecutive segments: the characters written so far
/// (valid UTF-8), a gap of arbitrary bytes, and the characters not yet read
/// (valid UTF-8). Finalizing the cursor fills the gap, so the buffer as a
/// whole is valid UTF-8 again.
pub struct Replacinator {
    contents: Vec<u8>,
    /// Index in `contents` where the current window starts.
    window_start: usize,
    /// Index in `contents` where the start segment ends.
    write_position: usize,
    /// Index in `contents` where the remainder begins.
    read_position: usize,
}

impl View for Replacinator {
    type V = CursorState;

    closed spec fn view(&self) -> CursorState {
        CursorState {
            buffer: self.contents@,
            offset: self.window_start as nat,
            write: (self.write_position - self.window_start) as nat,
            read: (self.read_position - self.window_start) as nat,
        }
    }
}

impl Replacinator {
    #[verifier::type_invariant]
    closed spec fn well_formed(self) -> bool {
        &&& self.window_start <= self.write_position <= self.read_position <= self.contents@.len()
        &&& self@.wf()
    }

    /// Checks the invariant: on every cursor, before and after every
    /// operation, the positions are in order and inside the buffer, and the
    /// bytes outside the gap are valid UTF-8.
    pub fn check_invariants(&self)
        ensures
            self@.wf(),
    {
        proof {
            use_type_invariant(self);
        }
    }

    /// Creates a cursor over the bytes of `from`, with the window and both
    /// positions at the start.
    pub fn construct(from: String) -> (r: Self)
        ensures
            r@ == (CursorState { buffer: encode_utf8(from@), offset: 0, write: 0, read: 0 }),
    {
        let contents = bytes_of(from);
        proof {
            assert(contents@.subrange(0, 0) =~= Seq::<u8>::empty());
            assert(contents@.subrange(0, contents@.len() as int) =~= contents@);
        }
        Replacinator { contents, window_start: 0, write_position: 0, read_position: 0 }
    }

    /// The write position, counted from the start of the window.
    pub fn write_position(&self) -> (r: usize)
        ensures
            r == self@.write,
    {
        proof {
            use_type_invariant(self);
        }
        self.write_position - self.window_start
    }

    /// The read position, counted from the start of the window.
    pub fn read_position(&self) -> (r: usize)
        ensures
            r == self@.read,
    {
        proof {
            use_type_invariant(self);
        }
        self.read_position - self.window_start
    }

    /// Number of bytes between the write and the read position: the most that
    /// can be written now.
    pub fn gap_len(&self) -> (r: usize)
        ensures
            r == self@.gap_len(),
    {
        proof {
            use_type_invariant(self);
        }
        self.read_position - self.write_position
    }

    /// Whether `c` can be written now.
    pub fn fits(&self, c: char) -> (r: bool)
        ensures
            r == self@.fits(c),
    {
        proof {
            use_type_invariant(self);
        }
        encoded_len(c) <= self.read_position - self.write_position
    }

    /// The text not yet read.
    pub fn remainder(&self) -> (r: &str)
        ensures
            r@ == self@.remainder_text(),
    {
        proof {
            use_type_invariant(self);
        }
        let bytes = slice_subrange(self.contents.as_slice(), self.read_position, self.contents.len());
        match text_of(bytes) {
            Some(t) => t,
            None => "",
        }
    }

    /// The next character of the remainder, without reading it.
    pub fn peek(&self) -> (r: Option<char>)
        ensures
            r == (if self@.remainder_text().len() == 0 {
                None
            } else {
                Some(self@.remainder_text()[0])
            }),
    {
        let mut chars = self.remainder().chars();
        chars.next()
    }

    /// Reads the next character of the remainder; at the end of the text,
    /// returns `None` and changes nothing.
    pub fn read_char(&mut self) -> (r: Option<char>)
        ensures
            final(self)@ == old(self)@.after_read(),
            r == (if old(self)@.remainder_text().len() == 0 {
                None
            } else {
                Some(old(self)@.remainder_text()[0])
            }),
    {
        proof {
            use_type_invariant(&*self);
            lemma_read(self@);
        }
        let value = self.peek();
        if let Some(c) = value {
            let n = encoded_len(c);
            proof {
                assert(self.read_position + n == old(self)@.after_read().read_at());
                assert(self.contents@.len() == self.contents.len());
            }
            self.read_position = self.read_position + n;
        }
        value
    }

    /// Writes `c` at the write position, into the gap.
    pub fn write_char(&mut self, c: char)
        requires
            old(self)@.fits(c),
        ensures
            final(self)@ == old(self)@.after_write(c),
    {
        proof {
            use_type_invariant(&*self);
            lemma_write(self@, c);
        }
        encode_into(&mut self.contents, self.write_position, c);
        self.write_position = self.write_position + encoded_len(c);
    }

    /// Reads the next character and writes it back unchanged.
    pub fn skip_char(&mut self) -> (r: Option<char>)
        ensures
            r == (if old(self)@.remainder_text().len() == 0 {
                None
            } else {
                Some(old(self)@.remainder_text()[0])
            }),
            final(self)@ == (match r {
                Some(c) => old(self)@.after_read().after_write(c),
                None => old(self)@,
            }),
    {
        proof {
            use_type_invariant(&*self);
            lemma_skip(self@);
        }
        let value = self.read_char();
        if let Some(c) = value {
            self.write_char(c);
        }
        value
    }

    /// Fills the gap with spaces and moves the write position up to the read
    /// position.
    pub fn synchronise(&mut self)
        ensures
            final(self)@ == old(self)@.synchronised(),
    {
        proof {
            use_type_invariant(&*self);
            lemma_synchronise(self@);
            lemma_fill(self@);
        }
        fill_with_filler(&mut self.contents, self.write_position, self.read_position);
        self.write_position = self.read_position;
    }

    /// Peels off the start segment and returns its text. The gap is kept:
    /// the window then starts at the old write position, so the write
    /// position is at its start and the read position is the gap's length.
    pub fn start(&mut self) -> (r: &str)
        ensures
            r@ == old(self)@.start_text(),
            final(self)@ == old(self)@.after_start(),
    {
        proof {
            use_type_invariant(&*self);
            lemma_start(self@);
        }
        let from = self.window_start;
        let to = self.write_position;
        self.window_start = self.write_position;
        let bytes = slice_subrange(self.contents.as_slice(), from, to);
        match text_of(bytes) {
            Some(t) => t,
            None => "",
        }
    }

    /// Closes the gap, returns the text written since the last extraction as
    /// a value of its own, and cuts off everything read so far: the window
    /// then starts at the old read position, with both positions at its
    /// start.
    pub fn take_start(&mut self) -> (r: String)
        ensures
            r@ == old(self)@.start_text(),
            final(self)@ == old(self)@.after_take_start(),
    {
        proof {
            use_type_invariant(&*self);
            lemma_take_start(self@);
        }
        let from = self.window_start;
        let to = self.write_position;
        self.synchronise();
        proof {
            use_type_invariant(&*self);
        }
        let text = {
            let bytes = slice_subrange(self.contents.as_slice(), from, to);
            match text_of(bytes) {
                Some(t) => t.to_owned(),
                None => String::new(),
            }
        };
        self.window_start = self.read_position;
        text
    }

    /// Finalizes the cursor: closes the gap and returns the whole buffer,
    /// which is valid text again.
    pub fn finish(self) -> (r: String)
        ensures
            encode_utf8(r@) == self@.finalized(),
    {
        proof {
            use_type_invariant(&self);
            lemma_finalized(self@);
        }
        let mut me = self;
        me.synchronise();
        proof {
            assert(me@.buffer == self@.finalized());
        }
        let Replacinator { contents, .. } = me;
        match string_of(contents) {
            Some(t) => t,
            None => String::new(),
        }
    }

    /// Runs `with` on a cursor over `value` and finalizes the cursor
    /// afterwards, so that `value` holds the rewritten text when this
    /// returns: the finalized buffer of the cursor that `with` left.
    pub fn new_in<R, F: FnMut(&mut Replacinator) -> R>(value: &mut String, with: F) -> (r: R)
        requires
            forall|c: &mut Replacinator| #[trigger] with.requires((c,)),
        ensures
            exists|c: &mut Replacinator|
                #[trigger] with.ensures((c,), r) && (*c)@ == (CursorState {
                    buffer: encode_utf8(old(value)@),
                    offset: 0,
                    write: 0,
                    read: 0,
                }) && encode_utf8(final(value)@) == (*final(c))@.finalized(),
    {
        let mut with = with;
        let mut taken = String::new();
        core::mem::swap(value, &mut taken);
        let mut it = Replacinator::construct(taken);
        let r = with(&mut it);
        *value = it.finish();
        r
    }
}

} // verus!
