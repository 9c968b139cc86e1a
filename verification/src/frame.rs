//! Frame decoder: cuts an incrementally fed byte stream into discrete
//! newline-terminated frames.
//!
//! The decoder keeps a growable buffer and a cursor; bytes before the cursor
//! are valid, unconsumed input. `feed` (or a direct write into the spare
//! region followed by `update`) appends newly read bytes, and `frame` extracts
//! the first buffered newline-terminated frame, retaining the residual tail
//! for the next attempt. The decomposition of a stream into frames is
//! independent of the chunk boundaries at which it was fed; see
//! [`lemma_frames_append`].

use vstd::prelude::*;

use crate::bytes::{copy_range, find_byte, find_byte_in, lemma_find_byte, lemma_find_byte_append};

verus! {

/// Newline, the frame terminator.
pub const NL: u8 = 10;

/// Spare buffer space guaranteed to be available for the next read after
/// every extraction.
pub const CHUNK: usize = 1024;

/// The decomposition of a byte stream into complete newline-terminated
/// frames, each including its terminator.
pub open spec fn frames_of(s: Seq<u8>) -> Seq<Seq<u8>>
    decreases s.len(),
{
    let p = find_byte(s, NL);
    if p < 0 || p >= s.len() {
        Seq::empty()
    } else {
        seq![s.take(p + 1)] + frames_of(s.skip(p + 1))
    }
}

/// The bytes of a stream left over after all complete frames: the tail after
/// the last newline.
pub open spec fn residue_of(s: Seq<u8>) -> Seq<u8>
    decreases s.len(),
{
    let p = find_byte(s, NL);
    if p < 0 || p >= s.len() {
        s
    } else {
        residue_of(s.skip(p + 1))
    }
}

/// Chunk boundaries do not matter: the frames of `v + w` are the frames of
/// `v` followed by the frames of `v`'s residue extended by `w`, and the
/// residues agree. Iterating this over any split of a stream shows that
/// feeding it chunk by chunk yields the same frames as feeding it whole.
pub proof fn lemma_frames_append(v: Seq<u8>, w: Seq<u8>)
    ensures
        frames_of(v + w) == frames_of(v) + frames_of(residue_of(v) + w),
        residue_of(v + w) == residue_of(residue_of(v) + w),
    decreases v.len(),
{
    lemma_find_byte(v, NL);
    lemma_find_byte(v + w, NL);
    lemma_find_byte_append(v, w, NL);
    let p = find_byte(v, NL);
    if p < 0 {
        assert(residue_of(v) == v);
        assert(v + w == residue_of(v) + w);
        assert(frames_of(v + w) =~= frames_of(v) + frames_of(residue_of(v) + w));
    } else {
        assert((v + w).take(p + 1) =~= v.take(p + 1));
        assert((v + w).skip(p + 1) =~= v.skip(p + 1) + w);
        lemma_frames_append(v.skip(p + 1), w);
        assert(frames_of(v + w) =~= frames_of(v) + frames_of(residue_of(v) + w));
    }
}

/// Incremental decoder state: a buffer of which the first `index` bytes are
/// valid, unconsumed input.
pub struct Frame {
    buf: Vec<u8>,
    index: usize,
}

impl View for Frame {
    type V = Seq<u8>;

    /// The valid, unconsumed bytes.
    closed spec fn view(&self) -> Seq<u8> {
        self.buf@.take(self.index as int)
    }
}

impl Frame {
    /// The cursor never passes the end of the buffer.
    pub closed spec fn wf(&self) -> bool {
        self.index <= self.buf@.len()
    }

    /// Room left in the buffer past the valid region.
    pub closed spec fn spare(&self) -> int {
        self.buf@.len() - self.index
    }

    /// Contents of the spare region, which a read may fill before `update`.
    pub closed spec fn pending(&self) -> Seq<u8> {
        self.buf@.skip(self.index as int)
    }

    /// A fresh decoder with no buffered input and room for one read chunk.
    pub fn new() -> (f: Frame)
        ensures
            f.wf(),
            f@ == Seq::<u8>::empty(),
            f.spare() >= CHUNK,
    {
        let f = Frame { buf: vec![0u8; 1024], index: 0 };
        proof {
            assert(f@ =~= Seq::<u8>::empty());
        }
        f
    }

    /// Number of buffered, unconsumed bytes.
    pub fn buffered_len(&self) -> (n: usize)
        requires
            self.wf(),
        ensures
            n == self@.len(),
    {
        self.index
    }

    /// Records that `bytes_read` more bytes, already placed at the start of
    /// the spare region, are valid input.
    pub fn update(&mut self, bytes_read: usize)
        requires
            old(self).wf(),
            bytes_read <= old(self).spare(),
        ensures
            final(self).wf(),
            final(self)@ == old(self)@ + old(self).pending().take(bytes_read as int),
            final(self).spare() == old(self).spare() - bytes_read,
    {
        let l = self.buf.len();
        assert(self.index + bytes_read <= l);
        self.index = self.index + bytes_read;
        proof {
            assert(self@ =~= old(self)@ + old(self).pending().take(bytes_read as int));
        }
    }

    /// Appends `data` to the buffered input, growing the buffer as needed.
    pub fn feed(&mut self, data: &[u8])
        requires
            old(self).wf(),
            old(self)@.len() + data@.len() <= usize::MAX,
        ensures
            final(self).wf(),
            final(self)@ == old(self)@ + data@,
    {
        let n = data.len();
        while self.buf.len() < self.index + n
            invariant
                self.index + n <= usize::MAX,
                self.index == old(self).index,
                self.index <= self.buf@.len(),
                self.buf@.take(self.index as int) == old(self)@,
            decreases self.index + n - self.buf@.len(),
        {
            self.buf.push(0u8);
            proof {
                assert(self.buf@.take(self.index as int) =~= old(self)@);
            }
        }
        let mut i: usize = 0;
        while i < n
            invariant
                i <= n,
                n == data@.len(),
                self.index + n <= usize::MAX,
                self.index == old(self).index,
                self.index + n <= self.buf@.len(),
                self.buf@.take(self.index as int) == old(self)@,
                forall|m: int| 0 <= m < i ==> self.buf@[self.index + m] == data@[m],
            decreases n - i,
        {
            let b = data[i];
            self.buf[self.index + i] = b;
            proof {
                assert(self.buf@.take(self.index as int) =~= old(self)@);
            }
            i = i + 1;
        }
        self.update(n);
        proof {
            assert(self@ =~= old(self)@ + data@);
        }
    }

    /// Grows the buffer until at least one read chunk of spare room exists,
    /// leaving the valid region untouched.
    fn ensure_spare(&mut self)
        requires
            old(self).wf(),
            old(self)@.len() + CHUNK <= usize::MAX,
        ensures
            final(self).wf(),
            final(self)@ == old(self)@,
            final(self).spare() >= CHUNK,
    {
        while self.buf.len() < self.index + CHUNK
            invariant
                self.index + CHUNK <= usize::MAX,
                self.index == old(self).index,
                self.index <= self.buf@.len(),
                self.buf@.take(self.index as int) == old(self)@,
                self.buf@.len() >= old(self).buf@.len(),
            decreases self.index + CHUNK - self.buf@.len(),
        {
            self.buf.push(0u8);
            proof {
                assert(self.buf@.take(self.index as int) =~= old(self)@);
            }
        }
    }

    /// Extracts the first buffered newline-terminated frame, if any: the
    /// payload up to and including the newline is returned, the tail after it
    /// is retained, and the buffer is left with room for another read chunk.
    pub fn frame(&mut self) -> (r: Option<Vec<u8>>)
        requires
            old(self).wf(),
            old(self)@.len() + CHUNK <= usize::MAX,
        ensures
            final(self).wf(),
            final(self).spare() >= CHUNK,
            match r {
                Some(p) => {
                    let q = find_byte(old(self)@, NL);
                    q >= 0 && p@ == old(self)@.take(q + 1) && final(self)@ == old(self)@.skip(q
                        + 1)
                },
                None => find_byte(old(self)@, NL) < 0 && final(self)@ == old(self)@,
            },
    {
        let ghost orig = self@;
        match find_byte_in(&self.buf, self.index, NL) {
            None => {
                self.ensure_spare();
                None
            },
            Some(pos) => {
                proof {
                    lemma_find_byte(orig, NL);
                }
                let out = copy_range(&self.buf, 0, pos + 1);
                proof {
                    assert(out@ =~= orig.take(pos as int + 1));
                }
                // shift the residual tail to the front of the buffer
                let mut j: usize = pos + 1;
                let mut k: usize = 0;
                while j < self.index
                    invariant
                        j == k + pos + 1,
                        pos + 1 <= j <= self.index,
                        self.index == old(self).index,
                        self.buf@.len() == old(self).buf@.len(),
                        self.index <= self.buf@.len(),
                        orig == old(self)@,
                        orig.len() == self.index,
                        forall|m: int| 0 <= m < k ==> self.buf@[m] == orig[pos + 1 + m],
                        forall|m: int|
                            k <= m < self.buf@.len() ==> self.buf@[m] == old(self).buf@[m],
                    decreases self.index - j,
                {
                    let b = self.buf[j];
                    proof {
                        assert(old(self).buf@[j as int] == orig[j as int]);
                    }
                    self.buf[k] = b;
                    j = j + 1;
                    k = k + 1;
                }
                self.index = self.index - (pos + 1);
                proof {
                    assert(self@ =~= orig.skip(pos as int + 1));
                }
                self.ensure_spare();
                Some(out)
            },
        }
    }
}

} // verus!
