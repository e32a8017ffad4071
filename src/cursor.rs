//! A positioned reader over an owned byte buffer.
use vstd::prelude::*;

verus! {

/// Owns a byte buffer and a read position into it.
pub struct VecReader {
    vector: Vec<u8>,
    pos: usize,
}

impl VecReader {
    /// The whole buffer.
    pub closed spec fn data(&self) -> Seq<u8> {
        self.vector@
    }

    /// The read position.
    pub closed spec fn position(&self) -> nat {
        self.pos as nat
    }

    /// The bytes from the read position to the end.
    pub open spec fn remaining(&self) -> Seq<u8> {
        if self.position() <= self.data().len() {
            self.data().subrange(self.position() as int, self.data().len() as int)
        } else {
            Seq::empty()
        }
    }

    /// The position never lies past the end of the buffer.
    pub closed spec fn wf(&self) -> bool {
        self.pos <= self.vector.len()
    }

    pub fn new(vec: Vec<u8>) -> (r: VecReader)
        ensures
            r.wf(),
            r.data() == vec@,
            r.position() == 0,
    {
        VecReader { vector: vec, pos: 0 }
    }

    /// Fills `buf` with the next `buf.len()` bytes and advances past them, or,
    /// where fewer remain, fails and leaves the reader as it was.
    pub fn read_exact(&mut self, buf: &mut [u8]) -> (r: Result<(), ()>)
        requires
            old(self).wf(),
        ensures
            final(self).wf(),
            final(self).data() == old(self).data(),
            r is Ok <==> old(buf)@.len() <= old(self).remaining().len(),
            r is Ok ==> final(buf)@ == old(self).remaining().take(old(buf)@.len() as int)
                && final(self).position() == old(self).position() + old(buf)@.len(),
            r is Err ==> final(buf)@ == old(buf)@ && final(self).position() == old(self).position(),
    {
        let n = buf.len();
        if n <= self.vector.len() - self.pos {
            let start = self.pos;
            let mut i: usize = 0;
            while i < n
                invariant
                    self.wf(),
                    start == old(self).position(),
                    self.data() == old(self).data(),
                    self.pos == start,
                    n == buf@.len(),
                    n <= self.vector.len() - start,
                    i <= n,
                    buf@.len() == old(buf)@.len(),
                    forall|j: int| 0 <= j < i ==> buf@[j] == self.vector@[start + j],
                decreases n - i,
            {
                buf[i] = self.vector[start + i];
                i = i + 1;
            }
            self.pos = start + n;
            assert(buf@ =~= old(self).remaining().take(n as int));
            Ok(())
        } else {
            Err(())
        }
    }

    /// Advances the position by `amount`, stopping at the end of the buffer.
    pub fn consume(&mut self, amount: usize)
        requires
            old(self).wf(),
        ensures
            final(self).wf(),
            final(self).data() == old(self).data(),
            final(self).position() == if old(self).position() + amount <= old(self).data().len() {
                (old(self).position() + amount) as nat
            } else {
                old(self).data().len()
            },
    {
        if amount <= self.vector.len() - self.pos {
            self.pos = self.pos + amount;
        } else {
            self.pos = self.vector.len();
        }
    }

    /// Moves the position back by `amount`, stopping at the start.
    pub fn seek_back(&mut self, amount: usize)
        requires
            old(self).wf(),
        ensures
            final(self).wf(),
            final(self).data() == old(self).data(),
            final(self).position() == if amount > old(self).position() {
                0
            } else {
                (old(self).position() - amount) as nat
            },
    {
        if amount > self.pos {
            self.pos = 0;
        } else {
            self.pos = self.pos - amount;
        }
    }

    /// The bytes from the position to the end.
    pub fn rest(&self) -> (r: &[u8])
        requires
            self.wf(),
        ensures
            r@ == self.remaining(),
    {
        vstd::slice::slice_subrange(self.vector.as_slice(), self.pos, self.vector.len())
    }

    /// The whole buffer.
    pub fn buffer(&self) -> (r: &[u8])
        ensures
            r@ == self.data(),
    {
        self.vector.as_slice()
    }

    /// Gives the buffer back.
    pub fn inner_vec(self) -> (r: Vec<u8>)
        ensures
            r@ == self.data(),
    {
        self.vector
    }

    /// The buffer by reference.
    pub fn inner_vec_ref(&self) -> (r: &Vec<u8>)
        ensures
            r@ == self.data(),
    {
        &self.vector
    }

    /// True once every byte has been read.
    pub fn eof(&self) -> (r: bool)
        ensures
            r == (self.position() >= self.data().len()),
    {
        self.pos >= self.vector.len()
    }
}

} // verus!
