//! A growable append-and-consume byte buffer.
//!
//! The buffer tracks two cursors over its backing vector: `read`, the
//! committed watermark (bytes an outside writer has appended), and
//! `prev_read`, the observed watermark (the committed length as of the last
//! time a reader looked).  At all times
//! `0 <= prev_read <= read <= data.len() <= cap`.

use vstd::prelude::*;

verus! {

/// Failure to append: the buffer's configured capacity would be exceeded.
#[derive(Debug, PartialEq, Eq, Structural, Clone, Copy)]
pub enum BufferError {
    BufferFull,
}

/// An append-only byte vector with a committed cursor (`read`) and an
/// observed cursor (`prev_read`), bounded by a hard capacity `cap`.
pub struct Buffer {
    pub data: Vec<u8>,
    pub read: usize,
    pub prev_read: usize,
    pub cap: usize,
}

impl Buffer {
    /// The buffer invariant: observed <= committed <= length <= capacity.
    pub open spec fn wf(&self) -> bool {
        self.prev_read <= self.read <= self.data@.len() <= self.cap
    }

    /// The committed prefix of the buffer, as a sequence.
    pub open spec fn committed(&self) -> Seq<u8> {
        self.data@.take(self.read as int)
    }

    pub fn with_capacity(cap: usize) -> (r: Buffer)
        ensures
            r.wf(),
            r.cap == cap,
            r.data@ =~= Seq::<u8>::empty(),
            r.read == 0,
            r.prev_read == 0,
    {
        Buffer { data: Vec::new(), read: 0, prev_read: 0, cap }
    }

    /// Whether bytes have been committed since the reader last observed.
    pub fn has_read(&self) -> (r: bool)
        ensures
            r == (self.prev_read < self.read),
    {
        self.prev_read < self.read
    }

    /// The committed prefix: every byte an outside writer has appended.
    pub fn the_story_so_far(&self) -> (r: &[u8])
        requires
            self.wf(),
        ensures
            r@ == self.committed(),
    {
        vstd::slice::slice_subrange(self.data.as_slice(), 0, self.read)
    }

    /// Append `chunk` after the committed prefix and commit it, observing
    /// the previous watermark first.  Fails, changing nothing, exactly when
    /// the capacity would be exceeded.
    pub fn append(&mut self, chunk: &[u8]) -> (r: Result<(), BufferError>)
        requires
            old(self).wf(),
        ensures
            final(self).wf(),
            final(self).cap == old(self).cap,
            r is Ok <==> old(self).data@.len() + chunk@.len() <= old(self).cap,
            r is Ok ==> {
                &&& final(self).data@ == old(self).data@ + chunk@
                &&& final(self).read == final(self).data@.len()
                &&& final(self).prev_read == old(self).read
            },
            r is Err ==> *final(self) == *old(self),
    {
        if chunk.len() > self.cap - self.data.len() {
            return Err(BufferError::BufferFull);
        }
        self.prev_read = self.read;
        let mut i: usize = 0;
        while i < chunk.len()
            invariant
                i <= chunk@.len(),
                old(self).data@.len() + chunk@.len() <= self.cap,
                self.data@ == old(self).data@ + chunk@.take(i as int),
                self.cap == old(self).cap,
                self.read == old(self).read,
                self.prev_read == old(self).read,
            decreases chunk@.len() - i,
        {
            self.data.push(chunk[i]);
            i = i + 1;
            proof {
                assert(chunk@.take(i as int) =~= chunk@.take(i - 1) + seq![chunk@[i - 1]]);
            }
        }
        proof {
            assert(chunk@.take(chunk@.len() as int) =~= chunk@);
        }
        self.read = self.data.len();
        Ok(())
    }

    /// Drop the first `n` committed bytes, shifting the kept tail to the
    /// front and moving both cursors back relative to it.  Consuming the
    /// whole committed prefix of a fully-committed buffer leaves it empty
    /// with both cursors zero.
    pub fn consume(&mut self, n: usize)
        requires
            old(self).wf(),
            n <= old(self).read,
        ensures
            final(self).wf(),
            final(self).cap == old(self).cap,
            final(self).data@ == old(self).data@.skip(n as int),
            final(self).read == old(self).read - n,
            final(self).prev_read == if n <= old(self).prev_read {
                (old(self).prev_read - n) as int
            } else {
                0int
            },
    {
        let len = self.data.len();
        let mut i: usize = 0;
        while i < len - n
            invariant
                old(self).wf(),
                n <= len,
                len == self.data@.len(),
                i <= len - n,
                self.cap == old(self).cap,
                self.read == old(self).read,
                self.prev_read == old(self).prev_read,
                forall|j: int| 0 <= j < i ==> self.data@[j] == old(self).data@[j + n],
                forall|j: int| i <= j < len ==> self.data@[j] == old(self).data@[j],
            decreases len - n - i,
        {
            let b = self.data[i + n];
            self.data.set(i, b);
            i = i + 1;
        }
        self.data.truncate(len - n);
        proof {
            assert(self.data@ =~= old(self).data@.skip(n as int));
        }
        self.read = self.read - n;
        self.prev_read = if n <= self.prev_read {
            self.prev_read - n
        } else {
            0
        };
    }
}

} // verus!
