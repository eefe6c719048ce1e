//! The byte-source boundary. A [`ByteSource`] is anything that can fill a
//! region of a buffer with fresh bytes: reading 0 bytes means the source is
//! permanently exhausted, and a read failure is fatal and handed through to
//! the caller unchanged.

use vstd::prelude::*;

verus! {

/// A source of bytes, consumed front to back. The ghost sequence
/// `remaining()` holds the bytes the source will still yield, in order; every
/// successful read hands out a prefix of it.
pub trait ByteSource: Sized {
    /// The error a failing read reports; handed through unchanged.
    type Err;

    /// The bytes this source will still yield, in order.
    spec fn remaining(&self) -> Seq<u8>;

    /// Writes some prefix of the remaining bytes into `buf` at `start` and
    /// returns how many, 0 exactly when the source is exhausted. Bytes below
    /// `start` are left as they were.
    fn read_into(&mut self, buf: &mut Vec<u8>, start: usize) -> (r: Result<usize, Self::Err>)
        requires
            start < old(buf).len(),
        ensures
            final(buf).len() == old(buf).len(),
            forall|i: int| 0 <= i < start ==> #[trigger] final(buf)@[i] == old(buf)@[i],
            match r {
                Ok(n) => {
                    &&& start + n <= final(buf).len()
                    &&& n <= old(self).remaining().len()
                    &&& forall|i: int|
                        0 <= i < n ==> #[trigger] final(buf)@[start + i] == old(
                            self,
                        ).remaining()[i]
                    &&& final(self).remaining() == old(self).remaining().skip(n as int)
                    &&& (n == 0 ==> old(self).remaining().len() == 0)
                },
                Err(_) => final(self).remaining() == old(self).remaining(),
            },
            old(self).remaining().len() == 0 ==> r == Ok::<usize, Self::Err>(0),
    ;
}

/// An in-memory byte source: yields the bytes of a vector from front to back.
/// It never fails.
pub struct VecSource {
    data: Vec<u8>,
    cursor: usize,
}

impl VecSource {
    pub fn new(data: Vec<u8>) -> (r: Self)
        ensures
            r.remaining() == data@,
    {
        let r = VecSource { data, cursor: 0 };
        proof {
            assert(r.remaining() =~= r.data@);
        }
        r
    }
}

impl ByteSource for VecSource {
    type Err = ();

    closed spec fn remaining(&self) -> Seq<u8> {
        if self.cursor <= self.data@.len() {
            self.data@.skip(self.cursor as int)
        } else {
            Seq::empty()
        }
    }

    #[verifier::loop_isolation(false)]
    fn read_into(&mut self, buf: &mut Vec<u8>, start: usize) -> (r: Result<usize, ()>) {
        if self.cursor >= self.data.len() {
            return Ok(0);
        }
        let avail = self.data.len() - self.cursor;
        let space = buf.len() - start;
        let n = if avail < space {
            avail
        } else {
            space
        };
        let mut i: usize = 0;
        while i < n
            invariant
                i <= n,
                buf@.len() == old(buf)@.len(),
                forall|j: int| 0 <= j < start ==> #[trigger] buf@[j] == old(buf)@[j],
                forall|j: int|
                    0 <= j < i ==> #[trigger] buf@[start + j] == self.data@[self.cursor + j],
            decreases n - i,
        {
            let b = self.data[self.cursor + i];
            buf[start + i] = b;
            i += 1;
        }
        let ghost before = self.remaining();
        self.cursor = self.cursor + n;
        proof {
            assert(self.remaining() =~= before.skip(n as int));
            assert(forall|j: int| 0 <= j < n ==> #[trigger] buf@[start + j] == before[j]);
        }
        Ok(n)
    }
}

} // verus!
