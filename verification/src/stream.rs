//! Byte sources and sinks: the streaming endpoints the formatter reads from
//! and writes to, together with in-memory implementations used for testing
//! the pipeline end to end.

use vstd::prelude::*;

verus! {

/// Error surfaced by a byte source or sink; carries a human-readable message.
#[derive(Debug)]
pub struct IoError {
    pub message: String,
}

/// A sequential source of bytes. `remaining` is the mathematical model: the
/// bytes the source has not yet handed out, in order.
pub trait ByteSource {
    /// Implementations with a verified model override this; the default
    /// (an already-exhausted source) suits unverified endpoints.
    open spec fn remaining(&self) -> Seq<u8> {
        Seq::empty()
    }

    /// Read up to `len` bytes into `buf[pos..pos + len]`; returns how many
    /// bytes were written there. Zero means the source is exhausted (or
    /// `len` was zero). On failure nothing is consumed and `buf` is intact.
    fn read_into(&mut self, buf: &mut Vec<u8>, pos: usize, len: usize) -> (r: Result<
        usize,
        IoError,
    >)
        requires
            pos + len <= old(buf)@.len(),
        ensures
            final(buf)@.len() == old(buf)@.len(),
            match r {
                Ok(n) => {
                    &&& n <= len
                    &&& n <= old(self).remaining().len()
                    &&& (n == 0) <==> (len == 0 || old(self).remaining().len() == 0)
                    &&& final(buf)@ == old(buf)@.subrange(0, pos as int) + old(
                        self,
                    ).remaining().take(n as int) + old(buf)@.skip(pos + n)
                    &&& final(self).remaining() == old(self).remaining().skip(n as int)
                },
                Err(_) => final(buf)@ == old(buf)@ && final(self).remaining() == old(
                    self,
                ).remaining(),
            },
    ;
}

/// A sequential sink of bytes. `content` is the mathematical model: every
/// byte accepted so far, in order.
pub trait ByteSink {
    /// Implementations with a verified model override this; the default
    /// suits unverified endpoints, which promise nothing of their content.
    open spec fn content(&self) -> Seq<u8> {
        Seq::empty()
    }

    /// Append `data` to the sink. A failing write may have delivered any
    /// prefix of `data` before the error (as a partial `write_all` does).
    fn write_bytes(&mut self, data: &[u8]) -> (r: Result<(), IoError>)
        ensures
            r is Ok ==> final(self).content() == old(self).content() + data@,
            r is Err ==> exists|k: int|
                0 <= k <= data@.len() && final(self).content() == old(self).content()
                    + #[trigger] data@.take(k),
    ;
}

/// An in-memory byte source. It hands out at most `chunk` bytes per call, so
/// a test can deliver one input either as a single block or split into
/// arbitrarily small pieces and exercise every buffer-straddling path.
pub struct VecSource {
    data: Vec<u8>,
    at: usize,
    chunk: usize,
}

impl VecSource {
    /// A source over `data` that delivers at most `chunk` bytes per read
    /// (a chunk of zero is treated as one).
    pub fn new(data: Vec<u8>, chunk: usize) -> (s: VecSource)
        ensures
            s.remaining() == data@,
    {
        let s = VecSource { data, at: 0, chunk };
        proof {
            assert(s.remaining() =~= s.data@);
        }
        s
    }
}

impl ByteSource for VecSource {
    closed spec fn remaining(&self) -> Seq<u8> {
        if self.at <= self.data@.len() {
            self.data@.skip(self.at as int)
        } else {
            Seq::empty()
        }
    }

    fn read_into(&mut self, buf: &mut Vec<u8>, pos: usize, len: usize) -> (r: Result<
        usize,
        IoError,
    >) {
        let avail: usize = if self.at <= self.data.len() {
            self.data.len() - self.at
        } else {
            0
        };
        let per_call: usize = if self.chunk == 0 {
            1
        } else {
            self.chunk
        };
        let mut n: usize = len;
        if avail < n {
            n = avail;
        }
        if per_call < n {
            n = per_call;
        }
        let buf_len: usize = buf.len();
        let ghost pre_buf = buf@;
        let ghost pre_rem = self.remaining();
        proof {
            if self.at <= self.data@.len() {
                assert(pre_rem.len() == avail);
            } else {
                assert(pre_rem.len() == 0 && avail == 0);
            }
        }
        let mut i: usize = 0;
        while i < n
            invariant
                i <= n,
                n <= len,
                n <= avail,
                n != 0 ==> self.at + n <= self.data@.len(),
                n != 0 ==> pre_rem == self.data@.skip(self.at as int),
                self.data@.len() <= usize::MAX,
                pos + n <= buf@.len(),
                buf@.len() == buf_len,
                buf@.len() == pre_buf.len(),
                forall|k: int| 0 <= k < pos ==> buf@[k] == pre_buf[k],
                forall|k: int| 0 <= k < i ==> buf@[pos + k] == pre_rem[k],
                forall|k: int| pos + i <= k < buf@.len() ==> buf@[k] == pre_buf[k],
            decreases n - i,
        {
            let b = self.data[self.at + i];
            buf[pos + i] = b;
            i = i + 1;
        }
        self.at = self.at + n;
        proof {
            assert(self.remaining() =~= pre_rem.skip(n as int));
            assert(buf@ =~= pre_buf.subrange(0, pos as int) + pre_rem.take(n as int)
                + pre_buf.skip(pos + n));
        }
        Ok(n)
    }
}

/// An in-memory byte sink backed by a growable vector.
pub struct VecSink {
    data: Vec<u8>,
}

impl VecSink {
    pub fn new() -> (s: VecSink)
        ensures
            s.content() == Seq::<u8>::empty(),
    {
        let s = VecSink { data: Vec::new() };
        proof {
            assert(s.content() =~= Seq::<u8>::empty());
        }
        s
    }

    /// The bytes written so far.
    pub fn bytes(&self) -> (v: &Vec<u8>)
        ensures
            v@ == self.content(),
    {
        &self.data
    }

    pub fn into_inner(self) -> (v: Vec<u8>)
        ensures
            v@ == self.content(),
    {
        self.data
    }
}

impl ByteSink for VecSink {
    closed spec fn content(&self) -> Seq<u8> {
        self.data@
    }

    fn write_bytes(&mut self, data: &[u8]) -> (r: Result<(), IoError>) {
        self.data.extend_from_slice(data);
        Ok(())
    }
}

/// Shared bounds-checked byte access for slices.
pub(crate) fn byte_ref(s: &[u8], i: usize) -> (b: &u8)
    requires
        i < s@.len(),
    ensures
        *b == s@[i as int],
{
    &s[i]
}

} // verus!
