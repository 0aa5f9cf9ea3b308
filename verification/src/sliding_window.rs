//! Bounded-memory lookahead buffer. It owns a fixed store of `2*W - 1` bytes
//! over a byte source and guarantees that, until the source is exhausted, a
//! full window of `W` unconsumed bytes is visible after each `fill`. Bytes
//! handed out are always the next bytes of the underlying stream (the stored
//! bytes followed by whatever the source still holds), independent of how the
//! source chops its deliveries.

use crate::stream::{byte_ref, ByteSource, IoError};
use vstd::prelude::*;
use vstd::slice::slice_subrange;

verus! {

pub open spec fn min_int(a: int, b: int) -> int {
    if a < b {
        a
    } else {
        b
    }
}

/// Whether `b` is a UTF-8 continuation byte (high bits `10`).
pub open spec fn spec_is_continuation(b: u8) -> bool {
    b & 0xC0 == 0x80
}

/// How many bytes the UTF-8 sequence led by `b` has. Bytes that lead no
/// well-formed sequence count as one, so they are never truncated away.
pub open spec fn spec_utf8_need(b: u8) -> int {
    if b < 0x80 {
        1
    } else if b < 0xE0 {
        2
    } else if b < 0xF0 {
        3
    } else if b < 0xF8 {
        4
    } else {
        1
    }
}

/// Length of the text view over `s`: all of `s`, except that a trailing
/// incomplete multi-byte character (whose lead byte sits in the last three
/// positions) is cut off.
pub open spec fn utf8_view_len(s: Seq<u8>) -> int {
    let n = s.len() as int;
    if n >= 1 && !spec_is_continuation(s[n - 1]) {
        if spec_utf8_need(s[n - 1]) > 1 {
            n - 1
        } else {
            n
        }
    } else if n >= 2 && !spec_is_continuation(s[n - 2]) {
        if spec_utf8_need(s[n - 2]) > 2 {
            n - 2
        } else {
            n
        }
    } else if n >= 3 && !spec_is_continuation(s[n - 3]) {
        if spec_utf8_need(s[n - 3]) > 3 {
            n - 3
        } else {
            n
        }
    } else {
        n
    }
}

/// The view is never more than three bytes short of the window, so a filled
/// window of `W` bytes always yields at least `W - 3` bytes of text to scan.
pub proof fn lemma_view_truncates_at_most_three(s: Seq<u8>)
    ensures
        s.len() - 3 <= utf8_view_len(s) <= s.len(),
{
}

pub struct SlidingWindow<R: ByteSource> {
    data: Vec<u8>,
    start: usize,
    end: usize,
    reader: R,
    end_was_hit: bool,
}

impl<R: ByteSource> SlidingWindow<R> {
    /// The fixed allocation: `2 * W - 1` bytes, never changed after `new`.
    pub closed spec fn capacity(&self) -> int {
        self.data@.len() as int
    }

    pub closed spec fn window_size_spec(&self) -> int {
        (self.data@.len() as int + 1) / 2
    }

    /// The unconsumed bytes currently buffered.
    pub closed spec fn stored(&self) -> Seq<u8> {
        self.data@.subrange(self.start as int, self.end as int)
    }

    pub closed spec fn source_remaining(&self) -> Seq<u8> {
        self.reader.remaining()
    }

    /// The whole stream still ahead: buffered bytes, then the source's.
    pub open spec fn stream(&self) -> Seq<u8> {
        self.stored() + self.source_remaining()
    }

    /// Whether a read from the source has returned nothing: once true, the
    /// source is exhausted and the stream is exactly the stored bytes.
    pub closed spec fn hit_end(&self) -> bool {
        self.end_was_hit
    }

    /// The text view: the window, minus a trailing incomplete character.
    pub open spec fn view_seq(&self) -> Seq<u8> {
        self.stored().take(utf8_view_len(self.stored()))
    }

    pub closed spec fn wf(&self) -> bool {
        &&& self.start <= self.end <= self.data@.len()
        &&& self.data@.len() % 2 == 1
        &&& self.data@.len() < usize::MAX
        &&& self.end - self.start <= self.window_size_spec()
        &&& (self.end_was_hit ==> self.reader.remaining().len() == 0)
    }

    /// What well-formedness gives callers: the window size is at least one,
    /// the store holds exactly `2W - 1` bytes, and at most one full window is
    /// ever buffered.
    pub proof fn lemma_wf_bounds(&self)
        requires
            self.wf(),
        ensures
            1 <= self.window_size_spec(),
            self.capacity() == 2 * self.window_size_spec() - 1,
            self.stored().len() <= self.window_size_spec(),
            self.hit_end() ==> self.source_remaining().len() == 0,
    {
    }

    pub fn new(window_size: usize, reader: R) -> (s: Self)
        requires
            1 <= window_size,
            window_size <= usize::MAX / 2,
        ensures
            s.wf(),
            s.window_size_spec() == window_size,
            s.capacity() == 2 * window_size - 1,
            s.stored() == Seq::<u8>::empty(),
            s.stream() == reader.remaining(),
    {
        let result = Self {
            data: vec![0u8; 2 * window_size - 1],
            start: 0,
            end: 0,
            reader,
            end_was_hit: false,
        };
        proof {
            assert(result.stored() =~= Seq::<u8>::empty());
            assert(result.stream() =~= result.reader.remaining());
        }
        result
    }

    fn window_size(&self) -> (w: usize)
        requires
            self.wf(),
        ensures
            w == self.window_size_spec(),
    {
        (self.data.len() + 1) / 2
    }

    pub fn get_window(&self) -> (w: &[u8])
        requires
            self.wf(),
        ensures
            w@ == self.stored(),
    {
        slice_subrange(self.data.as_slice(), self.start, self.end)
    }

    /// The window truncated at the last complete UTF-8 character boundary:
    /// a trailing partial character stays in the buffer but is excluded from
    /// the view handed to pattern matching.
    pub fn get_window_utf8(&self) -> (v: &[u8])
        requires
            self.wf(),
        ensures
            v@ == self.view_seq(),
    {
        let w = self.get_window();
        let n = w.len();
        let cut: usize = if n >= 1 && !is_continuation_byte(*byte_ref(w, n - 1)) {
            if utf8_need(*byte_ref(w, n - 1)) > 1 {
                n - 1
            } else {
                n
            }
        } else if n >= 2 && !is_continuation_byte(*byte_ref(w, n - 2)) {
            if utf8_need(*byte_ref(w, n - 2)) > 2 {
                n - 2
            } else {
                n
            }
        } else if n >= 3 && !is_continuation_byte(*byte_ref(w, n - 3)) {
            if utf8_need(*byte_ref(w, n - 3)) > 3 {
                n - 3
            } else {
                n
            }
        } else {
            n
        };
        slice_subrange(w, 0, cut)
    }

    /// Read up to `len` bytes into `buf[pos..pos + len]`, looping on the
    /// source until the range is full or the source is exhausted.
    fn inner_read(
        end_was_hit: &mut bool,
        reader: &mut R,
        buf: &mut Vec<u8>,
        pos: usize,
        len: usize,
    ) -> (r: Result<usize, IoError>)
        requires
            pos + len <= old(buf)@.len(),
            *old(end_was_hit) ==> old(reader).remaining().len() == 0,
        ensures
            final(buf)@.len() == old(buf)@.len(),
            *final(end_was_hit) ==> final(reader).remaining().len() == 0,
            len == 0 ==> r is Ok,
            match r {
                Ok(n) => {
                    &&& n == min_int(len as int, old(reader).remaining().len() as int)
                    &&& n < len ==> *final(end_was_hit)
                    &&& final(buf)@ == old(buf)@.subrange(0, pos as int) + old(
                        reader,
                    ).remaining().take(n as int) + old(buf)@.skip(pos + n)
                    &&& final(reader).remaining() == old(reader).remaining().skip(n as int)
                },
                // the first source error is propagated at once; what earlier
                // rounds already copied stays in the range, unreported
                Err(_) => exists|k: int|
                    {
                        &&& 0 <= k <= len
                        &&& final(buf)@ == old(buf)@.subrange(0, pos as int) + old(
                            reader,
                        ).remaining().take(k) + old(buf)@.skip(pos + k)
                        &&& final(reader).remaining() == #[trigger] old(reader).remaining().skip(k)
                    },
            },
    {
        let buf_len: usize = buf.len();
        let ghost buf0 = buf@;
        let ghost rem0 = reader.remaining();
        let mut total: usize = 0;
        proof {
            assert(buf@ =~= buf0.subrange(0, pos as int) + rem0.take(0) + buf0.skip(pos as int));
        }
        while total < len && !*end_was_hit
            invariant
                total <= len,
                pos + len <= buf@.len(),
                buf@.len() == old(buf)@.len(),
                buf@.len() == buf_len,
                total <= rem0.len(),
                buf0 == old(buf)@,
                rem0 == old(reader).remaining(),
                *end_was_hit ==> reader.remaining().len() == 0,
                reader.remaining() == rem0.skip(total as int),
                buf@ == buf0.subrange(0, pos as int) + rem0.take(total as int) + buf0.skip(
                    pos + total,
                ),
                forall|k: int| 0 <= k < pos ==> buf@[k] == buf0[k],
                forall|k: int| 0 <= k < total ==> buf@[pos + k] == rem0[k],
                forall|k: int| pos + total <= k < buf@.len() ==> buf@[k] == buf0[k],
            decreases len - total, (if *end_was_hit {
                0int
            } else {
                1int
            }),
        {
            let ghost rem_pre = reader.remaining();
            let ghost buf_pre = buf@;
            match reader.read_into(buf, pos + total, len - total) {
                Ok(n) => {
                    if n == 0 {
                        *end_was_hit = true;
                    }
                    proof {
                        assert(reader.remaining() =~= rem0.skip((total + n) as int));
                    }
                    total = total + n;
                    proof {
                        assert(buf@ =~= buf0.subrange(0, pos as int) + rem0.take(total as int)
                            + buf0.skip(pos + total));
                    }
                },
                Err(e) => {
                    proof {
                        assert(buf@ == buf_pre);
                        assert(reader.remaining() == rem0.skip(total as int));
                    }
                    return Err(e);
                },
            }
        }
        proof {
            assert(buf@ =~= buf0.subrange(0, pos as int) + rem0.take(total as int) + buf0.skip(
                pos + total,
            ));
            if total < len {
                assert(rem0.skip(total as int).len() == 0);
            }
        }
        Ok(total)
    }

    /// Slide the stored bytes down to offset zero.
    fn compact(&mut self)
        requires
            old(self).wf(),
        ensures
            final(self).wf(),
            final(self).capacity() == old(self).capacity(),
            final(self).window_size_spec() == old(self).window_size_spec(),
            final(self).stored() == old(self).stored(),
            final(self).source_remaining() == old(self).source_remaining(),
            final(self).start == 0,
            final(self).end == old(self).end - old(self).start,
            final(self).end_was_hit == old(self).end_was_hit,
    {
        let stored_len = self.end - self.start;
        let ghost pre = *self;
        if self.start == 0 {
            return ;
        }
        let mut i: usize = 0;
        while i < stored_len
            invariant
                i <= stored_len,
                stored_len == pre.end - pre.start,
                self.start == pre.start,
                self.end == pre.end,
                self.reader == pre.reader,
                self.end_was_hit == pre.end_was_hit,
                self.data@.len() == pre.data@.len(),
                1 <= pre.start <= pre.end <= pre.data@.len(),
                pre.data@.len() < usize::MAX,
                forall|k: int| 0 <= k < i ==> self.data@[k] == pre.stored()[k],
                forall|k: int|
                    pre.start + i <= k < pre.data@.len() ==> self.data@[k] == pre.data@[k],
            decreases stored_len - i,
        {
            let b = self.data[self.start + i];
            self.data[i] = b;
            i = i + 1;
        }
        self.start = 0;
        self.end = stored_len;
        proof {
            assert(self.stored() =~= pre.stored());
        }
    }

    /// Top the buffer up so a full window of `W` unconsumed bytes is stored,
    /// or everything the source still had. The stream ahead is unchanged.
    pub fn fill(&mut self) -> (r: Result<(), IoError>)
        requires
            old(self).wf(),
        ensures
            final(self).wf(),
            final(self).capacity() == old(self).capacity(),
            final(self).window_size_spec() == old(self).window_size_spec(),
            old(self).stored().len() >= old(self).window_size_spec() ==> r is Ok,
            old(self).hit_end() ==> r is Ok && *final(self) == *old(self),
            match r {
                Ok(()) => {
                    &&& (final(self).stored().len() < final(self).window_size_spec()
                        ==> final(self).hit_end())
                    &&& final(self).stream() == old(self).stream()
                    &&& final(self).stored() == old(self).stream().take(
                        min_int(old(self).window_size_spec(), old(self).stream().len() as int),
                    )
                    &&& final(self).stored().len() == min_int(
                        old(self).window_size_spec(),
                        old(self).stream().len() as int,
                    )
                },
                Err(_) => true,
            },
    {
        let w = self.window_size();
        let stored_len = self.end - self.start;
        if stored_len >= w || self.end_was_hit {
            proof {
                if self.end_was_hit {
                    assert(self.stream() =~= self.stored());
                }
                assert(self.stored() =~= self.stream().take(
                    min_int(self.window_size_spec(), self.stream().len() as int),
                ));
            }
            return Ok(());
        }
        self.compact();
        let ghost base = self.stream();
        while self.end < w && !self.end_was_hit
            invariant
                self.wf(),
                self.start == 0,
                self.end <= w,
                old(self).stored().len() < old(self).window_size_spec(),
                !old(self).hit_end(),
                w == self.window_size_spec(),
                self.capacity() == old(self).capacity(),
                self.window_size_spec() == old(self).window_size_spec(),
                self.stream() == base,
                self.stored() == base.take(self.end as int),
            decreases w - self.end, (if self.end_was_hit {
                0int
            } else {
                1int
            }),
        {
            let ghost pre = *self;
            let missing = w - self.end;
            let pos = self.end;
            match Self::inner_read(
                &mut self.end_was_hit,
                &mut self.reader,
                &mut self.data,
                pos,
                missing,
            ) {
                Ok(n) => {
                    proof {
                        if n == 0 {
                            assert(pre.reader.remaining().len() == 0);
                        }
                    }
                    self.end = self.end + n;
                    proof {
                        assert(self.stored() =~= base.take(self.end as int));
                        assert(self.stream() =~= base);
                    }
                },
                Err(e) => {
                    return Err(e);
                },
            }
        }
        proof {
            if self.end == w {
                assert(base.len() >= w);
            } else {
                assert(self.reader.remaining().len() == 0);
                assert(self.stream() =~= self.stored());
            }
            assert(self.stored() =~= base.take(
                min_int(self.window_size_spec(), base.len() as int),
            ));
        }
        Ok(())
    }

    /// Copy the next bytes of the stream into `buf[..len]`: exactly
    /// `min(len, stream length)` of them, whatever sizes the source delivers
    /// in, then opportunistically top the window back up.
    pub fn read(&mut self, buf: &mut Vec<u8>, len: usize) -> (r: Result<usize, IoError>)
        requires
            old(self).wf(),
            len <= old(buf)@.len(),
        ensures
            final(buf)@.len() == old(buf)@.len(),
            final(self).wf(),
            final(self).capacity() == old(self).capacity(),
            final(self).window_size_spec() == old(self).window_size_spec(),
            len == 0 && old(self).stored().len() > 0 ==> r is Ok,
            match r {
                Ok(n) => {
                    &&& n == min_int(len as int, old(self).stream().len() as int)
                    &&& final(buf)@ == old(self).stream().take(n as int) + old(buf)@.skip(n as int)
                    &&& final(self).stream() == old(self).stream().skip(n as int)
                    &&& (old(self).stored().len() >= old(self).window_size_spec()
                        ==> final(self).stored().len() == min_int(
                        old(self).window_size_spec(),
                        final(self).stream().len() as int,
                    ))
                    &&& (final(self).hit_end() ==> final(self).stored().len()
                        == final(self).stream().len())
                },
                Err(_) => true,
            },
    {
        let stored_len = self.end - self.start;
        if len >= stored_len {
            self.read_flush(buf, len)
        } else {
            self.read_prefix(buf, len)
        }
    }

    /// The flush path of `read`: the request covers the whole window, so copy
    /// it out, read the shortfall straight from the source, and repopulate.
    #[verifier::rlimit(100)]
    fn read_flush(&mut self, buf: &mut Vec<u8>, len: usize) -> (r: Result<usize, IoError>)
        requires
            old(self).wf(),
            len <= old(buf)@.len(),
            len >= old(self).end - old(self).start,
        ensures
            final(buf)@.len() == old(buf)@.len(),
            final(self).wf(),
            final(self).capacity() == old(self).capacity(),
            final(self).window_size_spec() == old(self).window_size_spec(),
            match r {
                Ok(n) => {
                    &&& n == min_int(len as int, old(self).stream().len() as int)
                    &&& final(buf)@ == old(self).stream().take(n as int) + old(buf)@.skip(n as int)
                    &&& final(self).stream() == old(self).stream().skip(n as int)
                    &&& final(self).stored().len() == min_int(
                        final(self).window_size_spec(),
                        final(self).stream().len() as int,
                    )
                },
                Err(_) => true,
            },
    {
        let ghost pre = *self;
        let ghost buf0 = buf@;
        let buf_len: usize = buf.len();
        let w = self.window_size();
        let stored_len = self.end - self.start;
        {
            // Copy out everything stored, then read the shortfall straight
            // from the source, then repopulate a fresh window.
            let mut i: usize = 0;
            while i < stored_len
                invariant
                    i <= stored_len,
                    *self == pre,
                    stored_len == pre.end - pre.start,
                    pre.wf(),
                    len <= buf@.len(),
                    stored_len <= len,
                    buf@.len() == buf_len,
                    forall|k: int| 0 <= k < i ==> buf@[k] == pre.stored()[k],
                    forall|k: int| i <= k < buf@.len() ==> buf@[k] == buf0[k],
                decreases stored_len - i,
            {
                let b = self.data[self.start + i];
                buf[i] = b;
                i = i + 1;
            }
            let n2 = match Self::inner_read(
                &mut self.end_was_hit,
                &mut self.reader,
                buf,
                stored_len,
                len - stored_len,
            ) {
                Ok(n2) => n2,
                Err(e) => {
                    return Err(e);
                },
            };
            let total = stored_len + n2;
            self.start = 0;
            self.end = 0;
            let ghost mid = *self;
            let n3 = match Self::inner_read(
                &mut self.end_was_hit,
                &mut self.reader,
                &mut self.data,
                0,
                w,
            ) {
                Ok(n3) => n3,
                Err(e) => {
                    return Err(e);
                },
            };
            self.end = n3;
            proof {
                assert(self.stored() =~= mid.reader.remaining().take(n3 as int));
                assert(self.stream() =~= pre.stream().skip(total as int));
                assert(self.stream() =~= mid.reader.remaining());
                assert(buf@ =~= pre.stream().take(total as int) + buf0.skip(total as int));
            }
            Ok(total)
        }
    }

    /// The partial path of `read`: the request is smaller than the window, so
    /// copy out a prefix and top the tail up (compacting first when the tail
    /// has no room).
    #[verifier::rlimit(100)]
    fn read_prefix(&mut self, buf: &mut Vec<u8>, len: usize) -> (r: Result<usize, IoError>)
        requires
            old(self).wf(),
            len <= old(buf)@.len(),
            len < old(self).end - old(self).start,
        ensures
            final(buf)@.len() == old(buf)@.len(),
            final(self).wf(),
            final(self).capacity() == old(self).capacity(),
            final(self).window_size_spec() == old(self).window_size_spec(),
            len == 0 ==> r is Ok,
            match r {
                Ok(n) => {
                    &&& n == min_int(len as int, old(self).stream().len() as int)
                    &&& final(buf)@ == old(self).stream().take(n as int) + old(buf)@.skip(n as int)
                    &&& final(self).stream() == old(self).stream().skip(n as int)
                    &&& (old(self).stored().len() >= old(self).window_size_spec()
                        ==> final(self).stored().len() == min_int(
                        old(self).window_size_spec(),
                        final(self).stream().len() as int,
                    ))
                    &&& (final(self).hit_end() ==> final(self).stored().len()
                        == final(self).stream().len())
                },
                Err(_) => true,
            },
    {
        let ghost pre = *self;
        let ghost buf0 = buf@;
        let buf_len: usize = buf.len();
        let w = self.window_size();
        {
            let mut i: usize = 0;
            while i < len
                invariant
                    i <= len,
                    *self == pre,
                    pre.wf(),
                    len < pre.end - pre.start,
                    len <= buf@.len(),
                    buf@.len() == buf_len,
                    forall|k: int| 0 <= k < i ==> buf@[k] == pre.stored()[k],
                    forall|k: int| i <= k < buf@.len() ==> buf@[k] == buf0[k],
                decreases len - i,
            {
                let b = self.data[self.start + i];
                buf[i] = b;
                i = i + 1;
            }
            self.start = self.start + len;
            let ghost shifted = *self;
            proof {
                assert(shifted.stored() =~= pre.stored().skip(len as int));
                assert(shifted.stream() =~= pre.stream().skip(len as int));
                assert(buf@ =~= pre.stream().take(len as int) + buf0.skip(len as int));
            }
            let cap = self.data.len();
            if self.end <= cap - len {
                let ghost base = self.stream();
                let pos = self.end;
                match Self::inner_read(
                    &mut self.end_was_hit,
                    &mut self.reader,
                    &mut self.data,
                    pos,
                    len,
                ) {
                    Ok(n) => {
                        self.end = self.end + n;
                        proof {
                            assert(self.stored() =~= base.take((shifted.end - shifted.start + n)
                                as int));
                            assert(self.stream() =~= base);
                            if n < len {
                                assert(self.reader.remaining().len() == 0);
                                assert(self.stream() =~= self.stored());
                            }
                        }
                    },
                    Err(e) => {
                        return Err(e);
                    },
                }
            } else {
                self.compact();
                let ghost base = self.stream();
                let pos = self.end;
                let missing = w - self.end;
                match Self::inner_read(
                    &mut self.end_was_hit,
                    &mut self.reader,
                    &mut self.data,
                    pos,
                    missing,
                ) {
                    Ok(n) => {
                        self.end = self.end + n;
                        proof {
                            assert(self.stored() =~= base.take((pos + n) as int));
                            assert(self.stream() =~= base);
                            if n < missing {
                                assert(self.reader.remaining().len() == 0);
                                assert(self.stream() =~= self.stored());
                            }
                        }
                    },
                    Err(e) => {
                        return Err(e);
                    },
                }
            }
            Ok(len)
        }
    }

    /// Discard the next `bytes_count` bytes of the stream (or everything
    /// left, if fewer). Returns what the final internal read delivered, as
    /// the read-and-discard loop saw it.
    pub fn consume(&mut self, bytes_count: usize) -> (r: Result<usize, IoError>)
        requires
            old(self).wf(),
        ensures
            bytes_count == 0 ==> r is Ok,
            final(self).wf(),
            final(self).capacity() == old(self).capacity(),
            final(self).window_size_spec() == old(self).window_size_spec(),
            match r {
                Ok(n) => {
                    &&& final(self).stream() == old(self).stream().skip(
                        min_int(bytes_count as int, old(self).stream().len() as int),
                    )
                    &&& n == spec_consume_ret(bytes_count as int, old(self).stream().len() as int)
                },
                Err(_) => true,
            },
    {
        let ghost stream0 = self.stream();
        let mut buf: Vec<u8> = vec![0u8; 1024];
        let mut remaining_count = bytes_count;
        let mut total_read: usize = 0;
        let mut done = false;
        while remaining_count > 0 && !done
            invariant
                self.wf(),
                self.capacity() == old(self).capacity(),
                self.window_size_spec() == old(self).window_size_spec(),
                buf@.len() == 1024,
                remaining_count <= bytes_count,
                bytes_count - remaining_count <= stream0.len(),
                self.stream() == stream0.skip((bytes_count - remaining_count) as int),
                !done && remaining_count > 0 ==> ((bytes_count - remaining_count) % 1024 == 0
                    || bytes_count - remaining_count == stream0.len()),
                done ==> (total_read == 0 && bytes_count - remaining_count == stream0.len()
                    && remaining_count > 0),
                remaining_count == 0 ==> total_read == spec_consume_ret(
                    bytes_count as int,
                    stream0.len() as int,
                ),
            decreases remaining_count, (if done {
                0int
            } else {
                1int
            }),
        {
            let read_amount = if remaining_count < 1024 {
                remaining_count
            } else {
                1024
            };
            let ghost consumed_pre = bytes_count - remaining_count;
            match self.read(&mut buf, read_amount) {
                Ok(n) => {
                    total_read = n;
                    remaining_count = remaining_count - n;
                    if n == 0 {
                        done = true;
                    }
                    proof {
                        assert(self.stream() =~= stream0.skip(
                            (bytes_count - remaining_count) as int,
                        ));
                        if consumed_pre == stream0.len() {
                            assert(stream0.skip(consumed_pre as int).len() == 0);
                            assert(n == 0);
                        }
                        if n == read_amount && n == 1024 && remaining_count > 0 {
                            assert(consumed_pre % 1024 == 0);
                            assert((consumed_pre + 1024) % 1024 == 0) by (nonlinear_arith)
                                requires
                                    consumed_pre % 1024 == 0,
                                    consumed_pre >= 0,
                            ;
                        }
                        if n > 0 && n < read_amount {
                            assert(bytes_count - remaining_count == stream0.len());
                        }
                        if remaining_count == 0 {
                            assert(consumed_pre % 1024 == 0);
                            assert(n == read_amount);
                            assert(bytes_count == consumed_pre + n);
                            assert(1 <= n <= 1024);
                            assert(bytes_count % 1024 == n % 1024) by (nonlinear_arith)
                                requires
                                    consumed_pre % 1024 == 0,
                                    consumed_pre >= 0,
                                    n >= 0,
                                    bytes_count == consumed_pre + n,
                            ;
                            assert(total_read == spec_consume_ret(
                                bytes_count as int,
                                stream0.len() as int,
                            ));
                        }
                    }
                },
                Err(e) => {
                    return Err(e);
                },
            }
        }
        proof {
            assert(self.stream() =~= stream0.skip(
                min_int(bytes_count as int, stream0.len() as int),
            ));
        }
        Ok(total_read)
    }
}

/// What the read-and-discard loop's last read returns: the final partial
/// chunk when the stream covers the request, and zero when it runs dry.
pub open spec fn spec_consume_ret(bc: int, avail: int) -> int {
    if bc == 0 {
        0
    } else if avail >= bc {
        if bc % 1024 == 0 {
            1024
        } else {
            bc % 1024
        }
    } else {
        0
    }
}

fn is_continuation_byte(b: u8) -> (r: bool)
    ensures
        r == spec_is_continuation(b),
{
    b & 0xC0 == 0x80
}

fn utf8_need(b: u8) -> (n: usize)
    ensures
        n == spec_utf8_need(b),
{
    if b < 0x80 {
        1
    } else if b < 0xE0 {
        2
    } else if b < 0xF0 {
        3
    } else if b < 0xF8 {
        4
    } else {
        1
    }
}

} // verus!
