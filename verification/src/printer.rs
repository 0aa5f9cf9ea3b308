//! Indentation-aware output formatter. Segments arrive classified (literal or
//! not, nesting depth, closing or not) and are written out with one tab per
//! nesting level; literal segments pass through verbatim, other segments are
//! split on line breaks, stripped of leading whitespace, and re-indented.

use crate::stream::{byte_ref, ByteSink, IoError};
use vstd::prelude::*;
use vstd::slice::slice_subrange;

verus! {

pub const NEWLINE_BYTE: u8 = 10;

pub const TAB_BYTE: u8 = 9;

/// The single-byte (ASCII) whitespace characters.
pub open spec fn is_ws_byte(b: u8) -> bool {
    b == 0x20 || b == 0x09 || b == 0x0A || b == 0x0B || b == 0x0C || b == 0x0D
}

/// Length of the UTF-8 encoding of a Unicode White_Space character starting
/// at `i` in `s` (one, two or three bytes), or zero when none starts there.
/// The set is Unicode's White_Space: the ASCII whitespace characters, next
/// line, no-break space, ogham space mark, the en-quad through hair-space
/// range, line and paragraph separators, narrow no-break space, medium
/// mathematical space, and ideographic space.
#[verifier::opaque]
pub open spec fn ws_len_at(s: Seq<u8>, i: int) -> int {
    if i < 0 || i >= s.len() {
        0
    } else if is_ws_byte(s[i]) {
        1
    } else if i + 2 <= s.len() && s[i] == 0xC2 && (s[i + 1] == 0x85 || s[i + 1] == 0xA0) {
        2
    } else if i + 3 <= s.len() && s[i] == 0xE1 && s[i + 1] == 0x9A && s[i + 2] == 0x80 {
        3
    } else if i + 3 <= s.len() && s[i] == 0xE2 && s[i + 1] == 0x80 && ((0x80 <= s[i + 2] && s[i + 2]
        <= 0x8A) || s[i + 2] == 0xA8 || s[i + 2] == 0xA9 || s[i + 2] == 0xAF) {
        3
    } else if i + 3 <= s.len() && s[i] == 0xE2 && s[i + 1] == 0x81 && s[i + 2] == 0x9F {
        3
    } else if i + 3 <= s.len() && s[i] == 0xE3 && s[i + 1] == 0x80 && s[i + 2] == 0x80 {
        3
    } else {
        0
    }
}

/// Where the run of whitespace characters starting at `i` ends.
#[verifier::opaque]
pub open spec fn ws_end(s: Seq<u8>, i: int) -> int
    decreases s.len() - i,
    via ws_end_decreases
{
    if 0 <= i <= s.len() && ws_len_at(s, i) > 0 {
        ws_end(s, i + ws_len_at(s, i))
    } else {
        i
    }
}

#[via_fn]
proof fn ws_end_decreases(s: Seq<u8>, i: int) {
    reveal(ws_len_at);
}

/// Whether `s` consists entirely of whitespace characters (an empty `s`
/// does).
pub open spec fn all_ws(s: Seq<u8>) -> bool {
    ws_end(s, 0) == s.len()
}

/// `s` without its leading whitespace characters.
pub open spec fn trim_start_spec(s: Seq<u8>) -> Seq<u8> {
    s.skip(ws_end(s, 0))
}

/// Bounds of the whitespace-run end: it never moves backwards past `i` and
/// never past the end of `s`.
pub proof fn lemma_ws_end_bounds(s: Seq<u8>, i: int)
    requires
        0 <= i <= s.len(),
    ensures
        i <= ws_end(s, i) <= s.len(),
    decreases s.len() - i,
{
    reveal(ws_len_at);
    reveal(ws_end);
    if ws_len_at(s, i) > 0 {
        lemma_ws_end_bounds(s, i + ws_len_at(s, i));
    }
}

/// Length of the whitespace character's encoding starting at `at`, or zero.
fn ws_seq_len(s: &[u8], at: usize) -> (k: usize)
    requires
        at <= s@.len(),
    ensures
        k == ws_len_at(s@, at as int),
{
    proof {
        reveal(ws_len_at);
    }
    let n = s.len();
    if at >= n {
        return 0;
    }
    let b0 = *byte_ref(s, at);
    if b0 == 0x09 || b0 == 0x0A || b0 == 0x0B || b0 == 0x0C || b0 == 0x0D || b0 == 0x20 {
        return 1;
    }
    if n - at >= 2 && b0 == 0xC2 {
        let b1 = *byte_ref(s, at + 1);
        if b1 == 0x85 || b1 == 0xA0 {
            return 2;
        }
    }
    if n - at >= 3 {
        let b1 = *byte_ref(s, at + 1);
        let b2 = *byte_ref(s, at + 2);
        if b0 == 0xE1 && b1 == 0x9A && b2 == 0x80 {
            return 3;
        }
        if b0 == 0xE2 && b1 == 0x80 && ((0x80 <= b2 && b2 <= 0x8A) || b2 == 0xA8 || b2 == 0xA9
            || b2 == 0xAF) {
            return 3;
        }
        if b0 == 0xE2 && b1 == 0x81 && b2 == 0x9F {
            return 3;
        }
        if b0 == 0xE3 && b1 == 0x80 && b2 == 0x80 {
            return 3;
        }
    }
    0
}

/// `n` tab bytes.
pub open spec fn tabs(n: int) -> Seq<u8>
    decreases n,
{
    if n <= 0 {
        Seq::empty()
    } else {
        tabs(n - 1).push(TAB_BYTE)
    }
}

/// Every byte of `tabs(n)` is a tab.
pub proof fn lemma_tabs_elems(n: int)
    ensures
        tabs(n).len() == (if n <= 0 {
            0int
        } else {
            n
        }),
        forall|i: int| 0 <= i < tabs(n).len() ==> tabs(n)[i] == TAB_BYTE,
    decreases n,
{
    if n > 0 {
        lemma_tabs_elems(n - 1);
    }
}

/// After a failed write the sink holds `base` extended by some prefix of the
/// output `out` that the call was specified to produce.
pub open spec fn content_prefix(base: Seq<u8>, out: Seq<u8>, now: Seq<u8>) -> bool {
    exists|k: int| 0 <= k <= out.len() && now == base + #[trigger] out.take(k)
}

/// Index of the first line break in `s` (or `s.len()` if none).
pub open spec fn first_nl(s: Seq<u8>) -> int
    decreases s.len(),
{
    if s.len() == 0 {
        0
    } else if s[0] == NEWLINE_BYTE {
        0
    } else {
        1 + first_nl(s.skip(1))
    }
}

pub proof fn lemma_first_nl_le(s: Seq<u8>)
    ensures
        0 <= first_nl(s) <= s.len(),
        forall|j: int| 0 <= j < first_nl(s) ==> s[j] != NEWLINE_BYTE,
        first_nl(s) < s.len() ==> s[first_nl(s)] == NEWLINE_BYTE,
    decreases s.len(),
{
    if s.len() > 0 && s[0] != NEWLINE_BYTE {
        lemma_first_nl_le(s.skip(1));
        assert(forall|j: int|
            1 <= j < 1 + first_nl(s.skip(1)) ==> s[j] == s.skip(1)[j - 1] && s.skip(1)[j - 1]
                != NEWLINE_BYTE);
    }
}

pub proof fn lemma_first_nl_is(s: Seq<u8>, k: int)
    requires
        0 <= k <= s.len(),
        forall|j: int| 0 <= j < k ==> s[j] != NEWLINE_BYTE,
        k < s.len() ==> s[k] == NEWLINE_BYTE,
    ensures
        first_nl(s) == k,
    decreases k,
{
    if k == 0 {
    } else {
        assert(forall|j: int| 0 <= j < k - 1 ==> s.skip(1)[j] == s[j + 1]);
        assert(k - 1 < s.skip(1).len() ==> s.skip(1)[k - 1] == s[k]);
        lemma_first_nl_is(s.skip(1), k - 1);
    }
}

/// The formatter's carried state: whether the previous segment was literal,
/// whether the cursor sits at the start of a line, and the previous nesting
/// depth.
pub struct PrinterModel {
    pub was_literal: bool,
    pub is_at_line_start: bool,
    pub prev_indent: int,
}

/// Output and resulting cursor flag for one line of a non-literal segment.
/// `at_start` threads the cursor flag; `is_first` is false for every line
/// after the first of a segment.
#[verifier::opaque]
pub open spec fn emit_line(
    at_start: bool,
    prev: int,
    ind: int,
    closing: bool,
    is_first: bool,
    line: Seq<u8>,
) -> (Seq<u8>, bool) {
    let l = if all_ws(line) {
        line
    } else {
        trim_start_spec(line)
    };
    let o1 = if prev != ind && !at_start && closing {
        seq![NEWLINE_BYTE]
    } else {
        Seq::empty()
    };
    let f1 = if prev != ind && !at_start && closing {
        true
    } else {
        at_start
    };
    let o2 = if !is_first {
        o1 + seq![NEWLINE_BYTE]
    } else {
        o1
    };
    let f2 = if !is_first {
        true
    } else {
        f1
    };
    let o3 = if l.len() > 0 {
        o2 + (if f2 {
            tabs(ind)
        } else {
            Seq::empty()
        }) + l
    } else {
        o2
    };
    let f3 = if l.len() > 0 {
        false
    } else {
        f2
    };
    let o4 = if prev != ind && !f3 && !closing {
        o3 + seq![NEWLINE_BYTE]
    } else {
        o3
    };
    let f4 = if prev != ind && !f3 && !closing {
        true
    } else {
        f3
    };
    (o4, f4)
}

/// The output of `emit_line`, spelled out as the concatenation its writes
/// produce: possibly a closing-side break, a break before every line but the
/// first, indentation and the trimmed line, and possibly an opening-side
/// break.
pub proof fn lemma_emit_line_parts(
    at_start: bool,
    prev: int,
    ind: int,
    closing: bool,
    is_first: bool,
    line: Seq<u8>,
)
    ensures
        ({
            let l = if all_ws(line) {
                line
            } else {
                trim_start_spec(line)
            };
            let c1 = prev != ind && !at_start && closing;
            let o1 = if c1 {
                seq![NEWLINE_BYTE]
            } else {
                Seq::<u8>::empty()
            };
            let f1 = if c1 {
                true
            } else {
                at_start
            };
            let o2 = if !is_first {
                o1 + seq![NEWLINE_BYTE]
            } else {
                o1
            };
            let f2 = if !is_first {
                true
            } else {
                f1
            };
            let tp = if l.len() > 0 && f2 {
                tabs(ind)
            } else {
                Seq::<u8>::empty()
            };
            let o3 = if l.len() > 0 {
                o2 + tp + l
            } else {
                o2
            };
            let f3 = if l.len() > 0 {
                false
            } else {
                f2
            };
            let o4 = if prev != ind && !f3 && !closing {
                o3 + seq![NEWLINE_BYTE]
            } else {
                o3
            };
            let f4 = if prev != ind && !f3 && !closing {
                true
            } else {
                f3
            };
            emit_line(at_start, prev, ind, closing, is_first, line).0 == o4 && emit_line(
                at_start,
                prev,
                ind,
                closing,
                is_first,
                line,
            ).1 == f4
        }),
{
    reveal(emit_line);
    assert(emit_line(at_start, prev, ind, closing, is_first, line).0 =~= ({
        let l = if all_ws(line) {
            line
        } else {
            trim_start_spec(line)
        };
        let c1 = prev != ind && !at_start && closing;
        let o1 = if c1 {
            seq![NEWLINE_BYTE]
        } else {
            Seq::<u8>::empty()
        };
        let f1 = if c1 {
            true
        } else {
            at_start
        };
        let o2 = if !is_first {
            o1 + seq![NEWLINE_BYTE]
        } else {
            o1
        };
        let f2 = if !is_first {
            true
        } else {
            f1
        };
        let tp = if l.len() > 0 && f2 {
            tabs(ind)
        } else {
            Seq::<u8>::empty()
        };
        let o3 = if l.len() > 0 {
            o2 + tp + l
        } else {
            o2
        };
        let f3 = if l.len() > 0 {
            false
        } else {
            f2
        };
        if prev != ind && !f3 && !closing {
            o3 + seq![NEWLINE_BYTE]
        } else {
            o3
        }
    }));
}

/// Output and final cursor flag for all lines of a non-literal segment.
pub open spec fn emit_lines(
    at_start: bool,
    prev: int,
    ind: int,
    closing: bool,
    seg: Seq<u8>,
    is_first: bool,
) -> (Seq<u8>, bool)
    decreases seg.len(),
    via emit_lines_decreases
{
    let k = first_nl(seg);
    let (o, f) = emit_line(at_start, prev, ind, closing, is_first, seg.take(k));
    if k == seg.len() {
        (o, f)
    } else {
        let (o2, f2) = emit_lines(f, prev, ind, closing, seg.skip(k + 1), false);
        (o + o2, f2)
    }
}

#[via_fn]
proof fn emit_lines_decreases(
    at_start: bool,
    prev: int,
    ind: int,
    closing: bool,
    seg: Seq<u8>,
    is_first: bool,
) {
    lemma_first_nl_le(seg);
}

/// The formatter's whole step: what one segment appends to the sink and the
/// state left behind. An empty segment writes nothing and changes nothing; a
/// literal segment is copied verbatim, indented once when it begins a line
/// after non-literal output; any other segment goes through `emit_lines`.
pub open spec fn push_spec(
    st: PrinterModel,
    seg: Seq<u8>,
    ind: int,
    is_literal: bool,
    is_closing: bool,
) -> (Seq<u8>, PrinterModel) {
    if seg.len() == 0 {
        (Seq::empty(), st)
    } else if is_literal {
        let pre = if st.is_at_line_start && !st.was_literal {
            tabs(ind)
        } else {
            Seq::empty()
        };
        (
            pre + seg,
            PrinterModel {
                was_literal: true,
                is_at_line_start: seg.last() == NEWLINE_BYTE,
                prev_indent: ind,
            },
        )
    } else {
        let (o, f) = emit_lines(st.is_at_line_start, st.prev_indent, ind, is_closing, seg, true);
        (o, PrinterModel { was_literal: false, is_at_line_start: f, prev_indent: ind })
    }
}

pub struct Printer<P: ByteSink> {
    min_block_size: usize,
    was_literal: bool,
    is_at_line_start: bool,
    prev_indent: usize,
    output: P,
}

impl<P: ByteSink> Printer<P> {
    pub closed spec fn pstate(&self) -> PrinterModel {
        PrinterModel {
            was_literal: self.was_literal,
            is_at_line_start: self.is_at_line_start,
            prev_indent: self.prev_indent as int,
        }
    }

    pub closed spec fn content(&self) -> Seq<u8> {
        self.output.content()
    }

    pub closed spec fn min_block(&self) -> usize {
        self.min_block_size
    }

    pub fn new(min_block_size: usize, output: P) -> (p: Self)
        ensures
            p.pstate() == (PrinterModel { was_literal: false, is_at_line_start: true, prev_indent: 0int }),
            p.content() == output.content(),
            p.min_block() == min_block_size,
    {
        Self { min_block_size, was_literal: false, is_at_line_start: true, prev_indent: 0, output }
    }

    /// Append `bytes` to the sink and record whether they left the cursor at
    /// a line start.
    fn write(&mut self, bytes: &[u8]) -> (r: Result<(), IoError>)
        ensures
            final(self).was_literal == old(self).was_literal,
            final(self).prev_indent == old(self).prev_indent,
            final(self).min_block_size == old(self).min_block_size,
            match r {
                Ok(()) => {
                    &&& final(self).content() == old(self).content() + bytes@
                    &&& final(self).is_at_line_start == (bytes@.len() > 0 && bytes@.last()
                        == NEWLINE_BYTE)
                },
                Err(_) => content_prefix(old(self).content(), bytes@, final(self).content())
                    && final(self).is_at_line_start == old(self).is_at_line_start,
            },
    {
        match self.output.write_bytes(bytes) {
            Ok(()) => {},
            Err(e) => {
                return Err(e);
            },
        }
        let n = bytes.len();
        self.is_at_line_start = n > 0 && bytes[n - 1] == NEWLINE_BYTE;
        Ok(())
    }

    fn write_one(&mut self, b: u8) -> (r: Result<(), IoError>)
        ensures
            final(self).was_literal == old(self).was_literal,
            final(self).prev_indent == old(self).prev_indent,
            final(self).min_block_size == old(self).min_block_size,
            match r {
                Ok(()) => {
                    &&& final(self).content() == old(self).content() + seq![b]
                    &&& final(self).is_at_line_start == (b == NEWLINE_BYTE)
                },
                Err(_) => content_prefix(old(self).content(), seq![b], final(self).content())
                    && final(self).is_at_line_start == old(self).is_at_line_start,
            },
    {
        let v: Vec<u8> = vec![b];
        proof {
            assert(v@ =~= seq![b]);
        }
        let r = self.write(v.as_slice());
        proof {
            if r is Err {
                let k = choose|k: int|
                    0 <= k <= v@.len() && self.content() == old(self).content() + #[trigger] v@.take(
                        k,
                    );
                assert(seq![b].take(k) =~= v@.take(k));
                assert(content_prefix(old(self).content(), seq![b], self.content()));
            }
        }
        r
    }

    /// Write `level` tabs through `write`, so the cursor flag tracks them.
    fn write_tabs(&mut self, level: usize) -> (r: Result<(), IoError>)
        ensures
            final(self).was_literal == old(self).was_literal,
            final(self).prev_indent == old(self).prev_indent,
            final(self).min_block_size == old(self).min_block_size,
            match r {
                Ok(()) => {
                    &&& final(self).content() == old(self).content() + tabs(level as int)
                    &&& final(self).is_at_line_start == if level > 0 {
                        false
                    } else {
                        old(self).is_at_line_start
                    }
                },
                Err(_) => content_prefix(old(self).content(), tabs(level as int), final(self).content()),
            },
    {
        let mut t: usize = 0;
        while t < level
            invariant
                t <= level,
                self.was_literal == old(self).was_literal,
                self.prev_indent == old(self).prev_indent,
                self.min_block_size == old(self).min_block_size,
                self.content() == old(self).content() + tabs(t as int),
                self.is_at_line_start == if t > 0 {
                    false
                } else {
                    old(self).is_at_line_start
                },
            decreases level - t,
        {
            match self.write_one(TAB_BYTE) {
                Ok(()) => {},
                Err(e) => {
                    proof {
                        lemma_tabs_elems(level as int);
                        lemma_tabs_elems(t as int);
                        let k = choose|k: int|
                            0 <= k <= seq![TAB_BYTE].len() && self.content() == (old(self).content()
                                + tabs(t as int)) + #[trigger] seq![TAB_BYTE].take(k);
                        assert(tabs(level as int).take(t + k) =~= tabs(t as int)
                            + seq![TAB_BYTE].take(k));
                        assert(self.content() =~= old(self).content() + tabs(level as int).take(
                            t + k,
                        ));
                        assert(content_prefix(old(self).content(), tabs(level as int), self.content()));
                    }
                    return Err(e);
                },
            }
            t = t + 1;
            proof {
                assert(tabs((t - 1) as int) + seq![TAB_BYTE] =~= tabs(t as int));
            }
        }
        proof {
            assert(tabs(0) =~= Seq::<u8>::empty());
            assert(old(self).content() + tabs(0) =~= old(self).content());
        }
        Ok(())
    }

    /// Write `level` tabs straight to the sink, leaving the cursor flag as it
    /// was (mid-line indentation of a freshly started line).
    fn write_tabs_raw(&mut self, level: usize) -> (r: Result<(), IoError>)
        ensures
            final(self).was_literal == old(self).was_literal,
            final(self).prev_indent == old(self).prev_indent,
            final(self).min_block_size == old(self).min_block_size,
            final(self).is_at_line_start == old(self).is_at_line_start,
            match r {
                Ok(()) => final(self).content() == old(self).content() + tabs(level as int),
                Err(_) => content_prefix(old(self).content(), tabs(level as int), final(self).content()),
            },
    {
        let mut t: usize = 0;
        while t < level
            invariant
                t <= level,
                self.was_literal == old(self).was_literal,
                self.prev_indent == old(self).prev_indent,
                self.min_block_size == old(self).min_block_size,
                self.is_at_line_start == old(self).is_at_line_start,
                self.content() == old(self).content() + tabs(t as int),
            decreases level - t,
        {
            let v: Vec<u8> = vec![TAB_BYTE];
            let ghost pre_c = self.content();
            match self.output.write_bytes(v.as_slice()) {
                Ok(()) => {},
                Err(e) => {
                    proof {
                        lemma_tabs_elems(level as int);
                        lemma_tabs_elems(t as int);
                        assert(v@ =~= seq![TAB_BYTE]);
                        let k = choose|k: int|
                            0 <= k <= v@.len() && self.output.content() == pre_c + #[trigger] v@.take(
                                k,
                            );
                        assert(tabs(level as int).take(t + k) =~= tabs(t as int) + v@.take(k));
                        assert(self.content() =~= old(self).content() + tabs(level as int).take(
                            t + k,
                        ));
                        assert(content_prefix(old(self).content(), tabs(level as int), self.content()));
                    }
                    return Err(e);
                },
            }
            t = t + 1;
            proof {
                assert(v@ =~= seq![TAB_BYTE]);
                assert(tabs((t - 1) as int) + seq![TAB_BYTE] =~= tabs(t as int));
            }
        }
        proof {
            assert(old(self).content() + tabs(0) =~= old(self).content());
        }
        Ok(())
    }

    pub fn push_segment(&mut self, segment: &[u8], indentation_level: usize, is_literal: bool, is_closing: bool) -> (r: Result<(), IoError>)
        ensures
            final(self).min_block() == old(self).min_block(),
            segment@.len() == 0 ==> r is Ok,
            match r {
                Ok(()) => ({
                    let (out, st) = push_spec(
                        old(self).pstate(),
                        segment@,
                        indentation_level as int,
                        is_literal,
                        is_closing,
                    );
                    final(self).content() == old(self).content() + out && final(self).pstate()
                        == st
                }),
                Err(_) => ({
                    let (out, st) = push_spec(
                        old(self).pstate(),
                        segment@,
                        indentation_level as int,
                        is_literal,
                        is_closing,
                    );
                    &&& final(self).pstate().was_literal == old(self).pstate().was_literal
                    &&& final(self).pstate().prev_indent == old(self).pstate().prev_indent
                    &&& content_prefix(old(self).content(), out, final(self).content())
                }),
            },
    {
        self.push_naive(segment, indentation_level, is_literal, is_closing)
    }

    /// Write the non-empty trimmed body of one line: indentation when the
    /// cursor is at a line start, then `segment[wstart..to]` itself.
    #[verifier::rlimit(100)]
    fn write_trimmed(&mut self, segment: &[u8], wstart: usize, to: usize, indentation_level: usize) -> (r: Result<(), IoError>)
        requires
            wstart < to <= segment@.len(),
            segment@[to - 1] != NEWLINE_BYTE,
        ensures
            final(self).was_literal == old(self).was_literal,
            final(self).prev_indent == old(self).prev_indent,
            final(self).min_block_size == old(self).min_block_size,
            ({
                let l = segment@.subrange(wstart as int, to as int);
                let tp = if old(self).is_at_line_start {
                    tabs(indentation_level as int)
                } else {
                    Seq::<u8>::empty()
                };
                match r {
                    Ok(()) => final(self).content() == old(self).content() + (tp + l)
                        && final(self).is_at_line_start == false,
                    Err(_) => content_prefix(old(self).content(), tp + l, final(self).content()),
                }
            }),
    {
        let ghost l = segment@.subrange(wstart as int, to as int);
        let ghost tp = if old(self).is_at_line_start {
            tabs(indentation_level as int)
        } else {
            Seq::<u8>::empty()
        };
        if self.is_at_line_start {
            match self.write_tabs_raw(indentation_level) {
                Ok(()) => {},
                Err(e) => {
                    proof {
                        let k = choose|k: int|
                            0 <= k <= tabs(indentation_level as int).len() && self.content() == old(
                                self,
                            ).content() + #[trigger] tabs(indentation_level as int).take(k);
                        assert((tp + l).take(k) =~= tabs(indentation_level as int).take(k));
                        assert(content_prefix(old(self).content(), tp + l, self.content()));
                    }
                    return Err(e);
                },
            }
        }
        let ghost cm = self.content();
        let piece = slice_subrange(segment, wstart, to);
        match self.write(piece) {
            Ok(()) => {},
            Err(e) => {
                proof {
                    assert(cm =~= old(self).content() + tp);
                    let k = choose|k: int|
                        0 <= k <= piece@.len() && self.content() == cm + #[trigger] piece@.take(k);
                    assert((tp + l).take(tp.len() + k) =~= tp + piece@.take(k));
                    assert(self.content() =~= old(self).content() + (tp + l).take(tp.len() + k));
                    assert(content_prefix(old(self).content(), tp + l, self.content()));
                }
                return Err(e);
            },
        }
        proof {
            assert(piece@.len() > 0);
            assert(piece@.last() == segment@[to - 1]);
            assert(self.content() =~= old(self).content() + (tp + l));
        }
        Ok(())
    }

    /// Where a line's content begins: past the leading whitespace when the
    /// line holds anything else, at the line's start when it is all
    /// whitespace (such a line is kept verbatim).
    fn line_start_index(segment: &[u8], from: usize, to: usize) -> (wstart: usize)
        requires
            from <= to <= segment@.len(),
        ensures
            ({
                let line = segment@.subrange(from as int, to as int);
                let l = if all_ws(line) {
                    line
                } else {
                    trim_start_spec(line)
                };
                &&& from <= wstart <= to
                &&& l == segment@.subrange(wstart as int, to as int)
            }),
    {
        let ghost line = segment@.subrange(from as int, to as int);
        let line_slice = slice_subrange(segment, from, to);
        let j = Self::trim_index(line_slice);
        let wstart: usize = if j == to - from {
            from
        } else {
            from + j
        };
        proof {
            assert(ws_end(line, 0) == j);
            if j == to - from {
                assert(all_ws(line));
            } else {
                assert(!all_ws(line));
                assert(trim_start_spec(line) =~= line.skip(j as int));
                assert(line.skip(j as int) =~= segment@.subrange(from + j, to as int));
            }
            let l = if all_ws(line) {
                line
            } else {
                trim_start_spec(line)
            };
            assert(l =~= segment@.subrange(wstart as int, to as int));
        }
        wstart
    }

    /// Where the leading whitespace run of `line` ends.
    fn trim_index(line: &[u8]) -> (j: usize)
        ensures
            j == ws_end(line@, 0),
            j <= line@.len(),
    {
        let n = line.len();
        let mut j: usize = 0;
        let mut scanning = true;
        proof {
            reveal(ws_end);
        }
        while scanning
            invariant
                j <= n,
                n == line@.len(),
                ws_end(line@, 0) == ws_end(line@, j as int),
                !scanning ==> ws_end(line@, j as int) == j,
            decreases n - j, (if scanning {
                1int
            } else {
                0int
            }),
        {
            let k = ws_seq_len(line, j);
            if k == 0 {
                scanning = false;
                proof {
                    reveal(ws_end);
                    assert(ws_end(line@, j as int) == j);
                }
            } else {
                proof {
                    reveal(ws_len_at);
                    reveal(ws_end);
                    assert(j + k <= line@.len());
                }
                j = j + k;
            }
        }
        j
    }

    /// Write the breaks that precede a line's content: one when a closing
    /// boundary must start its own line, and one before every line after the
    /// first of a segment.
    #[verifier::rlimit(100)]
    fn write_breaks(&mut self, indentation_level: usize, is_closing: bool, is_first: bool) -> (r:
        Result<(), IoError>)
        ensures
            final(self).was_literal == old(self).was_literal,
            final(self).prev_indent == old(self).prev_indent,
            final(self).min_block_size == old(self).min_block_size,
            ({
                let c1 = old(self).prev_indent != indentation_level && !old(
                    self,
                ).is_at_line_start && is_closing;
                let o1 = if c1 {
                    seq![NEWLINE_BYTE]
                } else {
                    Seq::<u8>::empty()
                };
                let f1 = if c1 {
                    true
                } else {
                    old(self).is_at_line_start
                };
                let o2 = if !is_first {
                    o1 + seq![NEWLINE_BYTE]
                } else {
                    o1
                };
                let f2 = if !is_first {
                    true
                } else {
                    f1
                };
                match r {
                    Ok(()) => final(self).content() == old(self).content() + o2
                        && final(self).is_at_line_start == f2,
                    Err(_) => content_prefix(old(self).content(), o2, final(self).content()),
                }
            }),
    {
        let ghost c1 = old(self).prev_indent != indentation_level && !old(
            self,
        ).is_at_line_start && is_closing;
        let ghost o1 = if c1 {
            seq![NEWLINE_BYTE]
        } else {
            Seq::<u8>::empty()
        };
        let ghost o2 = if !is_first {
            o1 + seq![NEWLINE_BYTE]
        } else {
            o1
        };
        if self.prev_indent != indentation_level && !self.is_at_line_start && is_closing {
            match self.write_one(NEWLINE_BYTE) {
                Ok(()) => {},
                Err(e) => {
                    proof {
                        let k = choose|k: int|
                            0 <= k <= seq![NEWLINE_BYTE].len() && self.content() == old(
                                self,
                            ).content() + #[trigger] seq![NEWLINE_BYTE].take(k);
                        assert(o2.take(k) =~= seq![NEWLINE_BYTE].take(k));
                        assert(content_prefix(old(self).content(), o2, self.content()));
                    }
                    return Err(e);
                },
            }
        }
        let ghost cb = self.content();
        if !is_first {
            match self.write_one(NEWLINE_BYTE) {
                Ok(()) => {},
                Err(e) => {
                    proof {
                        assert(cb =~= old(self).content() + o1);
                        let k = choose|k: int|
                            0 <= k <= seq![NEWLINE_BYTE].len() && self.content() == cb
                                + #[trigger] seq![NEWLINE_BYTE].take(k);
                        assert(o2.take(o1.len() + k) =~= o1 + seq![NEWLINE_BYTE].take(k));
                        assert(self.content() =~= old(self).content() + o2.take(o1.len() + k));
                        assert(content_prefix(old(self).content(), o2, self.content()));
                    }
                    return Err(e);
                },
            }
        }
        proof {
            assert(self.content() =~= old(self).content() + o2);
        }
        Ok(())
    }

    /// Write one line (`segment[from..to]`, free of line breaks) of a
    /// non-literal segment, with the break/indent/trim rules of `emit_line`.
    #[verifier::rlimit(100)]
    #[verifier::spinoff_prover]
    fn push_line(&mut self, segment: &[u8], from: usize, to: usize, indentation_level: usize, is_closing: bool, is_first: bool) -> (r: Result<(), IoError>)
        requires
            from <= to <= segment@.len(),
            forall|j: int| from <= j < to ==> segment@[j] != NEWLINE_BYTE,
        ensures
            final(self).was_literal == old(self).was_literal,
            final(self).prev_indent == old(self).prev_indent,
            final(self).min_block_size == old(self).min_block_size,
            match r {
                Ok(()) => ({
                    let (o, f) = emit_line(
                        old(self).pstate().is_at_line_start,
                        old(self).pstate().prev_indent,
                        indentation_level as int,
                        is_closing,
                        is_first,
                        segment@.subrange(from as int, to as int),
                    );
                    final(self).content() == old(self).content() + o
                        && final(self).is_at_line_start == f
                }),
                Err(_) => ({
                    let (o, f) = emit_line(
                        old(self).pstate().is_at_line_start,
                        old(self).pstate().prev_indent,
                        indentation_level as int,
                        is_closing,
                        is_first,
                        segment@.subrange(from as int, to as int),
                    );
                    content_prefix(old(self).content(), o, final(self).content())
                }),
            },
    {
        let ghost line = segment@.subrange(from as int, to as int);
        let ghost l = if all_ws(line) {
            line
        } else {
            trim_start_spec(line)
        };
        let wstart: usize = Self::line_start_index(segment, from, to);
        let ghost ind = indentation_level as int;
        let ghost step = emit_line(
            old(self).pstate().is_at_line_start,
            old(self).pstate().prev_indent,
            ind,
            is_closing,
            is_first,
            line,
        );
        let ghost c1 = old(self).pstate().prev_indent != ind && !old(
            self,
        ).pstate().is_at_line_start && is_closing;
        let ghost o1 = if c1 {
            seq![NEWLINE_BYTE]
        } else {
            Seq::<u8>::empty()
        };
        let ghost f1 = if c1 {
            true
        } else {
            old(self).pstate().is_at_line_start
        };
        let ghost o2 = if !is_first {
            o1 + seq![NEWLINE_BYTE]
        } else {
            o1
        };
        let ghost f2 = if !is_first {
            true
        } else {
            f1
        };
        let ghost tpart = if l.len() > 0 && f2 {
            tabs(ind)
        } else {
            Seq::<u8>::empty()
        };
        let ghost o3 = if l.len() > 0 {
            o2 + tpart + l
        } else {
            o2
        };
        let ghost f3 = if l.len() > 0 {
            false
        } else {
            f2
        };
        let ghost o4 = if old(self).pstate().prev_indent != ind && !f3 && !is_closing {
            o3 + seq![NEWLINE_BYTE]
        } else {
            o3
        };
        let ghost f4 = if old(self).pstate().prev_indent != ind && !f3 && !is_closing {
            true
        } else {
            f3
        };
        proof {
            lemma_emit_line_parts(
                old(self).pstate().is_at_line_start,
                old(self).pstate().prev_indent,
                ind,
                is_closing,
                is_first,
                line,
            );
            assert(step.0 == o4);
            assert(step.1 == f4);
        }
        // the per-line writes
        match self.write_breaks(indentation_level, is_closing, is_first) {
            Ok(()) => {},
            Err(e) => {
                proof {
                    let k = choose|k: int|
                        0 <= k <= o2.len() && self.content() == old(self).content()
                            + #[trigger] o2.take(k);
                    assert(step.0.take(k) =~= o2.take(k));
                    assert(content_prefix(old(self).content(), step.0, self.content()));
                }
                return Err(e);
            },
        }
        let ghost c3 = self.content();
        if to - wstart > 0 {
            proof {
                assert(l.len() > 0);
                assert(l.last() == segment@[to - 1]);
                assert(l.last() != NEWLINE_BYTE);
            }
            match self.write_trimmed(segment, wstart, to, indentation_level) {
                Ok(()) => {},
                Err(e) => {
                    proof {
                        assert(c3 =~= old(self).content() + o2);
                        let k = choose|k: int|
                            0 <= k <= (tpart + l).len() && self.content() == c3 + #[trigger] (tpart
                                + l).take(k);
                        assert(step.0.take(o2.len() + k) =~= o2 + (tpart + l).take(k));
                        assert(self.content() =~= old(self).content() + step.0.take(o2.len() + k));
                        assert(content_prefix(old(self).content(), step.0, self.content()));
                    }
                    return Err(e);
                },
            }
        }
        let ghost c5 = self.content();
        if self.prev_indent != indentation_level && !self.is_at_line_start && !is_closing {
            match self.write_one(NEWLINE_BYTE) {
                Ok(()) => {},
                Err(e) => {
                    proof {
                        assert(c5 =~= old(self).content() + o3);
                        let k = choose|k: int|
                            0 <= k <= seq![NEWLINE_BYTE].len() && self.content() == c5
                                + #[trigger] seq![NEWLINE_BYTE].take(k);
                        assert(step.0.take(o3.len() + k) =~= o3 + seq![NEWLINE_BYTE].take(k));
                        assert(self.content() =~= old(self).content() + step.0.take(o3.len() + k));
                        assert(content_prefix(old(self).content(), step.0, self.content()));
                    }
                    return Err(e);
                },
            }
        }
        proof {
            assert(self.content() =~= old(self).content() + step.0);
            assert(self.is_at_line_start == step.1);
        }
        Ok(())
    }

    #[verifier::rlimit(100)]
    fn push_naive(&mut self, segment: &[u8], indentation_level: usize, is_literal: bool, is_closing: bool) -> (r: Result<(), IoError>)
        ensures
            final(self).min_block() == old(self).min_block(),
            segment@.len() == 0 ==> r is Ok,
            match r {
                Ok(()) => ({
                    let (out, st) = push_spec(
                        old(self).pstate(),
                        segment@,
                        indentation_level as int,
                        is_literal,
                        is_closing,
                    );
                    final(self).content() == old(self).content() + out && final(self).pstate()
                        == st
                }),
                Err(_) => ({
                    let (out, st) = push_spec(
                        old(self).pstate(),
                        segment@,
                        indentation_level as int,
                        is_literal,
                        is_closing,
                    );
                    &&& final(self).was_literal == old(self).was_literal
                    &&& final(self).prev_indent == old(self).prev_indent
                    &&& content_prefix(old(self).content(), out, final(self).content())
                }),
            },
    {
        let n = segment.len();
        if n == 0 {
            proof {
                assert(self.content() =~= old(self).content() + Seq::<u8>::empty());
            }
            return Ok(());
        }
        if is_literal {
            let ghost pre = if old(self).pstate().is_at_line_start && !old(
                self,
            ).pstate().was_literal {
                tabs(indentation_level as int)
            } else {
                Seq::<u8>::empty()
            };
            if self.is_at_line_start && !self.was_literal {
                match self.write_tabs(indentation_level) {
                    Ok(()) => {},
                    Err(e) => {
                        proof {
                            let k = choose|k: int|
                                0 <= k <= tabs(indentation_level as int).len() && self.content()
                                    == old(self).content() + #[trigger] tabs(
                                    indentation_level as int,
                                ).take(k);
                            assert((pre + segment@).take(k) =~= tabs(
                                indentation_level as int,
                            ).take(k));
                            assert(content_prefix(
                                old(self).content(),
                                pre + segment@,
                                self.content(),
                            ));
                        }
                        return Err(e);
                    },
                }
            }
            let ghost cs = self.content();
            match self.write(segment) {
                Ok(()) => {},
                Err(e) => {
                    proof {
                        assert(cs =~= old(self).content() + pre);
                        let k = choose|k: int|
                            0 <= k <= segment@.len() && self.content() == cs
                                + #[trigger] segment@.take(k);
                        assert((pre + segment@).take(pre.len() + k) =~= pre + segment@.take(k));
                        assert(self.content() =~= old(self).content() + (pre + segment@).take(
                            pre.len() + k,
                        ));
                        assert(content_prefix(
                            old(self).content(),
                            pre + segment@,
                            self.content(),
                        ));
                    }
                    return Err(e);
                },
            }
            self.was_literal = true;
            self.prev_indent = indentation_level;
            proof {
                if old(self).is_at_line_start && !old(self).was_literal {
                    assert(self.content() =~= old(self).content() + (tabs(
                        indentation_level as int,
                    ) + segment@));
                } else {
                    assert(self.content() =~= old(self).content() + (Seq::<u8>::empty()
                        + segment@));
                }
            }
            return Ok(());
        }
        let ghost st0 = self.pstate();
        let ghost total = emit_lines(
            st0.is_at_line_start,
            st0.prev_indent,
            indentation_level as int,
            is_closing,
            segment@,
            true,
        );
        proof {
            assert(segment@.skip(0) =~= segment@);
            assert(total.0.take(0) =~= Seq::<u8>::empty());
            assert(self.content() =~= old(self).content() + total.0.take(0));
        }
        let ghost mut written: int = 0;
        let mut pos: usize = 0;
        let mut is_first: bool = true;
        let mut done: bool = false;
        while !done
            invariant
                !is_literal,
                segment@.len() > 0,
                0 <= written <= total.0.len(),
                self.content() == old(self).content() + total.0.take(written),
                pos <= n,
                n == segment@.len(),
                self.was_literal == old(self).was_literal,
                self.prev_indent == old(self).prev_indent,
                self.min_block_size == old(self).min_block_size,
                st0 == old(self).pstate(),
                total == emit_lines(
                    st0.is_at_line_start,
                    st0.prev_indent,
                    indentation_level as int,
                    is_closing,
                    segment@,
                    true,
                ),
                !done ==> old(self).content() + total.0 == self.content() + emit_lines(
                    self.is_at_line_start,
                    st0.prev_indent,
                    indentation_level as int,
                    is_closing,
                    segment@.skip(pos as int),
                    is_first,
                ).0,
                !done ==> total.1 == emit_lines(
                    self.is_at_line_start,
                    st0.prev_indent,
                    indentation_level as int,
                    is_closing,
                    segment@.skip(pos as int),
                    is_first,
                ).1,
                done ==> self.content() == old(self).content() + total.0,
                done ==> self.is_at_line_start == total.1,
            decreases n - pos, (if done {
                0int
            } else {
                1int
            }),
        {
            let ghost rest = segment@.skip(pos as int);
            let ghost entry_pos = pos;
            let ghost entry_flag = self.is_at_line_start;
            let ghost entry_content = self.content();
            // find the end of the current line
            let mut k: usize = pos;
            while k < n && *byte_ref(segment, k) != NEWLINE_BYTE
                invariant
                    pos <= k <= n,
                    n == segment@.len(),
                    forall|j: int| pos <= j < k ==> segment@[j] != NEWLINE_BYTE,
                decreases n - k,
            {
                k = k + 1;
            }
            proof {
                assert(forall|j: int| 0 <= j < k - pos ==> rest[j] == segment@[pos + j]);
                lemma_first_nl_is(rest, k - pos);
                assert(rest.take(k - pos) =~= segment@.subrange(pos as int, k as int));
            }
            let ghost step = emit_line(
                entry_flag,
                st0.prev_indent,
                indentation_level as int,
                is_closing,
                is_first,
                segment@.subrange(pos as int, k as int),
            );
            let ghost rest_out = emit_lines(
                entry_flag,
                st0.prev_indent,
                indentation_level as int,
                is_closing,
                rest,
                is_first,
            ).0;
            proof {
                let base = old(self).content();
                assert(entry_content.skip(base.len() as int) =~= total.0.take(written));
                assert((base + total.0).skip(base.len() as int) =~= total.0);
                assert((entry_content + rest_out).skip(base.len() as int)
                    =~= entry_content.skip(base.len() as int) + rest_out);
                assert(total.0 =~= total.0.take(written) + rest_out);
            }
            match self.push_line(segment, pos, k, indentation_level, is_closing, is_first) {
                Ok(()) => {},
                Err(e) => {
                    proof {
                        let j = choose|j: int|
                            0 <= j <= step.0.len() && self.content() == entry_content
                                + #[trigger] step.0.take(j);
                        assert(total.0.take(written + j) =~= total.0.take(written) + step.0.take(
                            j,
                        ));
                        assert(self.content() =~= old(self).content() + total.0.take(written + j));
                        assert(content_prefix(old(self).content(), total.0, self.content()));
                    }
                    return Err(e);
                },
            }
            let ghost was_first = is_first;
            is_first = false;
            proof {
                assert(self.content() =~= entry_content + step.0);
                if k == n as usize {
                    assert(rest.take(k - pos) =~= rest);
                }
                written = written + step.0.len();
                assert(total.0.take(written) =~= total.0.take(written - step.0.len()) + step.0);
                assert(self.content() =~= old(self).content() + total.0.take(written));
            }
            if k == n {
                done = true;
            } else {
                pos = k + 1;
                proof {
                    assert(rest.skip(k - entry_pos + 1) =~= segment@.skip(pos as int));
                }
            }
        }
        self.was_literal = false;
        self.prev_indent = indentation_level;
        Ok(())
    }

    pub fn writer(self) -> (w: P)
        ensures
            w.content() == self.content(),
    {
        self.output
    }
}

/// Whether `text` consists entirely of whitespace characters (an empty text
/// does).
pub fn is_only_whitespace(text: &[u8]) -> (r: bool)
    ensures
        r == all_ws(text@),
{
    let n = text.len();
    let mut i: usize = 0;
    let mut scanning = true;
    while scanning
        invariant
            i <= n,
            n == text@.len(),
            ws_end(text@, 0) == ws_end(text@, i as int),
            !scanning ==> ws_end(text@, i as int) == i,
        decreases n - i, (if scanning {
            1int
        } else {
            0int
        }),
    {
        let k = ws_seq_len(text, i);
        if k == 0 {
            scanning = false;
            proof {
                reveal(ws_end);
                assert(ws_end(text@, i as int) == i);
            }
        } else {
            proof {
                reveal(ws_len_at);
                reveal(ws_end);
                assert(i + k <= text@.len());
            }
            i = i + k;
        }
    }
    i == n
}

} // verus!
