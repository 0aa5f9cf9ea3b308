//! The scanner and the driver loop. The scanner turns one lookahead window
//! plus the two nesting stacks into a decision: how many bytes to consume and
//! whether they close a delimiter. The driver repeatedly fills the buffer,
//! scans, and hands the consumed bytes to the printer, so the whole
//! transformation is a function of the configuration and the input stream.

use crate::cli::{pat_source, ArgsStructured, Pattern};
use crate::printer::{push_spec, Printer, PrinterModel};
use crate::sliding_window::{min_int, utf8_view_len, SlidingWindow};
use crate::stream::{byte_ref, ByteSink, ByteSource, IoError};
use vstd::prelude::*;
use vstd::slice::slice_subrange;

verus! {

/// Lower `*val` to the start offset of a pattern match, when one was found.
pub fn merge_min(val: &mut usize, with: Option<(usize, usize)>)
    ensures
        *final(val) == merge_min_spec(*old(val) as int, with),
{
    if let Some((w, _)) = with {
        if w < *val {
            *val = w;
        }
    }
}

pub open spec fn merge_min_spec(val: int, with: Option<(usize, usize)>) -> int {
    match with {
        Some((s, _)) => if s < val {
            s as int
        } else {
            val
        },
        None => val,
    }
}

/// Both stacks hold only indices into their pattern lists.
pub open spec fn stacks_wf(np: int, nl: int, lits: Seq<usize>, pats: Seq<usize>) -> bool {
    &&& (forall|i: int| 0 <= i < lits.len() ==> lits[i] < nl)
    &&& (forall|i: int| 0 <= i < pats.len() ==> pats[i] < np)
}

/// The smallest match start over the opening patterns of the first `n`
/// pairs, folded onto `init`.
pub open spec fn min_start_upto(
    pairs: Seq<(Pattern, Pattern)>,
    text: Seq<u8>,
    n: int,
    init: int,
) -> int
    decreases n,
{
    if n <= 0 {
        init
    } else {
        merge_min_spec(min_start_upto(pairs, text, n - 1, init), pairs[n - 1].0.find_spec(text))
    }
}

/// The first pair (at or after `i`, in declaration order) whose opening
/// pattern matches at offset zero, with the match end.
pub open spec fn first_zero_match(pairs: Seq<(Pattern, Pattern)>, text: Seq<u8>, i: int) -> Option<
    (int, usize),
>
    decreases pairs.len() - i,
{
    if i < 0 || i >= pairs.len() {
        None
    } else {
        match pairs[i].0.find_spec(text) {
            Some((s, e)) => if s == 0 {
                Some((i, e))
            } else {
                first_zero_match(pairs, text, i + 1)
            },
            None => first_zero_match(pairs, text, i + 1),
        }
    }
}

/// One scanner decision over the window `text`: bytes to consume, whether
/// they close a delimiter, and the two stacks afterwards. Inside a literal
/// only the top literal's closing pattern is sought; otherwise the top
/// delimiter's closing pattern wins over openings, delimiter openings over
/// literal openings, earlier pairs over later ones; with no match at offset
/// zero, the bytes up to the earliest match anywhere (or the whole window)
/// pass through.
pub open spec fn scan_step(
    patterns: Seq<(Pattern, Pattern)>,
    literals: Seq<(Pattern, Pattern)>,
    lits: Seq<usize>,
    pats: Seq<usize>,
    text: Seq<u8>,
) -> (usize, bool, Seq<usize>, Seq<usize>) {
    if lits.len() > 0 {
        let c = literals[lits.last() as int].1.find_spec(text);
        match c {
            Some((s, e)) => if s == 0 {
                (e, false, lits.drop_last(), pats)
            } else {
                (s, false, lits, pats)
            },
            None => ((text.len() as usize), false, lits, pats),
        }
    } else {
        let closing = if pats.len() > 0 {
            patterns[pats.last() as int].1.find_spec(text)
        } else {
            None
        };
        let zc = match closing {
            Some((s, e)) => if s == 0 {
                Some(e)
            } else {
                None
            },
            None => None,
        };
        match zc {
            Some(e) => (e, true, lits, pats.drop_last()),
            None => match first_zero_match(patterns, text, 0) {
                Some((i, e)) => (e, false, lits, pats.push(i as usize)),
                None => match first_zero_match(literals, text, 0) {
                    Some((i, e)) => (e, false, lits.push(i as usize), pats),
                    None => {
                        let m0 = merge_min_spec(text.len() as int, closing);
                        let m1 = min_start_upto(patterns, text, patterns.len() as int, m0);
                        let m2 = min_start_upto(literals, text, literals.len() as int, m1);
                        ((m2 as usize), false, lits, pats)
                    },
                },
            },
        }
    }
}

/// Literal opacity: while a literal region is open, a scan step never
/// touches the delimiter stack and never reports a closing delimiter,
/// whatever delimiter patterns occur in the window.
pub proof fn lemma_literal_opacity(
    patterns: Seq<(Pattern, Pattern)>,
    literals: Seq<(Pattern, Pattern)>,
    lits: Seq<usize>,
    pats: Seq<usize>,
    text: Seq<u8>,
)
    requires
        lits.len() > 0,
    ensures
        ({
            let (c, closing, l2, p2) = scan_step(patterns, literals, lits, pats, text);
            &&& p2 == pats
            &&& !closing
            &&& (l2 == lits || l2 == lits.drop_last())
        }),
{
}

/// The larger of `cur` and a plain-text pattern's byte length (any other
/// pattern leaves `cur` as it is).
pub open spec fn consider_plain_len(p: Pattern, cur: int) -> int {
    if p is PlainText {
        let l = vstd::utf8::encode_utf8(pat_source(&p)).len() as usize;
        if l > cur {
            l as int
        } else {
            cur
        }
    } else {
        cur
    }
}

/// Every pattern of the configuration in scan order, flattened.
pub open spec fn flat_patterns(
    patterns: Seq<(Pattern, Pattern)>,
    literals: Seq<(Pattern, Pattern)>,
) -> Seq<Pattern> {
    Seq::new(
        2 * patterns.len(),
        |i: int|
            if i % 2 == 0 {
                patterns[i / 2].0
            } else {
                patterns[i / 2].1
            },
    ) + Seq::new(
        2 * literals.len(),
        |i: int|
            if i % 2 == 0 {
                literals[i / 2].0
            } else {
                literals[i / 2].1
            },
    )
}

/// The longest plain-text pattern's byte length over the first `n` flattened
/// patterns, at least `init`.
pub open spec fn max_plain_len_upto(s: Seq<Pattern>, n: int, init: int) -> int
    decreases n,
{
    if n <= 0 {
        init
    } else {
        consider_plain_len(s[n - 1], max_plain_len_upto(s, n - 1, init))
    }
}

/// What `pick_window_size` returns: the longest plain-text pattern byte
/// length (at least one), or four bytes per character of the regex window or
/// of the minimum block, whichever is largest.
pub open spec fn window_size_spec_of(args: &ArgsStructured) -> int {
    let flat = flat_patterns(args.patterns@, args.literals@);
    let m = max_plain_len_upto(flat, flat.len() as int, 1);
    let r = args.regex_window_size * 4;
    let b = args.min_block_size * 4;
    if m >= r && m >= b {
        m
    } else if r >= b {
        r
    } else {
        b
    }
}

/// Derive the lookahead window in bytes from the configuration: wide enough
/// for the longest plain-text pattern and for the configured regex window
/// and minimum block, at four bytes per character.
pub fn pick_window_size(args: &ArgsStructured) -> (w: usize)
    requires
        args.regex_window_size * 4 <= usize::MAX,
        args.min_block_size * 4 <= usize::MAX,
    ensures
        w == window_size_spec_of(args),
{
    let all = args.all_patterns_iterator();
    let ghost flat = flat_patterns(args.patterns@, args.literals@);
    proof {
        assert(all@.len() == flat.len());
    }
    let mut min_plaintext_window_bytes: usize = 1;
    let mut j: usize = 0;
    while j < all.len()
        invariant
            j <= all@.len(),
            all@.len() == flat.len(),
            all@.len() == 2 * (args.patterns@.len() + args.literals@.len()),
            forall|i: int|
                0 <= i < args.patterns@.len() ==> *(all@[2 * i]) == args.patterns@[i].0 && *(all@[2
                    * i + 1]) == args.patterns@[i].1,
            forall|i: int|
                0 <= i < args.literals@.len() ==> *(all@[2 * args.patterns@.len() + 2 * i])
                    == args.literals@[i].0 && *(all@[2 * args.patterns@.len() + 2 * i + 1])
                    == args.literals@[i].1,
            flat == flat_patterns(args.patterns@, args.literals@),
            min_plaintext_window_bytes as int == max_plain_len_upto(flat, j as int, 1),
        decreases all@.len() - j,
    {
        proof {
            let np = args.patterns@.len() as int;
            if j < 2 * np {
                if j % 2 == 0 {
                    assert(*(all@[2 * (j / 2)]) == args.patterns@[j as int / 2].0);
                } else {
                    assert(*(all@[2 * (j / 2) + 1]) == args.patterns@[j as int / 2].1);
                }
            } else {
                let i = (j - 2 * np) as int;
                if i % 2 == 0 {
                    assert(*(all@[2 * np + 2 * (i / 2)]) == args.literals@[i / 2].0);
                } else {
                    assert(*(all@[2 * np + 2 * (i / 2) + 1]) == args.literals@[i / 2].1);
                }
            }
            assert(*(all@[j as int]) == flat[j as int]);
        }
        let ghost prev = min_plaintext_window_bytes as int;
        match all[j].plaintext() {
            Some(s) => {
                let l = s.as_str().len();
                if l > min_plaintext_window_bytes {
                    min_plaintext_window_bytes = l;
                }
            },
            None => {},
        }
        proof {
            assert(min_plaintext_window_bytes as int == consider_plain_len(flat[j as int], prev));
            assert(max_plain_len_upto(flat, j + 1, 1) == consider_plain_len(
                flat[j as int],
                max_plain_len_upto(flat, j as int, 1),
            ));
        }
        j = j + 1;
    }
    let r = args.regex_window_size * 4;
    let b = args.min_block_size * 4;
    let mut window_size = min_plaintext_window_bytes;
    if r > window_size {
        window_size = r;
    }
    if b > window_size {
        window_size = b;
    }
    window_size
}

/// A scan step moves each stack by at most one entry, and reports a closing
/// delimiter exactly when it pops the delimiter stack; the indentation level
/// therefore changes by at most one per step.
pub proof fn lemma_scan_step_depth(
    patterns: Seq<(Pattern, Pattern)>,
    literals: Seq<(Pattern, Pattern)>,
    lits: Seq<usize>,
    pats: Seq<usize>,
    text: Seq<u8>,
)
    ensures
        ({
            let (c, closing, l2, p2) = scan_step(patterns, literals, lits, pats, text);
            &&& pats.len() - 1 <= p2.len() <= pats.len() + 1
            &&& lits.len() - 1 <= l2.len() <= lits.len() + 1
            &&& (closing <==> p2.len() == pats.len() - 1)
        }),
{
}

/// Returns the scanner's decision for the window `text` and updates the two
/// stacks in place.
pub fn single_iteration(
    args: &ArgsStructured,
    text: &[u8],
    literal_stack: &mut Vec<usize>,
    patterns_stack: &mut Vec<usize>,
) -> (r: (usize, bool))
    requires
        stacks_wf(
            args.patterns@.len() as int,
            args.literals@.len() as int,
            old(literal_stack)@,
            old(patterns_stack)@,
        ),
    ensures
        ({
            let (c, cl, l2, p2) = scan_step(
                args.patterns@,
                args.literals@,
                old(literal_stack)@,
                old(patterns_stack)@,
                text@,
            );
            &&& r.0 == c
            &&& r.1 == cl
            &&& final(literal_stack)@ == l2
            &&& final(patterns_stack)@ == p2
        }),
        r.0 <= text@.len(),
        stacks_wf(
            args.patterns@.len() as int,
            args.literals@.len() as int,
            final(literal_stack)@,
            final(patterns_stack)@,
        ),
{
    let text_len: usize = text.len();
    let mut max_possible_jump_bytes: usize = text_len;

    if literal_stack.len() > 0 {
        // Inside a literal: only its closing pattern is sought.
        let literal_idx = literal_stack[literal_stack.len() - 1];
        let closing_literal = &args.literals[literal_idx].1;
        let pos = closing_literal.find_in(text);
        merge_min(&mut max_possible_jump_bytes, pos);
        if let Some((s, e)) = pos {
            if s == 0 {
                literal_stack.pop();
                return (e, false);
            }
        }
        return (max_possible_jump_bytes, false);
    }
    let ghost closing_spec = if patterns_stack@.len() > 0 {
        args.patterns@[patterns_stack@.last() as int].1.find_spec(text@)
    } else {
        None
    };
    if patterns_stack.len() > 0 {
        // Check for the current delimiter closing.
        let pattern_idx = patterns_stack[patterns_stack.len() - 1];
        let closing_pattern = &args.patterns[pattern_idx].1;
        let pos = closing_pattern.find_in(text);
        merge_min(&mut max_possible_jump_bytes, pos);
        if let Some((s, e)) = pos {
            if s == 0 {
                patterns_stack.pop();
                return (e, true);
            }
        }
    }
    // Check for delimiters opening.
    let ghost m0 = max_possible_jump_bytes as int;
    let mut idx: usize = 0;
    while idx < args.patterns.len()
        invariant
            idx <= args.patterns@.len(),
            stacks_wf(
                args.patterns@.len() as int,
                args.literals@.len() as int,
                old(literal_stack)@,
                old(patterns_stack)@,
            ),
            literal_stack@ == old(literal_stack)@,
            patterns_stack@ == old(patterns_stack)@,
            old(literal_stack)@.len() == 0,
            closing_spec == (if old(patterns_stack)@.len() > 0 {
                args.patterns@[old(patterns_stack)@.last() as int].1.find_spec(text@)
            } else {
                None::<(usize, usize)>
            }),
            match closing_spec {
                Some((s, _)) => s != 0,
                None => true,
            },
            m0 == merge_min_spec(text@.len() as int, closing_spec),
            max_possible_jump_bytes as int == min_start_upto(args.patterns@, text@, idx as int, m0),
            max_possible_jump_bytes <= text@.len(),
            first_zero_match(args.patterns@, text@, 0) == first_zero_match(
                args.patterns@,
                text@,
                idx as int,
            ),
        decreases args.patterns@.len() - idx,
    {
        let pos = args.patterns[idx].0.find_in(text);
        merge_min(&mut max_possible_jump_bytes, pos);
        if let Some((s, e)) = pos {
            if s == 0 {
                patterns_stack.push(idx);
                proof {
                    assert(first_zero_match(args.patterns@, text@, idx as int) == Some(
                        (idx as int, e),
                    ));
                    assert(patterns_stack@ == old(patterns_stack)@.push(idx));
                    assert forall|i: int| 0 <= i < patterns_stack@.len() implies patterns_stack@[i]
                        < args.patterns@.len() by {
                        if i < patterns_stack@.len() - 1 {
                            assert(patterns_stack@[i] == old(patterns_stack)@[i]);
                        } else {
                            assert(patterns_stack@[i] == idx);
                        }
                    }
                }
                return (e, false);
            }
        }
        idx = idx + 1;
    }
    // Check for literals opening.
    let ghost m1 = max_possible_jump_bytes as int;
    let mut jdx: usize = 0;
    while jdx < args.literals.len()
        invariant
            jdx <= args.literals@.len(),
            stacks_wf(
                args.patterns@.len() as int,
                args.literals@.len() as int,
                old(literal_stack)@,
                old(patterns_stack)@,
            ),
            literal_stack@ == old(literal_stack)@,
            patterns_stack@ == old(patterns_stack)@,
            old(literal_stack)@.len() == 0,
            closing_spec == (if old(patterns_stack)@.len() > 0 {
                args.patterns@[old(patterns_stack)@.last() as int].1.find_spec(text@)
            } else {
                None::<(usize, usize)>
            }),
            match closing_spec {
                Some((s, _)) => s != 0,
                None => true,
            },
            m0 == merge_min_spec(text@.len() as int, closing_spec),
            first_zero_match(args.patterns@, text@, 0) is None,
            m1 == min_start_upto(args.patterns@, text@, args.patterns@.len() as int, m0),
            max_possible_jump_bytes as int == min_start_upto(args.literals@, text@, jdx as int, m1),
            max_possible_jump_bytes <= text@.len(),
            first_zero_match(args.literals@, text@, 0) == first_zero_match(
                args.literals@,
                text@,
                jdx as int,
            ),
        decreases args.literals@.len() - jdx,
    {
        let pos = args.literals[jdx].0.find_in(text);
        merge_min(&mut max_possible_jump_bytes, pos);
        if let Some((s, e)) = pos {
            if s == 0 {
                literal_stack.push(jdx);
                proof {
                    assert(first_zero_match(args.literals@, text@, jdx as int) == Some(
                        (jdx as int, e),
                    ));
                    assert(literal_stack@ == old(literal_stack)@.push(jdx));
                    assert forall|i: int| 0 <= i < literal_stack@.len() implies literal_stack@[i]
                        < args.literals@.len() by {
                        if i < literal_stack@.len() - 1 {
                            assert(literal_stack@[i] == old(literal_stack)@[i]);
                        } else {
                            assert(literal_stack@[i] == jdx);
                        }
                    }
                }
                return (e, false);
            }
        }
        jdx = jdx + 1;
    }
    (max_possible_jump_bytes, false)
}

/// Window safety: once filled, the buffer stores a full window of bytes, or
/// the whole stream if less is left; the text view handed to a pattern
/// search is at most three bytes (one truncated character) shorter.
pub proof fn lemma_window_safety<R: ByteSource>(reader: SlidingWindow<R>)
    requires
        reader.stored().len() == min_int(
            reader.window_size_spec(),
            reader.stream().len() as int,
        ),
    ensures
        reader.view_seq().len() >= min_int(
            reader.window_size_spec(),
            reader.stream().len() as int,
        ) - 3,
{
    crate::sliding_window::lemma_view_truncates_at_most_three(reader.stored());
}

/// `data` with every line-break byte replaced by `marker`.
pub open spec fn escaped_newlines(data: Seq<u8>, marker: Seq<u8>) -> Seq<u8>
    decreases data.len(),
    via escaped_newlines_decreases
{
    let k = crate::printer::first_nl(data);
    if k == data.len() {
        data
    } else {
        data.take(k) + marker + escaped_newlines(data.skip(k + 1), marker)
    }
}

#[via_fn]
proof fn escaped_newlines_decreases(data: Seq<u8>, marker: Seq<u8>) {
    crate::printer::lemma_first_nl_le(data);
}

/// Write `data` to the sink with each line break drawn as `marker` (a
/// visible stand-in for diagnostics), returning how many bytes went out.
pub fn write_escaped_newlines<S: ByteSink>(writer: &mut S, data: &[u8], marker: &[u8]) -> (r:
    Result<usize, IoError>)
    requires
        escaped_newlines(data@, marker@).len() <= usize::MAX,
    ensures
        match r {
            Ok(n) => final(writer).content() == old(writer).content() + escaped_newlines(
                data@,
                marker@,
            ) && n == escaped_newlines(data@, marker@).len(),
            Err(_) => crate::printer::content_prefix(
                old(writer).content(),
                escaped_newlines(data@, marker@),
                final(writer).content(),
            ),
        },
{
    let ghost full = escaped_newlines(data@, marker@);
    let n = data.len();
    let ml: usize = marker.len();
    let mut pos: usize = 0;
    let mut total: usize = 0;
    let mut done = false;
    proof {
        assert(data@.skip(0) =~= data@);
        assert(old(writer).content() + Seq::<u8>::empty() =~= old(writer).content());
    }
    while !done
        invariant
            pos <= n,
            n == data@.len(),
            marker@.len() == ml,
            full == escaped_newlines(data@, marker@),
            full.len() <= usize::MAX,
            !done ==> ({
                &&& writer.content() == old(writer).content() + full.take(total as int)
                &&& full == full.take(total as int) + escaped_newlines(
                    data@.skip(pos as int),
                    marker@,
                )
                &&& total <= full.len()
            }),
            done ==> (writer.content() == old(writer).content() + full && total == full.len()),
        decreases n - pos, (if done {
            0int
        } else {
            1int
        }),
    {
        let ghost rest = data@.skip(pos as int);
        let ghost entry_pos = pos;
        let ghost entry_total = total as int;
        let mut k: usize = pos;
        while k < n && *byte_ref(data, k) != crate::printer::NEWLINE_BYTE
            invariant
                pos <= k <= n,
                n == data@.len(),
                forall|j: int| pos <= j < k ==> data@[j] != crate::printer::NEWLINE_BYTE,
            decreases n - k,
        {
            k = k + 1;
        }
        proof {
            assert(forall|j: int| 0 <= j < k - pos ==> rest[j] == data@[pos + j]);
            crate::printer::lemma_first_nl_is(rest, k - pos);
            assert(rest.take(k - pos) =~= data@.subrange(pos as int, k as int));
        }
        let part = slice_subrange(data, pos, k);
        proof {
            if k == n as usize {
                assert(rest.take(k - pos) =~= rest);
                assert(escaped_newlines(rest, marker@) == rest);
            }
            assert(full.take(entry_total) + escaped_newlines(rest, marker@) == full);
            crate::printer::lemma_first_nl_le(rest);
        }
        match writer.write_bytes(part) {
            Ok(()) => {},
            Err(e) => {
                proof {
                    let kk = choose|kk: int|
                        0 <= kk <= part@.len() && writer.content() == (old(writer).content()
                            + full.take(entry_total)) + #[trigger] part@.take(kk);
                    assert(full.take(entry_total + kk) =~= full.take(entry_total) + part@.take(
                        kk,
                    ));
                    assert(writer.content() =~= old(writer).content() + full.take(
                        entry_total + kk,
                    ));
                    assert(crate::printer::content_prefix(
                        old(writer).content(),
                        full,
                        writer.content(),
                    ));
                }
                return Err(e);
            },
        }
        total = total + (k - pos);
        if k == n {
            done = true;
            proof {
                assert(full.take(entry_total) + rest =~= full);
                assert(full.take(total as int) =~= full);
                assert(old(writer).content() + full.take(entry_total) + rest =~= old(
                    writer,
                ).content() + full);
            }
        } else {
            let ghost cpre = writer.content();
            match writer.write_bytes(marker) {
                Ok(()) => {},
                Err(e) => {
                    proof {
                        assert(escaped_newlines(rest, marker@) == rest.take(k - entry_pos)
                            + marker@ + escaped_newlines(rest.skip(k - entry_pos + 1), marker@));
                        assert(full.take(total as int) =~= full.take(entry_total) + rest.take(
                            k - entry_pos,
                        ));
                        assert(cpre =~= old(writer).content() + full.take(total as int));
                        let kk = choose|kk: int|
                            0 <= kk <= marker@.len() && writer.content() == cpre
                                + #[trigger] marker@.take(kk);
                        assert(full.take(total + kk) =~= full.take(total as int) + marker@.take(
                            kk,
                        ));
                        assert(writer.content() =~= old(writer).content() + full.take(total + kk));
                        assert(crate::printer::content_prefix(
                            old(writer).content(),
                            full,
                            writer.content(),
                        ));
                    }
                    return Err(e);
                },
            }
            total = total + marker.len();
            pos = k + 1;
            proof {
                let rest2 = data@.skip(pos as int);
                assert(rest.skip(k - entry_pos + 1) =~= rest2);
                assert(escaped_newlines(rest, marker@) == rest.take(k - entry_pos) + marker@
                    + escaped_newlines(rest2, marker@));
                assert(full.take(entry_total) + (rest.take(k - entry_pos) + marker@
                    + escaped_newlines(rest2, marker@)) =~= (full.take(entry_total) + rest.take(
                    k - entry_pos,
                ) + marker@) + escaped_newlines(rest2, marker@));
                assert(full.take(total as int) =~= full.take(entry_total) + rest.take(
                    k - entry_pos,
                ) + marker@);
                assert(old(writer).content() + full.take(entry_total) + rest.take(k - entry_pos)
                    + marker@ =~= old(writer).content() + full.take(total as int));
            }
        }
    }
    Ok(total)
}

/// What the printer receives for one consumed run of bytes: the bytes are
/// handed over in chunks of at most 1024, each as one segment.
pub open spec fn emit_chunks(
    pst: PrinterModel,
    bytes: Seq<u8>,
    ind: int,
    lit: bool,
    closing: bool,
) -> (Seq<u8>, PrinterModel)
    decreases bytes.len(),
{
    if bytes.len() <= 1024 {
        push_spec(pst, bytes, ind, lit, closing)
    } else {
        let (o1, p1) = push_spec(pst, bytes.take(1024), ind, lit, closing);
        let (o2, p2) = emit_chunks(p1, bytes.skip(1024), ind, lit, closing);
        (o1 + o2, p2)
    }
}

/// The whole run as a function of the configuration and the input stream:
/// the formatted output and the final nesting stacks and printer state. Each
/// round sees a filled window (a full `w` bytes, or all that is left), scans
/// its text view, and hands the consumed bytes to the printer; the run ends
/// when the view is empty or the scanner consumes nothing.
pub open spec fn run_spec(
    patterns: Seq<(Pattern, Pattern)>,
    literals: Seq<(Pattern, Pattern)>,
    w: int,
    lits: Seq<usize>,
    pats: Seq<usize>,
    pst: PrinterModel,
    stream: Seq<u8>,
) -> (Seq<u8>, Seq<usize>, Seq<usize>, PrinterModel)
    decreases stream.len(),
{
    let stored = stream.take(min_int(w, stream.len() as int));
    let view = stored.take(utf8_view_len(stored));
    if view.len() == 0 {
        (Seq::empty(), lits, pats, pst)
    } else {
        let (c, closing, l2, p2) = scan_step(patterns, literals, lits, pats, view);
        if c < 1 || c > stream.len() {
            (Seq::empty(), l2, p2, pst)
        } else {
            let (o1, pst2) = emit_chunks(
                pst,
                stream.take(c as int),
                p2.len() as int,
                l2.len() > 0,
                closing,
            );
            let (o2, l3, p3, pst3) = run_spec(
                patterns,
                literals,
                w,
                l2,
                p2,
                pst2,
                stream.skip(c as int),
            );
            (o1 + o2, l3, p3, pst3)
        }
    }
}

/// Consume `bytes_to_consume` bytes of the stream and hand them to the
/// printer in chunks of at most 1024, each as one classified segment.
#[verifier::rlimit(100)]
fn consume_segment<R: ByteSource, S: ByteSink>(
    reader: &mut SlidingWindow<R>,
    printer: &mut Printer<S>,
    buf: &mut Vec<u8>,
    bytes_to_consume: usize,
    indent_level: usize,
    is_literal: bool,
    is_closing: bool,
) -> (r: Result<(), IoError>)
    requires
        old(reader).wf(),
        old(buf)@.len() == 1024,
        1 <= bytes_to_consume <= old(reader).stream().len(),
    ensures
        final(reader).wf(),
        final(buf)@.len() == 1024,
        final(reader).window_size_spec() == old(reader).window_size_spec(),
        final(printer).min_block() == old(printer).min_block(),
        ({
            let (o1, pst2) = emit_chunks(
                old(printer).pstate(),
                old(reader).stream().take(bytes_to_consume as int),
                indent_level as int,
                is_literal,
                is_closing,
            );
            match r {
                Ok(()) => {
                    &&& final(printer).content() == old(printer).content() + o1
                    &&& final(printer).pstate() == pst2
                    &&& final(reader).stream() == old(reader).stream().skip(
                        bytes_to_consume as int,
                    )
                },
                Err(_) => crate::printer::content_prefix(
                    old(printer).content(),
                    o1,
                    final(printer).content(),
                ),
            }
        }),
{
    let ghost seg_stream = reader.stream();
    let ghost chunk_pst = printer.pstate();
    let ghost chunk_content = printer.content();
    let ghost c = bytes_to_consume as int;
    let ghost o1g = emit_chunks(
        chunk_pst,
        seg_stream.take(c),
        indent_level as int,
        is_literal,
        is_closing,
    ).0;
    let ghost mut iw: int = 0;
    proof {
        assert(seg_stream.subrange(0, c) =~= seg_stream.take(c));
        assert(o1g.take(0) =~= Seq::<u8>::empty());
        assert(chunk_content + o1g.take(0) =~= chunk_content);
    }
    let mut total_consumed: usize = 0;
    while total_consumed < bytes_to_consume
        invariant
            o1g == emit_chunks(
                chunk_pst,
                seg_stream.take(c),
                indent_level as int,
                is_literal,
                is_closing,
            ).0,
            chunk_content == old(printer).content(),
            chunk_pst == old(printer).pstate(),
            seg_stream == old(reader).stream(),
            0 <= iw <= o1g.len(),
            printer.content() == chunk_content + o1g.take(iw),
            reader.wf(),
            buf@.len() == 1024,
            reader.window_size_spec() == old(reader).window_size_spec(),
            total_consumed <= bytes_to_consume,
            c == bytes_to_consume as int,
            c <= seg_stream.len(),
            reader.stream() == seg_stream.skip(total_consumed as int),
            printer.min_block() == old(printer).min_block(),
            ({
                let (full_o, full_p) = emit_chunks(
                    chunk_pst,
                    seg_stream.take(c),
                    indent_level as int,
                    is_literal,
                    is_closing,
                );
                let (rest_o, rest_p) = emit_chunks(
                    printer.pstate(),
                    seg_stream.subrange(total_consumed as int, c),
                    indent_level as int,
                    is_literal,
                    is_closing,
                );
                &&& chunk_content + full_o == printer.content() + rest_o
                &&& full_p == rest_p
            }),
        decreases bytes_to_consume - total_consumed,
    {
        let remaining = bytes_to_consume - total_consumed;
        let to_read = if remaining < 1024 {
            remaining
        } else {
            1024
        };
        let ghost pre_rest = seg_stream.subrange(total_consumed as int, c);
        let ghost pre_pst = printer.pstate();
        let ghost pre_content = printer.content();
        let was_read = match reader.read(buf, to_read) {
            Ok(n) => n,
            Err(e) => {
                proof {
                    assert(crate::printer::content_prefix(
                        old(printer).content(),
                        o1g,
                        printer.content(),
                    ));
                }
                return Err(e);
            },
        };
        proof {
            assert(was_read == to_read);
        }
        let piece = slice_subrange(buf.as_slice(), 0, was_read);
        proof {
            assert(piece@ =~= pre_rest.take(to_read as int));
        }
        match printer.push_segment(piece, indent_level, is_literal, is_closing) {
            Ok(()) => {},
            Err(e) => {
                proof {
                    let ind = indent_level as int;
                    let (pe_o, pe_p) = emit_chunks(pre_pst, pre_rest, ind, is_literal, is_closing);
                    let s_o = push_spec(pre_pst, piece@, ind, is_literal, is_closing).0;
                    if pre_rest.len() <= 1024 {
                        assert(pre_rest.take(to_read as int) =~= pre_rest);
                        assert(pe_o == s_o);
                    } else {
                        assert(pre_rest.take(1024) =~= pre_rest.take(to_read as int));
                    }
                    assert((chunk_content + o1g).skip(chunk_content.len() as int) =~= o1g);
                    assert((pre_content + pe_o).skip(chunk_content.len() as int) =~= o1g.take(iw)
                        + pe_o);
                    assert(o1g =~= o1g.take(iw) + pe_o);
                    let k = choose|k: int|
                        0 <= k <= s_o.len() && printer.content() == pre_content + #[trigger] s_o.take(
                            k,
                        );
                    assert(o1g.take(iw + k) =~= o1g.take(iw) + s_o.take(k));
                    assert(printer.content() =~= old(printer).content() + o1g.take(iw + k));
                    assert(crate::printer::content_prefix(
                        old(printer).content(),
                        o1g,
                        printer.content(),
                    ));
                }
                return Err(e);
            },
        }
        total_consumed = total_consumed + was_read;
        proof {
            assert(reader.stream() =~= seg_stream.skip(total_consumed as int));
            let ind = indent_level as int;
            let (full_o, full_p) = emit_chunks(
                chunk_pst,
                seg_stream.take(c),
                ind,
                is_literal,
                is_closing,
            );
            let new_rest = seg_stream.subrange(total_consumed as int, c);
            let (pe_o, pe_p) = emit_chunks(pre_pst, pre_rest, ind, is_literal, is_closing);
            let (nr_o, nr_p) = emit_chunks(printer.pstate(), new_rest, ind, is_literal, is_closing);
            let (s_o, s_p) = push_spec(pre_pst, piece@, ind, is_literal, is_closing);
            if pre_rest.len() <= 1024 {
                assert(pre_rest.take(to_read as int) =~= pre_rest);
                assert(new_rest =~= Seq::<u8>::empty());
                assert(nr_o =~= Seq::<u8>::empty());
                assert(pe_o == s_o && pe_p == s_p);
                assert(printer.content() =~= pre_content + pe_o);
                assert(chunk_content + full_o =~= (pre_content + pe_o) + nr_o);
            } else {
                assert(pre_rest.take(1024) =~= pre_rest.take(to_read as int));
                assert(pre_rest.skip(1024) =~= new_rest);
                assert(pe_o == s_o + nr_o && pe_p == nr_p);
                assert(chunk_content + full_o =~= pre_content + (s_o + nr_o));
                assert(pre_content + (s_o + nr_o) =~= (pre_content + s_o) + nr_o);
                assert(printer.content() =~= pre_content + s_o);
            }
            assert((chunk_content + o1g).skip(chunk_content.len() as int) =~= o1g);
            assert((pre_content + pe_o).skip(chunk_content.len() as int) =~= o1g.take(iw) + pe_o);
            assert(o1g =~= o1g.take(iw) + pe_o);
            iw = iw + s_o.len();
            assert(o1g.take(iw) =~= o1g.take(iw - s_o.len()) + s_o);
            assert(printer.content() =~= chunk_content + o1g.take(iw));
        }
    }
    proof {
        assert(seg_stream.subrange(c, c) =~= Seq::<u8>::empty());
        let (last_o, last_p) = emit_chunks(
            printer.pstate(),
            seg_stream.subrange(c, c),
            indent_level as int,
            is_literal,
            is_closing,
        );
        assert(last_o =~= Seq::<u8>::empty());
        assert(chunk_content + emit_chunks(
            chunk_pst,
            seg_stream.take(c),
            indent_level as int,
            is_literal,
            is_closing,
        ).0 =~= printer.content() + last_o);
    }
    Ok(())
}

/// Drive the formatter to the end of the stream: fill, scan, consume, print,
/// until the text view is empty or a scan consumes nothing. The output and
/// the final stacks depend only on the configuration, the window size, the
/// starting state, and the bytes of the stream.
#[verifier::rlimit(100)]
pub fn run<R: ByteSource, S: ByteSink>(
    args: &ArgsStructured,
    reader: &mut SlidingWindow<R>,
    printer: &mut Printer<S>,
    literal_stack: &mut Vec<usize>,
    patterns_stack: &mut Vec<usize>,
) -> (r: Result<(), IoError>)
    requires
        old(reader).wf(),
        stacks_wf(
            args.patterns@.len() as int,
            args.literals@.len() as int,
            old(literal_stack)@,
            old(patterns_stack)@,
        ),
    ensures
        final(reader).wf(),
        match r {
            Ok(()) => ({
                let (out, l2, p2, _) = run_spec(
                    args.patterns@,
                    args.literals@,
                    old(reader).window_size_spec(),
                    old(literal_stack)@,
                    old(patterns_stack)@,
                    old(printer).pstate(),
                    old(reader).stream(),
                );
                &&& final(printer).content() == old(printer).content() + out
                &&& final(literal_stack)@ == l2
                &&& final(patterns_stack)@ == p2
                &&& stacks_wf(
                    args.patterns@.len() as int,
                    args.literals@.len() as int,
                    l2,
                    p2,
                )
            }),
            Err(_) => ({
                let (out, l2, p2, _) = run_spec(
                    args.patterns@,
                    args.literals@,
                    old(reader).window_size_spec(),
                    old(literal_stack)@,
                    old(patterns_stack)@,
                    old(printer).pstate(),
                    old(reader).stream(),
                );
                crate::printer::content_prefix(old(printer).content(), out, final(printer).content())
            }),
        },
{
    let ghost init = (old(literal_stack)@, old(patterns_stack)@, old(printer).pstate(), old(
        reader,
    ).stream());
    let ghost total = run_spec(
        args.patterns@,
        args.literals@,
        old(reader).window_size_spec(),
        init.0,
        init.1,
        init.2,
        init.3,
    );
    let mut buf: Vec<u8> = vec![0u8; 1024];
    let mut done = false;
    proof {
        assert(total.0.take(0) =~= Seq::<u8>::empty());
        assert(old(printer).content() + total.0.take(0) =~= old(printer).content());
    }
    let ghost mut written: int = 0;
    while !done
        invariant
            init == (old(literal_stack)@, old(patterns_stack)@, old(printer).pstate(), old(
                reader,
            ).stream()),
            0 <= written <= total.0.len(),
            !done ==> printer.content() == old(printer).content() + total.0.take(written),
            reader.wf(),
            buf@.len() == 1024,
            reader.window_size_spec() == old(reader).window_size_spec(),
            printer.min_block() == old(printer).min_block(),
            stacks_wf(
                args.patterns@.len() as int,
                args.literals@.len() as int,
                literal_stack@,
                patterns_stack@,
            ),
            total == run_spec(
                args.patterns@,
                args.literals@,
                old(reader).window_size_spec(),
                init.0,
                init.1,
                init.2,
                init.3,
            ),
            !done ==> ({
                let (out, l2, p2, pst) = run_spec(
                    args.patterns@,
                    args.literals@,
                    old(reader).window_size_spec(),
                    literal_stack@,
                    patterns_stack@,
                    printer.pstate(),
                    reader.stream(),
                );
                &&& old(printer).content() + total.0 == printer.content() + out
                &&& total.1 == l2
                &&& total.2 == p2
            }),
            done ==> (printer.content() == old(printer).content() + total.0 && literal_stack@
                == total.1 && patterns_stack@ == total.2),
        decreases reader.stream().len(), (if done {
            0int
        } else {
            1int
        }),
    {
        let ghost round_stream = reader.stream();
        let ghost round_lits = literal_stack@;
        let ghost round_pats = patterns_stack@;
        let ghost round_pst = printer.pstate();
        let ghost round_content = printer.content();
        match reader.fill() {
            Ok(()) => {},
            Err(e) => {
                proof {
                    assert(printer.content() == old(printer).content() + total.0.take(written));
                    assert(crate::printer::content_prefix(
                        old(printer).content(),
                        total.0,
                        printer.content(),
                    ));
                }
                return Err(e);
            },
        }
        let text = reader.get_window_utf8();
        if text.len() == 0 {
            done = true;
            proof {
                let (out_r, l2r, p2r, pst_r) = run_spec(
                    args.patterns@,
                    args.literals@,
                    old(reader).window_size_spec(),
                    round_lits,
                    round_pats,
                    round_pst,
                    round_stream,
                );
                assert(out_r =~= Seq::<u8>::empty());
                assert(round_content + out_r =~= round_content);
            }
        } else {
            let (bytes_to_consume, is_closing) = single_iteration(
                args,
                text,
                literal_stack,
                patterns_stack,
            );
            if bytes_to_consume == 0 {
                done = true;
                proof {
                    let (out_r, l2r, p2r, pst_r) = run_spec(
                        args.patterns@,
                        args.literals@,
                        old(reader).window_size_spec(),
                        round_lits,
                        round_pats,
                        round_pst,
                        round_stream,
                    );
                    assert(out_r =~= Seq::<u8>::empty());
                    assert(round_content + out_r =~= round_content);
                }
            } else {
                let is_literal = literal_stack.len() > 0;
                let indent_level = patterns_stack.len();
                let ghost seg_stream = reader.stream();
                let ghost chunk_pst = printer.pstate();
                let ghost chunk_content = printer.content();
                let ghost c = bytes_to_consume as int;
                let ghost w0 = old(reader).window_size_spec();
                let ghost o1g = emit_chunks(
                    chunk_pst,
                    seg_stream.take(c),
                    patterns_stack@.len() as int,
                    literal_stack@.len() > 0,
                    is_closing,
                ).0;
                let ghost o2g = run_spec(
                    args.patterns@,
                    args.literals@,
                    w0,
                    literal_stack@,
                    patterns_stack@,
                    emit_chunks(
                        chunk_pst,
                        seg_stream.take(c),
                        patterns_stack@.len() as int,
                        literal_stack@.len() > 0,
                        is_closing,
                    ).1,
                    seg_stream.skip(c),
                ).0;
                proof {
                    assert(seg_stream == round_stream);
                    assert(c <= seg_stream.len());
                    let (out_r, l2r, p2r, pst_r) = run_spec(
                        args.patterns@,
                        args.literals@,
                        w0,
                        round_lits,
                        round_pats,
                        round_pst,
                        round_stream,
                    );
                    assert(out_r == o1g + o2g);
                    let base = old(printer).content();
                    assert(chunk_content.skip(base.len() as int) =~= total.0.take(written));
                    assert((base + total.0).skip(base.len() as int) =~= total.0);
                    assert((chunk_content + out_r).skip(base.len() as int) =~= chunk_content.skip(
                        base.len() as int,
                    ) + out_r);
                    assert(total.0 =~= total.0.take(written) + (o1g + o2g));
                }
                match consume_segment(
                    reader,
                    printer,
                    &mut buf,
                    bytes_to_consume,
                    indent_level,
                    is_literal,
                    is_closing,
                ) {
                    Ok(()) => {},
                    Err(e) => {
                        proof {
                            let k = choose|k: int|
                                0 <= k <= o1g.len() && printer.content() == chunk_content
                                    + #[trigger] o1g.take(k);
                            assert(total.0.take(written + k) =~= total.0.take(written) + o1g.take(
                                k,
                            ));
                            assert(printer.content() =~= old(printer).content() + total.0.take(
                                written + k,
                            ));
                            assert(crate::printer::content_prefix(
                                old(printer).content(),
                                total.0,
                                printer.content(),
                            ));
                        }
                        return Err(e);
                    },
                }
                proof {
                    written = written + o1g.len();
                    assert(total.0.take(written) =~= total.0.take(written - o1g.len()) + o1g);
                    let (out_r, l2r, p2r, pst_r) = run_spec(
                        args.patterns@,
                        args.literals@,
                        w0,
                        round_lits,
                        round_pats,
                        round_pst,
                        round_stream,
                    );
                    let (o1, pst2) = emit_chunks(
                        round_pst,
                        round_stream.take(c),
                        patterns_stack@.len() as int,
                        literal_stack@.len() > 0,
                        is_closing,
                    );
                    let (o2, l3, p3, pst3) = run_spec(
                        args.patterns@,
                        args.literals@,
                        w0,
                        literal_stack@,
                        patterns_stack@,
                        pst2,
                        round_stream.skip(c),
                    );
                    assert(out_r == o1 + o2);
                    assert(round_content + (o1 + o2) =~= (round_content + o1) + o2);
                    assert(printer.content() =~= round_content + o1);
                    assert(printer.pstate() == pst2);
                    assert(printer.content() =~= old(printer).content() + total.0.take(written));
                }
            }
        }
    }
    Ok(())
}

} // verus!
