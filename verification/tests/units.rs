use indentor::cli::{regex_new, structure, Args, Error, Pattern};
use indentor::driver::{merge_min, pick_window_size, single_iteration, write_escaped_newlines};
use indentor::printer::{is_only_whitespace, Printer};
use indentor::sliding_window::SlidingWindow;
use indentor::stream::{VecSink, VecSource};

fn args_with(
    patterns: &[&str],
    patterns_regex: &[&str],
    literals: &[&str],
    literals_regex: &[&str],
) -> Args {
    Args {
        patterns: patterns.iter().map(|s| s.to_string()).collect(),
        patterns_regex: patterns_regex.iter().map(|s| s.to_string()).collect(),
        literals: literals.iter().map(|s| s.to_string()).collect(),
        literals_regex: literals_regex.iter().map(|s| s.to_string()).collect(),
        min_block_size: 1,
        regex_window_size: 1,
        disallow_escaping: false,
        escape_sequence: "\\".to_string(),
    }
}

#[test]
fn plaintext_find_earliest_occurrence() {
    let p = Pattern::PlainText("ab".to_string());
    assert_eq!(p.find_in(b"xxabyab"), Some((2, 4)));
    assert_eq!(p.find_in(b"xxx"), None);
    assert_eq!(p.find_in(b""), None);
    assert!(p.is_plaintext());
    assert!(!p.is_regex());
    assert_eq!(p.plaintext().map(|s| s.as_str()), Some("ab"));
}

#[test]
fn regex_find_reports_byte_offsets() {
    let c = regex_new("[0-9]+").unwrap();
    assert_eq!(c.source().as_str(), "[0-9]+");
    let p = Pattern::Regex(c);
    assert!(p.is_regex());
    assert!(p.regex().is_some());
    assert_eq!(p.find_in(b"ab123x9"), Some((2, 5)));
    assert_eq!(p.find_in(b"abc"), None);
}

#[test]
fn invalid_regex_is_collected_not_dropped() {
    let r = structure(args_with(&[], &["(", "x"], &[], &["[0-9]+", "[" ]));
    match r {
        Err(Error::RegexesNotCompiled(v)) => {
            let texts: Vec<&str> = v.iter().map(|(t, _)| t.as_str()).collect();
            assert_eq!(texts, vec!["(", "["]);
        },
        _ => panic!("expected a compilation error"),
    }
}

#[test]
fn structure_pairs_up_patterns_in_order() {
    let cfg = structure(args_with(
        &["(", ")", "[", "]", "{"],
        &["<<", ">>"],
        &["\"", "\""],
        &[],
    ))
    .unwrap();
    // the trailing unpaired "{" is dropped; regex pairs follow plain pairs
    assert_eq!(cfg.patterns.len(), 3);
    assert_eq!(cfg.patterns[0].0.plaintext().map(|s| s.as_str()), Some("("));
    assert_eq!(cfg.patterns[1].1.plaintext().map(|s| s.as_str()), Some("]"));
    assert!(cfg.patterns[2].0.is_regex());
    assert_eq!(
        cfg.patterns[2].0.regex().map(|c| c.source().as_str()),
        Some("<<")
    );
    assert_eq!(cfg.literals.len(), 1);
    let all = cfg.all_patterns_iterator();
    assert_eq!(all.len(), 8);
}

#[test]
fn pick_window_size_takes_the_largest_bound() {
    let cfg = structure(args_with(&["(", ")"], &[], &["<!--", "-->"], &[])).unwrap();
    // longest plain pattern is four bytes; the regex and block windows are
    // one character, four bytes each
    assert_eq!(pick_window_size(&cfg), 4);
    let mut cfg2 = structure(args_with(&["(", ")"], &[], &[], &[])).unwrap();
    cfg2.regex_window_size = 100;
    assert_eq!(pick_window_size(&cfg2), 400);
}

#[test]
fn merge_min_keeps_the_smaller_start() {
    let mut v: usize = 10;
    merge_min(&mut v, Some((4, 9)));
    assert_eq!(v, 4);
    merge_min(&mut v, Some((7, 8)));
    assert_eq!(v, 4);
    merge_min(&mut v, None);
    assert_eq!(v, 4);
}

#[test]
fn scanner_prefers_closing_then_declaration_order() {
    let cfg = structure(args_with(&["(", ")", "[", "]"], &[], &["\"", "\""], &[])).unwrap();
    let mut lits: Vec<usize> = Vec::new();
    let mut pats: Vec<usize> = Vec::new();
    // both "(" and "[" open here; "(" is declared first and both start at 0
    assert_eq!(single_iteration(&cfg, b"(x", &mut lits, &mut pats), (1, false));
    assert_eq!(pats, vec![0]);
    // the top delimiter's closing pattern wins at offset zero
    assert_eq!(single_iteration(&cfg, b")x", &mut lits, &mut pats), (1, true));
    assert!(pats.is_empty());
    // a literal opening suppresses delimiter recognition afterwards
    assert_eq!(single_iteration(&cfg, b"\"([", &mut lits, &mut pats), (1, false));
    assert_eq!(lits, vec![0]);
    assert_eq!(single_iteration(&cfg, b"([\"x", &mut lits, &mut pats), (2, false));
    assert_eq!(lits, vec![0]);
    assert!(pats.is_empty());
}

#[test]
fn scanner_passes_through_to_earliest_match() {
    let cfg = structure(args_with(&["(", ")"], &[], &["\"", "\""], &[])).unwrap();
    let mut lits: Vec<usize> = Vec::new();
    let mut pats: Vec<usize> = Vec::new();
    assert_eq!(
        single_iteration(&cfg, b"abc(def", &mut lits, &mut pats),
        (3, false)
    );
    assert_eq!(
        single_iteration(&cfg, b"no match here", &mut lits, &mut pats),
        (13, false)
    );
    assert!(lits.is_empty() && pats.is_empty());
}

#[test]
fn window_guarantees_lookahead_until_end_of_stream() {
    let source = VecSource::new(b"abcdefghij".to_vec(), 1);
    let mut w = SlidingWindow::new(4, source);
    w.fill().unwrap();
    assert_eq!(w.get_window(), b"abcd");
    let mut buf = vec![0u8; 3];
    assert_eq!(w.read(&mut buf, 3).unwrap(), 3);
    assert_eq!(&buf[..3], b"abc");
    w.fill().unwrap();
    assert_eq!(w.get_window(), b"defg");
    // near the end, the window holds whatever is left
    assert_eq!(w.consume(5).unwrap(), 5 % 1024);
    w.fill().unwrap();
    assert_eq!(w.get_window(), b"ij");
}

#[test]
fn consume_reports_the_last_chunk_read() {
    let data = vec![7u8; 3000];
    let mut w = SlidingWindow::new(16, VecSource::new(data, usize::MAX));
    // 2500 = 1024 + 1024 + 452, all available
    assert_eq!(w.consume(2500).unwrap(), 452);
    // only 500 bytes are left, fewer than requested
    assert_eq!(w.consume(2000).unwrap(), 0);
}

#[test]
fn partial_trailing_character_is_cut_from_the_view() {
    // three bytes and the lead byte of a two-byte character fill the window
    let input = "aaaé".as_bytes().to_vec();
    let mut w = SlidingWindow::new(4, VecSource::new(input, usize::MAX));
    w.fill().unwrap();
    assert_eq!(w.get_window().len(), 4);
    assert_eq!(w.get_window_utf8(), b"aaa");
    // after consuming one byte the character completes
    let mut buf = vec![0u8; 1];
    w.read(&mut buf, 1).unwrap();
    w.fill().unwrap();
    assert_eq!(w.get_window_utf8(), "aaé".as_bytes());
}

#[test]
fn printer_indents_literals_once_per_block() {
    let mut p = Printer::new(20, VecSink::new());
    p.push_segment(b"x\n", 1, false, false).unwrap();
    p.push_segment(b"lit\nlit", 2, true, false).unwrap();
    p.push_segment(b"more", 2, true, false).unwrap();
    let out = p.writer().into_inner();
    // the literal block picks up its indentation once, not per line
    assert_eq!(String::from_utf8(out).unwrap(), "\tx\n\n\t\tlit\nlitmore");
}

#[test]
fn printer_breaks_around_nesting_changes() {
    let mut p = Printer::new(20, VecSink::new());
    p.push_segment(b"a", 0, false, false).unwrap();
    // deeper level, opening: break after the content
    p.push_segment(b"(", 1, false, false).unwrap();
    p.push_segment(b"b", 1, false, false).unwrap();
    // shallower level, closing: break before the content
    p.push_segment(b")", 0, false, true).unwrap();
    let out = p.writer().into_inner();
    assert_eq!(String::from_utf8(out).unwrap(), "a(\n\tb\n)");
}

#[test]
fn empty_segment_changes_nothing() {
    let mut p = Printer::new(20, VecSink::new());
    p.push_segment(b"", 3, false, true).unwrap();
    let out = p.writer().into_inner();
    assert!(out.is_empty());
}

#[test]
fn whitespace_only_lines_are_kept_verbatim() {
    assert!(is_only_whitespace(b""));
    assert!(is_only_whitespace(b" \t\r"));
    assert!(!is_only_whitespace(b" a "));
    let mut p = Printer::new(20, VecSink::new());
    p.push_segment(b"  ", 1, false, false).unwrap();
    let out = p.writer().into_inner();
    // the whitespace is kept, indented, with the opening-side break after it
    assert_eq!(String::from_utf8(out).unwrap(), "\t  \n");
}

#[test]
fn trivial_requests_cannot_fail() {
    // a full window makes fill a no-op, twice over
    let mut w = SlidingWindow::new(4, VecSource::new(b"abcdefgh".to_vec(), usize::MAX));
    w.fill().unwrap();
    assert_eq!(w.get_window(), b"abcd");
    w.fill().unwrap();
    assert_eq!(w.get_window(), b"abcd");
    // a zero-length read and a zero-byte consume read nothing
    let mut buf = vec![0u8; 4];
    assert_eq!(w.read(&mut buf, 0).unwrap(), 0);
    assert_eq!(w.consume(0).unwrap(), 0);
    assert_eq!(w.get_window(), b"abcd");
    // an empty segment writes nothing and cannot fail
    let mut p = Printer::new(20, VecSink::new());
    p.push_segment(b"", 1, true, true).unwrap();
    assert!(p.writer().into_inner().is_empty());
}

#[test]
fn unicode_whitespace_counts_as_whitespace() {
    assert!(is_only_whitespace("\u{a0}".as_bytes()));
    assert!(is_only_whitespace(" \u{a0}\u{2003}\u{3000}\u{1680}\u{85}\u{2028}".as_bytes()));
    assert!(!is_only_whitespace("\u{a0}x".as_bytes()));
    // a lone continuation byte is content, not whitespace
    assert!(!is_only_whitespace(b"\xa0"));
}

#[test]
fn unicode_whitespace_is_trimmed_like_ascii() {
    // a no-break space before content is stripped before re-indentation
    let mut p = Printer::new(20, VecSink::new());
    p.push_segment("\u{a0}\u{2003}a".as_bytes(), 1, false, false).unwrap();
    assert_eq!(String::from_utf8(p.writer().into_inner()).unwrap(), "\ta\n");
    // a line of nothing but no-break spaces is kept verbatim
    let mut q = Printer::new(20, VecSink::new());
    q.push_segment("\u{a0}\u{a0}".as_bytes(), 1, false, false).unwrap();
    assert_eq!(
        String::from_utf8(q.writer().into_inner()).unwrap(),
        "\t\u{a0}\u{a0}\n"
    );
}

#[test]
fn escaped_newlines_replaces_breaks_with_marker() {
    let mut sink = VecSink::new();
    let n = write_escaped_newlines(&mut sink, b"a\nb\n", b"<NL>").unwrap();
    assert_eq!(sink.bytes().as_slice(), b"a<NL>b<NL>");
    assert_eq!(n, 10);
    let mut sink2 = VecSink::new();
    let n2 = write_escaped_newlines(&mut sink2, b"plain", b"<NL>").unwrap();
    assert_eq!(sink2.into_inner(), b"plain".to_vec());
    assert_eq!(n2, 5);
}
