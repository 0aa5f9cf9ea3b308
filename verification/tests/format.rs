use indentor::cli::{structure, Args};
use indentor::driver::{pick_window_size, run};
use indentor::printer::Printer;
use indentor::sliding_window::SlidingWindow;
use indentor::stream::{VecSink, VecSource};

fn plain_args(patterns: &[&str], literals: &[&str]) -> Args {
    Args {
        patterns: patterns.iter().map(|s| s.to_string()).collect(),
        patterns_regex: Vec::new(),
        literals: literals.iter().map(|s| s.to_string()).collect(),
        literals_regex: Vec::new(),
        min_block_size: 20,
        regex_window_size: 100,
        disallow_escaping: false,
        escape_sequence: "\\".to_string(),
    }
}

fn format_with(
    patterns: &[&str],
    literals: &[&str],
    input: &[u8],
    chunk: usize,
) -> (Vec<u8>, usize, usize) {
    let cfg = structure(plain_args(patterns, literals)).unwrap();
    let window_size = pick_window_size(&cfg) * 4;
    let source = VecSource::new(input.to_vec(), chunk);
    let mut reader = SlidingWindow::new(window_size * 2, source);
    reader.fill().unwrap();
    let sink = VecSink::new();
    let mut printer = Printer::new(cfg.min_block_size, sink);
    let mut literal_stack: Vec<usize> = Vec::new();
    let mut patterns_stack: Vec<usize> = Vec::new();
    run(
        &cfg,
        &mut reader,
        &mut printer,
        &mut literal_stack,
        &mut patterns_stack,
    )
    .unwrap();
    let out = printer.writer().into_inner();
    (out, literal_stack.len(), patterns_stack.len())
}

#[test]
fn nested_parens_indent_one_tab_per_level() {
    let (out, lits, pats) = format_with(&["(", ")"], &[], b"(a(b)c)", usize::MAX);
    assert_eq!(
        String::from_utf8(out).unwrap(),
        "\t(\n\ta(\n\t\tb\n\t)c\n)"
    );
    assert_eq!(lits, 0);
    assert_eq!(pats, 0);
}

#[test]
fn literal_region_passes_through_verbatim() {
    let (out, lits, pats) = format_with(&["(", ")"], &["\"", "\""], b"(a\"(b)\"c)", usize::MAX);
    assert_eq!(
        String::from_utf8(out).unwrap(),
        "\t(\n\ta\"(b)\"c\n)"
    );
    assert_eq!(lits, 0);
    assert_eq!(pats, 0);
}

#[test]
fn balanced_input_leaves_stacks_empty() {
    let (_, lits, pats) = format_with(&["(", ")"], &[], b"(a(b)c)", usize::MAX);
    assert_eq!((lits, pats), (0, 0));
    let (_, lits2, pats2) = format_with(&["(", ")"], &["\"", "\""], b"(a\"(b)\"c)", usize::MAX);
    assert_eq!((lits2, pats2), (0, 0));
}

#[test]
fn unbalanced_input_is_tolerated() {
    let (out, lits, pats) = format_with(&["(", ")"], &[], b"(a", usize::MAX);
    assert_eq!(String::from_utf8(out).unwrap(), "\t(\n\ta");
    assert_eq!(lits, 0);
    assert_eq!(pats, 1);
}

#[test]
fn empty_input_gives_empty_output() {
    let (out, lits, pats) = format_with(&["(", ")"], &["\"", "\""], b"", usize::MAX);
    assert!(out.is_empty());
    assert_eq!((lits, pats), (0, 0));
}

#[test]
fn single_byte_chunks_give_identical_output() {
    let input: Vec<u8> = b"(alpha(beta)gamma\"(not a group)\"delta(eps(zeta)))".to_vec();
    let block = format_with(&["(", ")"], &["\"", "\""], &input, usize::MAX);
    let chunked = format_with(&["(", ")"], &["\"", "\""], &input, 1);
    assert_eq!(block, chunked);
}

#[test]
fn single_byte_chunks_identical_on_long_input() {
    let mut input: Vec<u8> = Vec::new();
    input.extend_from_slice(b"(");
    for i in 0..400 {
        input.extend_from_slice(format!("word{} ", i).as_bytes());
        if i % 7 == 0 {
            input.extend_from_slice(b"(x)");
        }
    }
    input.extend_from_slice(b")");
    let block = format_with(&["(", ")"], &[], &input, usize::MAX);
    let chunked = format_with(&["(", ")"], &[], &input, 1);
    let mid = format_with(&["(", ")"], &[], &input, 3);
    assert_eq!(block, chunked);
    assert_eq!(block, mid);
}

#[test]
fn multibyte_characters_survive_chunking() {
    let input = "(héllo «wörld» (nested é))".as_bytes().to_vec();
    let block = format_with(&["(", ")"], &["\u{ab}", "\u{bb}"], &input, usize::MAX);
    let chunked = format_with(&["(", ")"], &["\u{ab}", "\u{bb}"], &input, 1);
    assert_eq!(block, chunked);
}

#[test]
fn delimiter_inside_literal_produces_no_indentation() {
    // The whole delimiter-laden span sits inside one literal region.
    let (out, _, pats) = format_with(&["(", ")"], &["\"", "\""], b"x\"(((\"y", usize::MAX);
    assert_eq!(String::from_utf8(out).unwrap(), "x\"(((\"y");
    assert_eq!(pats, 0);
}

#[test]
fn lines_are_reindented_and_trimmed() {
    let (out, _, _) = format_with(&["{", "}"], &[], b"{\n   a\n}", usize::MAX);
    assert_eq!(String::from_utf8(out).unwrap(), "\t{\n\n\ta\n}");
}

#[test]
fn comment_literal_runs_to_end_of_line() {
    let (out, lits, pats) = format_with(&["(", ")"], &["//", "\n"], b"(x// (ignored)\ny)", usize::MAX);
    assert_eq!(String::from_utf8(out).unwrap(), "\t(\n\tx// (ignored)\n\ty\n)");
    assert_eq!((lits, pats), (0, 0));
}
