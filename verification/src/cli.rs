//! Pattern configuration: matchable units (plain text or compiled regular
//! expressions), the pairing of raw argument strings into opening/closing
//! pattern pairs, and the configuration value the formatter runs on.

use vstd::prelude::*;

verus! {

/// Whether `pat` compiles as a regular expression
/// (`regex::bytes::Regex::new` succeeds); a property of the text alone.
pub uninterp spec fn regex_valid(pat: Seq<char>) -> bool;

/// What `regex::bytes::Regex::find` returns for the regex compiled from
/// `pat` searched over `text`: the byte offsets of the leftmost match, a
/// function of the pattern text and the haystack alone.
pub uninterp spec fn regex_find(pat: Seq<char>, text: Seq<u8>) -> Option<(usize, usize)>;

/// Why a regular expression failed to compile.
#[derive(Debug)]
pub enum RegexError {
    Syntax(String),
    CompiledTooBig(usize),
    Other(String),
}

/// Configuration errors, collected so every bad pattern is reported at once.
#[derive(Debug)]
pub enum Error {
    RegexesNotCompiled(Vec<(String, RegexError)>),
}

/// A compiled regular expression together with the text it was compiled
/// from. Only `regex_new` constructs one, so the pair always corresponds.
pub struct CompiledRegex {
    inner: regex::bytes::Regex,
    source: String,
}

#[verifier::external_type_specification]
#[verifier::external_body]
pub struct ExRegex(regex::bytes::Regex);

impl CompiledRegex {
    pub closed spec fn source_view(&self) -> Seq<char> {
        self.source@
    }

    pub fn source(&self) -> (s: &String)
        ensures
            s@ == self.source_view(),
    {
        &self.source
    }
}

/// Relies on regex::bytes::Regex::new: whether a pattern text compiles
/// depends on the text alone, and the error names the reason. The error's
/// variants are mapped one to one onto the library's own.
#[verifier::external_body]
pub fn regex_new(pat: &str) -> (r: Result<CompiledRegex, RegexError>)
    ensures
        r is Ok <==> regex_valid(pat@),
        match r {
            Ok(c) => c.source_view() == pat@,
            Err(_) => true,
        },
{
    match regex::bytes::Regex::new(pat) {
        Ok(inner) => Ok(CompiledRegex { inner, source: pat.to_string() }),
        Err(regex::Error::Syntax(s)) => Err(RegexError::Syntax(s)),
        Err(regex::Error::CompiledTooBig(n)) => Err(RegexError::CompiledTooBig(n)),
        Err(other) => Err(RegexError::Other(format!("{:?}", other))),
    }
}

/// Relies on regex::bytes::Regex::find: the leftmost match is a function of
/// the pattern the regex was compiled from and of the haystack, and its
/// offsets lie within the haystack (`Match::start() <= end() <= len`).
#[verifier::external_body]
fn regex_find_in(re: &CompiledRegex, text: &[u8]) -> (r: Option<(usize, usize)>)
    ensures
        r == regex_find(re.source_view(), text@),
        match r {
            Some((s, e)) => s <= e <= text@.len(),
            None => true,
        },
{
    re.inner.find(text).map(|m| (m.start(), m.end()))
}

/// Earliest occurrence of `pat` in `text` at or after `i`: the half-open
/// byte range of the match.
pub open spec fn plaintext_find_from(pat: Seq<u8>, text: Seq<u8>, i: int) -> Option<(usize, usize)>
    decreases text.len() - i + 1,
{
    if i < 0 || i + pat.len() > text.len() {
        None
    } else if text.subrange(i, i + pat.len()) == pat {
        Some((i as usize, (i + pat.len()) as usize))
    } else {
        plaintext_find_from(pat, text, i + 1)
    }
}

/// Earliest occurrence of `pat` anywhere in `text`.
pub open spec fn plaintext_find(pat: Seq<u8>, text: Seq<u8>) -> Option<(usize, usize)> {
    plaintext_find_from(pat, text, 0)
}

/// A matchable unit: a plain byte sequence, or a compiled regular
/// expression.
pub enum Pattern {
    PlainText(String),
    Regex(CompiledRegex),
}

/// The text a pattern was written as, the identity its contracts go by.
pub open spec fn pat_source(p: &Pattern) -> Seq<char> {
    match p {
        Pattern::PlainText(s) => s@,
        Pattern::Regex(c) => c.source_view(),
    }
}

impl Pattern {
    /// What `find_in` returns: for plain text, the earliest occurrence of
    /// the pattern's UTF-8 bytes; for a regular expression, the engine's
    /// leftmost match.
    pub open spec fn find_spec(&self, text: Seq<u8>) -> Option<(usize, usize)> {
        match self {
            Pattern::PlainText(s) => plaintext_find(vstd::utf8::encode_utf8(s@), text),
            Pattern::Regex(c) => regex_find(c.source_view(), text),
        }
    }

    /// Find the earliest occurrence of this pattern in `text`, returning its
    /// half-open byte range.
    pub fn find_in(&self, text: &[u8]) -> (r: Option<(usize, usize)>)
        ensures
            r == self.find_spec(text@),
            match r {
                Some((s, e)) => s <= e <= text@.len(),
                None => true,
            },
    {
        match self {
            Pattern::PlainText(s) => find_bytes(s.as_str().as_bytes(), text),
            Pattern::Regex(c) => regex_find_in(c, text),
        }
    }

    pub fn is_plaintext(&self) -> (r: bool)
        ensures
            r == (self is PlainText),
    {
        matches!(self, Pattern::PlainText(_))
    }

    pub fn plaintext(&self) -> (r: Option<&String>)
        ensures
            match r {
                Some(s) => self is PlainText && s@ == pat_source(self),
                None => !(self is PlainText),
            },
    {
        if let Pattern::PlainText(text) = self {
            Some(text)
        } else {
            None
        }
    }

    pub fn is_regex(&self) -> (r: bool)
        ensures
            r == (self is Regex),
    {
        matches!(self, Pattern::Regex(_))
    }

    pub fn regex(&self) -> (r: Option<&CompiledRegex>)
        ensures
            match r {
                Some(c) => self is Regex && c.source_view() == pat_source(self),
                None => !(self is Regex),
            },
    {
        if let Pattern::Regex(re) = self {
            Some(re)
        } else {
            None
        }
    }
}

/// Raw configuration as the command line delivers it: flat lists in which
/// consecutive elements pair up as (opening, closing).
#[derive(Debug)]
pub struct Args {
    pub patterns: Vec<String>,
    pub patterns_regex: Vec<String>,
    pub literals: Vec<String>,
    pub literals_regex: Vec<String>,
    pub min_block_size: usize,
    pub regex_window_size: usize,
    pub disallow_escaping: bool,
    pub escape_sequence: String,
}

/// The configuration the formatter runs on: ordered pattern pairs whose
/// position defines matching priority.
pub struct ArgsStructured {
    pub patterns: Vec<(Pattern, Pattern)>,
    pub literals: Vec<(Pattern, Pattern)>,
    pub min_block_size: usize,
    pub regex_window_size: usize,
    pub disallow_escaping: bool,
    pub escape_sequence: String,
}

impl ArgsStructured {
    /// Every pattern of the configuration, delimiters first, opening before
    /// closing within each pair.
    pub fn all_patterns_iterator(&self) -> (v: Vec<&Pattern>)
        ensures
            v@.len() == 2 * (self.patterns@.len() + self.literals@.len()),
            forall|i: int|
                0 <= i < self.patterns@.len() ==> *(v@[2 * i]) == self.patterns@[i].0 && *(v@[2 * i
                    + 1]) == self.patterns@[i].1,
            forall|i: int|
                0 <= i < self.literals@.len() ==> *(v@[2 * self.patterns@.len() + 2 * i])
                    == self.literals@[i].0 && *(v@[2 * self.patterns@.len() + 2 * i + 1])
                    == self.literals@[i].1,
    {
        let mut v: Vec<&Pattern> = Vec::new();
        let mut i: usize = 0;
        while i < self.patterns.len()
            invariant
                i <= self.patterns@.len(),
                v@.len() == 2 * i,
                forall|k: int|
                    0 <= k < i ==> *(v@[2 * k]) == self.patterns@[k].0 && *(v@[2 * k + 1])
                        == self.patterns@[k].1,
            decreases self.patterns@.len() - i,
        {
            v.push(&self.patterns[i].0);
            v.push(&self.patterns[i].1);
            i = i + 1;
        }
        let mut j: usize = 0;
        while j < self.literals.len()
            invariant
                j <= self.literals@.len(),
                v@.len() == 2 * self.patterns@.len() + 2 * j,
                forall|k: int|
                    0 <= k < self.patterns@.len() ==> *(v@[2 * k]) == self.patterns@[k].0 && *(v@[2
                        * k + 1]) == self.patterns@[k].1,
                forall|k: int|
                    0 <= k < j ==> *(v@[2 * self.patterns@.len() + 2 * k]) == self.literals@[k].0
                        && *(v@[2 * self.patterns@.len() + 2 * k + 1]) == self.literals@[k].1,
            decreases self.literals@.len() - j,
        {
            v.push(&self.literals[j].0);
            v.push(&self.literals[j].1);
            j = j + 1;
        }
        v
    }
}

/// The pattern texts of `texts` that compile, in order.
pub open spec fn compiled_views(texts: Seq<String>) -> Seq<Seq<char>>
    decreases texts.len(),
{
    if texts.len() == 0 {
        Seq::empty()
    } else {
        compiled_views(texts.drop_last()) + (if regex_valid(texts.last()@) {
            seq![texts.last()@]
        } else {
            Seq::empty()
        })
    }
}

/// The pattern texts of `texts` that do not compile, in order.
pub open spec fn failed_views(texts: Seq<String>) -> Seq<Seq<char>>
    decreases texts.len(),
{
    if texts.len() == 0 {
        Seq::empty()
    } else {
        failed_views(texts.drop_last()) + (if !regex_valid(texts.last()@) {
            seq![texts.last()@]
        } else {
            Seq::empty()
        })
    }
}

/// No pattern text fails to compile exactly when every one compiles.
pub proof fn lemma_failed_views_empty(texts: Seq<String>)
    ensures
        (failed_views(texts).len() == 0) <==> (forall|i: int|
            0 <= i < texts.len() ==> regex_valid(texts[i]@)),
    decreases texts.len(),
{
    if texts.len() > 0 {
        lemma_failed_views_empty(texts.drop_last());
        assert(forall|i: int| 0 <= i < texts.len() - 1 ==> texts.drop_last()[i] == texts[i]);
        if failed_views(texts).len() == 0 {
            assert(forall|i: int|
                0 <= i < texts.len() ==> (if i < texts.len() - 1 {
                    regex_valid(texts.drop_last()[i]@)
                } else {
                    regex_valid(texts.last()@)
                }) ==> regex_valid(texts[i]@));
        }
    }
}

/// Compile every text of `texts`, keeping the successes in order and
/// appending each failure, with its text, to `errors`.
fn compile_list(texts: &Vec<String>, errors: &mut Vec<(String, RegexError)>) -> (r: Vec<
    CompiledRegex,
>)
    ensures
        r@.len() == compiled_views(texts@).len(),
        forall|k: int| 0 <= k < r@.len() ==> r@[k].source_view() == compiled_views(texts@)[k],
        final(errors)@.len() == old(errors)@.len() + failed_views(texts@).len(),
        forall|k: int| 0 <= k < old(errors)@.len() ==> final(errors)@[k] == old(errors)@[k],
        forall|k: int|
            0 <= k < failed_views(texts@).len() ==> final(errors)@[old(errors)@.len() + k].0@
                == failed_views(texts@)[k],
{
    let mut r: Vec<CompiledRegex> = Vec::new();
    let mut i: usize = 0;
    proof {
        assert(texts@.take(0int) =~= Seq::<String>::empty());
    }
    while i < texts.len()
        invariant
            i <= texts@.len(),
            r@.len() == compiled_views(texts@.take(i as int)).len(),
            forall|k: int|
                0 <= k < r@.len() ==> r@[k].source_view() == compiled_views(texts@.take(i as int))[k],
            errors@.len() == old(errors)@.len() + failed_views(texts@.take(i as int)).len(),
            forall|k: int| 0 <= k < old(errors)@.len() ==> errors@[k] == old(errors)@[k],
            forall|k: int|
                0 <= k < failed_views(texts@.take(i as int)).len() ==> errors@[old(errors)@.len()
                    + k].0@ == failed_views(texts@.take(i as int))[k],
        decreases texts@.len() - i,
    {
        let text = texts[i].clone();
        match regex_new(text.as_str()) {
            Ok(c) => {
                r.push(c);
            },
            Err(e) => {
                errors.push((text, e));
            },
        }
        i = i + 1;
        proof {
            assert(texts@.take(i as int).drop_last() =~= texts@.take(i - 1));
            assert(texts@.take(i as int).last() == texts@[i - 1]);
        }
    }
    proof {
        assert(texts@.take(texts@.len() as int) =~= texts@);
    }
    r
}

/// Pair consecutive texts up as plain-text (opening, closing) pattern pairs,
/// dropping a trailing unpaired text.
fn pair_up_plain(texts: &Vec<String>, out: &mut Vec<(Pattern, Pattern)>)
    ensures
        final(out)@.len() == old(out)@.len() + texts@.len() / 2,
        forall|k: int| 0 <= k < old(out)@.len() ==> final(out)@[k] == old(out)@[k],
        forall|k: int|
            #![trigger final(out)@[old(out)@.len() + k]]
            0 <= k < texts@.len() / 2 ==> {
                let p = final(out)@[old(out)@.len() + k];
                &&& p.0 is PlainText
                &&& pat_source(&p.0) == texts@[2 * k]@
                &&& p.1 is PlainText
                &&& pat_source(&p.1) == texts@[2 * k + 1]@
            },
{
    let tl: usize = texts.len();
    let np = tl / 2;
    let mut k: usize = 0;
    while k < np
        invariant
            tl == texts@.len(),
            np == texts@.len() / 2,
            k <= np,
            out@.len() == old(out)@.len() + k,
            forall|q: int| 0 <= q < old(out)@.len() ==> out@[q] == old(out)@[q],
            forall|q: int|
                #![trigger out@[old(out)@.len() + q]]
                0 <= q < k ==> {
                    let p = out@[old(out)@.len() + q];
                    &&& p.0 is PlainText
                    &&& pat_source(&p.0) == texts@[2 * q]@
                    &&& p.1 is PlainText
                    &&& pat_source(&p.1) == texts@[2 * q + 1]@
                },
        decreases np - k,
    {
        let a = texts[2 * k].clone();
        let b = texts[2 * k + 1].clone();
        out.push((Pattern::PlainText(a), Pattern::PlainText(b)));
        k = k + 1;
    }
}

/// Pair consecutive compiled regexes up as (opening, closing) pattern pairs,
/// dropping a trailing unpaired one.
fn pair_up_regex(compiled: Vec<CompiledRegex>, out: &mut Vec<(Pattern, Pattern)>)
    ensures
        final(out)@.len() == old(out)@.len() + compiled@.len() / 2,
        forall|k: int| 0 <= k < old(out)@.len() ==> final(out)@[k] == old(out)@[k],
        forall|k: int|
            #![trigger final(out)@[old(out)@.len() + k]]
            0 <= k < compiled@.len() / 2 ==> {
                let p = final(out)@[old(out)@.len() + k];
                &&& p.0 is Regex
                &&& pat_source(&p.0) == compiled@[2 * k].source_view()
                &&& p.1 is Regex
                &&& pat_source(&p.1) == compiled@[2 * k + 1].source_view()
            },
{
    let ghost full = compiled@;
    let mut rest = compiled;
    let clen: usize = rest.len();
    let mut k: usize = 0;
    while rest.len() >= 2
        invariant
            full.len() == clen,
            k <= full.len() / 2,
            rest@ == full.skip(2 * k),
            rest@.len() == full.len() - 2 * k,
            out@.len() == old(out)@.len() + k,
            forall|q: int| 0 <= q < old(out)@.len() ==> out@[q] == old(out)@[q],
            forall|q: int|
                #![trigger out@[old(out)@.len() + q]]
                0 <= q < k ==> {
                    let p = out@[old(out)@.len() + q];
                    &&& p.0 is Regex
                    &&& pat_source(&p.0) == full[2 * q].source_view()
                    &&& p.1 is Regex
                    &&& pat_source(&p.1) == full[2 * q + 1].source_view()
                },
        decreases rest@.len(),
    {
        let a = rest.remove(0);
        let b = rest.remove(0);
        out.push((Pattern::Regex(a), Pattern::Regex(b)));
        k = k + 1;
        proof {
            assert(rest@ =~= full.skip(2 * k));
        }
    }
}

/// Turn the raw argument lists into the formatter's configuration: pair the
/// plain-text lists up, compile both regex lists, pair the regexes that
/// compiled, and report every text that did not compile in one error.
pub fn structure(args: Args) -> (r: Result<ArgsStructured, Error>)
    ensures
        r is Ok <==> failed_views(args.patterns_regex@).len() + failed_views(
            args.literals_regex@,
        ).len() == 0,
        r is Ok <==> ((forall|i: int|
            0 <= i < args.patterns_regex@.len() ==> regex_valid(args.patterns_regex@[i]@))
            && (forall|i: int|
            0 <= i < args.literals_regex@.len() ==> regex_valid(args.literals_regex@[i]@))),
        match r {
            Ok(a) => {
                &&& a.min_block_size == args.min_block_size
                &&& a.regex_window_size == args.regex_window_size
                &&& a.disallow_escaping == args.disallow_escaping
                &&& a.escape_sequence@ == args.escape_sequence@
                &&& a.patterns@.len() == args.patterns@.len() / 2 + compiled_views(
                    args.patterns_regex@,
                ).len() / 2
                &&& a.literals@.len() == args.literals@.len() / 2 + compiled_views(
                    args.literals_regex@,
                ).len() / 2
                &&& (forall|k: int|
                    #![trigger a.patterns@[k]]
                    0 <= k < args.patterns@.len() / 2 ==> {
                        let p = a.patterns@[k];
                        &&& p.0 is PlainText
                        &&& pat_source(&p.0) == args.patterns@[2 * k]@
                        &&& p.1 is PlainText
                        &&& pat_source(&p.1) == args.patterns@[2 * k + 1]@
                    })
                &&& (forall|k: int|
                    #![trigger a.patterns@[args.patterns@.len() / 2 + k]]
                    0 <= k < compiled_views(args.patterns_regex@).len() / 2 ==> {
                        let p = a.patterns@[args.patterns@.len() / 2 + k];
                        &&& p.0 is Regex
                        &&& pat_source(&p.0) == compiled_views(args.patterns_regex@)[2 * k]
                        &&& p.1 is Regex
                        &&& pat_source(&p.1) == compiled_views(args.patterns_regex@)[2 * k + 1]
                    })
                &&& (forall|k: int|
                    #![trigger a.literals@[k]]
                    0 <= k < args.literals@.len() / 2 ==> {
                        let p = a.literals@[k];
                        &&& p.0 is PlainText
                        &&& pat_source(&p.0) == args.literals@[2 * k]@
                        &&& p.1 is PlainText
                        &&& pat_source(&p.1) == args.literals@[2 * k + 1]@
                    })
                &&& (forall|k: int|
                    #![trigger a.literals@[args.literals@.len() / 2 + k]]
                    0 <= k < compiled_views(args.literals_regex@).len() / 2 ==> {
                        let p = a.literals@[args.literals@.len() / 2 + k];
                        &&& p.0 is Regex
                        &&& pat_source(&p.0) == compiled_views(args.literals_regex@)[2 * k]
                        &&& p.1 is Regex
                        &&& pat_source(&p.1) == compiled_views(args.literals_regex@)[2 * k + 1]
                    })
            },
            Err(Error::RegexesNotCompiled(v)) => {
                &&& v@.len() == failed_views(args.patterns_regex@).len() + failed_views(
                    args.literals_regex@,
                ).len()
                &&& (forall|k: int|
                    0 <= k < failed_views(args.patterns_regex@).len() ==> v@[k].0@ == failed_views(
                        args.patterns_regex@,
                    )[k])
                &&& (forall|k: int|
                    0 <= k < failed_views(args.literals_regex@).len() ==> v@[failed_views(
                        args.patterns_regex@,
                    ).len() + k].0@ == failed_views(args.literals_regex@)[k])
            },
        },
{
    let mut regex_errors: Vec<(String, RegexError)> = Vec::new();
    let mut patterns: Vec<(Pattern, Pattern)> = Vec::new();
    pair_up_plain(&args.patterns, &mut patterns);
    let compiled_p = compile_list(&args.patterns_regex, &mut regex_errors);
    let ghost cpv = compiled_p@;
    let pp: usize = patterns.len();
    pair_up_regex(compiled_p, &mut patterns);
    let mut literals: Vec<(Pattern, Pattern)> = Vec::new();
    pair_up_plain(&args.literals, &mut literals);
    let ghost fpn = regex_errors@.len();
    let compiled_l = compile_list(&args.literals_regex, &mut regex_errors);
    let ghost clv = compiled_l@;
    let lp: usize = literals.len();
    pair_up_regex(compiled_l, &mut literals);
    proof {
        lemma_failed_views_empty(args.patterns_regex@);
        lemma_failed_views_empty(args.literals_regex@);
        assert forall|k: int| #![trigger patterns@[k]] 0 <= k < args.patterns@.len() / 2 implies {
            &&& patterns@[k].0 is PlainText
            &&& pat_source(&patterns@[k].0) == args.patterns@[2 * k]@
            &&& patterns@[k].1 is PlainText
            &&& pat_source(&patterns@[k].1) == args.patterns@[2 * k + 1]@
        } by {
            assert(patterns@[0 + k] == patterns@[k]);
        }
        assert forall|k: int|
            #![trigger patterns@[args.patterns@.len() / 2 + k]]
            0 <= k < compiled_views(args.patterns_regex@).len() / 2 implies {
            &&& patterns@[args.patterns@.len() / 2 + k].0 is Regex
            &&& pat_source(&patterns@[args.patterns@.len() / 2 + k].0) == compiled_views(
                args.patterns_regex@,
            )[2 * k]
            &&& patterns@[args.patterns@.len() / 2 + k].1 is Regex
            &&& pat_source(&patterns@[args.patterns@.len() / 2 + k].1) == compiled_views(
                args.patterns_regex@,
            )[2 * k + 1]
        } by {
            assert(patterns@[pp as int + k] == patterns@[args.patterns@.len() / 2 + k]);
            assert(cpv[2 * k].source_view() == compiled_views(args.patterns_regex@)[2 * k]);
            assert(cpv[2 * k + 1].source_view() == compiled_views(args.patterns_regex@)[2 * k
                + 1]);
        }
        assert forall|k: int| #![trigger literals@[k]] 0 <= k < args.literals@.len() / 2 implies {
            &&& literals@[k].0 is PlainText
            &&& pat_source(&literals@[k].0) == args.literals@[2 * k]@
            &&& literals@[k].1 is PlainText
            &&& pat_source(&literals@[k].1) == args.literals@[2 * k + 1]@
        } by {
            assert(literals@[0 + k] == literals@[k]);
        }
        assert forall|k: int|
            #![trigger literals@[args.literals@.len() / 2 + k]]
            0 <= k < compiled_views(args.literals_regex@).len() / 2 implies {
            &&& literals@[args.literals@.len() / 2 + k].0 is Regex
            &&& pat_source(&literals@[args.literals@.len() / 2 + k].0) == compiled_views(
                args.literals_regex@,
            )[2 * k]
            &&& literals@[args.literals@.len() / 2 + k].1 is Regex
            &&& pat_source(&literals@[args.literals@.len() / 2 + k].1) == compiled_views(
                args.literals_regex@,
            )[2 * k + 1]
        } by {
            assert(literals@[lp as int + k] == literals@[args.literals@.len() / 2 + k]);
            assert(clv[2 * k].source_view() == compiled_views(args.literals_regex@)[2 * k]);
            assert(clv[2 * k + 1].source_view() == compiled_views(args.literals_regex@)[2 * k
                + 1]);
        }
    }
    if regex_errors.len() > 0 {
        proof {
            assert forall|k: int|
                #![trigger regex_errors@[k]]
                0 <= k < failed_views(args.patterns_regex@).len() implies regex_errors@[k].0@
                == failed_views(args.patterns_regex@)[k] by {
                assert(regex_errors@[0 + k] == regex_errors@[k]);
            }
            assert forall|k: int|
                #![trigger regex_errors@[failed_views(args.patterns_regex@).len() + k]]
                0 <= k < failed_views(args.literals_regex@).len() implies regex_errors@[failed_views(
                args.patterns_regex@,
            ).len() + k].0@ == failed_views(args.literals_regex@)[k] by {
                assert(regex_errors@[fpn + k] == regex_errors@[failed_views(
                    args.patterns_regex@,
                ).len() + k]);
            }
        }
        return Err(Error::RegexesNotCompiled(regex_errors));
    }
    Ok(
        ArgsStructured {
            patterns,
            literals,
            min_block_size: args.min_block_size,
            regex_window_size: args.regex_window_size,
            disallow_escaping: args.disallow_escaping,
            escape_sequence: args.escape_sequence,
        },
    )
}

/// Verified earliest-occurrence search of `pat` in `text`.
fn find_bytes(pat: &[u8], text: &[u8]) -> (r: Option<(usize, usize)>)
    ensures
        r == plaintext_find(pat@, text@),
        match r {
            Some((s, e)) => s <= e <= text@.len() && e - s == pat@.len(),
            None => true,
        },
{
    let pn = pat.len();
    let tn = text.len();
    if pn > tn {
        return None;
    }
    let mut i: usize = 0;
    while i <= tn - pn
        invariant
            pn == pat@.len(),
            tn == text@.len(),
            pn <= tn,
            i <= tn - pn + 1,
            plaintext_find(pat@, text@) == plaintext_find_from(pat@, text@, i as int),
        decreases tn - pn - i + 1,
    {
        let mut j: usize = 0;
        while j < pn && text[i + j] == pat[j]
            invariant
                j <= pn,
                i + pn <= tn,
                pn == pat@.len(),
                tn == text@.len(),
                forall|q: int| 0 <= q < j ==> text@[i + q] == pat@[q],
            decreases pn - j,
        {
            j = j + 1;
        }
        if j == pn {
            proof {
                assert(text@.subrange(i as int, i + pn) =~= pat@);
            }
            return Some((i, i + pn));
        }
        proof {
            assert(text@.subrange(i as int, i + pn)[j as int] == text@[i + j]);
            assert(text@.subrange(i as int, i + pn) != pat@);
        }
        i = i + 1;
    }
    proof {
        assert(plaintext_find_from(pat@, text@, i as int) is None);
    }
    None
}

} // verus!
