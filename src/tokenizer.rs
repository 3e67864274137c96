//! The tokenizer: source text to positioned tokens.
//!
//! The text is first materialized as its characters paired with their byte
//! offsets. Each production is a matcher over that sequence in the sense of
//! the engine, and is stated as a spec function giving its outcome from a
//! position; the executable productions are proved equal to them.
use vstd::prelude::*;
use crate::data::{Kind, TMeta, Token};
use crate::pattern::{MatchError, Outcome, choice, is_recoverable, predicate, recoverable};

verus! {

/// std's `char::is_whitespace`.
pub uninterp spec fn whitespace_class(c: char) -> bool;

/// std's `char::is_lowercase`.
pub uninterp spec fn lowercase_class(c: char) -> bool;

/// std's `char::is_uppercase`.
pub uninterp spec fn uppercase_class(c: char) -> bool;

/// std's `char::is_alphanumeric`.
pub uninterp spec fn alphanumeric_class(c: char) -> bool;

/// Relies on `char::is_whitespace`, which depends on the character alone.
#[verifier::external_body]
fn is_whitespace(c: char) -> (r: bool)
    ensures
        r == whitespace_class(c),
{
    c.is_whitespace()
}

/// Relies on `char::is_lowercase`, which depends on the character alone.
#[verifier::external_body]
fn is_lowercase(c: char) -> (r: bool)
    ensures
        r == lowercase_class(c),
{
    c.is_lowercase()
}

/// Relies on `char::is_uppercase`, which depends on the character alone.
#[verifier::external_body]
fn is_uppercase(c: char) -> (r: bool)
    ensures
        r == uppercase_class(c),
{
    c.is_uppercase()
}

/// Relies on `char::is_alphanumeric`, which depends on the character alone.
#[verifier::external_body]
fn is_alphanumeric(c: char) -> (r: bool)
    ensures
        r == alphanumeric_class(c),
{
    c.is_alphanumeric()
}

/// The number of bytes of `c` in UTF-8.
pub open spec fn utf8_width(c: char) -> nat {
    if (c as u32) < 0x80 {
        1
    } else if (c as u32) < 0x800 {
        2
    } else if (c as u32) < 0x10000 {
        3
    } else {
        4
    }
}

/// The number of bytes of `s` in UTF-8.
pub open spec fn utf8_len(s: Seq<char>) -> nat
    decreases s.len(),
{
    if s.len() == 0 {
        0
    } else {
        utf8_len(s.drop_last()) + utf8_width(s.last())
    }
}

/// Each character of `s` with the byte offset at which it starts.
pub open spec fn indexed(s: Seq<char>) -> Seq<(usize, char)> {
    Seq::new(s.len(), |i: int| (utf8_len(s.subrange(0, i)) as usize, s[i]))
}

/// Relies on `str::char_indices`: the characters in order, each with the
/// byte offset where it starts.
#[verifier::external_body]
fn char_indices(s: &str) -> (r: Vec<(usize, char)>)
    ensures
        r@ == indexed(s@),
{
    s.char_indices().collect()
}

/// Relies on collecting characters into a `String`: it holds exactly those
/// characters, in order.
#[verifier::external_body]
fn string_of_chars(v: &Vec<char>) -> (r: String)
    ensures
        r@ == v@,
{
    v.iter().collect()
}

/// A character of the input with the byte offset where it starts and the
/// Unicode properties that the grammar reads.
#[derive(Debug, Clone, Copy, PartialEq, Eq, Structural)]
pub struct CharInfo {
    pub offset: usize,
    pub ch: char,
    pub whitespace: bool,
    pub lowercase: bool,
    pub uppercase: bool,
    pub alphanumeric: bool,
}

/// The character `c` at byte offset `offset`, with its properties.
pub open spec fn classify(offset: usize, c: char) -> CharInfo {
    CharInfo {
        offset,
        ch: c,
        whitespace: whitespace_class(c),
        lowercase: lowercase_class(c),
        uppercase: uppercase_class(c),
        alphanumeric: alphanumeric_class(c),
    }
}

/// The characters of `s`, each with its offset and properties.
pub open spec fn annotated(s: Seq<char>) -> Seq<CharInfo> {
    indexed(s).map_values(|p: (usize, char)| classify(p.0, p.1))
}

/// The characters of `input`, each with its byte offset and its properties.
pub fn annotate(input: &str) -> (r: Vec<CharInfo>)
    ensures
        r@ == annotated(input@),
{
    let pairs = char_indices(input);
    let mut out: Vec<CharInfo> = Vec::new();
    let mut i: usize = 0;
    while i < pairs.len()
        invariant
            i <= pairs.len(),
            pairs@ == indexed(input@),
            out@ == pairs@.subrange(0, i as int).map_values(|p: (usize, char)| classify(p.0, p.1)),
        decreases pairs.len() - i,
    {
        let (offset, c) = pairs[i];
        let info = CharInfo {
            offset,
            ch: c,
            whitespace: is_whitespace(c),
            lowercase: is_lowercase(c),
            uppercase: is_uppercase(c),
            alphanumeric: is_alphanumeric(c),
        };
        assert(info == classify(pairs@[i as int].0, pairs@[i as int].1));
        let ghost before = out@;
        out.push(info);
        i += 1;
        assert(pairs@.subrange(0, i as int) =~= pairs@.subrange(0, i - 1).push(pairs@[i - 1]));
        assert(out@ =~= pairs@.subrange(0, i as int).map_values(|p: (usize, char)| classify(p.0, p.1)));
    }
    assert(pairs@.subrange(0, pairs.len() as int) =~= pairs@);
    out
}

/// Characters that continue a run.
#[derive(Clone, Copy, PartialEq, Eq, Structural)]
pub enum Class {
    Whitespace,
    NotEndOfLine,
    LowerStart,
    LowerRest,
    UpperStart,
    UpperRest,
    Digit,
    EndOfLine,
    Sign,
    ExponentMarker,
}

pub open spec fn is_digit(c: char) -> bool {
    '0' <= c && c <= '9'
}

pub open spec fn is_end_of_line(c: char) -> bool {
    c == '\n' || c == '\r'
}

pub open spec fn is_sign(c: char) -> bool {
    c == '+' || c == '-'
}

pub open spec fn in_class(k: Class, x: CharInfo) -> bool {
    let c = x.ch;
    match k {
        Class::Whitespace => x.whitespace,
        Class::NotEndOfLine => !is_end_of_line(c),
        Class::LowerStart => x.lowercase || c == '_',
        Class::LowerRest => x.lowercase || c == '_' || x.alphanumeric,
        Class::UpperStart => x.uppercase,
        Class::UpperRest => x.uppercase || x.alphanumeric || c == '_',
        Class::Digit => is_digit(c),
        Class::EndOfLine => is_end_of_line(c),
        Class::Sign => is_sign(c),
        Class::ExponentMarker => c == 'e' || c == 'E',
    }
}

fn class_holds(k: Class, x: CharInfo) -> (r: bool)
    ensures
        r == in_class(k, x),
{
    let c = x.ch;
    match k {
        Class::Whitespace => x.whitespace,
        Class::NotEndOfLine => !(c == '\n' || c == '\r'),
        Class::LowerStart => x.lowercase || c == '_',
        Class::LowerRest => x.lowercase || c == '_' || x.alphanumeric,
        Class::UpperStart => x.uppercase,
        Class::UpperRest => x.uppercase || x.alphanumeric || c == '_',
        Class::Digit => '0' <= c && c <= '9',
        Class::EndOfLine => c == '\n' || c == '\r',
        Class::Sign => c == '+' || c == '-',
        Class::ExponentMarker => c == 'e' || c == 'E',
    }
}

/// What a production yields: a token as plain values, or `None` for
/// whitespace and comments.
pub type LexModel = Option<(Kind, TMeta, Seq<char>)>;

/// A production's result: a token, or text that yields none.
#[derive(Debug)]
pub enum Lexeme {
    Token(Token),
    Junk,
}

impl Lexeme {
    pub open spec fn model(&self) -> LexModel {
        match self {
            Lexeme::Token(t) => Some(t.model()),
            Lexeme::Junk => None,
        }
    }
}

pub open spec fn outcome_model(r: Outcome<Lexeme>) -> Outcome<LexModel> {
    (
        match r.0 {
            Ok(l) => Ok(l.model()),
            Err(e) => Err(e),
        },
        r.1,
    )
}

/// The recoverable failure at `p`: a mismatch, or the end of the input.
pub open spec fn miss(cs: Seq<CharInfo>, p: int) -> MatchError {
    if 0 <= p < cs.len() {
        MatchError::Error(p as usize)
    } else {
        MatchError::ErrorEndOfFile
    }
}

pub open spec fn is_char(cs: Seq<CharInfo>, p: int, c: char) -> bool {
    0 <= p < cs.len() && cs[p].ch == c
}

/// Where a run of characters of class `k` starting at `p` ends.
pub open spec fn run_end(cs: Seq<CharInfo>, p: int, k: Class) -> int
    decreases cs.len() - p,
{
    if 0 <= p < cs.len() && in_class(k, cs[p]) {
        run_end(cs, p + 1, k)
    } else {
        p
    }
}

/// The characters from `p` up to `q`.
pub open spec fn chars_of(cs: Seq<CharInfo>, p: int, q: int) -> Seq<char> {
    cs.subrange(p, q).map_values(|x: CharInfo| x.ch)
}

/// The span from the character at `p` to the one at `q`.
pub open spec fn span(cs: Seq<CharInfo>, p: int, q: int) -> TMeta {
    TMeta { start: cs[p].offset, end: cs[q].offset }
}

pub open spec fn whitespace_at(cs: Seq<CharInfo>, p: usize) -> Outcome<LexModel> {
    if p < cs.len() && in_class(Class::Whitespace, cs[p as int]) {
        (Ok(None), run_end(cs, p + 1, Class::Whitespace) as usize)
    } else {
        (Err(miss(cs, p as int)), p)
    }
}

/// `#` up to and including the end of the line.
pub open spec fn comment_at(cs: Seq<CharInfo>, p: usize) -> Outcome<LexModel> {
    if is_char(cs, p as int, '#') {
        let q = run_end(cs, p + 1, Class::NotEndOfLine);
        if q < cs.len() && is_end_of_line(cs[q].ch) {
            (Ok(None), (q + 1) as usize)
        } else {
            (Err(miss(cs, q)), p)
        }
    } else {
        (Err(miss(cs, p as int)), p)
    }
}

pub open spec fn symbol_kind(lower: bool) -> Kind {
    if lower {
        Kind::LowerSymbol
    } else {
        Kind::UpperSymbol
    }
}

/// A lower symbol starts with a lower-case letter or `_`, an upper symbol
/// with an upper-case letter; both go on with letters, digits and `_`.
pub open spec fn symbol_at(cs: Seq<CharInfo>, p: usize, lower: bool) -> Outcome<LexModel> {
    let start = if lower {
        Class::LowerStart
    } else {
        Class::UpperStart
    };
    let rest = if lower {
        Class::LowerRest
    } else {
        Class::UpperRest
    };
    if p < cs.len() && in_class(start, cs[p as int]) {
        let q = run_end(cs, p + 1, rest);
        (Ok(Some((symbol_kind(lower), span(cs, p as int, q - 1), chars_of(cs, p as int, q)))), q as usize)
    } else {
        (Err(miss(cs, p as int)), p)
    }
}

/// The character an escape code stands for.
pub open spec fn escape_code(c: char) -> Option<char> {
    if c == 'n' {
        Some('\n')
    } else if c == 'r' {
        Some('\r')
    } else if c == 't' {
        Some('\t')
    } else if c == '\\' {
        Some('\\')
    } else if c == '0' {
        Some('\0')
    } else if c == '"' {
        Some('"')
    } else {
        None
    }
}

/// The characters of a string literal from `p` up to its closing quote, with
/// escapes decoded. A backslash must be followed by an escape code: that
/// failure is fatal.
pub open spec fn string_body(cs: Seq<CharInfo>, p: int) -> (Result<Seq<char>, MatchError>, int)
    decreases cs.len() - p,
{
    if 0 <= p < cs.len() && cs[p].ch != '"' {
        if cs[p].ch == '\\' {
            if p + 1 < cs.len() && escape_code(cs[p + 1].ch) is Some {
                let rest = string_body(cs, p + 2);
                match rest.0 {
                    Ok(s) => (Ok(seq![escape_code(cs[p + 1].ch)->Some_0] + s), rest.1),
                    Err(e) => (Err(e), rest.1),
                }
            } else {
                (Err(miss(cs, p + 1).spec_to_fatal()), p + 1)
            }
        } else {
            let rest = string_body(cs, p + 1);
            match rest.0 {
                Ok(s) => (Ok(seq![cs[p].ch] + s), rest.1),
                Err(e) => (Err(e), rest.1),
            }
        }
    } else {
        (Ok(Seq::empty()), p)
    }
}

pub open spec fn string_at(cs: Seq<CharInfo>, p: usize) -> Outcome<LexModel> {
    if is_char(cs, p as int, '"') {
        let b = string_body(cs, p + 1);
        match b.0 {
            Err(e) => (Err(e), b.1 as usize),
            Ok(s) => if is_char(cs, b.1, '"') {
                (Ok(Some((Kind::Str, span(cs, p as int, b.1), s))), (b.1 + 1) as usize)
            } else {
                (Err(miss(cs, b.1)), p)
            },
        }
    } else {
        (Err(miss(cs, p as int)), p)
    }
}

/// An optional sign, digits, an optional fraction (`.` and digits) and an
/// optional exponent (`e` or `E`, an optional sign and digits). Once the `.`
/// or the exponent marker is read, the digits after it are required: their
/// absence is fatal. The text keeps every character read, with the exponent
/// marker written `e`.
pub open spec fn number_at(cs: Seq<CharInfo>, p: usize) -> Outcome<LexModel> {
    let signed = p < cs.len() && is_sign(cs[p as int].ch);
    let d = if signed {
        p + 1
    } else {
        p as int
    };
    if !(d < cs.len() && is_digit(cs[d].ch)) {
        (Err(miss(cs, d)), p)
    } else {
        let q = run_end(cs, d + 1, Class::Digit);
        let has_frac = is_char(cs, q, '.');
        if has_frac && !(q + 1 < cs.len() && is_digit(cs[q + 1].ch)) {
            (Err(miss(cs, q + 1).spec_to_fatal()), (q + 1) as usize)
        } else {
            let f = if has_frac {
                run_end(cs, q + 2, Class::Digit)
            } else {
                q
            };
            let has_exp = is_char(cs, f, 'e') || is_char(cs, f, 'E');
            let exp_signed = has_exp && f + 1 < cs.len() && is_sign(cs[f + 1].ch);
            let g = if exp_signed {
                f + 2
            } else {
                f + 1
            };
            if has_exp && !(g < cs.len() && is_digit(cs[g].ch)) {
                (Err(miss(cs, g).spec_to_fatal()), g as usize)
            } else {
                let e = if has_exp {
                    run_end(cs, g + 1, Class::Digit)
                } else {
                    f
                };
                let sign_text = if signed {
                    seq![cs[p as int].ch]
                } else {
                    Seq::empty()
                };
                let frac_text = if has_frac {
                    seq!['.'] + chars_of(cs, q + 1, f)
                } else {
                    Seq::empty()
                };
                let exp_sign = if exp_signed {
                    seq![cs[f + 1].ch]
                } else {
                    Seq::empty()
                };
                let exp_text = if has_exp {
                    seq!['e'] + exp_sign + chars_of(cs, g, e)
                } else {
                    Seq::empty()
                };
                (
                    Ok(
                        Some(
                            (
                                Kind::Number,
                                span(cs, p as int, e - 1),
                                sign_text + chars_of(cs, d, q) + frac_text + exp_text,
                            ),
                        ),
                    ),
                    e as usize,
                )
            }
        }
    }
}

/// The two-character punctuation.
pub open spec fn pair_kind(a: char, b: char) -> Option<Kind> {
    if a == '<' && b == '-' {
        Some(Kind::SLArrow)
    } else if a == '<' && b == '=' {
        Some(Kind::DLArrow)
    } else if a == '-' && b == '>' {
        Some(Kind::SRArrow)
    } else if a == '=' && b == '>' {
        Some(Kind::DRArrow)
    } else {
        None
    }
}

/// The one-character punctuation.
pub open spec fn single_kind(c: char) -> Option<Kind> {
    if c == '(' {
        Some(Kind::LParen)
    } else if c == ')' {
        Some(Kind::RParen)
    } else if c == '{' {
        Some(Kind::LCurl)
    } else if c == '}' {
        Some(Kind::RCurl)
    } else if c == '<' {
        Some(Kind::LAngle)
    } else if c == '>' {
        Some(Kind::RAngle)
    } else if c == ':' {
        Some(Kind::Colon)
    } else if c == '.' {
        Some(Kind::Dot)
    } else if c == ',' {
        Some(Kind::Comma)
    } else {
        None
    }
}

/// Punctuation, two-character arrows before single characters.
pub open spec fn punct_at(cs: Seq<CharInfo>, p: usize) -> Outcome<LexModel> {
    if p + 1 < cs.len() && pair_kind(cs[p as int].ch, cs[p + 1].ch) is Some {
        (
            Ok(Some((pair_kind(cs[p as int].ch, cs[p + 1].ch)->Some_0, span(cs, p as int, p + 1), Seq::empty()))),
            (p + 2) as usize,
        )
    } else if p < cs.len() && single_kind(cs[p as int].ch) is Some {
        (Ok(Some((single_kind(cs[p as int].ch)->Some_0, span(cs, p as int, p as int), Seq::empty()))), (p + 1) as usize)
    } else {
        (Err(miss(cs, p as int)), p)
    }
}

/// One production from `p`: whitespace or a comment, a lower symbol, an
/// upper symbol, a string, a number or punctuation, tried in that order.
pub open spec fn token_at(cs: Seq<CharInfo>, p: usize) -> Outcome<LexModel> {
    choice(
        p,
        choice(p, whitespace_at(cs, p), comment_at(cs, p)),
        choice(
            p,
            symbol_at(cs, p, true),
            choice(
                p,
                symbol_at(cs, p, false),
                choice(p, string_at(cs, p), choice(p, number_at(cs, p), punct_at(cs, p))),
            ),
        ),
    )
}

/// Productions from `p` to the end of the input; the first failure other
/// than running out of input ends it with that failure. Every successful
/// production moves forward (`lemma_token_progress`), so the last branch
/// below is never taken; it only makes the recursion visibly finite.
pub open spec fn lex_from(cs: Seq<CharInfo>, p: usize) -> Result<Seq<LexModel>, MatchError>
    decreases cs.len() - p,
{
    let r = token_at(cs, p);
    match r.0 {
        Ok(l) => if p < r.1 <= cs.len() {
            match lex_from(cs, r.1) {
                Ok(ls) => Ok(seq![l] + ls),
                Err(e) => Err(e),
            }
        } else {
            Ok(seq![l])
        },
        Err(e) => if e == MatchError::ErrorEndOfFile {
            Ok(Seq::empty())
        } else {
            Err(e)
        },
    }
}

/// The models of a list of lexemes.
pub open spec fn lexemes_model(ls: Seq<Lexeme>) -> Seq<LexModel> {
    ls.map_values(|l: Lexeme| l.model())
}

/// The models of a list of tokens.
pub open spec fn tokens_model(ts: Seq<Token>) -> Seq<(Kind, TMeta, Seq<char>)> {
    ts.map_values(|t: Token| t.model())
}

/// The tokens among a list of lexemes, in order.
pub open spec fn only_tokens(ls: Seq<LexModel>) -> Seq<(Kind, TMeta, Seq<char>)>
    decreases ls.len(),
{
    if ls.len() == 0 {
        Seq::empty()
    } else {
        only_tokens(ls.drop_last()) + match ls.last() {
            Some(t) => seq![t],
            None => Seq::empty(),
        }
    }
}

/// A failure with its character index replaced by that character's byte offset.
pub open spec fn at_offset(cs: Seq<CharInfo>, e: MatchError) -> MatchError {
    match e {
        MatchError::Error(i) => if i < cs.len() {
            MatchError::Error(cs[i as int].offset)
        } else {
            e
        },
        MatchError::Fatal(i) => if i < cs.len() {
            MatchError::Fatal(cs[i as int].offset)
        } else {
            e
        },
        _ => e,
    }
}

/// A production that fails recoverably leaves the cursor where it started.
pub proof fn lemma_token_rewinds(cs: Seq<CharInfo>, p: usize)
    ensures
        recoverable(token_at(cs, p).0) ==> token_at(cs, p).1 == p,
{
}

proof fn lemma_run_end(cs: Seq<CharInfo>, p: int, k: Class)
    requires
        0 <= p <= cs.len(),
    ensures
        p <= run_end(cs, p, k) <= cs.len(),
    decreases cs.len() - p,
{
    if p < cs.len() && in_class(k, cs[p]) {
        lemma_run_end(cs, p + 1, k);
    }
}

proof fn lemma_string_body(cs: Seq<CharInfo>, p: int)
    requires
        0 <= p <= cs.len(),
    ensures
        p <= string_body(cs, p).1 <= cs.len(),
    decreases cs.len() - p,
{
    if 0 <= p < cs.len() && cs[p].ch != '"' {
        if cs[p].ch == '\\' {
            if p + 1 < cs.len() && escape_code(cs[p + 1].ch) is Some {
                lemma_string_body(cs, p + 2);
            }
        } else {
            lemma_string_body(cs, p + 1);
        }
    }
}

/// Every production that succeeds consumes at least one character and stays
/// inside the input.
pub proof fn lemma_token_progress(cs: Seq<CharInfo>, p: usize)
    requires
        p <= cs.len() <= usize::MAX,
    ensures
        token_at(cs, p).0 is Ok ==> p < token_at(cs, p).1 <= cs.len(),
{
    if p < cs.len() {
        lemma_run_end(cs, p + 1, Class::Whitespace);
        lemma_run_end(cs, p + 1, Class::NotEndOfLine);
        lemma_run_end(cs, p + 1, Class::LowerRest);
        lemma_run_end(cs, p + 1, Class::UpperRest);
        lemma_string_body(cs, p + 1);
        let d = if is_sign(cs[p as int].ch) {
            p + 1
        } else {
            p as int
        };
        if d < cs.len() {
            lemma_run_end(cs, d + 1, Class::Digit);
            let q = run_end(cs, d + 1, Class::Digit);
            if q + 1 < cs.len() {
                lemma_run_end(cs, q + 2, Class::Digit);
            }
            let f = if is_char(cs, q, '.') {
                run_end(cs, q + 2, Class::Digit)
            } else {
                q
            };
            if f + 1 < cs.len() {
                lemma_run_end(cs, f + 2, Class::Digit);
            }
            if f < cs.len() {
                lemma_run_end(cs, f + 1, Class::Digit);
            }
        }
        assert(number_at(cs, p).0 is Ok ==> p < number_at(cs, p).1 <= cs.len());
    }
    assert(whitespace_at(cs, p).0 is Ok ==> p < whitespace_at(cs, p).1 <= cs.len());
    assert(comment_at(cs, p).0 is Ok ==> p < comment_at(cs, p).1 <= cs.len());
    assert(symbol_at(cs, p, true).0 is Ok ==> p < symbol_at(cs, p, true).1 <= cs.len());
    assert(symbol_at(cs, p, false).0 is Ok ==> p < symbol_at(cs, p, false).1 <= cs.len());
    assert(string_at(cs, p).0 is Ok ==> p < string_at(cs, p).1 <= cs.len());
    assert(punct_at(cs, p).0 is Ok ==> p < punct_at(cs, p).1 <= cs.len());
}

fn miss_at(cs: &Vec<CharInfo>, p: usize) -> (e: MatchError)
    ensures
        e == miss(cs@, p as int),
{
    if p < cs.len() {
        MatchError::Error(p)
    } else {
        MatchError::ErrorEndOfFile
    }
}

/// Where the run of class `k` from `p` ends.
fn run(cs: &Vec<CharInfo>, p: usize, k: Class) -> (q: usize)
    requires
        p <= cs.len(),
    ensures
        q as int == run_end(cs@, p as int, k),
        p <= q <= cs.len(),
{
    proof {
        lemma_run_end(cs@, p as int, k);
    }
    let mut q = p;
    while q < cs.len() && class_holds(k, cs[q])
        invariant
            p <= q <= cs.len(),
            run_end(cs@, q as int, k) == run_end(cs@, p as int, k),
        decreases cs.len() - q,
    {
        q += 1;
    }
    q
}

fn push_chars(v: &mut Vec<char>, cs: &Vec<CharInfo>, p: usize, q: usize)
    requires
        p <= q <= cs.len(),
    ensures
        final(v)@ == old(v)@ + chars_of(cs@, p as int, q as int),
{
    let mut i = p;
    while i < q
        invariant
            p <= i <= q <= cs.len(),
            v@ == old(v)@ + chars_of(cs@, p as int, i as int),
        decreases q - i,
    {
        v.push(cs[i].ch);
        i += 1;
        assert(v@ =~= old(v)@ + chars_of(cs@, p as int, i as int));
    }
}

fn text_of(cs: &Vec<CharInfo>, p: usize, q: usize) -> (r: String)
    requires
        p <= q <= cs.len(),
    ensures
        r@ == chars_of(cs@, p as int, q as int),
{
    let mut v: Vec<char> = Vec::new();
    push_chars(&mut v, cs, p, q);
    assert(v@ =~= chars_of(cs@, p as int, q as int));
    string_of_chars(&v)
}

/// One character of class `k`, through the engine's leaf matcher.
fn char_in(cs: &Vec<CharInfo>, at: usize, k: Class) -> (r: Outcome<CharInfo>)
    ensures
        at < cs.len() && in_class(k, cs@[at as int]) ==> r == (
            Ok::<CharInfo, MatchError>(cs@[at as int]),
            (at + 1) as usize,
        ),
        !(at < cs.len() && in_class(k, cs@[at as int])) ==> r == (
            Err::<CharInfo, MatchError>(miss(cs@, at as int)),
            at,
        ),
{
    let test = |c: &CharInfo| -> (o: Option<CharInfo>)
        ensures
            o == (if in_class(k, *c) {
                Some(*c)
            } else {
                None::<CharInfo>
            }),
        {
            if class_holds(k, *c) {
                Some(*c)
            } else {
                None
            }
        };
    predicate(cs, at, &test)
}

/// One character equal to `ch`, through the engine's leaf matcher.
fn char_is(cs: &Vec<CharInfo>, at: usize, ch: char) -> (r: Outcome<CharInfo>)
    ensures
        is_char(cs@, at as int, ch) ==> r == (Ok::<CharInfo, MatchError>(cs@[at as int]), (at + 1) as usize),
        !is_char(cs@, at as int, ch) ==> r == (Err::<CharInfo, MatchError>(miss(cs@, at as int)), at),
{
    let test = |c: &CharInfo| -> (o: Option<CharInfo>)
        ensures
            o == (if c.ch == ch {
                Some(*c)
            } else {
                None::<CharInfo>
            }),
        {
            if c.ch == ch {
                Some(*c)
            } else {
                None
            }
        };
    predicate(cs, at, &test)
}

fn whitespace(cs: &Vec<CharInfo>, at: usize) -> (r: Outcome<Lexeme>)
    requires
        at <= cs.len(),
    ensures
        outcome_model(r) == whitespace_at(cs@, at),
{
    let first = char_in(cs, at, Class::Whitespace);
    match first.0 {
        Ok(_) => {
            let q = run(cs, first.1, Class::Whitespace);
            (Ok(Lexeme::Junk), q)
        },
        Err(e) => (Err(e), at),
    }
}

fn comment(cs: &Vec<CharInfo>, at: usize) -> (r: Outcome<Lexeme>)
    requires
        at <= cs.len(),
    ensures
        outcome_model(r) == comment_at(cs@, at),
{
    let first = char_is(cs, at, '#');
    match first.0 {
        Ok(_) => {
            let q = run(cs, first.1, Class::NotEndOfLine);
            let end = char_in(cs, q, Class::EndOfLine);
            match end.0 {
                Ok(_) => (Ok(Lexeme::Junk), end.1),
                Err(e) => (Err(e), at),
            }
        },
        Err(e) => (Err(e), at),
    }
}

fn symbol(cs: &Vec<CharInfo>, at: usize, lower: bool) -> (r: Outcome<Lexeme>)
    requires
        at <= cs.len(),
    ensures
        outcome_model(r) == symbol_at(cs@, at, lower),
{
    let start = if lower {
        Class::LowerStart
    } else {
        Class::UpperStart
    };
    let rest = if lower {
        Class::LowerRest
    } else {
        Class::UpperRest
    };
    let first = char_in(cs, at, start);
    match first.0 {
        Ok(c) => {
            let q = run(cs, first.1, rest);
            let meta = TMeta { start: c.offset, end: cs[q - 1].offset };
            let name = text_of(cs, at, q);
            let kind = if lower {
                Kind::LowerSymbol
            } else {
                Kind::UpperSymbol
            };
            let t = Token::new(kind, meta, name);
            (Ok(Lexeme::Token(t)), q)
        },
        Err(e) => (Err(e), at),
    }
}

fn decode_escape(c: char) -> (r: Option<char>)
    ensures
        r == escape_code(c),
{
    if c == 'n' {
        Some('\n')
    } else if c == 'r' {
        Some('\r')
    } else if c == 't' {
        Some('\t')
    } else if c == '\\' {
        Some('\\')
    } else if c == '0' {
        Some('\0')
    } else if c == '"' {
        Some('"')
    } else {
        None
    }
}

spec fn prefixed(acc: Seq<char>, r: (Result<Seq<char>, MatchError>, int)) -> (Result<Seq<char>, MatchError>, int) {
    match r.0 {
        Ok(s) => (Ok(acc + s), r.1),
        Err(e) => (Err(e), r.1),
    }
}

proof fn lemma_prefixed(a: Seq<char>, b: Seq<char>, r: (Result<Seq<char>, MatchError>, int))
    ensures
        prefixed(a, prefixed(b, r)) == prefixed(a + b, r),
{
    match r.0 {
        Ok(s) => {
            assert(a + (b + s) =~= (a + b) + s);
        },
        Err(_) => {},
    }
}

fn string_chars(cs: &Vec<CharInfo>, p: usize) -> (r: (Result<Vec<char>, MatchError>, usize))
    requires
        p <= cs.len(),
    ensures
        string_body(cs@, p as int) == (
            match r.0 {
                Ok(v) => Ok(v@),
                Err(e) => Err(e),
            },
            r.1 as int,
        ),
        r.1 <= cs.len(),
{
    let mut acc: Vec<char> = Vec::new();
    let mut i = p;
    assert(prefixed(acc@, string_body(cs@, i as int)) == string_body(cs@, p as int)) by {
        let b = string_body(cs@, p as int);
        if let Ok(s) = b.0 {
            assert(Seq::<char>::empty() + s =~= s);
        }
    }
    loop
        invariant
            p <= i <= cs.len(),
            string_body(cs@, p as int) == prefixed(acc@, string_body(cs@, i as int)),
        decreases cs.len() - i,
    {
        if i < cs.len() && cs[i].ch != '"' {
            if cs[i].ch == '\\' {
                let code = if i + 1 < cs.len() {
                    decode_escape(cs[i + 1].ch)
                } else {
                    None
                };
                match code {
                    Some(c) => {
                        proof {
                            assert(string_body(cs@, i as int) == prefixed(seq![c], string_body(cs@, i + 2)));
                            lemma_prefixed(acc@, seq![c], string_body(cs@, i + 2));
                        }
                        let ghost before = acc@;
                        acc.push(c);
                        assert(acc@ =~= before + seq![c]);
                        i += 2;
                    },
                    None => {
                        let e = miss_at(cs, i + 1).to_fatal();
                        return (Err(e), i + 1);
                    },
                }
            } else {
                proof {
                    assert(string_body(cs@, i as int) == prefixed(
                        seq![cs@[i as int].ch],
                        string_body(cs@, i + 1),
                    ));
                    lemma_prefixed(acc@, seq![cs@[i as int].ch], string_body(cs@, i + 1));
                }
                let ghost before = acc@;
                acc.push(cs[i].ch);
                assert(acc@ =~= before + seq![cs@[i as int].ch]);
                i += 1;
            }
        } else {
            proof {
                assert(acc@ + Seq::<char>::empty() =~= acc@);
            }
            return (Ok(acc), i);
        }
    }
}

fn string(cs: &Vec<CharInfo>, at: usize) -> (r: Outcome<Lexeme>)
    requires
        at <= cs.len(),
    ensures
        outcome_model(r) == string_at(cs@, at),
{
    let open = char_is(cs, at, '"');
    match open.0 {
        Ok(o) => {
            let b = string_chars(cs, open.1);
            match b.0 {
                Ok(v) => {
                    let close = char_is(cs, b.1, '"');
                    match close.0 {
                        Ok(c) => {
                            let text = string_of_chars(&v);
                            let t = Token::new(Kind::Str, TMeta { start: o.offset, end: c.offset }, text);
                            (Ok(Lexeme::Token(t)), close.1)
                        },
                        Err(e) => (Err(e), at),
                    }
                },
                Err(e) => (Err(e), b.1),
            }
        },
        Err(e) => (Err(e), at),
    }
}

#[verifier::rlimit(80)]
#[verifier::spinoff_prover]
fn number(cs: &Vec<CharInfo>, at: usize) -> (r: Outcome<Lexeme>)
    requires
        at <= cs.len(),
    ensures
        outcome_model(r) == number_at(cs@, at),
{
    let ghost s = cs@;
    let sign = char_in(cs, at, Class::Sign);
    let signed = sign.0.is_ok();
    let d = sign.1;
    let first = char_in(cs, d, Class::Digit);
    if first.0.is_err() {
        return (Err(miss_at(cs, d)), at);
    }
    let q = run(cs, first.1, Class::Digit);
    let dot = char_is(cs, q, '.');
    let has_frac = dot.0.is_ok();
    let mut f = q;
    if has_frac {
        let fd = char_in(cs, dot.1, Class::Digit);
        if fd.0.is_err() {
            return (Err(miss_at(cs, dot.1).to_fatal()), dot.1);
        }
        f = run(cs, fd.1, Class::Digit);
    }
    let marker = char_in(cs, f, Class::ExponentMarker);
    let has_exp = marker.0.is_ok();
    let mut exp_signed = false;
    let mut e = f;
    let mut g = f;
    if has_exp {
        let esign = char_in(cs, marker.1, Class::Sign);
        exp_signed = esign.0.is_ok();
        g = esign.1;
        let ed = char_in(cs, g, Class::Digit);
        if ed.0.is_err() {
            return (Err(miss_at(cs, g).to_fatal()), g);
        }
        e = run(cs, ed.1, Class::Digit);
    }
    let mut text: Vec<char> = Vec::new();
    if signed {
        text.push(cs[at].ch);
    }
    let ghost sign_text = text@;
    push_chars(&mut text, cs, d, q);
    let ghost int_text = text@;
    if has_frac {
        text.push('.');
        push_chars(&mut text, cs, q + 1, f);
        assert(text@ =~= int_text + (seq!['.'] + chars_of(s, q + 1, f as int)));
    }
    let ghost frac_text = text@;
    if has_exp {
        text.push('e');
        if exp_signed {
            text.push(cs[f + 1].ch);
        }
        let ghost before = text@;
        push_chars(&mut text, cs, g, e);
        assert(text@ =~= frac_text + (seq!['e'] + (if exp_signed {
            seq![s[f + 1].ch]
        } else {
            Seq::<char>::empty()
        }) + chars_of(s, g as int, e as int)));
    }
    let meta = TMeta { start: cs[at].offset, end: cs[e - 1].offset };
    let t = Token::new(Kind::Number, meta, string_of_chars(&text));
    proof {
        let spec_frac = if has_frac {
            seq!['.'] + chars_of(s, q + 1, f as int)
        } else {
            Seq::<char>::empty()
        };
        let spec_exp = if has_exp {
            seq!['e'] + (if exp_signed {
                seq![s[f + 1].ch]
            } else {
                Seq::<char>::empty()
            }) + chars_of(s, g as int, e as int)
        } else {
            Seq::<char>::empty()
        };
        assert(frac_text =~= int_text + spec_frac);
        assert(text@ =~= frac_text + spec_exp);
        assert(text@ =~= sign_text + chars_of(s, d as int, q as int) + spec_frac + spec_exp);
    }
    (Ok(Lexeme::Token(t)), e)
}

fn pair_kind_of(a: char, b: char) -> (r: Option<Kind>)
    ensures
        r == pair_kind(a, b),
{
    if a == '<' && b == '-' {
        Some(Kind::SLArrow)
    } else if a == '<' && b == '=' {
        Some(Kind::DLArrow)
    } else if a == '-' && b == '>' {
        Some(Kind::SRArrow)
    } else if a == '=' && b == '>' {
        Some(Kind::DRArrow)
    } else {
        None
    }
}

fn single_kind_of(c: char) -> (r: Option<Kind>)
    ensures
        r == single_kind(c),
{
    if c == '(' {
        Some(Kind::LParen)
    } else if c == ')' {
        Some(Kind::RParen)
    } else if c == '{' {
        Some(Kind::LCurl)
    } else if c == '}' {
        Some(Kind::RCurl)
    } else if c == '<' {
        Some(Kind::LAngle)
    } else if c == '>' {
        Some(Kind::RAngle)
    } else if c == ':' {
        Some(Kind::Colon)
    } else if c == '.' {
        Some(Kind::Dot)
    } else if c == ',' {
        Some(Kind::Comma)
    } else {
        None
    }
}

fn punct(cs: &Vec<CharInfo>, at: usize) -> (r: Outcome<Lexeme>)
    requires
        at <= cs.len(),
    ensures
        outcome_model(r) == punct_at(cs@, at),
{
    if cs.len() > 1 && at < cs.len() - 1 {
        if let Some(k) = pair_kind_of(cs[at].ch, cs[at + 1].ch) {
            let t = Token::new(k, TMeta { start: cs[at].offset, end: cs[at + 1].offset }, String::new());
            return (Ok(Lexeme::Token(t)), at + 2);
        }
    }
    if at < cs.len() {
        if let Some(k) = single_kind_of(cs[at].ch) {
            let t = Token::new(k, TMeta { start: cs[at].offset, end: cs[at].offset }, String::new());
            return (Ok(Lexeme::Token(t)), at + 1);
        }
    }
    (Err(miss_at(cs, at)), at)
}

/// One production from `at`, the candidates tried in order.
fn token(cs: &Vec<CharInfo>, at: usize) -> (r: Outcome<Lexeme>)
    requires
        at <= cs.len(),
    ensures
        outcome_model(r) == token_at(cs@, at),
{
    let ghost s = cs@;
    let r = whitespace(cs, at);
    let r = if is_recoverable(&r.0) {
        let c = comment(cs, at);
        if is_recoverable(&c.0) {
            (c.0, at)
        } else {
            c
        }
    } else {
        r
    };
    assert(outcome_model(r) == choice(at, whitespace_at(s, at), comment_at(s, at)));
    if !is_recoverable(&r.0) {
        return r;
    }
    let r = symbol(cs, at, true);
    if !is_recoverable(&r.0) {
        return r;
    }
    let r = symbol(cs, at, false);
    if !is_recoverable(&r.0) {
        return r;
    }
    let r = string(cs, at);
    if !is_recoverable(&r.0) {
        return r;
    }
    let r = number(cs, at);
    if !is_recoverable(&r.0) {
        return r;
    }
    let r = punct(cs, at);
    if is_recoverable(&r.0) {
        (r.0, at)
    } else {
        r
    }
}

spec fn prepend_all(pre: Seq<LexModel>, r: Result<Seq<LexModel>, MatchError>) -> Result<Seq<LexModel>, MatchError> {
    match r {
        Ok(ls) => Ok(pre + ls),
        Err(e) => Err(e),
    }
}

/// Every production of the classified characters `cs` in order, whitespace
/// and comments included. A failure gives the index of the character where
/// it happened.
pub fn lex_classified(cs: &Vec<CharInfo>) -> (r: Result<Vec<Lexeme>, MatchError>)
    ensures
        match lex_from(cs@, 0) {
            Ok(ls) => r is Ok && lexemes_model(r->Ok_0@) == ls,
            Err(e) => r == Err::<Vec<Lexeme>, MatchError>(e),
        },
{
    let mut out: Vec<Lexeme> = Vec::new();
    let mut pos: usize = 0;
    assert(prepend_all(lexemes_model(out@), lex_from(cs@, 0)) == lex_from(cs@, 0)) by {
        if let Ok(ls) = lex_from(cs@, 0) {
            assert(lexemes_model(out@) + ls =~= ls);
        }
    }
    loop
        invariant
            pos <= cs.len(),
            lex_from(cs@, 0) == prepend_all(lexemes_model(out@), lex_from(cs@, pos)),
        decreases cs.len() - pos,
    {
        let r = token(cs, pos);
        proof {
            lemma_token_progress(cs@, pos);
        }
        let ghost before = out@;
        match r.0 {
            Ok(l) => {
                let ghost m = l.model();
                out.push(l);
                assert(lexemes_model(out@) =~= lexemes_model(before).push(m));
                proof {
                    if let Ok(ls) = lex_from(cs@, r.1) {
                        assert(lexemes_model(before) + (seq![m] + ls) =~= lexemes_model(out@) + ls);
                    }
                }
                pos = r.1;
            },
            Err(e) => {
                if e == MatchError::ErrorEndOfFile {
                    assert(lexemes_model(out@) + Seq::<LexModel>::empty() =~= lexemes_model(out@));
                    return Ok(out);
                } else {
                    return Err(e);
                }
            },
        }
    }
}

/// Every production of `input` in order, whitespace and comments included.
/// A failure gives the index of the character where it happened.
pub fn lex(input: &str) -> (r: Result<Vec<Lexeme>, MatchError>)
    ensures
        match lex_from(annotated(input@), 0) {
            Ok(ls) => r is Ok && lexemes_model(r->Ok_0@) == ls,
            Err(e) => r == Err::<Vec<Lexeme>, MatchError>(e),
        },
{
    let cs = annotate(input);
    lex_classified(&cs)
}

fn error_at_offset(cs: &Vec<CharInfo>, e: MatchError) -> (r: MatchError)
    ensures
        r == at_offset(cs@, e),
{
    match e {
        MatchError::Error(i) => if i < cs.len() {
            MatchError::Error(cs[i].offset)
        } else {
            e
        },
        MatchError::Fatal(i) => if i < cs.len() {
            MatchError::Fatal(cs[i].offset)
        } else {
            e
        },
        _ => e,
    }
}

/// The tokens of `input`, whitespace and comments dropped. A failure gives
/// the byte offset of the character where it happened.
pub fn tokenize(input: &str) -> (r: Result<Vec<Token>, MatchError>)
    ensures
        match lex_from(annotated(input@), 0) {
            Ok(ls) => r is Ok && tokens_model(r->Ok_0@) == only_tokens(ls),
            Err(e) => r == Err::<Vec<Token>, MatchError>(at_offset(annotated(input@), e)),
        },
{
    let cs = annotate(input);
    tokenize_classified(&cs)
}

/// The tokens of the classified characters `cs`, whitespace and comments
/// dropped. A failure gives the byte offset of the character where it
/// happened.
pub fn tokenize_classified(cs: &Vec<CharInfo>) -> (r: Result<Vec<Token>, MatchError>)
    ensures
        match lex_from(cs@, 0) {
            Ok(ls) => r is Ok && tokens_model(r->Ok_0@) == only_tokens(ls),
            Err(e) => r == Err::<Vec<Token>, MatchError>(at_offset(cs@, e)),
        },
{
    match lex_classified(cs) {
        Err(e) => Err(error_at_offset(cs, e)),
        Ok(ls) => {
            let mut out: Vec<Token> = Vec::new();
            let mut i: usize = 0;
            while i < ls.len()
                invariant
                    i <= ls.len(),
                    tokens_model(out@) == only_tokens(lexemes_model(ls@).subrange(0, i as int)),
                decreases ls.len() - i,
            {
                let ghost before = out@;
                assert(lexemes_model(ls@).subrange(0, i + 1).drop_last() =~= lexemes_model(ls@).subrange(0, i as int));
                match &ls[i] {
                    Lexeme::Token(t) => {
                        out.push(t.duplicate());
                        assert(tokens_model(out@) =~= tokens_model(before) + seq![t.model()]);
                    },
                    Lexeme::Junk => {
                        assert(tokens_model(out@) =~= tokens_model(before) + Seq::empty());
                    },
                }
                i += 1;
            }
            assert(lexemes_model(ls@).subrange(0, ls.len() as int) =~= lexemes_model(ls@));
            Ok(out)
        },
    }
}

} // verus!
