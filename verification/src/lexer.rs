//! The tokenizer: turns one line of configuration or assembly text
//! into a sequence of typed lexical units (identifiers, registers,
//! immediates, integer literals in three radices, punctuation), with
//! comments and whitespace elided.  Every lexeme keeps the exact
//! source substring for diagnostics.
//!
//! The grammar is stated by the spec functions here ([`toks_from`]
//! above all); the executable tokenizer is verified against them.
use vstd::prelude::*;

verus! {

// ---------------------------------------------------------------
// Character classes
// ---------------------------------------------------------------
pub open spec fn is_ws_char(c: char) -> bool {
    c == ' ' || c == '\t' || c == '\r' || c == '\n'
}

pub open spec fn is_dec_digit(c: char) -> bool {
    '0' <= c && c <= '9'
}

pub open spec fn is_hex_digit(c: char) -> bool {
    is_dec_digit(c) || ('a' <= c && c <= 'f') || ('A' <= c && c <= 'F')
}

pub open spec fn is_bin_digit(c: char) -> bool {
    c == '0' || c == '1'
}

pub open spec fn is_word_start(c: char) -> bool {
    c == '_' || ('a' <= c && c <= 'z') || ('A' <= c && c <= 'Z')
}

pub open spec fn is_word_char(c: char) -> bool {
    is_word_start(c) || is_dec_digit(c)
}

/// The numeric value of a decimal digit character (zero for anything
/// that is no digit).
pub open spec fn dec_digit_val(c: char) -> u64 {
    if is_dec_digit(c) {
        (c as int - '0' as int) as u64
    } else {
        0
    }
}

/// The numeric value of a hexadecimal digit character (zero for
/// anything that is no digit).
pub open spec fn hex_digit_val(c: char) -> u64 {
    if is_dec_digit(c) {
        dec_digit_val(c)
    } else if 'a' <= c && c <= 'f' {
        (c as int - 'a' as int + 10) as u64
    } else if 'A' <= c && c <= 'F' {
        (c as int - 'A' as int + 10) as u64
    } else {
        0
    }
}

/// The digit value used when parsing in the given radix (2, 10 or 16).
pub open spec fn digit_val(radix: u64, c: char) -> u64 {
    if radix == 16 {
        hex_digit_val(c)
    } else {
        dec_digit_val(c)
    }
}

// ---------------------------------------------------------------
// Scanning
// ---------------------------------------------------------------
/// How many consecutive word characters stand at `i`.
pub open spec fn word_run(s: Seq<char>, i: int) -> int
    decreases s.len() - i,
{
    if 0 <= i && i < s.len() && is_word_char(s[i]) {
        1 + word_run(s, i + 1)
    } else {
        0
    }
}

pub proof fn lemma_word_run(s: Seq<char>, i: int)
    requires
        0 <= i <= s.len(),
    ensures
        0 <= word_run(s, i),
        i + word_run(s, i) <= s.len(),
        forall|k: int| i <= k < i + word_run(s, i) ==> is_word_char(#[trigger] s[k]),
        i + word_run(s, i) == s.len() || !is_word_char(s[i + word_run(s, i)]),
    decreases s.len() - i,
{
    if i < s.len() && is_word_char(s[i]) {
        lemma_word_run(s, i + 1);
    }
}

/// A run is pinned down by its endpoint: if everything in `[i, j)` is
/// a word character and `j` is the end of the text or not one, the
/// run at `i` is exactly `j - i`.
pub proof fn lemma_word_run_is(s: Seq<char>, i: int, j: int)
    requires
        0 <= i <= j <= s.len(),
        forall|k: int| i <= k < j ==> is_word_char(#[trigger] s[k]),
        j == s.len() || !is_word_char(s[j]),
    ensures
        word_run(s, i) == j - i,
    decreases j - i,
{
    if i < j {
        lemma_word_run_is(s, i + 1, j);
    }
}

/// How many consecutive decimal digits stand at `i`.
pub open spec fn dec_run(s: Seq<char>, i: int) -> int
    decreases s.len() - i,
{
    if 0 <= i && i < s.len() && is_dec_digit(s[i]) {
        1 + dec_run(s, i + 1)
    } else {
        0
    }
}

pub proof fn lemma_dec_run(s: Seq<char>, i: int)
    requires
        0 <= i <= s.len(),
    ensures
        0 <= dec_run(s, i),
        i + dec_run(s, i) <= s.len(),
        forall|k: int| i <= k < i + dec_run(s, i) ==> is_dec_digit(#[trigger] s[k]),
        i + dec_run(s, i) == s.len() || !is_dec_digit(s[i + dec_run(s, i)]),
    decreases s.len() - i,
{
    if i < s.len() && is_dec_digit(s[i]) {
        lemma_dec_run(s, i + 1);
    }
}

pub proof fn lemma_dec_run_is(s: Seq<char>, i: int, j: int)
    requires
        0 <= i <= j <= s.len(),
        forall|k: int| i <= k < j ==> is_dec_digit(#[trigger] s[k]),
        j == s.len() || !is_dec_digit(s[j]),
    ensures
        dec_run(s, i) == j - i,
    decreases j - i,
{
    if i < j {
        lemma_dec_run_is(s, i + 1, j);
    }
}

/// How many consecutive hexadecimal digits stand at `i`.
pub open spec fn hex_run(s: Seq<char>, i: int) -> int
    decreases s.len() - i,
{
    if 0 <= i && i < s.len() && is_hex_digit(s[i]) {
        1 + hex_run(s, i + 1)
    } else {
        0
    }
}

pub proof fn lemma_hex_run(s: Seq<char>, i: int)
    requires
        0 <= i <= s.len(),
    ensures
        0 <= hex_run(s, i),
        i + hex_run(s, i) <= s.len(),
        forall|k: int| i <= k < i + hex_run(s, i) ==> is_hex_digit(#[trigger] s[k]),
        i + hex_run(s, i) == s.len() || !is_hex_digit(s[i + hex_run(s, i)]),
    decreases s.len() - i,
{
    if i < s.len() && is_hex_digit(s[i]) {
        lemma_hex_run(s, i + 1);
    }
}

pub proof fn lemma_hex_run_is(s: Seq<char>, i: int, j: int)
    requires
        0 <= i <= j <= s.len(),
        forall|k: int| i <= k < j ==> is_hex_digit(#[trigger] s[k]),
        j == s.len() || !is_hex_digit(s[j]),
    ensures
        hex_run(s, i) == j - i,
    decreases j - i,
{
    if i < j {
        lemma_hex_run_is(s, i + 1, j);
    }
}

/// How many consecutive binary digits stand at `i`.
pub open spec fn bin_run(s: Seq<char>, i: int) -> int
    decreases s.len() - i,
{
    if 0 <= i && i < s.len() && is_bin_digit(s[i]) {
        1 + bin_run(s, i + 1)
    } else {
        0
    }
}

pub proof fn lemma_bin_run(s: Seq<char>, i: int)
    requires
        0 <= i <= s.len(),
    ensures
        0 <= bin_run(s, i),
        i + bin_run(s, i) <= s.len(),
        forall|k: int| i <= k < i + bin_run(s, i) ==> is_bin_digit(#[trigger] s[k]),
        i + bin_run(s, i) == s.len() || !is_bin_digit(s[i + bin_run(s, i)]),
    decreases s.len() - i,
{
    if i < s.len() && is_bin_digit(s[i]) {
        lemma_bin_run(s, i + 1);
    }
}

pub proof fn lemma_bin_run_is(s: Seq<char>, i: int, j: int)
    requires
        0 <= i <= j <= s.len(),
        forall|k: int| i <= k < j ==> is_bin_digit(#[trigger] s[k]),
        j == s.len() || !is_bin_digit(s[j]),
    ensures
        bin_run(s, i) == j - i,
    decreases j - i,
{
    if i < j {
        lemma_bin_run_is(s, i + 1, j);
    }
}

/// The position of the first `*/` at or after `i`, or the text length
/// if there is none.
pub open spec fn close_pos(s: Seq<char>, i: int) -> int
    decreases s.len() - i,
{
    if 0 <= i && i + 2 <= s.len() {
        if s[i] == '*' && s[i + 1] == '/' {
            i
        } else {
            close_pos(s, i + 1)
        }
    } else {
        s.len() as int
    }
}

pub proof fn lemma_close_pos(s: Seq<char>, i: int)
    requires
        0 <= i <= s.len(),
    ensures
        i <= close_pos(s, i) <= s.len(),
        close_pos(s, i) < s.len() ==> close_pos(s, i) + 2 <= s.len() && s[close_pos(s, i)] == '*'
            && s[close_pos(s, i) + 1] == '/',
        forall|k: int|
            i <= k < close_pos(s, i) && k + 2 <= s.len() ==> !(#[trigger] s[k] == '*' && s[k + 1]
                == '/'),
    decreases s.len() - i,
{
    if i + 2 <= s.len() && !(s[i] == '*' && s[i + 1] == '/') {
        lemma_close_pos(s, i + 1);
    }
}

pub proof fn lemma_close_pos_is(s: Seq<char>, i: int, j: int)
    requires
        0 <= i <= j,
        j + 2 <= s.len(),
        s[j] == '*' && s[j + 1] == '/',
        forall|k: int|
            i <= k < j && k + 2 <= s.len() ==> !(#[trigger] s[k] == '*' && s[k + 1] == '/'),
    ensures
        close_pos(s, i) == j,
    decreases j - i,
{
    if i < j {
        lemma_close_pos_is(s, i + 1, j);
    }
}

/// If no `*/` stands anywhere at or after `i`, the close position is
/// the text length.
pub proof fn lemma_close_pos_none(s: Seq<char>, i: int)
    requires
        0 <= i <= s.len(),
        forall|k: int|
            i <= k < s.len() && k + 2 <= s.len() ==> !(#[trigger] s[k] == '*' && s[k + 1] == '/'),
    ensures
        close_pos(s, i) == s.len(),
    decreases s.len() - i,
{
    if i + 2 <= s.len() {
        lemma_close_pos_none(s, i + 1);
    }
}

// ---------------------------------------------------------------
// Numeral values
// ---------------------------------------------------------------
/// One Horner step modulo 2^64.
pub open spec fn wrap_mul_add(acc: u64, radix: u64, d: u64) -> u64 {
    vstd::wrapping::u64_specs::wrapping_add(
        vstd::wrapping::u64_specs::wrapping_mul(acc, radix),
        d,
    )
}

/// The value of the digits `s[lo..hi]` in the given radix, reduced
/// modulo 2^64 (Horner evaluation with wrapping steps).
pub open spec fn num_wrap_range(s: Seq<char>, lo: int, hi: int, radix: u64, acc: u64) -> u64
    decreases hi - lo,
{
    if 0 <= lo && lo < hi && hi <= s.len() {
        num_wrap_range(s, lo + 1, hi, radix, wrap_mul_add(acc, radix, digit_val(radix, s[lo])))
    } else {
        acc
    }
}

/// The exact (unbounded) value of the digits `s[lo..hi]` in the given
/// radix.
pub open spec fn num_exact_range(s: Seq<char>, lo: int, hi: int, radix: nat, acc: nat) -> nat
    decreases hi - lo,
{
    if 0 <= lo && lo < hi && hi <= s.len() {
        num_exact_range(s, lo + 1, hi, radix, acc * radix + digit_val(radix as u64, s[lo]) as nat)
    } else {
        acc
    }
}

// ---------------------------------------------------------------
// The token model
// ---------------------------------------------------------------
pub ghost enum IntegerV {
    Binary(Seq<char>),
    Decimal(Seq<char>),
    Hex(Seq<char>),
}

impl IntegerV {
    /// The exact source text of the literal, prefix included.
    pub open spec fn text(self) -> Seq<char> {
        match self {
            IntegerV::Binary(t) => t,
            IntegerV::Decimal(t) => t,
            IntegerV::Hex(t) => t,
        }
    }

    /// The value of the literal reduced modulo 2^64.  This is what the
    /// compiler stages work with; truncation to narrower widths is
    /// applied later, where a template says so.
    pub open spec fn wrap_val(self) -> u64 {
        match self {
            IntegerV::Binary(t) => num_wrap_range(t, 2, t.len() as int, 2, 0),
            IntegerV::Decimal(t) => num_wrap_range(t, 0, t.len() as int, 10, 0),
            IntegerV::Hex(t) => num_wrap_range(t, 2, t.len() as int, 16, 0),
        }
    }
}

/// Which [`IntegerV`] variant a literal text belongs to, going by its
/// radix prefix.
pub open spec fn spec_classify_int(t: Seq<char>) -> IntegerV {
    if t.len() >= 2 && t[0] == '0' && (t[1] == 'x' || t[1] == 'X') {
        IntegerV::Hex(t)
    } else if t.len() >= 2 && t[0] == '0' && (t[1] == 'b' || t[1] == 'B') {
        IntegerV::Binary(t)
    } else {
        IntegerV::Decimal(t)
    }
}

pub ghost enum TokV {
    Identifier(Seq<char>),
    Integer(IntegerV),
    Register(u64),
    Immediate(u64),
    Comma,
    Arrow,
    Colon,
    Pipe,
    OpenBracket,
    CloseBracket,
    Error,
}

pub ghost struct LexV {
    pub token: TokV,
    pub slice: Seq<char>,
}

pub open spec fn all_dec_digits(s: Seq<char>, lo: int, hi: int) -> bool {
    forall|k: int| lo <= k < hi ==> is_dec_digit(#[trigger] s[k])
}

/// What a word (an identifier-shaped run) means: `rN` is a register,
/// `iN` an immediate (both case-insensitive, `N` read in decimal,
/// reduced modulo 2^64), anything else an identifier.
pub open spec fn classify_word(w: Seq<char>) -> TokV {
    if w.len() >= 2 && (w[0] == 'r' || w[0] == 'R') && all_dec_digits(w, 1, w.len() as int) {
        TokV::Register(num_wrap_range(w, 1, w.len() as int, 10, 0))
    } else if w.len() >= 2 && (w[0] == 'i' || w[0] == 'I') && all_dec_digits(w, 1, w.len() as int) {
        TokV::Immediate(num_wrap_range(w, 1, w.len() as int, 10, 0))
    } else {
        TokV::Identifier(w)
    }
}

/// The tokens of `s[i..]`.  Whitespace is skipped; `//` comments run
/// to the end of the line; an unterminated `/*` comment becomes a
/// single error lexeme covering the rest of the line; any character
/// no rule matches becomes a one-character error lexeme.
pub open spec fn toks_from(s: Seq<char>, i: int) -> Seq<LexV>
    decreases s.len() - i,
    via toks_from_decreases
{
    if i < 0 || i >= s.len() {
        seq![]
    } else if is_ws_char(s[i]) {
        toks_from(s, i + 1)
    } else if s[i] == '/' && i + 1 < s.len() && s[i + 1] == '/' {
        seq![]
    } else if s[i] == '/' && i + 1 < s.len() && s[i + 1] == '*' {
        let close = close_pos(s, i + 2);
        if close < s.len() {
            toks_from(s, close + 2)
        } else {
            seq![LexV { token: TokV::Error, slice: s.subrange(i, s.len() as int) }]
        }
    } else if s[i] == ',' {
        seq![LexV { token: TokV::Comma, slice: s.subrange(i, i + 1) }] + toks_from(s, i + 1)
    } else if s[i] == ':' {
        seq![LexV { token: TokV::Colon, slice: s.subrange(i, i + 1) }] + toks_from(s, i + 1)
    } else if s[i] == '|' {
        seq![LexV { token: TokV::Pipe, slice: s.subrange(i, i + 1) }] + toks_from(s, i + 1)
    } else if s[i] == '[' {
        seq![LexV { token: TokV::OpenBracket, slice: s.subrange(i, i + 1) }] + toks_from(s, i + 1)
    } else if s[i] == ']' {
        seq![LexV { token: TokV::CloseBracket, slice: s.subrange(i, i + 1) }] + toks_from(s, i + 1)
    } else if s[i] == '-' && i + 1 < s.len() && s[i + 1] == '>' {
        seq![LexV { token: TokV::Arrow, slice: s.subrange(i, i + 2) }] + toks_from(s, i + 2)
    } else if is_dec_digit(s[i]) {
        if s[i] == '0' && i + 2 < s.len() && (s[i + 1] == 'x' || s[i + 1] == 'X') && is_hex_digit(
            s[i + 2],
        ) {
            let j = i + 2 + hex_run(s, i + 2);
            let t = s.subrange(i, j);
            seq![LexV { token: TokV::Integer(IntegerV::Hex(t)), slice: t }] + toks_from(s, j)
        } else if s[i] == '0' && i + 2 < s.len() && (s[i + 1] == 'b' || s[i + 1] == 'B')
            && is_bin_digit(s[i + 2]) {
            let j = i + 2 + bin_run(s, i + 2);
            let t = s.subrange(i, j);
            seq![LexV { token: TokV::Integer(IntegerV::Binary(t)), slice: t }] + toks_from(s, j)
        } else {
            let j = i + dec_run(s, i);
            let t = s.subrange(i, j);
            seq![LexV { token: TokV::Integer(IntegerV::Decimal(t)), slice: t }] + toks_from(s, j)
        }
    } else if is_word_start(s[i]) {
        let j = i + word_run(s, i);
        let w = s.subrange(i, j);
        seq![LexV { token: classify_word(w), slice: w }] + toks_from(s, j)
    } else {
        seq![LexV { token: TokV::Error, slice: s.subrange(i, i + 1) }] + toks_from(s, i + 1)
    }
}

#[via_fn]
proof fn toks_from_decreases(s: Seq<char>, i: int) {
    if 0 <= i && i < s.len() {
        if i + 2 <= s.len() {
            lemma_close_pos(s, i + 2);
            lemma_hex_run(s, i + 2);
            lemma_bin_run(s, i + 2);
        }
        lemma_dec_run(s, i);
        lemma_word_run(s, i);
        if is_dec_digit(s[i]) {
            assert(dec_run(s, i) >= 1);
        }
        if is_word_start(s[i]) {
            assert(word_run(s, i) >= 1);
        }
    }
}

/// The token sequence of one whole line.
pub open spec fn spec_tokens(line: Seq<char>) -> Seq<LexV> {
    toks_from(line, 0)
}

// ---------------------------------------------------------------
// Executable token types
// ---------------------------------------------------------------
/// An integer literal as written, radix prefix included.
#[derive(Debug, Clone, PartialEq, Eq)]
pub enum Integer {
    Binary(String),
    Decimal(String),
    Hex(String),
}

impl View for Integer {
    type V = IntegerV;

    open spec fn view(&self) -> IntegerV {
        match self {
            Integer::Binary(t) => IntegerV::Binary(t@),
            Integer::Decimal(t) => IntegerV::Decimal(t@),
            Integer::Hex(t) => IntegerV::Hex(t@),
        }
    }
}

/// One lexical unit.
#[derive(Debug, Clone)]
pub enum Token {
    Identifier(String),
    Integer(Integer),
    Register(u64),
    Immediate(u64),
    Comma,
    Arrow,
    Colon,
    Pipe,
    OpenBracket,
    CloseBracket,
    Error,
}

impl View for Token {
    type V = TokV;

    open spec fn view(&self) -> TokV {
        match self {
            Token::Identifier(t) => TokV::Identifier(t@),
            Token::Integer(i) => TokV::Integer(i@),
            Token::Register(r) => TokV::Register(*r),
            Token::Immediate(i) => TokV::Immediate(*i),
            Token::Comma => TokV::Comma,
            Token::Arrow => TokV::Arrow,
            Token::Colon => TokV::Colon,
            Token::Pipe => TokV::Pipe,
            Token::OpenBracket => TokV::OpenBracket,
            Token::CloseBracket => TokV::CloseBracket,
            Token::Error => TokV::Error,
        }
    }
}

/// A token together with the exact source substring it came from.
#[derive(Debug, Clone)]
pub struct Lexeme {
    pub token: Token,
    pub slice: String,
}

impl View for Lexeme {
    type V = LexV;

    open spec fn view(&self) -> LexV {
        LexV { token: self.token@, slice: self.slice@ }
    }
}

/// The views of a sequence of lexemes.
pub open spec fn lexemes_view(ls: Seq<Lexeme>) -> Seq<LexV> {
    ls.map_values(|l: Lexeme| l@)
}

// ---------------------------------------------------------------
// Executable character classes
// ---------------------------------------------------------------
pub(crate) fn ws_char(c: char) -> (b: bool)
    ensures
        b == is_ws_char(c),
{
    c == ' ' || c == '\t' || c == '\r' || c == '\n'
}

pub(crate) fn dec_digit(c: char) -> (b: bool)
    ensures
        b == is_dec_digit(c),
{
    let u = c as u32;
    48 <= u && u <= 57
}

pub(crate) fn hex_digit(c: char) -> (b: bool)
    ensures
        b == is_hex_digit(c),
{
    let u = c as u32;
    (48 <= u && u <= 57) || (97 <= u && u <= 102) || (65 <= u && u <= 70)
}

pub(crate) fn bin_digit(c: char) -> (b: bool)
    ensures
        b == is_bin_digit(c),
{
    c == '0' || c == '1'
}

pub(crate) fn word_start(c: char) -> (b: bool)
    ensures
        b == is_word_start(c),
{
    let u = c as u32;
    c == '_' || (97 <= u && u <= 122) || (65 <= u && u <= 90)
}

pub(crate) fn word_char(c: char) -> (b: bool)
    ensures
        b == is_word_char(c),
{
    word_start(c) || dec_digit(c)
}

/// The value of one digit in the given radix.
pub(crate) fn digit_value(radix: u64, c: char) -> (d: u64)
    ensures
        d == digit_val(radix, c),
{
    let u = c as u32;
    if radix == 16 {
        if 48 <= u && u <= 57 {
            (u - 48) as u64
        } else if 97 <= u && u <= 102 {
            (u - 97 + 10) as u64
        } else if 65 <= u && u <= 70 {
            (u - 65 + 10) as u64
        } else {
            0
        }
    } else {
        if 48 <= u && u <= 57 {
            (u - 48) as u64
        } else {
            0
        }
    }
}

// ---------------------------------------------------------------
// Numeral parsing
// ---------------------------------------------------------------
/// Horner evaluation of `chars[lo..hi]` in the given radix, reduced
/// modulo 2^64.
pub(crate) fn parse_wrap(chars: &Vec<char>, lo: usize, hi: usize, radix: u64) -> (v: u64)
    requires
        lo <= hi <= chars@.len(),
    ensures
        v == num_wrap_range(chars@, lo as int, hi as int, radix, 0),
{
    let ghost s = chars@;
    let mut acc: u64 = 0;
    let mut k: usize = lo;
    while k < hi
        invariant
            lo <= k <= hi,
            num_wrap_range(s, lo as int, hi as int, radix, 0) == num_wrap_range(
                s,
                k as int,
                hi as int,
                radix,
                acc,
            ),
        decreases hi - k,
    {
        let d = digit_value(radix, chars[k]);
        acc = acc.wrapping_mul(radix).wrapping_add(d);
        k = k + 1;
    }
    acc
}

/// Horner evaluation on a subrange equals the evaluation on the
/// enclosing text at shifted positions.
pub proof fn lemma_num_wrap_shift(
    s: Seq<char>,
    a: int,
    b: int,
    lo: int,
    hi: int,
    radix: u64,
    acc: u64,
)
    requires
        0 <= a <= b <= s.len(),
        0 <= lo <= hi <= b - a,
    ensures
        num_wrap_range(s.subrange(a, b), lo, hi, radix, acc) == num_wrap_range(
            s,
            a + lo,
            a + hi,
            radix,
            acc,
        ),
    decreases hi - lo,
{
    if lo < hi {
        lemma_num_wrap_shift(
            s,
            a,
            b,
            lo + 1,
            hi,
            radix,
            wrap_mul_add(acc, radix, digit_val(radix, s[a + lo])),
        );
    }
}

// ---------------------------------------------------------------
// The tokenizer
// ---------------------------------------------------------------
/// Extending a partial result by one lexeme keeps it a prefix
/// decomposition of the full token sequence.
proof fn lemma_tok_step(s: Seq<char>, i: int, j: int, prefix: Seq<LexV>, lex: LexV)
    requires
        toks_from(s, 0) == prefix + toks_from(s, i),
        toks_from(s, i) == seq![lex] + toks_from(s, j),
    ensures
        toks_from(s, 0) == (prefix + seq![lex]) + toks_from(s, j),
{
    assert((prefix + seq![lex]) + toks_from(s, j) =~= prefix + (seq![lex] + toks_from(s, j)));
}

/// Tokenizes one line of characters.
pub fn tokenize(line: &Vec<char>) -> (out: Vec<Lexeme>)
    ensures
        lexemes_view(out@) == spec_tokens(line@),
{
    let ghost s = line@;
    let n = line.len();
    let mut out: Vec<Lexeme> = Vec::new();
    let mut i: usize = 0;
    while i < n
        invariant
            i <= n,
            n == s.len(),
            toks_from(s, 0) == lexemes_view(out@) + toks_from(s, i as int),
        decreases n - i,
    {
        let ghost prefix = lexemes_view(out@);
        let c = line[i];
        if ws_char(c) {
            i = i + 1;
        } else if c == '/' && i + 1 < n && line[i + 1] == '/' {
            // line comment: nothing more on this line
            proof {
                assert(toks_from(s, i as int) =~= Seq::<LexV>::empty());
                assert(lexemes_view(out@) + toks_from(s, i as int) =~= lexemes_view(out@));
            }
            return out;
        } else if c == '/' && i + 1 < n && line[i + 1] == '*' {
            // block comment: find the closing `*/`
            let mut j: usize = i + 2;
            let mut found: bool = false;
            while j < n && !found
                invariant
                    i + 2 <= j <= n,
                    found ==> j + 2 <= n && s[j as int] == '*' && s[j + 1] == '/',
                    forall|k: int|
                        i + 2 <= k < j && k + 2 <= n ==> !(#[trigger] s[k] == '*' && s[k + 1]
                            == '/'),
                decreases n - j + (if found {
                    0int
                } else {
                    1int
                }),
            {
                if line[j] == '*' && j + 1 < n {
                    if line[j + 1] == '/' {
                        found = true;
                    } else {
                        j = j + 1;
                    }
                } else {
                    j = j + 1;
                }
            }
            if found {
                proof {
                    lemma_close_pos_is(s, i + 2, j as int);
                }
                i = j + 2;
            } else {
                proof {
                    lemma_close_pos_none(s, i + 2);
                }
                let lex = Lexeme { token: Token::Error, slice: crate::text::string_range(line, i, n) };
                out.push(lex);
                proof {
                    assert(toks_from(s, i as int) =~= seq![lex@]);
                    assert(lexemes_view(out@) =~= prefix + seq![lex@]);
                    assert(lexemes_view(out@) + Seq::<LexV>::empty() =~= lexemes_view(out@));
                    assert(toks_from(s, 0) =~= prefix + seq![lex@]);
                }
                return out;
            }
        } else if c == ',' {
            let lex = Lexeme { token: Token::Comma, slice: crate::text::string_range(line, i, i + 1) };
            out.push(lex);
            proof {
                assert(toks_from(s, i as int) =~= seq![lex@] + toks_from(s, i + 1));
                lemma_tok_step(s, i as int, i + 1, prefix, lex@);
                assert(lexemes_view(out@) =~= prefix + seq![lex@]);
            }
            i = i + 1;
        } else if c == ':' {
            let lex = Lexeme { token: Token::Colon, slice: crate::text::string_range(line, i, i + 1) };
            out.push(lex);
            proof {
                assert(toks_from(s, i as int) =~= seq![lex@] + toks_from(s, i + 1));
                lemma_tok_step(s, i as int, i + 1, prefix, lex@);
                assert(lexemes_view(out@) =~= prefix + seq![lex@]);
            }
            i = i + 1;
        } else if c == '|' {
            let lex = Lexeme { token: Token::Pipe, slice: crate::text::string_range(line, i, i + 1) };
            out.push(lex);
            proof {
                assert(toks_from(s, i as int) =~= seq![lex@] + toks_from(s, i + 1));
                lemma_tok_step(s, i as int, i + 1, prefix, lex@);
                assert(lexemes_view(out@) =~= prefix + seq![lex@]);
            }
            i = i + 1;
        } else if c == '[' {
            let lex = Lexeme {
                token: Token::OpenBracket,
                slice: crate::text::string_range(line, i, i + 1),
            };
            out.push(lex);
            proof {
                assert(toks_from(s, i as int) =~= seq![lex@] + toks_from(s, i + 1));
                lemma_tok_step(s, i as int, i + 1, prefix, lex@);
                assert(lexemes_view(out@) =~= prefix + seq![lex@]);
            }
            i = i + 1;
        } else if c == ']' {
            let lex = Lexeme {
                token: Token::CloseBracket,
                slice: crate::text::string_range(line, i, i + 1),
            };
            out.push(lex);
            proof {
                assert(toks_from(s, i as int) =~= seq![lex@] + toks_from(s, i + 1));
                lemma_tok_step(s, i as int, i + 1, prefix, lex@);
                assert(lexemes_view(out@) =~= prefix + seq![lex@]);
            }
            i = i + 1;
        } else if c == '-' && i + 1 < n && line[i + 1] == '>' {
            let lex = Lexeme { token: Token::Arrow, slice: crate::text::string_range(line, i, i + 2) };
            out.push(lex);
            proof {
                assert(toks_from(s, i as int) =~= seq![lex@] + toks_from(s, i + 2));
                lemma_tok_step(s, i as int, i + 2, prefix, lex@);
                assert(lexemes_view(out@) =~= prefix + seq![lex@]);
            }
            i = i + 2;
        } else if dec_digit(c) {
            let hex_lit = c == '0' && n - i > 2 && (line[i + 1] == 'x' || line[i + 1] == 'X')
                && hex_digit(line[i + 2]);
            let bin_lit = !hex_lit && c == '0' && n - i > 2 && (line[i + 1] == 'b' || line[i + 1]
                == 'B') && bin_digit(line[i + 2]);
            if hex_lit {
                let mut j: usize = i + 2;
                while j < n && hex_digit(line[j])
                    invariant
                        i + 2 <= j <= n,
                        forall|k: int| i + 2 <= k < j ==> is_hex_digit(#[trigger] s[k]),
                    decreases n - j,
                {
                    j = j + 1;
                }
                proof {
                    lemma_hex_run_is(s, i + 2, j as int);
                }
                let t = crate::text::string_range(line, i, j);
                let lex = Lexeme { token: Token::Integer(Integer::Hex(t.clone())), slice: t };
                out.push(lex);
                proof {
                    assert(toks_from(s, i as int) =~= seq![lex@] + toks_from(s, j as int));
                    lemma_tok_step(s, i as int, j as int, prefix, lex@);
                    assert(lexemes_view(out@) =~= prefix + seq![lex@]);
                }
                i = j;
            } else if bin_lit {
                let mut j: usize = i + 2;
                while j < n && bin_digit(line[j])
                    invariant
                        i + 2 <= j <= n,
                        forall|k: int| i + 2 <= k < j ==> is_bin_digit(#[trigger] s[k]),
                    decreases n - j,
                {
                    j = j + 1;
                }
                proof {
                    lemma_bin_run_is(s, i + 2, j as int);
                }
                let t = crate::text::string_range(line, i, j);
                let lex = Lexeme { token: Token::Integer(Integer::Binary(t.clone())), slice: t };
                out.push(lex);
                proof {
                    assert(toks_from(s, i as int) =~= seq![lex@] + toks_from(s, j as int));
                    lemma_tok_step(s, i as int, j as int, prefix, lex@);
                    assert(lexemes_view(out@) =~= prefix + seq![lex@]);
                }
                i = j;
            } else {
                let mut j: usize = i;
                while j < n && dec_digit(line[j])
                    invariant
                        i <= j <= n,
                        forall|k: int| i <= k < j ==> is_dec_digit(#[trigger] s[k]),
                    decreases n - j,
                {
                    j = j + 1;
                }
                proof {
                    lemma_dec_run_is(s, i as int, j as int);
                }
                let t = crate::text::string_range(line, i, j);
                let lex = Lexeme { token: Token::Integer(Integer::Decimal(t.clone())), slice: t };
                out.push(lex);
                proof {
                    assert(toks_from(s, i as int) =~= seq![lex@] + toks_from(s, j as int));
                    lemma_tok_step(s, i as int, j as int, prefix, lex@);
                    assert(lexemes_view(out@) =~= prefix + seq![lex@]);
                }
                i = j;
            }
        } else if word_start(c) {
            let mut j: usize = i;
            while j < n && word_char(line[j])
                invariant
                    i <= j <= n,
                    forall|k: int| i <= k < j ==> is_word_char(#[trigger] s[k]),
                decreases n - j,
            {
                j = j + 1;
            }
            proof {
                lemma_word_run_is(s, i as int, j as int);
            }
            let ghost w = s.subrange(i as int, j as int);
            // do the trailing characters form a numeral?
            let mut all_digits: bool = true;
            let mut k: usize = i + 1;
            while k < j && all_digits
                invariant
                    i + 1 <= k <= j,
                    j <= n,
                    all_digits ==> forall|m: int| i + 1 <= m < k ==> is_dec_digit(#[trigger] s[m]),
                    !all_digits ==> exists|m: int|
                        i + 1 <= m < j && !is_dec_digit(#[trigger] s[m]),
                decreases j - k + (if all_digits {
                    1int
                } else {
                    0int
                }),
            {
                if !dec_digit(line[k]) {
                    all_digits = false;
                } else {
                    k = k + 1;
                }
            }
            proof {
                if all_digits {
                    assert(forall|m: int| 1 <= m < w.len() ==> w[m] == s[i + m]);
                    assert(all_dec_digits(w, 1, w.len() as int));
                } else {
                    let m = choose|m: int| i + 1 <= m < j && !is_dec_digit(#[trigger] s[m]);
                    assert(w[m - i] == s[m]);
                    assert(!all_dec_digits(w, 1, w.len() as int));
                }
            }
            let t = crate::text::string_range(line, i, j);
            let is_num = j - i >= 2 && all_digits;
            let token = if is_num && (c == 'r' || c == 'R') {
                proof {
                    lemma_num_wrap_shift(s, i as int, j as int, 1, (j - i) as int, 10, 0);
                }
                Token::Register(parse_wrap(line, i + 1, j, 10))
            } else if is_num && (c == 'i' || c == 'I') {
                proof {
                    lemma_num_wrap_shift(s, i as int, j as int, 1, (j - i) as int, 10, 0);
                }
                Token::Immediate(parse_wrap(line, i + 1, j, 10))
            } else {
                Token::Identifier(t.clone())
            };
            let lex = Lexeme { token, slice: t };
            out.push(lex);
            proof {
                assert(lex@.token == classify_word(w));
                assert(toks_from(s, i as int) =~= seq![lex@] + toks_from(s, j as int));
                lemma_tok_step(s, i as int, j as int, prefix, lex@);
                assert(lexemes_view(out@) =~= prefix + seq![lex@]);
            }
            i = j;
        } else {
            let lex = Lexeme { token: Token::Error, slice: crate::text::string_range(line, i, i + 1) };
            out.push(lex);
            proof {
                assert(toks_from(s, i as int) =~= seq![lex@] + toks_from(s, i + 1));
                lemma_tok_step(s, i as int, i + 1, prefix, lex@);
                assert(lexemes_view(out@) =~= prefix + seq![lex@]);
            }
            i = i + 1;
        }
    }
    proof {
        assert(toks_from(s, n as int) =~= Seq::<LexV>::empty());
        assert(lexemes_view(out@) + Seq::<LexV>::empty() =~= lexemes_view(out@));
    }
    out
}

// ---------------------------------------------------------------
// Checked numeral parsing (for `Integer::as_int`)
// ---------------------------------------------------------------
/// Whether every character of `s[lo..hi]` is a digit of the radix.
pub open spec fn valid_digits(s: Seq<char>, lo: int, hi: int, radix: u64) -> bool {
    forall|k: int|
        lo <= k < hi ==> (if radix == 16 {
            is_hex_digit(#[trigger] s[k])
        } else if radix == 2 {
            is_bin_digit(s[k])
        } else {
            is_dec_digit(s[k])
        })
}

/// Where the digits start, after the radix prefix and an optional
/// leading plus sign.
pub open spec fn digits_start(t: Seq<char>, skip: int) -> int {
    if 0 <= skip && skip < t.len() && t[skip] == '+' {
        skip + 1
    } else {
        skip
    }
}

/// The checked reading of `t` in the given radix, skipping a prefix
/// of `skip` characters: the exact value if the digits are well
/// formed and fit 64 bits, nothing otherwise.
pub open spec fn spec_parse_checked(t: Seq<char>, skip: int, radix: u64) -> Option<u64> {
    let lo = digits_start(t, skip);
    if lo < t.len() && valid_digits(t, lo, t.len() as int, radix) && num_exact_range(
        t,
        lo,
        t.len() as int,
        radix as nat,
        0,
    ) <= u64::MAX {
        Some(num_exact_range(t, lo, t.len() as int, radix as nat, 0) as u64)
    } else {
        None
    }
}

/// The value of `Integer::as_int`.
pub open spec fn spec_as_int(v: IntegerV) -> Option<u64> {
    match v {
        IntegerV::Binary(t) => spec_parse_checked(t, 2, 2),
        IntegerV::Decimal(t) => spec_parse_checked(t, 0, 10),
        IntegerV::Hex(t) => spec_parse_checked(t, 2, 16),
    }
}

/// Horner accumulation never falls below what is already accumulated.
proof fn lemma_num_exact_lower(s: Seq<char>, lo: int, hi: int, radix: nat, acc: nat)
    requires
        radix >= 1,
    ensures
        num_exact_range(s, lo, hi, radix, acc) >= acc,
    decreases hi - lo,
{
    if 0 <= lo && lo < hi && hi <= s.len() {
        let acc2 = acc * radix + digit_val(radix as u64, s[lo]) as nat;
        assert(acc * radix >= acc * 1) by (nonlinear_arith)
            requires
                radix >= 1,
        ;
        lemma_num_exact_lower(s, lo + 1, hi, radix, acc2);
    }
}

fn radix_digit(radix: u64, c: char) -> (b: bool)
    requires
        radix == 2 || radix == 10 || radix == 16,
    ensures
        b == (if radix == 16 {
            is_hex_digit(c)
        } else if radix == 2 {
            is_bin_digit(c)
        } else {
            is_dec_digit(c)
        }),
{
    if radix == 16 {
        hex_digit(c)
    } else if radix == 2 {
        bin_digit(c)
    } else {
        dec_digit(c)
    }
}

/// Checked Horner evaluation: the exact value of the digits after the
/// prefix, or nothing on a malformed digit, an empty digit run, or a
/// value over 64 bits.
fn parse_checked(chars: &Vec<char>, skip: usize, radix: u64) -> (r: Option<u64>)
    requires
        radix == 2 || radix == 10 || radix == 16,
    ensures
        r == spec_parse_checked(chars@, skip as int, radix),
{
    let ghost t = chars@;
    let n = chars.len();
    if skip >= n {
        return None;
    }
    let lo = if chars[skip] == '+' {
        skip + 1
    } else {
        skip
    };
    if lo >= n {
        return None;
    }
    // validate the digits
    let mut k: usize = lo;
    let mut ok: bool = true;
    while k < n && ok
        invariant
            lo <= k <= n,
            ok ==> forall|m: int|
                lo <= m < k ==> (if radix == 16 {
                    is_hex_digit(#[trigger] t[m])
                } else if radix == 2 {
                    is_bin_digit(t[m])
                } else {
                    is_dec_digit(t[m])
                }),
            !ok ==> !valid_digits(t, lo as int, n as int, radix),
        decreases n - k + (if ok {
            1int
        } else {
            0int
        }),
    {
        if radix_digit(radix, chars[k]) {
            k = k + 1;
        } else {
            ok = false;
        }
    }
    if !ok {
        return None;
    }
    // accumulate with checked arithmetic
    let ghost full = num_exact_range(t, lo as int, n as int, radix as nat, 0);
    let mut acc: u64 = 0;
    let mut k2: usize = lo;
    while k2 < n
        invariant
            lo <= k2 <= n,
            valid_digits(t, lo as int, n as int, radix),
            full == num_exact_range(t, k2 as int, n as int, radix as nat, acc as nat),
        decreases n - k2,
    {
        let d = digit_value(radix, chars[k2]);
        let stepped = match acc.checked_mul(radix) {
            Some(m) => m.checked_add(d),
            None => None,
        };
        match stepped {
            Some(x) => {
                acc = x;
            },
            None => {
                proof {
                    lemma_num_exact_lower(
                        t,
                        k2 + 1,
                        n as int,
                        radix as nat,
                        acc as nat * radix as nat + d as nat,
                    );
                }
                return None;
            },
        }
        k2 = k2 + 1;
    }
    Some(acc)
}

// ---------------------------------------------------------------
// The public `Integer` interface
// ---------------------------------------------------------------
/// The syntactic bit-width estimate of a literal: the number of
/// binary digits, or four bits per decimal or hexadecimal digit,
/// saturating at the machine word.
pub open spec fn spec_width(v: IntegerV) -> int {
    match v {
        IntegerV::Binary(t) => if t.len() >= 2 {
            t.len() - 2
        } else {
            0
        },
        IntegerV::Decimal(t) => if t.len() * 4 > usize::MAX {
            usize::MAX as int
        } else {
            t.len() * 4 as int
        },
        IntegerV::Hex(t) => {
            let d: int = if t.len() >= 2 {
                t.len() - 2
            } else {
                0
            };
            if d * 4 > usize::MAX {
                usize::MAX as int
            } else {
                d * 4
            }
        },
    }
}

impl Integer {
    /// Classifies a literal text by its radix prefix.
    pub fn from_str(string: &str) -> (r: Self)
        ensures
            r@ == spec_classify_int(string@),
    {
        let n = string.unicode_len();
        if n >= 2 {
            let c0 = string.get_char(0);
            let c1 = string.get_char(1);
            if c0 == '0' && (c1 == 'x' || c1 == 'X') {
                return Integer::Hex(string.to_owned());
            }
            if c0 == '0' && (c1 == 'b' || c1 == 'B') {
                return Integer::Binary(string.to_owned());
            }
        }
        Integer::Decimal(string.to_owned())
    }

    /// The exact source text of the literal.
    pub fn slice(&self) -> (r: &str)
        ensures
            r@ == self@.text(),
    {
        match self {
            Integer::Binary(t) => t.as_str(),
            Integer::Decimal(t) => t.as_str(),
            Integer::Hex(t) => t.as_str(),
        }
    }

    /// The value of the literal, if its digits are well formed and the
    /// value fits 64 bits.
    pub fn as_int(&self) -> (r: Option<u64>)
        ensures
            r == spec_as_int(self@),
    {
        match self {
            Integer::Binary(t) => {
                let cs = crate::text::chars_of(t.as_str());
                parse_checked(&cs, 2, 2)
            },
            Integer::Decimal(t) => {
                let cs = crate::text::chars_of(t.as_str());
                parse_checked(&cs, 0, 10)
            },
            Integer::Hex(t) => {
                let cs = crate::text::chars_of(t.as_str());
                parse_checked(&cs, 2, 16)
            },
        }
    }

    /// A syntactic estimate of how many bits the literal spans.
    pub fn width(&self) -> (r: usize)
        ensures
            r as int == spec_width(self@),
    {
        match self {
            Integer::Binary(t) => {
                let l = t.as_str().unicode_len();
                if l >= 2 {
                    l - 2
                } else {
                    0
                }
            },
            Integer::Decimal(t) => {
                let l = t.as_str().unicode_len();
                if l > usize::MAX / 4 {
                    usize::MAX
                } else {
                    l * 4
                }
            },
            Integer::Hex(t) => {
                let l = t.as_str().unicode_len();
                let d = if l >= 2 {
                    l - 2
                } else {
                    0
                };
                if d > usize::MAX / 4 {
                    usize::MAX
                } else {
                    d * 4
                }
            },
        }
    }

    /// The value of the literal reduced modulo 2^64 (the reading the
    /// compiler stages use; see [`IntegerV::wrap_val`]).
    pub fn wrap_value(&self) -> (v: u64)
        ensures
            v == self@.wrap_val(),
    {
        match self {
            Integer::Binary(t) => {
                let cs = crate::text::chars_of(t.as_str());
                wrap_value_loop(&cs, 2, 2)
            },
            Integer::Decimal(t) => {
                let cs = crate::text::chars_of(t.as_str());
                wrap_value_loop(&cs, 0, 10)
            },
            Integer::Hex(t) => {
                let cs = crate::text::chars_of(t.as_str());
                wrap_value_loop(&cs, 2, 16)
            },
        }
    }
}

/// Wrapping Horner evaluation of everything after a fixed prefix.
fn wrap_value_loop(chars: &Vec<char>, skip: usize, radix: u64) -> (v: u64)
    ensures
        v == num_wrap_range(chars@, skip as int, chars@.len() as int, radix, 0),
{
    let n = chars.len();
    if skip >= n {
        return 0;
    }
    parse_wrap(chars, skip, n, radix)
}

// ---------------------------------------------------------------
// The lexer handle
// ---------------------------------------------------------------
/// A tokenized piece of text, handed out lexeme by lexeme.  The view
/// is the sequence of lexemes still to come.
#[derive(Debug)]
pub struct Lexer {
    lexemes: Vec<Lexeme>,
}

impl View for Lexer {
    type V = Seq<LexV>;

    closed spec fn view(&self) -> Seq<LexV> {
        lexemes_view(self.lexemes@)
    }
}

impl Lexer {
    /// Tokenizes the given text up front.
    pub fn new(source: &str) -> (r: Self)
        ensures
            r@ == spec_tokens(source@),
    {
        let cs = crate::text::chars_of(source);
        let lexemes = tokenize(&cs);
        Lexer { lexemes }
    }

    /// The next lexeme, if any is left.
    pub fn next(&mut self) -> (r: Option<Lexeme>)
        ensures
            old(self)@.len() == 0 ==> r is None && final(self)@ == old(self)@,
            old(self)@.len() > 0 ==> (r matches Some(lex) && lex@ == old(self)@[0])
                && final(self)@ == old(self)@.drop_first(),
    {
        if self.lexemes.len() > 0 {
            let lex = self.lexemes.remove(0);
            proof {
                assert(lexemes_view(self.lexemes@) =~= lexemes_view(old(self).lexemes@).drop_first());
            }
            Some(lex)
        } else {
            None
        }
    }
}

// ---------------------------------------------------------------
// Line splitting
// ---------------------------------------------------------------
/// The position of the first newline at or after `i`, or the text
/// length if there is none.
pub open spec fn nl_pos(s: Seq<char>, i: int) -> int
    decreases s.len() - i,
{
    if 0 <= i && i < s.len() {
        if s[i] == '\n' {
            i
        } else {
            nl_pos(s, i + 1)
        }
    } else {
        s.len() as int
    }
}

pub proof fn lemma_nl_pos(s: Seq<char>, i: int)
    requires
        0 <= i <= s.len(),
    ensures
        i <= nl_pos(s, i) <= s.len(),
        nl_pos(s, i) < s.len() ==> s[nl_pos(s, i)] == '\n',
        forall|k: int| i <= k < nl_pos(s, i) ==> #[trigger] s[k] != '\n',
    decreases s.len() - i,
{
    if i < s.len() && s[i] != '\n' {
        lemma_nl_pos(s, i + 1);
    }
}

pub proof fn lemma_nl_pos_is(s: Seq<char>, i: int, j: int)
    requires
        0 <= i <= j <= s.len(),
        forall|k: int| i <= k < j ==> #[trigger] s[k] != '\n',
        j == s.len() || s[j] == '\n',
    ensures
        nl_pos(s, i) == j,
    decreases j - i,
{
    if i < j {
        lemma_nl_pos_is(s, i + 1, j);
    }
}

/// One trailing carriage return is not part of the line.
pub open spec fn strip_cr(t: Seq<char>) -> Seq<char> {
    if t.len() > 0 && t[t.len() - 1] == '\r' {
        t.drop_last()
    } else {
        t
    }
}

/// The lines of `s[i..]`: maximal runs between newlines, one trailing
/// carriage return stripped from each, and nothing after a final
/// newline.
pub open spec fn lines_from(s: Seq<char>, i: int) -> Seq<Seq<char>>
    decreases s.len() - i + 1,
    via lines_from_decreases
{
    if i < 0 || i >= s.len() {
        seq![]
    } else {
        let k = nl_pos(s, i);
        seq![strip_cr(s.subrange(i, k))] + lines_from(s, k + 1)
    }
}

#[via_fn]
proof fn lines_from_decreases(s: Seq<char>, i: int) {
    if 0 <= i && i < s.len() {
        lemma_nl_pos(s, i);
    }
}

/// The lines of a whole text, as `str::lines` yields them.
pub open spec fn spec_lines(s: Seq<char>) -> Seq<Seq<char>> {
    lines_from(s, 0)
}

/// The views of a sequence of character vectors.
pub open spec fn lines_view(q: Seq<Vec<char>>) -> Seq<Seq<char>> {
    q.map_values(|v: Vec<char>| v@)
}

/// Splits a text into its lines.
pub fn split_lines(chars: &Vec<char>) -> (out: Vec<Vec<char>>)
    ensures
        lines_view(out@) == spec_lines(chars@),
{
    let ghost s = chars@;
    let n = chars.len();
    let mut out: Vec<Vec<char>> = Vec::new();
    let mut i: usize = 0;
    while i < n
        invariant
            i <= n,
            lines_from(s, 0) == lines_view(out@) + lines_from(s, i as int),
        decreases n - i,
    {
        let ghost prefix = lines_view(out@);
        let mut k: usize = i;
        while k < n && chars[k] != '\n'
            invariant
                i <= k <= n,
                forall|m: int| i <= m < k ==> #[trigger] s[m] != '\n',
            decreases n - k,
        {
            k = k + 1;
        }
        proof {
            lemma_nl_pos_is(s, i as int, k as int);
        }
        let end = if k > i && chars[k - 1] == '\r' {
            k - 1
        } else {
            k
        };
        let line = crate::text::vec_range(chars, i, end);
        proof {
            if k > i && s[k - 1] == '\r' {
                assert(s.subrange(i as int, k as int).drop_last() =~= s.subrange(
                    i as int,
                    k - 1,
                ));
            }
            assert(line@ == strip_cr(s.subrange(i as int, k as int)));
        }
        out.push(line);
        proof {
            assert(lines_from(s, i as int) =~= seq![line@] + lines_from(s, k + 1));
            assert(lines_view(out@) =~= prefix + seq![line@]);
            assert((prefix + seq![line@]) + lines_from(s, k + 1) =~= prefix + (seq![line@]
                + lines_from(s, k + 1)));
        }
        if k < n {
            i = k + 1;
        } else {
            proof {
                assert(lines_from(s, k + 1) =~= lines_from(s, n as int));
            }
            i = n;
        }
    }
    proof {
        assert(lines_from(s, n as int) =~= Seq::<Seq<char>>::empty());
        assert(lines_view(out@) + Seq::<Seq<char>>::empty() =~= lines_view(out@));
    }
    out
}

} // verus!
