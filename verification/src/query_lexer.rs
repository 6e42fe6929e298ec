use vstd::prelude::*;
use vstd::utf8::*;
use vstd::string::*;
use crate::text::{byte_slice, utf8_of};

verus! {

/// The kinds of lexeme that the query lexer emits.
#[allow(non_camel_case_types)]
#[derive(Clone, Copy, Debug, PartialEq, Eq, Structural)]
pub enum TokenType {
    EOS,
    FIELD,
    TERM,
    EDIT_DISTANCE,
    BOOST,
    PRESENCE,
}

impl TokenType {
    /// The name the kind is shown under.
    pub fn display_name(&self) -> (r: &'static str)
        ensures
            r@ == match *self {
                TokenType::EOS => "EOS"@,
                TokenType::FIELD => "FIELD"@,
                TokenType::TERM => "TERM"@,
                TokenType::EDIT_DISTANCE => "EDIT_DISTANCE"@,
                TokenType::BOOST => "BOOST"@,
                TokenType::PRESENCE => "PRESENCE"@,
            },
    {
        match self {
            TokenType::EOS => "EOS",
            TokenType::FIELD => "FIELD",
            TokenType::TERM => "TERM",
            TokenType::EDIT_DISTANCE => "EDIT_DISTANCE",
            TokenType::BOOST => "BOOST",
            TokenType::PRESENCE => "PRESENCE",
        }
    }
}

/// One lexeme: its kind, its text with escape characters removed, and its
/// byte offsets in the input.
#[derive(Clone, Debug)]
pub struct Lexeme {
    pub lexeme_type: TokenType,
    pub str: String,
    pub start: usize,
    pub end: usize,
}

/// The mathematical content of a lexeme.
pub struct LexemeModel {
    pub kind: TokenType,
    pub text: Seq<char>,
    pub start: int,
    pub end: int,
}

impl Lexeme {
    pub open spec fn model(&self) -> LexemeModel {
        LexemeModel { kind: self.lexeme_type, text: self.str@, start: self.start as int, end: self.end as int }
    }
}

/// The states of the lexer's state machine.
#[derive(Clone, Copy, Debug, PartialEq, Eq, Structural)]
pub enum LexerStateId {
    LexText,
    LexField,
    LexTerm,
    LexEditDistance,
    LexBoost,
    LexEos,
}

/// The mutable part of the lexer: read position, start of the pending lexeme,
/// positions of escape characters in it, and the lexemes emitted so far.
pub struct LexModel {
    pub pos: int,
    pub start: int,
    pub escapes: Seq<int>,
    pub lexemes: Seq<LexemeModel>,
}

// ---------------------------------------------------------------------------
// Byte classes (the lexer reads one byte at a time and treats it as a char).
// ---------------------------------------------------------------------------

/// `char::is_whitespace`: the Unicode `White_Space` property.
pub open spec fn spec_is_whitespace(c: char) -> bool {
    let u = c as u32;
    ||| 0x09 <= u <= 0x0D
    ||| u == 0x20
    ||| u == 0x85
    ||| u == 0xA0
    ||| u == 0x1680
    ||| 0x2000 <= u <= 0x200A
    ||| u == 0x2028
    ||| u == 0x2029
    ||| u == 0x202F
    ||| u == 0x205F
    ||| u == 0x3000
}

/// A separator between terms: white space or a hyphen.
pub open spec fn spec_is_separator(c: char) -> bool {
    spec_is_whitespace(c) || c == '-'
}

/// The byte at `i`, or 0 (the end-of-input character) past the end.
pub open spec fn byte_at(b: Seq<u8>, i: int) -> u8 {
    if 0 <= i < b.len() { b[i] } else { 0 }
}

pub open spec fn is_digit_byte(c: u8) -> bool {
    48 <= c <= 57
}

// ---------------------------------------------------------------------------
// The elementary operations.
// ---------------------------------------------------------------------------

/// The text between byte offsets `lo` and `hi`, if both are character boundaries.
pub open spec fn piece(b: Seq<u8>, lo: int, hi: int) -> Option<Seq<char>> {
    if 0 <= lo <= hi <= b.len() && is_char_boundary(b, lo) && is_char_boundary(b, hi) {
        Some(decode_utf8(b.subrange(lo, hi)))
    } else {
        None
    }
}

/// The text from `from` to `to` with the bytes at the escape positions left out;
/// `None` where a cut does not fall on a character boundary.
pub open spec fn slice_text(b: Seq<u8>, from: int, escapes: Seq<int>, to: int) -> Option<Seq<char>>
    decreases escapes.len(),
{
    if escapes.len() == 0 {
        piece(b, from, to)
    } else {
        match piece(b, from, escapes[0]) {
            None => None,
            Some(t) => match slice_text(b, escapes[0] + 1, escapes.drop_first(), to) {
                None => None,
                Some(r) => Some(t + r),
            },
        }
    }
}

pub open spec fn sp_next(b: Seq<u8>, st: LexModel) -> (LexModel, u8) {
    if 0 <= st.pos < b.len() {
        (LexModel { pos: st.pos + 1, ..st }, b[st.pos])
    } else {
        (st, 0)
    }
}

pub open spec fn sp_backup(st: LexModel) -> LexModel {
    LexModel { pos: st.pos - 1, ..st }
}

pub open spec fn sp_ignore(st: LexModel) -> LexModel {
    let p = if st.start == st.pos { st.pos + 1 } else { st.pos };
    LexModel { pos: p, start: p, ..st }
}

pub open spec fn sp_width(st: LexModel) -> int {
    st.pos - st.start
}

pub open spec fn sp_emit(b: Seq<u8>, st: LexModel, kind: TokenType) -> Option<LexModel> {
    match slice_text(b, st.start, st.escapes, st.pos) {
        None => None,
        Some(t) => Some(
            LexModel {
                pos: st.pos,
                start: st.pos,
                escapes: Seq::empty(),
                lexemes: st.lexemes.push(LexemeModel { kind, text: t, start: st.start, end: st.pos }),
            },
        ),
    }
}

pub open spec fn sp_escape(st: LexModel) -> LexModel {
    LexModel { pos: st.pos + 1, escapes: st.escapes.push(st.pos - 1), ..st }
}

/// Reads digits; stops after the end of input or before the first non-digit.
pub open spec fn sp_digit_run(b: Seq<u8>, st: LexModel) -> LexModel
    decreases b.len() - st.pos,
{
    let (s1, ch) = sp_next(b, st);
    if ch == 0 {
        s1
    } else if !is_digit_byte(ch) {
        sp_backup(s1)
    } else {
        sp_digit_run(b, s1)
    }
}

/// Reads a minus sign, if one comes next.
pub open spec fn sp_sign(b: Seq<u8>, st: LexModel) -> LexModel {
    if 0 <= st.pos < b.len() && b[st.pos] == 45 {
        LexModel { pos: st.pos + 1, ..st }
    } else {
        st
    }
}

/// Reads digits, then a point and more digits if a point follows.
pub open spec fn sp_decimal_run(b: Seq<u8>, st: LexModel) -> LexModel {
    let s1 = sp_digit_run(b, st);
    if 0 <= s1.pos < b.len() && b[s1.pos] == 46 {
        sp_digit_run(b, LexModel { pos: s1.pos + 1, ..s1 })
    } else {
        s1
    }
}

// ---------------------------------------------------------------------------
// The states.
// ---------------------------------------------------------------------------

pub open spec fn emit_then(b: Seq<u8>, st: LexModel, kind: TokenType, next: LexerStateId) -> Option<(LexModel, Option<LexerStateId>)> {
    match sp_emit(b, st, kind) {
        None => None,
        Some(s) => Some((s, Some(next))),
    }
}

/// A `~` or `^` ends the pending term, which is emitted if it is not empty.
pub open spec fn close_term_then(b: Seq<u8>, st: LexModel, next: LexerStateId) -> Option<(LexModel, Option<LexerStateId>)> {
    let s2 = sp_backup(st);
    if sp_width(s2) > 0 {
        emit_then(b, s2, TokenType::TERM, next)
    } else {
        Some((s2, Some(next)))
    }
}

pub open spec fn sp_lex_text(b: Seq<u8>, st: LexModel) -> Option<(LexModel, Option<LexerStateId>)>
    decreases b.len() + 2 - st.pos,
{
    let (s1, ch) = sp_next(b, st);
    if ch == 0 {
        Some((s1, Some(LexerStateId::LexEos)))
    } else if ch == 92 {
        sp_lex_text(b, sp_escape(s1))
    } else if ch == 58 {
        Some((s1, Some(LexerStateId::LexField)))
    } else if ch == 126 {
        close_term_then(b, s1, LexerStateId::LexEditDistance)
    } else if ch == 94 {
        close_term_then(b, s1, LexerStateId::LexBoost)
    } else if ch == 43 && sp_width(s1) == 1 {
        emit_then(b, s1, TokenType::PRESENCE, LexerStateId::LexText)
    } else if ch == 45 && sp_width(s1) == 1 {
        emit_then(b, s1, TokenType::PRESENCE, LexerStateId::LexText)
    } else if spec_is_separator(ch as char) {
        Some((s1, Some(LexerStateId::LexTerm)))
    } else {
        sp_lex_text(b, s1)
    }
}

pub open spec fn sp_lex_field(b: Seq<u8>, st: LexModel) -> Option<(LexModel, Option<LexerStateId>)> {
    match sp_emit(b, sp_backup(st), TokenType::FIELD) {
        None => None,
        Some(s) => Some((sp_ignore(s), Some(LexerStateId::LexText))),
    }
}

pub open spec fn sp_lex_term(b: Seq<u8>, st: LexModel) -> Option<(LexModel, Option<LexerStateId>)> {
    let s1 = if sp_width(st) > 1 { sp_emit(b, sp_backup(st), TokenType::TERM) } else { Some(st) };
    match s1 {
        None => None,
        Some(s) => {
            let s2 = sp_ignore(s);
            if s2.pos < b.len() {
                Some((s2, Some(LexerStateId::LexText)))
            } else {
                Some((s2, Some(LexerStateId::LexEos)))
            }
        },
    }
}

pub open spec fn sp_lex_edit_distance(b: Seq<u8>, st: LexModel) -> Option<(LexModel, Option<LexerStateId>)> {
    emit_then(b, sp_digit_run(b, sp_sign(b, sp_ignore(st))), TokenType::EDIT_DISTANCE, LexerStateId::LexText)
}

pub open spec fn sp_lex_boost(b: Seq<u8>, st: LexModel) -> Option<(LexModel, Option<LexerStateId>)> {
    emit_then(b, sp_decimal_run(b, sp_sign(b, sp_ignore(st))), TokenType::BOOST, LexerStateId::LexText)
}

pub open spec fn sp_lex_eos(b: Seq<u8>, st: LexModel) -> Option<(LexModel, Option<LexerStateId>)> {
    if sp_width(st) > 0 {
        match sp_emit(b, st, TokenType::TERM) {
            None => None,
            Some(s) => Some((s, None)),
        }
    } else {
        Some((st, None))
    }
}

pub open spec fn sp_step(b: Seq<u8>, s: LexerStateId, st: LexModel) -> Option<(LexModel, Option<LexerStateId>)> {
    match s {
        LexerStateId::LexText => sp_lex_text(b, st),
        LexerStateId::LexField => sp_lex_field(b, st),
        LexerStateId::LexTerm => sp_lex_term(b, st),
        LexerStateId::LexEditDistance => sp_lex_edit_distance(b, st),
        LexerStateId::LexBoost => sp_lex_boost(b, st),
        LexerStateId::LexEos => sp_lex_eos(b, st),
    }
}

/// What holds of the lexer whenever it enters a state.
pub open spec fn lex_inv(b: Seq<u8>, s: LexerStateId, st: LexModel) -> bool {
    &&& 0 <= st.start <= st.pos <= b.len() + 1
    &&& (s == LexerStateId::LexField || s == LexerStateId::LexTerm) ==> (1 <= st.pos <= b.len() && st.start < st.pos)
    &&& (s == LexerStateId::LexEditDistance || s == LexerStateId::LexBoost) ==> (st.start == st.pos && st.pos <= b.len())
}

pub open spec fn state_rank(s: LexerStateId) -> int {
    match s {
        LexerStateId::LexEos => 0,
        LexerStateId::LexEditDistance => 3,
        LexerStateId::LexBoost => 3,
        LexerStateId::LexText => 5,
        LexerStateId::LexField => 6,
        LexerStateId::LexTerm => 7,
    }
}

pub open spec fn lex_measure(b: Seq<u8>, s: LexerStateId, st: LexModel) -> int {
    10 * (b.len() + 2 - st.pos) + state_rank(s)
}

/// The lexemes that a run from state `s` produces; `None` where the run would
/// cut the input inside a character or beyond its end.
pub open spec fn sp_run(b: Seq<u8>, s: LexerStateId, st: LexModel) -> Option<Seq<LexemeModel>>
    decreases lex_measure(b, s, st),
{
    if !lex_inv(b, s, st) {
        None
    } else {
        match sp_step(b, s, st) {
            None => None,
            Some((st2, next)) => match next {
                None => Some(st2.lexemes),
                Some(n) => {
                    proof {
                        lemma_step(b, s, st);
                    }
                    sp_run(b, n, st2)
                },
            },
        }
    }
}

pub open spec fn initial_model() -> LexModel {
    LexModel { pos: 0, start: 0, escapes: Seq::empty(), lexemes: Seq::empty() }
}

/// The lexemes of a query string, or `None` where lexing it would slice the
/// string inside a character or beyond its end.
pub open spec fn lex(input: Seq<char>) -> Option<Seq<LexemeModel>> {
    sp_run(utf8_of(input), LexerStateId::LexText, initial_model())
}

// ---------------------------------------------------------------------------
// Progress: every step keeps the invariant and lowers the measure.
// ---------------------------------------------------------------------------

proof fn lemma_digit_run(b: Seq<u8>, st: LexModel)
    requires
        st.pos <= b.len() + 1,
    ensures
        st.pos <= sp_digit_run(b, st).pos,
        sp_digit_run(b, st).pos <= b.len() + 1,
        st.pos <= b.len() ==> sp_digit_run(b, st).pos <= b.len(),
        sp_digit_run(b, st).start == st.start,
    decreases b.len() - st.pos,
{
    let (s1, ch) = sp_next(b, st);
    if ch != 0 && is_digit_byte(ch) {
        lemma_digit_run(b, s1);
    }
}

proof fn lemma_lex_text(b: Seq<u8>, st: LexModel)
    requires
        0 <= st.start <= st.pos <= b.len() + 1,
    ensures
        sp_lex_text(b, st) matches Some((st2, Some(n))) ==> ({
            &&& st.pos <= st2.pos
            &&& lex_inv(b, n, st2)
            &&& (n == LexerStateId::LexField || n == LexerStateId::LexTerm || n == LexerStateId::LexText) ==> st.pos < st2.pos
            &&& n == LexerStateId::LexText ==> st2.pos <= b.len()
            &&& n != LexerStateId::LexBoost && n != LexerStateId::LexEditDistance
                && n != LexerStateId::LexEos ==> n == LexerStateId::LexField || n == LexerStateId::LexTerm
                || n == LexerStateId::LexText
        }),
    decreases b.len() + 2 - st.pos,
{
    let (s1, ch) = sp_next(b, st);
    if ch == 0 {
    } else if ch == 92 {
        lemma_lex_text(b, sp_escape(s1));
    } else if ch == 58 || ch == 126 || ch == 94 {
    } else if (ch == 43 || ch == 45) && sp_width(s1) == 1 {
    } else if spec_is_separator(ch as char) {
    } else {
        lemma_lex_text(b, s1);
    }
}

pub proof fn lemma_step(b: Seq<u8>, s: LexerStateId, st: LexModel)
    requires
        lex_inv(b, s, st),
    ensures
        sp_step(b, s, st) matches Some((st2, Some(n))) ==> lex_inv(b, n, st2) && 0 <= lex_measure(b, n, st2)
            < lex_measure(b, s, st),
{
    match s {
        LexerStateId::LexText => {
            lemma_lex_text(b, st);
        },
        LexerStateId::LexField => {},
        LexerStateId::LexTerm => {},
        LexerStateId::LexEditDistance => {
            lemma_digit_run(b, sp_sign(b, sp_ignore(st)));
        },
        LexerStateId::LexBoost => {
            let s0 = sp_sign(b, sp_ignore(st));
            lemma_digit_run(b, s0);
            let s1 = sp_digit_run(b, s0);
            if 0 <= s1.pos < b.len() && b[s1.pos] == 46 {
                lemma_digit_run(b, LexModel { pos: s1.pos + 1, ..s1 });
            }
        },
        LexerStateId::LexEos => {},
    }
}


// ---------------------------------------------------------------------------
// The executable lexer.
// ---------------------------------------------------------------------------

impl Lexeme {
    /// A copy of the lexeme.
    pub fn duplicate(&self) -> (r: Lexeme)
        ensures
            r.model() == self.model(),
    {
        Lexeme { lexeme_type: self.lexeme_type, str: self.str.clone(), start: self.start, end: self.end }
    }
}

pub open spec fn models(v: Seq<Lexeme>) -> Seq<LexemeModel> {
    v.map_values(|l: Lexeme| l.model())
}

/// `char::is_whitespace`.
pub fn is_whitespace(c: char) -> (r: bool)
    ensures
        r == spec_is_whitespace(c),
{
    let u = c as u32;
    (0x09 <= u && u <= 0x0D) || u == 0x20 || u == 0x85 || u == 0xA0 || u == 0x1680 || (0x2000 <= u && u
        <= 0x200A) || u == 0x2028 || u == 0x2029 || u == 0x202F || u == 0x205F || u == 0x3000
}

/// White space or a hyphen.
pub fn is_separator(ch: char) -> (r: bool)
    ensures
        r == spec_is_separator(ch),
{
    is_whitespace(ch) || ch == '-'
}

/// The character that `next` returns at the end of the input.
pub const EOS_CHAR: char = '\0';

/// A lexer for the query language. It reads the input one byte at a time.
pub struct QueryLexer {
    lexemes: Vec<Lexeme>,
    input: String,
    length: usize,
    pos: usize,
    start: usize,
    escape_char_positions: Vec<usize>,
}

impl QueryLexer {
    /// The input, in UTF-8.
    pub closed spec fn bytes(&self) -> Seq<u8> {
        utf8_of(self.input@)
    }

    /// The input.
    pub closed spec fn input_view(&self) -> Seq<char> {
        self.input@
    }

    pub closed spec fn model(&self) -> LexModel {
        LexModel {
            pos: self.pos as int,
            start: self.start as int,
            escapes: self.escape_char_positions@.map_values(|e: usize| e as int),
            lexemes: models(self.lexemes@),
        }
    }

    /// The recorded length is the input's length in bytes.
    pub closed spec fn wf(&self) -> bool {
        &&& self.length == self.bytes().len()
        &&& self.length < usize::MAX
    }

    pub fn new(input: &str) -> (r: Self)
        requires
            input.spec_bytes().len() < usize::MAX,
        ensures
            r.wf(),
            r.input_view() == input@,
            r.bytes() == input.spec_bytes(),
            r.model() == initial_model(),
    {
        let r = QueryLexer {
            lexemes: Vec::new(),
            input: input.to_owned(),
            length: input.len(),
            pos: 0,
            start: 0,
            escape_char_positions: Vec::new(),
        };
        proof {
            assert(r.model().escapes =~= Seq::<int>::empty());
            assert(r.model().lexemes =~= Seq::<LexemeModel>::empty());
        }
        r
    }

    /// Runs the state machine from the text state until it stops.
    pub fn run(&mut self)
        requires
            old(self).wf(),
            sp_run(old(self).bytes(), LexerStateId::LexText, old(self).model()) is Some,
        ensures
            final(self).wf(),
            final(self).bytes() == old(self).bytes(),
            final(self).input_view() == old(self).input_view(),
            final(self).model().lexemes == sp_run(old(self).bytes(), LexerStateId::LexText, old(self).model())->0,
    {
        let ghost b = self.bytes();
        let ghost result = sp_run(b, LexerStateId::LexText, self.model())->0;
        let mut state = Some(LexerStateId::LexText);
        while state.is_some()
            invariant
                self.wf(),
                self.bytes() == b,
                self.input_view() == old(self).input_view(),
                state matches Some(s) ==> sp_run(b, s, self.model()) == Some(result),
                state is None ==> self.model().lexemes == result,
            decreases
                (if let Some(s) = state { lex_measure(b, s, self.model()) + 1 } else { 0 }),
        {
            let s = state.unwrap();
            let ghost before = self.model();
            proof {
                lemma_step(b, s, before);
            }
            let step = lex_step(self, s);
            state = match step {
                Some(n) => n,
                None => None,
            };
        }
    }

    /// The lexemes emitted so far.
    pub fn lexemes(&self) -> (r: &[Lexeme])
        ensures
            models(r@) == self.model().lexemes,
    {
        self.lexemes.as_slice()
    }

    /// Reads the next byte as a character; `'\0'` at the end of the input.
    pub fn next(&mut self) -> (r: char)
        requires
            old(self).wf(),
        ensures
            final(self).wf(),
            final(self).bytes() == old(self).bytes(),
            final(self).input_view() == old(self).input_view(),
            final(self).model() == sp_next(old(self).bytes(), old(self).model()).0,
            r == sp_next(old(self).bytes(), old(self).model()).1 as char,
    {
        let b = self.next_byte();
        b as char
    }

    /// Reads the next byte; 0 at the end of the input.
    fn next_byte(&mut self) -> (r: u8)
        requires
            old(self).wf(),
        ensures
            final(self).wf(),
            final(self).bytes() == old(self).bytes(),
            final(self).input_view() == old(self).input_view(),
            final(self).model() == sp_next(old(self).bytes(), old(self).model()).0,
            r == sp_next(old(self).bytes(), old(self).model()).1,
    {
        if self.pos >= self.length {
            return 0;
        }
        let ch = self.input.as_str().as_bytes()[self.pos];
        self.pos += 1;
        ch
    }

    /// Steps back one byte.
    pub fn backup(&mut self)
        requires
            old(self).model().pos >= 1,
        ensures
            final(self).bytes() == old(self).bytes(),
            final(self).input_view() == old(self).input_view(),
            old(self).wf() ==> final(self).wf(),
            final(self).model() == sp_backup(old(self).model()),
    {
        self.pos -= 1;
    }

    /// Skips the pending text; skips one byte more where nothing is pending.
    pub fn ignore(&mut self)
        requires
            old(self).model().start == old(self).model().pos ==> old(self).model().pos < usize::MAX,
        ensures
            final(self).bytes() == old(self).bytes(),
            final(self).input_view() == old(self).input_view(),
            old(self).wf() ==> final(self).wf(),
            final(self).model() == sp_ignore(old(self).model()),
    {
        if self.start == self.pos {
            self.pos += 1;
        }
        self.start = self.pos;
    }

    /// The number of bytes pending.
    pub fn width(&self) -> (r: usize)
        requires
            self.model().start <= self.model().pos,
        ensures
            r == sp_width(self.model()),
    {
        self.pos - self.start
    }

    /// Emits the pending text as a lexeme of the given kind.
    pub fn emit(&mut self, token_type: TokenType)
        requires
            old(self).wf(),
            sp_emit(old(self).bytes(), old(self).model(), token_type) is Some,
        ensures
            final(self).wf(),
            final(self).bytes() == old(self).bytes(),
            final(self).input_view() == old(self).input_view(),
            final(self).model() == sp_emit(old(self).bytes(), old(self).model(), token_type)->0,
    {
        let ghost m = self.model();
        let s = self.slice_string();
        let start = self.start;
        let end = self.pos;
        self.lexemes.push(Lexeme { lexeme_type: token_type, str: s, start, end });
        self.start = self.pos;
        proof {
            let e = sp_emit(self.bytes(), m, token_type)->0;
            assert(self.model().lexemes =~= e.lexemes);
            assert(self.model().escapes =~= e.escapes);
        }
    }

    /// Whether the pending text can be cut out of the input: each cut, at its
    /// start, around each escape character and at the read position, falls on
    /// a character boundary inside the input.
    pub fn can_emit(&self) -> (r: bool)
        requires
            self.wf(),
        ensures
            r == (slice_text(self.bytes(), self.model().start, self.model().escapes, self.model().pos) is Some),
    {
        let ghost b = self.bytes();
        let ghost escs = self.model().escapes;
        let ghost to = self.model().pos;
        let s = self.input.as_str();
        proof {
            encode_utf8_valid_utf8(self.input@);
            assert(escs.skip(0) =~= escs);
        }
        let mut from = self.start;
        let mut i: usize = 0;
        let n = self.escape_char_positions.len();
        while i < n
            invariant
                self.wf(),
                b == self.bytes(),
                b == s.spec_bytes(),
                valid_utf8(b),
                escs == self.model().escapes,
                to == self.model().pos,
                n == escs.len(),
                0 <= i <= n,
                slice_text(b, self.model().start, escs, to) is Some <==> slice_text(
                    b,
                    from as int,
                    escs.skip(i as int),
                    to,
                ) is Some,
            decreases n - i,
        {
            let esc = self.escape_char_positions[i];
            let ghost rest = escs.skip(i as int);
            proof {
                assert(rest[0] == esc as int);
                assert(rest.drop_first() =~= escs.skip(i as int + 1));
            }
            if !(from <= esc && s.is_char_boundary(from) && s.is_char_boundary(esc)) {
                proof {
                    assert(piece(b, from as int, esc as int) is None);
                }
                return false;
            }
            proof {
                assert(esc as int <= b.len());
            }
            from = esc + 1;
            i = i + 1;
        }
        proof {
            assert(escs.skip(n as int) =~= Seq::<int>::empty());
        }
        from <= self.pos && s.is_char_boundary(from) && s.is_char_boundary(self.pos)
    }

    /// The pending text without its escape characters; forgets the escapes.
    pub fn slice_string(&mut self) -> (r: String)
        requires
            old(self).wf(),
            slice_text(old(self).bytes(), old(self).model().start, old(self).model().escapes, old(self).model().pos) is Some,
        ensures
            final(self).wf(),
            final(self).bytes() == old(self).bytes(),
            final(self).input_view() == old(self).input_view(),
            r@ == slice_text(old(self).bytes(), old(self).model().start, old(self).model().escapes, old(self).model().pos)->0,
            final(self).model() == (LexModel { escapes: Seq::empty(), ..old(self).model() }),
    {
        let ghost b = self.bytes();
        let ghost escs = self.model().escapes;
        let ghost total = slice_text(b, self.start as int, escs, self.pos as int)->0;
        let mut result = String::new();
        let mut slice_start = self.start;
        let mut i: usize = 0;
        let n = self.escape_char_positions.len();
        proof {
            assert(escs.skip(0) =~= escs);
            assert(result@ + total =~= total);
        }
        while i < n
            invariant
                self.wf(),
                b == self.bytes(),
                n == self.escape_char_positions@.len(),
                escs == self.model().escapes,
                0 <= i <= n,
                slice_text(b, slice_start as int, escs.skip(i as int), self.pos as int) is Some,
                result@ + slice_text(b, slice_start as int, escs.skip(i as int), self.pos as int)->0 == total,
            decreases n - i,
        {
            let esc = self.escape_char_positions[i];
            proof {
                let rest = escs.skip(i as int);
                assert(rest[0] == esc as int);
                assert(rest.drop_first() =~= escs.skip(i as int + 1));
            }
            let part = byte_slice(self.input.as_str(), slice_start, esc);
            let ghost before = result@;
            result.append(part);
            proof {
                let rest = escs.skip(i as int);
                let t = piece(b, slice_start as int, esc as int)->0;
                let r2 = slice_text(b, esc as int + 1, rest.drop_first(), self.pos as int)->0;
                assert(slice_text(b, slice_start as int, rest, self.pos as int)->0 == t + r2);
                assert(before + (t + r2) =~= (before + t) + r2);
            }
            slice_start = esc + 1;
            i = i + 1;
        }
        proof {
            assert(escs.skip(n as int) =~= Seq::<int>::empty());
        }
        let part = byte_slice(self.input.as_str(), slice_start, self.pos);
        result.append(part);
        self.escape_char_positions.clear();
        proof {
            assert(self.model().escapes =~= Seq::<int>::empty());
        }
        result
    }

    /// Records an escape character just read and skips the byte after it.
    pub fn escape_character(&mut self)
        requires
            1 <= old(self).model().pos < usize::MAX,
        ensures
            final(self).bytes() == old(self).bytes(),
            final(self).input_view() == old(self).input_view(),
            old(self).wf() ==> final(self).wf(),
            final(self).model() == sp_escape(old(self).model()),
    {
        let ghost m = self.model();
        self.escape_char_positions.push(self.pos - 1);
        self.pos += 1;
        proof {
            assert(self.model().escapes =~= sp_escape(m).escapes);
        }
    }

    /// Reads digits; stops after the end of input or before the first non-digit.
    pub fn accept_digit_run(&mut self)
        requires
            old(self).wf(),
        ensures
            final(self).wf(),
            final(self).bytes() == old(self).bytes(),
            final(self).input_view() == old(self).input_view(),
            final(self).model() == sp_digit_run(old(self).bytes(), old(self).model()),
    {
        let ghost b = self.bytes();
        let ghost target = sp_digit_run(b, self.model());
        loop
            invariant_except_break
                sp_digit_run(b, self.model()) == target,
            invariant
                self.wf(),
                b == self.bytes(),
                b == old(self).bytes(),
                target == sp_digit_run(old(self).bytes(), old(self).model()),
                self.input_view() == old(self).input_view(),
            ensures
                self.model() == target,
            decreases b.len() - self.pos,
        {
            let code = self.next_byte();
            if code == 0 {
                break;
            }
            if code < 48 || code > 57 {
                self.backup();
                break;
            }
        }
    }

    /// Reads a minus sign, if one comes next.
    pub fn accept_sign(&mut self)
        requires
            old(self).wf(),
        ensures
            final(self).wf(),
            final(self).bytes() == old(self).bytes(),
            final(self).input_view() == old(self).input_view(),
            final(self).model() == sp_sign(old(self).bytes(), old(self).model()),
    {
        if self.more() {
            let ch = self.input.as_str().as_bytes()[self.pos];
            if ch == 45 {
                self.pos += 1;
            }
        }
    }

    /// Reads digits, then a point and more digits if a point follows.
    pub fn accept_decimal_run(&mut self)
        requires
            old(self).wf(),
        ensures
            final(self).wf(),
            final(self).bytes() == old(self).bytes(),
            final(self).input_view() == old(self).input_view(),
            final(self).model() == sp_decimal_run(old(self).bytes(), old(self).model()),
    {
        self.accept_digit_run();
        if self.more() {
            let ch = self.input.as_str().as_bytes()[self.pos];
            if ch == 46 {
                self.pos += 1;
                self.accept_digit_run();
            }
        }
    }

    /// Whether bytes remain to be read.
    pub fn more(&self) -> (r: bool)
        requires
            self.wf(),
        ensures
            r == (self.model().pos < self.bytes().len()),
    {
        self.pos < self.length
    }
}

/// One step of the state machine from state `s`: `None` where it would cut
/// the input inside a character or beyond its end; otherwise the next state,
/// if any.
fn lex_step(lexer: &mut QueryLexer, s: LexerStateId) -> (r: Option<Option<LexerStateId>>)
    requires
        old(lexer).wf(),
        lex_inv(old(lexer).bytes(), s, old(lexer).model()),
    ensures
        final(lexer).wf(),
        final(lexer).bytes() == old(lexer).bytes(),
        final(lexer).input_view() == old(lexer).input_view(),
        r is None <==> sp_step(old(lexer).bytes(), s, old(lexer).model()) is None,
        r matches Some(n) ==> (final(lexer).model(), n) == sp_step(old(lexer).bytes(), s, old(lexer).model())->0,
{
    match s {
        LexerStateId::LexText => lex_text(lexer),
        LexerStateId::LexField => lex_field(lexer),
        LexerStateId::LexTerm => lex_term(lexer),
        LexerStateId::LexEditDistance => lex_edit_distance(lexer),
        LexerStateId::LexBoost => lex_boost(lexer),
        LexerStateId::LexEos => lex_eos(lexer),
    }
}

/// Whether lexing `input` succeeds, that is, never cuts it inside a
/// character or beyond its end: exactly where `QueryLexer::run` and
/// `QueryParser::parse` may be called on it.
pub fn lexable(input: &str) -> (r: bool)
    requires
        input.spec_bytes().len() < usize::MAX,
    ensures
        r == (lex(input@) is Some),
{
    let mut lexer = QueryLexer::new(input);
    let ghost b = lexer.bytes();
    let mut state = Some(LexerStateId::LexText);
    while state.is_some()
        invariant
            lexer.wf(),
            lexer.bytes() == b,
            b == utf8_of(input@),
            state matches Some(s) ==> lex_inv(b, s, lexer.model()) && (sp_run(b, s, lexer.model()) is Some <==> lex(
                input@,
            ) is Some),
            state is None ==> lex(input@) is Some,
        decreases
            (if let Some(s) = state { lex_measure(b, s, lexer.model()) + 1 } else { 0 }),
    {
        let s = state.unwrap();
        let ghost before = lexer.model();
        proof {
            lemma_step(b, s, before);
        }
        match lex_step(&mut lexer, s) {
            None => {
                return false;
            },
            Some(n) => {
                state = n;
            },
        }
    }
    true
}

/// Reads text up to the next character that changes state.
fn lex_text(lexer: &mut QueryLexer) -> (r: Option<Option<LexerStateId>>)
    requires
        old(lexer).wf(),
        lex_inv(old(lexer).bytes(), LexerStateId::LexText, old(lexer).model()),
    ensures
        final(lexer).wf(),
        final(lexer).bytes() == old(lexer).bytes(),
        final(lexer).input_view() == old(lexer).input_view(),
        r is None <==> sp_lex_text(old(lexer).bytes(), old(lexer).model()) is None,
        r matches Some(n) ==> (final(lexer).model(), n) == sp_lex_text(old(lexer).bytes(), old(lexer).model())->0,
{
    let ghost b = lexer.bytes();
    let ghost target = sp_lex_text(b, lexer.model());
    loop
        invariant
            lexer.wf(),
            b == lexer.bytes(),
            lexer.input_view() == old(lexer).input_view(),
            0 <= lexer.model().start <= lexer.model().pos <= b.len() + 1,
            sp_lex_text(b, lexer.model()) == target,
            target == sp_lex_text(old(lexer).bytes(), old(lexer).model()),
        decreases b.len() + 2 - lexer.model().pos,
    {
        let ch = lexer.next_byte();
        if ch == 0 {
            return Some(Some(LexerStateId::LexEos));
        }
        if ch == 92 {
            lexer.escape_character();
            continue;
        }
        if ch == 58 {
            return Some(Some(LexerStateId::LexField));
        }
        if ch == 126 {
            lexer.backup();
            if lexer.width() > 0 {
                if !lexer.can_emit() {
                    return None;
                }
                lexer.emit(TokenType::TERM);
            }
            return Some(Some(LexerStateId::LexEditDistance));
        }
        if ch == 94 {
            lexer.backup();
            if lexer.width() > 0 {
                if !lexer.can_emit() {
                    return None;
                }
                lexer.emit(TokenType::TERM);
            }
            return Some(Some(LexerStateId::LexBoost));
        }
        if ch == 43 && lexer.width() == 1 {
            if !lexer.can_emit() {
                return None;
            }
            lexer.emit(TokenType::PRESENCE);
            return Some(Some(LexerStateId::LexText));
        }
        if ch == 45 && lexer.width() == 1 {
            if !lexer.can_emit() {
                return None;
            }
            lexer.emit(TokenType::PRESENCE);
            return Some(Some(LexerStateId::LexText));
        }
        if is_separator(ch as char) {
            return Some(Some(LexerStateId::LexTerm));
        }
    }
}

/// Emits the text before `:` as a field name.
fn lex_field(lexer: &mut QueryLexer) -> (r: Option<Option<LexerStateId>>)
    requires
        old(lexer).wf(),
        lex_inv(old(lexer).bytes(), LexerStateId::LexField, old(lexer).model()),
    ensures
        final(lexer).wf(),
        final(lexer).bytes() == old(lexer).bytes(),
        final(lexer).input_view() == old(lexer).input_view(),
        r is None <==> sp_lex_field(old(lexer).bytes(), old(lexer).model()) is None,
        r matches Some(n) ==> (final(lexer).model(), n) == sp_lex_field(old(lexer).bytes(), old(lexer).model())->0,
{
    lexer.backup();
    if !lexer.can_emit() {
        return None;
    }
    lexer.emit(TokenType::FIELD);
    lexer.ignore();
    Some(Some(LexerStateId::LexText))
}

/// Emits the text before a separator as a term.
fn lex_term(lexer: &mut QueryLexer) -> (r: Option<Option<LexerStateId>>)
    requires
        old(lexer).wf(),
        lex_inv(old(lexer).bytes(), LexerStateId::LexTerm, old(lexer).model()),
    ensures
        final(lexer).wf(),
        final(lexer).bytes() == old(lexer).bytes(),
        final(lexer).input_view() == old(lexer).input_view(),
        r is None <==> sp_lex_term(old(lexer).bytes(), old(lexer).model()) is None,
        r matches Some(n) ==> (final(lexer).model(), n) == sp_lex_term(old(lexer).bytes(), old(lexer).model())->0,
{
    if lexer.width() > 1 {
        lexer.backup();
        if !lexer.can_emit() {
            return None;
        }
        lexer.emit(TokenType::TERM);
    }
    lexer.ignore();
    if lexer.more() {
        Some(Some(LexerStateId::LexText))
    } else {
        Some(Some(LexerStateId::LexEos))
    }
}

/// Emits the digits after `~`, with a minus sign if one comes first, as an edit distance.
fn lex_edit_distance(lexer: &mut QueryLexer) -> (r: Option<Option<LexerStateId>>)
    requires
        old(lexer).wf(),
        lex_inv(old(lexer).bytes(), LexerStateId::LexEditDistance, old(lexer).model()),
    ensures
        final(lexer).wf(),
        final(lexer).bytes() == old(lexer).bytes(),
        final(lexer).input_view() == old(lexer).input_view(),
        r is None <==> sp_lex_edit_distance(old(lexer).bytes(), old(lexer).model()) is None,
        r matches Some(n) ==> (final(lexer).model(), n) == sp_lex_edit_distance(old(lexer).bytes(), old(lexer).model())->0,
{
    lexer.ignore();
    lexer.accept_sign();
    lexer.accept_digit_run();
    if !lexer.can_emit() {
        return None;
    }
    lexer.emit(TokenType::EDIT_DISTANCE);
    Some(Some(LexerStateId::LexText))
}

/// Emits the decimal number after `^`, with a minus sign if one comes first, as a boost.
fn lex_boost(lexer: &mut QueryLexer) -> (r: Option<Option<LexerStateId>>)
    requires
        old(lexer).wf(),
        lex_inv(old(lexer).bytes(), LexerStateId::LexBoost, old(lexer).model()),
    ensures
        final(lexer).wf(),
        final(lexer).bytes() == old(lexer).bytes(),
        final(lexer).input_view() == old(lexer).input_view(),
        r is None <==> sp_lex_boost(old(lexer).bytes(), old(lexer).model()) is None,
        r matches Some(n) ==> (final(lexer).model(), n) == sp_lex_boost(old(lexer).bytes(), old(lexer).model())->0,
{
    lexer.ignore();
    lexer.accept_sign();
    lexer.accept_decimal_run();
    if !lexer.can_emit() {
        return None;
    }
    lexer.emit(TokenType::BOOST);
    Some(Some(LexerStateId::LexText))
}

/// Emits what is pending as a term and stops.
fn lex_eos(lexer: &mut QueryLexer) -> (r: Option<Option<LexerStateId>>)
    requires
        old(lexer).wf(),
        lex_inv(old(lexer).bytes(), LexerStateId::LexEos, old(lexer).model()),
    ensures
        final(lexer).wf(),
        final(lexer).bytes() == old(lexer).bytes(),
        final(lexer).input_view() == old(lexer).input_view(),
        r is None <==> sp_lex_eos(old(lexer).bytes(), old(lexer).model()) is None,
        r matches Some(n) ==> (final(lexer).model(), n) == sp_lex_eos(old(lexer).bytes(), old(lexer).model())->0,
{
    if lexer.width() > 0 {
        if !lexer.can_emit() {
            return None;
        }
        lexer.emit(TokenType::TERM);
    }
    Some(None)
}


// ---------------------------------------------------------------------------
// Laws of the lexemes.
// ---------------------------------------------------------------------------

/// Each lexeme lies inside the input (`len` bytes), and each ends no later
/// than any later one starts.
#[verifier::opaque]
pub open spec fn lexemes_in_order(ls: Seq<LexemeModel>, len: int) -> bool {
    &&& forall|i: int| 0 <= i < ls.len() ==> 0 <= (#[trigger] ls[i]).start <= ls[i].end <= len
    &&& forall|i: int, j: int| 0 <= i < j < ls.len() ==> (#[trigger] ls[i]).end <= (#[trigger] ls[j]).start
}

/// The lexemes so far are in order, inside `len` bytes, and pending text from
/// `start` on comes after them.
#[verifier::opaque]
spec fn ordered_at(len: int, ls: Seq<LexemeModel>, start: int) -> bool {
    &&& lexemes_in_order(ls, len)
    &&& ls.len() > 0 ==> ls.last().end <= start
}

spec fn ordered(b: Seq<u8>, st: LexModel) -> bool {
    ordered_at(b.len() as int, st.lexemes, st.start)
}

proof fn lemma_ordered_later(len: int, ls: Seq<LexemeModel>, a: int, c: int)
    requires
        ordered_at(len, ls, a),
        a <= c,
    ensures
        ordered_at(len, ls, c),
{
    reveal(ordered_at);
}

proof fn lemma_slice_bounds(b: Seq<u8>, from: int, escapes: Seq<int>, to: int)
    requires
        slice_text(b, from, escapes, to) is Some,
    ensures
        0 <= from <= to <= b.len(),
    decreases escapes.len(),
{
    if escapes.len() > 0 {
        lemma_slice_bounds(b, escapes[0] + 1, escapes.drop_first(), to);
    }
}

proof fn lemma_push_ordered(len: int, ls: Seq<LexemeModel>, start: int, l: LexemeModel)
    requires
        ordered_at(len, ls, start),
        start == l.start,
        0 <= l.start <= l.end <= len,
    ensures
        ordered_at(len, ls.push(l), l.end),
{
    reveal(ordered_at);
    reveal(lexemes_in_order);
    let ls2 = ls.push(l);
    assert forall|i: int, j: int| 0 <= i < j < ls2.len() implies (#[trigger] ls2[i]).end <= (#[trigger] ls2[j]).start by {
        assert(ls2[i] == ls[i]);
        if j < ls2.len() - 1 {
            assert(ls2[j] == ls[j]);
        } else {
            if i < ls.len() - 1 {
                assert(ls[i].end <= ls[ls.len() - 1].start);
            }
            assert(ls.last() == ls[ls.len() - 1]);
        }
    }
    assert forall|i: int| 0 <= i < ls2.len() implies 0 <= (#[trigger] ls2[i]).start <= ls2[i].end <= len by {
        if i < ls2.len() - 1 {
            assert(ls2[i] == ls[i]);
        }
    }
}

proof fn lemma_emit_ordered(b: Seq<u8>, st: LexModel, kind: TokenType)
    requires
        ordered(b, st),
    ensures
        sp_emit(b, st, kind) matches Some(s2) ==> ordered(b, s2),
{
    let t = slice_text(b, st.start, st.escapes, st.pos);
    if t is Some {
        lemma_slice_bounds(b, st.start, st.escapes, st.pos);
        let l = LexemeModel { kind, text: t->0, start: st.start, end: st.pos };
        lemma_push_ordered(b.len() as int, st.lexemes, st.start, l);
    }
}

proof fn lemma_digit_run_keeps(b: Seq<u8>, st: LexModel)
    ensures
        sp_digit_run(b, st).lexemes == st.lexemes,
        sp_digit_run(b, st).start == st.start,
    decreases b.len() - st.pos,
{
    let (s1, ch) = sp_next(b, st);
    if ch != 0 && is_digit_byte(ch) {
        lemma_digit_run_keeps(b, s1);
    }
}

proof fn lemma_lex_text_ordered(b: Seq<u8>, st: LexModel)
    requires
        ordered(b, st),
    ensures
        sp_lex_text(b, st) matches Some((s2, n)) ==> ordered(b, s2),
    decreases b.len() + 2 - st.pos,
{
    let (s1, ch) = sp_next(b, st);
    if ch == 0 {
    } else if ch == 92 {
        lemma_lex_text_ordered(b, sp_escape(s1));
    } else if ch == 58 {
    } else if ch == 126 || ch == 94 {
        lemma_emit_ordered(b, sp_backup(s1), TokenType::TERM);
    } else if (ch == 43 || ch == 45) && sp_width(s1) == 1 {
        lemma_emit_ordered(b, s1, TokenType::PRESENCE);
    } else if spec_is_separator(ch as char) {
    } else {
        lemma_lex_text_ordered(b, s1);
    }
}

proof fn lemma_step_ordered(b: Seq<u8>, s: LexerStateId, st: LexModel)
    requires
        ordered(b, st),
        lex_inv(b, s, st),
    ensures
        sp_step(b, s, st) matches Some((s2, n)) ==> ordered(b, s2),
{
    let len = b.len() as int;
    match s {
        LexerStateId::LexText => {
            lemma_lex_text_ordered(b, st);
        },
        LexerStateId::LexField => {
            lemma_emit_ordered(b, sp_backup(st), TokenType::FIELD);
            if sp_emit(b, sp_backup(st), TokenType::FIELD) is Some {
                let e = sp_emit(b, sp_backup(st), TokenType::FIELD)->0;
                lemma_ordered_later(len, e.lexemes, e.start, sp_ignore(e).start);
            }
        },
        LexerStateId::LexTerm => {
            if sp_width(st) > 1 {
                lemma_emit_ordered(b, sp_backup(st), TokenType::TERM);
                if sp_emit(b, sp_backup(st), TokenType::TERM) is Some {
                    let e = sp_emit(b, sp_backup(st), TokenType::TERM)->0;
                    lemma_ordered_later(len, e.lexemes, e.start, sp_ignore(e).start);
                }
            } else {
                lemma_ordered_later(len, st.lexemes, st.start, sp_ignore(st).start);
            }
        },
        LexerStateId::LexEditDistance => {
            let s0 = sp_sign(b, sp_ignore(st));
            lemma_ordered_later(len, st.lexemes, st.start, s0.start);
            lemma_digit_run_keeps(b, s0);
            lemma_emit_ordered(b, sp_digit_run(b, s0), TokenType::EDIT_DISTANCE);
        },
        LexerStateId::LexBoost => {
            let s0 = sp_sign(b, sp_ignore(st));
            lemma_ordered_later(len, st.lexemes, st.start, s0.start);
            lemma_digit_run_keeps(b, s0);
            let s1 = sp_digit_run(b, s0);
            if 0 <= s1.pos < b.len() && b[s1.pos] == 46 {
                lemma_digit_run_keeps(b, LexModel { pos: s1.pos + 1, ..s1 });
            }
            lemma_emit_ordered(b, sp_decimal_run(b, s0), TokenType::BOOST);
        },
        LexerStateId::LexEos => {
            if sp_width(st) > 0 {
                lemma_emit_ordered(b, st, TokenType::TERM);
            }
        },
    }
}

proof fn lemma_run_ordered(b: Seq<u8>, s: LexerStateId, st: LexModel)
    requires
        ordered(b, st),
    ensures
        sp_run(b, s, st) matches Some(ls) ==> lexemes_in_order(ls, b.len() as int),
    decreases lex_measure(b, s, st),
{
    if lex_inv(b, s, st) {
        lemma_step_ordered(b, s, st);
        lemma_step(b, s, st);
        match sp_step(b, s, st) {
            None => {},
            Some((st2, next)) => match next {
                None => {
                    reveal(ordered_at);
                },
                Some(n) => {
                    lemma_run_ordered(b, n, st2);
                },
            },
        }
    }
}

/// The lexemes of a query string lie inside it, in order: each starts no
/// earlier than the one before ends.
pub proof fn law_lexemes_in_order(input: Seq<char>)
    ensures
        lex(input) matches Some(ls) ==> lexemes_in_order(ls, utf8_of(input).len() as int),
{
    assert(ordered(utf8_of(input), initial_model())) by {
        reveal(ordered_at);
        reveal(lexemes_in_order);
    }
    lemma_run_ordered(utf8_of(input), LexerStateId::LexText, initial_model());
}


/// A boost or an edit distance of kind `kind` from byte `start` to `end` is
/// the whole number after its operator: it starts right after the `~` (edit
/// distance) or `^` (boost) and holds an optional minus sign, then digits
/// (for a boost, also a decimal point); and the byte after it, if any, is
/// not a digit. A NUL byte reads as the end of the input, so the lexeme may
/// take one in and stop there.
pub open spec fn number_run(b: Seq<u8>, kind: TokenType, start: int, end: int) -> bool {
    &&& 1 <= start <= end
    &&& b[start - 1] == (if kind == TokenType::EDIT_DISTANCE { 126u8 } else { 94u8 })
    &&& (end >= b.len() || !is_digit_byte(b[end]) || (end > start && b[end - 1] == 0))
    &&& forall|k: int| start <= k < end ==> #[trigger] number_byte(b, kind, start, k)
}

/// Byte `k` of a number lexeme from `start`: a digit, a leading minus sign,
/// a decimal point in a boost, or a NUL byte.
pub open spec fn number_byte(b: Seq<u8>, kind: TokenType, start: int, k: int) -> bool {
    k < b.len() && (is_digit_byte(b[k]) || (k == start && b[k] == 45) || (kind == TokenType::BOOST && b[k] == 46)
        || b[k] == 0)
}

/// Every boost and edit distance among `ls` is a whole number run.
pub open spec fn numbers_whole(b: Seq<u8>, ls: Seq<LexemeModel>) -> bool {
    forall|i: int|
        0 <= i < ls.len() && ((#[trigger] ls[i]).kind == TokenType::EDIT_DISTANCE || ls[i].kind == TokenType::BOOST)
            ==> number_run(b, ls[i].kind, ls[i].start, ls[i].end)
}

proof fn lemma_push_numbers(b: Seq<u8>, ls: Seq<LexemeModel>, l: LexemeModel)
    requires
        numbers_whole(b, ls),
        (l.kind == TokenType::EDIT_DISTANCE || l.kind == TokenType::BOOST) ==> number_run(b, l.kind, l.start, l.end),
    ensures
        numbers_whole(b, ls.push(l)),
{
    let ls2 = ls.push(l);
    assert forall|i: int|
        0 <= i < ls2.len() && ((#[trigger] ls2[i]).kind == TokenType::EDIT_DISTANCE || ls2[i].kind == TokenType::BOOST)
            implies number_run(b, ls2[i].kind, ls2[i].start, ls2[i].end) by {
        if i < ls.len() {
            assert(ls2[i] == ls[i]);
        }
    }
}

/// Byte `k` is in the input and a digit or a NUL byte.
spec fn digit_or_nul(b: Seq<u8>, k: int) -> bool {
    k < b.len() && (is_digit_byte(b[k]) || b[k] == 0)
}

/// The bytes from `lo` to `hi` are digits or NUL bytes.
spec fn digits_between(b: Seq<u8>, lo: int, hi: int) -> bool {
    forall|k: int| lo <= k < hi ==> #[trigger] digit_or_nul(b, k)
}

/// A digit run reads digits only (or a NUL byte, at which it stops), and stops
/// at the end or before a non-digit.
proof fn lemma_digit_run_bytes(b: Seq<u8>, st: LexModel)
    requires
        0 <= st.pos,
    ensures
        st.pos <= sp_digit_run(b, st).pos,
        digits_between(b, st.pos, sp_digit_run(b, st).pos),
        sp_digit_run(b, st).pos >= b.len() || !is_digit_byte(b[sp_digit_run(b, st).pos]) || (sp_digit_run(b, st).pos
            > st.pos && b[sp_digit_run(b, st).pos - 1] == 0),
        sp_digit_run(b, st).lexemes == st.lexemes,
        sp_digit_run(b, st).start == st.start,
    decreases b.len() - st.pos,
{
    let (s1, ch) = sp_next(b, st);
    if 0 <= st.pos < b.len() {
        assert(b[st.pos] == ch && s1.pos == st.pos + 1);
        if ch != 0 && is_digit_byte(ch) {
            lemma_digit_run_bytes(b, s1);
            let r = sp_digit_run(b, s1);
            assert(sp_digit_run(b, st) == r);
            assert(digits_between(b, st.pos, r.pos)) by {
                assert forall|k: int| st.pos <= k < r.pos implies #[trigger] digit_or_nul(b, k) by {
                    if k == st.pos {
                        assert(b[k] == ch);
                    }
                }
            }
        } else if ch == 0 {
            assert(sp_digit_run(b, st) == s1);
            assert forall|k: int| st.pos <= k < s1.pos implies #[trigger] digit_or_nul(b, k) by {
                assert(k == st.pos);
            }
            assert(digits_between(b, st.pos, s1.pos));
        } else {
            assert(sp_digit_run(b, st) == sp_backup(s1));
            assert(digits_between(b, st.pos, st.pos));
        }
    } else {
        assert(sp_digit_run(b, st) == st);
        assert(digits_between(b, st.pos, st.pos));
    }
}

proof fn lemma_emit_numbers(b: Seq<u8>, st: LexModel, kind: TokenType)
    requires
        numbers_whole(b, st.lexemes),
        (kind == TokenType::EDIT_DISTANCE || kind == TokenType::BOOST) ==> number_run(b, kind, st.start, st.pos),
    ensures
        sp_emit(b, st, kind) matches Some(s2) ==> numbers_whole(b, s2.lexemes),
{
    let t = slice_text(b, st.start, st.escapes, st.pos);
    if t is Some {
        let l = LexemeModel { kind, text: t->0, start: st.start, end: st.pos };
        lemma_push_numbers(b, st.lexemes, l);
    }
}

/// Text reading stops at `~` for an edit distance and at `^` for a boost,
/// with the read position on that byte.
proof fn lemma_lex_text_numbers(b: Seq<u8>, st: LexModel)
    requires
        numbers_whole(b, st.lexemes),
        0 <= st.pos,
    ensures
        sp_lex_text(b, st) matches Some((s2, n)) ==> numbers_whole(b, s2.lexemes)
            && (n == Some(LexerStateId::LexEditDistance) ==> 0 <= s2.pos < b.len() && b[s2.pos] == 126)
            && (n == Some(LexerStateId::LexBoost) ==> 0 <= s2.pos < b.len() && b[s2.pos] == 94),
    decreases b.len() + 2 - st.pos,
{
    let (s1, ch) = sp_next(b, st);
    if ch == 0 {
    } else if ch == 92 {
        lemma_lex_text_numbers(b, sp_escape(s1));
    } else if ch == 58 {
    } else if ch == 126 || ch == 94 {
        lemma_emit_numbers(b, sp_backup(s1), TokenType::TERM);
    } else if (ch == 43 || ch == 45) && sp_width(s1) == 1 {
        lemma_emit_numbers(b, s1, TokenType::PRESENCE);
    } else if spec_is_separator(ch as char) {
    } else {
        lemma_lex_text_numbers(b, s1);
    }
}

/// What a state needs on entry: numbers so far whole, and for the number
/// states the read position on the operator.
spec fn numbers_entry(b: Seq<u8>, s: LexerStateId, st: LexModel) -> bool {
    &&& numbers_whole(b, st.lexemes)
    &&& 0 <= st.pos
    &&& s == LexerStateId::LexEditDistance ==> st.pos < b.len() && b[st.pos] == 126
    &&& s == LexerStateId::LexBoost ==> st.pos < b.len() && b[st.pos] == 94
}

proof fn lemma_step_numbers(b: Seq<u8>, s: LexerStateId, st: LexModel)
    requires
        numbers_entry(b, s, st),
        lex_inv(b, s, st),
    ensures
        sp_step(b, s, st) matches Some((s2, n)) ==> numbers_whole(b, s2.lexemes) && (n matches Some(m)
            ==> numbers_entry(b, m, s2)),
{
    match s {
        LexerStateId::LexText => {
            lemma_lex_text_numbers(b, st);
            lemma_lex_text(b, st);
        },
        LexerStateId::LexField => {
            lemma_emit_numbers(b, sp_backup(st), TokenType::FIELD);
        },
        LexerStateId::LexTerm => {
            if sp_width(st) > 1 {
                lemma_emit_numbers(b, sp_backup(st), TokenType::TERM);
            }
        },
        LexerStateId::LexEditDistance => {
            let s0 = sp_sign(b, sp_ignore(st));
            lemma_digit_run_bytes(b, s0);
            let s1 = sp_digit_run(b, s0);
            assert(number_run(b, TokenType::EDIT_DISTANCE, s1.start, s1.pos)) by {
                assert forall|k: int| s1.start <= k < s1.pos implies #[trigger] number_byte(b, TokenType::EDIT_DISTANCE, s1.start, k) by {
                    if k < s0.pos {
                        assert(k == s1.start);
                    } else {
                        assert(digit_or_nul(b, k));
                    }
                }
            }
            lemma_emit_numbers(b, s1, TokenType::EDIT_DISTANCE);
        },
        LexerStateId::LexBoost => {
            let s0 = sp_sign(b, sp_ignore(st));
            lemma_digit_run_bytes(b, s0);
            let s1 = sp_digit_run(b, s0);
            if 0 <= s1.pos < b.len() && b[s1.pos] == 46 {
                let s2 = LexModel { pos: s1.pos + 1, ..s1 };
                lemma_digit_run_bytes(b, s2);
            }
            let s3 = sp_decimal_run(b, s0);
            assert(number_run(b, TokenType::BOOST, s3.start, s3.pos)) by {
                assert forall|k: int| s3.start <= k < s3.pos implies #[trigger] number_byte(b, TokenType::BOOST, s3.start, k) by {
                    if k < s0.pos {
                        assert(k == s3.start);
                    } else if k < s1.pos {
                        assert(digit_or_nul(b, k));
                    } else if k == s1.pos {
                    } else {
                        assert(digit_or_nul(b, k));
                    }
                }
            }
            lemma_emit_numbers(b, s3, TokenType::BOOST);
        },
        LexerStateId::LexEos => {
            if sp_width(st) > 0 {
                lemma_emit_numbers(b, st, TokenType::TERM);
            }
        },
    }
}

proof fn lemma_run_numbers(b: Seq<u8>, s: LexerStateId, st: LexModel)
    requires
        numbers_entry(b, s, st),
    ensures
        sp_run(b, s, st) matches Some(ls) ==> numbers_whole(b, ls),
    decreases lex_measure(b, s, st),
{
    if lex_inv(b, s, st) {
        lemma_step_numbers(b, s, st);
        lemma_step(b, s, st);
        match sp_step(b, s, st) {
            None => {},
            Some((st2, next)) => match next {
                None => {},
                Some(n) => {
                    lemma_run_numbers(b, n, st2);
                },
            },
        }
    }
}

/// Every boost and edit distance that lexing a query string gives is the
/// whole number after its operator (see `number_run`): the byte after it is
/// never a digit.
pub proof fn law_numbers_are_whole(input: Seq<char>)
    ensures
        lex(input) matches Some(ls) ==> numbers_whole(utf8_of(input), ls),
{
    lemma_run_numbers(utf8_of(input), LexerStateId::LexText, initial_model());
}

} // verus!
