use vstd::prelude::*;
use vstd::string::*;
use crate::text::{chars_of, strings_view, to_lowercase, lowercase, str_contains_char, string_from_range};
use crate::query::{QueryModel, ClauseModel, BoostModel, Query, Clause, Boost, add_clause, default_clause, boost_is_zero, normalize_clause, boost_one, PRESENCE_PROHIBITED, PRESENCE_REQUIRED};
use crate::query_parse_error::{QueryParseError, ErrorModel};
use crate::query_lexer::{Lexeme, LexemeModel, QueryLexer, TokenType, lex, models};

verus! {

// ---------------------------------------------------------------------------
// Numbers in lexemes.
// ---------------------------------------------------------------------------

pub open spec fn is_digit_char(c: char) -> bool {
    '0' <= c <= '9'
}

pub open spec fn all_digits(s: Seq<char>) -> bool {
    forall|i: int| 0 <= i < s.len() ==> is_digit_char(s[i])
}

/// The value of a string of decimal digits.
pub open spec fn digits_value(s: Seq<char>) -> nat
    decreases s.len(),
{
    if s.len() == 0 {
        0
    } else {
        digits_value(s.drop_last()) * 10 + ((s.last() as u32 - 48) as nat)
    }
}

/// `usize::from_str`: an optional `+`, then at least one digit, within range.
pub open spec fn parse_usize(t: Seq<char>) -> Option<usize> {
    let d = if t.len() > 0 && t[0] == '+' { t.drop_first() } else { t };
    if d.len() > 0 && all_digits(d) && digits_value(d) <= usize::MAX {
        Some(digits_value(d) as usize)
    } else {
        None
    }
}

pub open spec fn digit_values(s: Seq<char>) -> Seq<u8> {
    s.map_values(|c: char| (c as u32 - 48) as u8)
}

/// A decimal number as `f64::from_str` reads one without sign or exponent:
/// digits, or digits and a point with a digit on at least one side of it.
pub open spec fn parse_decimal(t: Seq<char>) -> Option<BoostModel> {
    if all_digits(t) {
        if t.len() > 0 { Some(BoostModel { whole: digit_values(t), fraction: Seq::empty() }) } else { None }
    } else if exists|i: int| 0 <= i < t.len() && t[i] == '.' && all_digits(t.take(i)) && all_digits(t.skip(i + 1)) {
        let i = choose|i: int| 0 <= i < t.len() && t[i] == '.' && all_digits(t.take(i)) && all_digits(t.skip(i + 1));
        if t.len() > 1 {
            Some(BoostModel { whole: digit_values(t.take(i)), fraction: digit_values(t.skip(i + 1)) })
        } else {
            None
        }
    } else {
        None
    }
}

/// A minus sign followed by a number read by `read`: `-` and at least one
/// more character.
pub open spec fn signed_minus(t: Seq<char>) -> bool {
    t.len() > 1 && t[0] == '-'
}

/// Digits that are all zeros.
pub open spec fn zero_digits(s: Seq<char>) -> bool {
    forall|i: int| 0 <= i < s.len() ==> s[i] == '0'
}

// ---------------------------------------------------------------------------
// The parser's states and their meaning.
// ---------------------------------------------------------------------------

#[derive(Clone, Copy, Debug, PartialEq, Eq, Structural)]
pub enum ParserStateId {
    ParseClause,
    ParsePresence,
    ParseField,
    ParseTerm,
    ParseEditDistance,
    ParseBoost,
}

/// The query built so far, the clause being read, and the next lexeme's index.
pub struct ParseModel {
    pub query: QueryModel,
    pub current: ClauseModel,
    pub idx: int,
}

pub type StepResult = Result<(ParseModel, Option<ParserStateId>), ErrorModel>;

pub open spec fn err(message: Seq<char>, l: LexemeModel) -> StepResult {
    Err(ErrorModel { message, start: l.start, end: l.end })
}

/// The name a lexeme kind is shown by.
pub open spec fn kind_name(t: TokenType) -> Seq<char> {
    match t {
        TokenType::EOS => "EOS"@,
        TokenType::FIELD => "FIELD"@,
        TokenType::TERM => "TERM"@,
        TokenType::EDIT_DISTANCE => "EDIT_DISTANCE"@,
        TokenType::BOOST => "BOOST"@,
        TokenType::PRESENCE => "PRESENCE"@,
    }
}

/// Ends the clause being read: adds it to the query and starts a fresh one.
pub open spec fn sp_next_clause(p: ParseModel) -> ParseModel {
    ParseModel { query: add_clause(p.query, p.current), current: default_clause(), ..p }
}

pub open spec fn sp_parse_clause(lx: Seq<LexemeModel>, p: ParseModel) -> StepResult {
    if p.idx >= lx.len() {
        Ok((p, None))
    } else {
        let l = lx[p.idx];
        match l.kind {
            TokenType::PRESENCE => Ok((p, Some(ParserStateId::ParsePresence))),
            TokenType::FIELD => Ok((p, Some(ParserStateId::ParseField))),
            TokenType::TERM => Ok((p, Some(ParserStateId::ParseTerm))),
            _ => err(
                "expected either a field or a term, found "@ + kind_name(l.kind) + (if l.text.len() >= 1 {
                    " with value '"@ + l.text + "'"@
                } else {
                    Seq::empty()
                }),
                l,
            ),
        }
    }
}

pub open spec fn sp_parse_presence(lx: Seq<LexemeModel>, p: ParseModel) -> StepResult {
    if p.idx >= lx.len() {
        Ok((p, None))
    } else {
        let l = lx[p.idx];
        if l.text != seq!['-'] && l.text != seq!['+'] {
            err("unrecognised presence operator'"@ + l.text + "'"@, l)
        } else {
            let presence = if l.text == seq!['-'] { PRESENCE_PROHIBITED } else { PRESENCE_REQUIRED };
            let p1 = ParseModel { current: ClauseModel { presence, ..p.current }, idx: p.idx + 1, ..p };
            if p1.idx >= lx.len() {
                err("expecting term or field, found nothing"@, l)
            } else {
                let n = lx[p1.idx];
                match n.kind {
                    TokenType::FIELD => Ok((p1, Some(ParserStateId::ParseField))),
                    TokenType::TERM => Ok((p1, Some(ParserStateId::ParseTerm))),
                    _ => err("expecting term or field, found '"@ + kind_name(n.kind) + "'"@, n),
                }
            }
        }
    }
}

pub open spec fn quoted(f: Seq<char>) -> Seq<char> {
    "'"@ + f + "'"@
}

/// The fields, each in quotes, separated by `, `.
pub open spec fn join_quoted(fields: Seq<Seq<char>>) -> Seq<char>
    decreases fields.len(),
{
    if fields.len() == 0 {
        Seq::empty()
    } else if fields.len() == 1 {
        quoted(fields[0])
    } else {
        join_quoted(fields.drop_last()) + ", "@ + quoted(fields.last())
    }
}

pub open spec fn sp_parse_field(lx: Seq<LexemeModel>, p: ParseModel) -> StepResult {
    if p.idx >= lx.len() {
        Ok((p, None))
    } else {
        let l = lx[p.idx];
        if !p.query.all_fields.contains(l.text) {
            err("unrecognised field '"@ + l.text + "', possible fields: "@ + join_quoted(p.query.all_fields), l)
        } else {
            let p1 = ParseModel { current: ClauseModel { fields: seq![l.text], ..p.current }, idx: p.idx + 1, ..p };
            if p1.idx >= lx.len() {
                err("expecting term, found nothing"@, l)
            } else {
                let n = lx[p1.idx];
                match n.kind {
                    TokenType::TERM => Ok((p1, Some(ParserStateId::ParseTerm))),
                    _ => err("expecting term, found '"@ + kind_name(n.kind) + "'"@, n),
                }
            }
        }
    }
}

/// What follows a term, an edit distance or a boost: a further modifier of
/// the same clause, or the start of the next clause.
pub open spec fn sp_after_term(lx: Seq<LexemeModel>, p: ParseModel) -> StepResult {
    if p.idx >= lx.len() {
        Ok((sp_next_clause(p), None))
    } else {
        let n = lx[p.idx];
        match n.kind {
            TokenType::TERM => Ok((sp_next_clause(p), Some(ParserStateId::ParseTerm))),
            TokenType::FIELD => Ok((sp_next_clause(p), Some(ParserStateId::ParseField))),
            TokenType::EDIT_DISTANCE => Ok((p, Some(ParserStateId::ParseEditDistance))),
            TokenType::BOOST => Ok((p, Some(ParserStateId::ParseBoost))),
            TokenType::PRESENCE => Ok((sp_next_clause(p), Some(ParserStateId::ParsePresence))),
            _ => err("Unexpected lexeme type '"@ + kind_name(n.kind) + "'"@, n),
        }
    }
}

pub open spec fn sp_parse_term(lx: Seq<LexemeModel>, p: ParseModel) -> StepResult {
    if p.idx >= lx.len() {
        Ok((p, None))
    } else {
        let l = lx[p.idx];
        let c1 = ClauseModel { term: lowercase(l.text), ..p.current };
        let c2 = if l.text.contains('*') { ClauseModel { use_pipeline: false, ..c1 } } else { c1 };
        sp_after_term(lx, ParseModel { current: c2, idx: p.idx + 1, ..p })
    }
}

pub open spec fn sp_parse_edit_distance(lx: Seq<LexemeModel>, p: ParseModel) -> StepResult {
    if p.idx >= lx.len() {
        Ok((p, None))
    } else {
        let l = lx[p.idx];
        let parsed = if signed_minus(l.text) && all_digits(l.text.drop_first()) {
            if zero_digits(l.text.drop_first()) { Some(0usize) } else { None }
        } else {
            parse_usize(l.text)
        };
        if signed_minus(l.text) && all_digits(l.text.drop_first()) && !zero_digits(l.text.drop_first()) {
            err("edit distance must be a non-negative integer"@, l)
        } else {
            match parsed {
                None => err("edit distance must be numeric"@, l),
                Some(d) => sp_after_term(
                    lx,
                    ParseModel { current: ClauseModel { edit_distance: Some(d), ..p.current }, idx: p.idx + 1, ..p },
                ),
            }
        }
    }
}

pub open spec fn sp_parse_boost(lx: Seq<LexemeModel>, p: ParseModel) -> StepResult {
    if p.idx >= lx.len() {
        Ok((p, None))
    } else {
        let l = lx[p.idx];
        if signed_minus(l.text) && parse_decimal(l.text.drop_first()) is Some {
            err("boost must be a positive number"@, l)
        } else {
            match parse_decimal(l.text) {
            None => err("boost must be numeric"@, l),
            Some(b) => if boost_is_zero(b) {
                err("boost must be a positive number"@, l)
            } else {
                sp_after_term(lx, ParseModel { current: ClauseModel { boost: b, ..p.current }, idx: p.idx + 1, ..p })
            },
        }
        }
    }
}

pub open spec fn sp_parse_step(lx: Seq<LexemeModel>, s: ParserStateId, p: ParseModel) -> StepResult {
    match s {
        ParserStateId::ParseClause => sp_parse_clause(lx, p),
        ParserStateId::ParsePresence => sp_parse_presence(lx, p),
        ParserStateId::ParseField => sp_parse_field(lx, p),
        ParserStateId::ParseTerm => sp_parse_term(lx, p),
        ParserStateId::ParseEditDistance => sp_parse_edit_distance(lx, p),
        ParserStateId::ParseBoost => sp_parse_boost(lx, p),
    }
}

pub open spec fn parse_measure(lx: Seq<LexemeModel>, s: ParserStateId, p: ParseModel) -> int {
    2 * (lx.len() - p.idx) + (if s == ParserStateId::ParseClause { 1int } else { 0 })
}

pub proof fn lemma_parse_step(lx: Seq<LexemeModel>, s: ParserStateId, p: ParseModel)
    requires
        0 <= p.idx <= lx.len(),
    ensures
        sp_parse_step(lx, s, p) matches Ok((p2, Some(n))) ==> 0 <= p2.idx <= lx.len() && n
            != ParserStateId::ParseClause && 0 <= parse_measure(lx, n, p2) < parse_measure(lx, s, p),
{
}

/// The query that parsing the lexemes from state `s` ends with, or the error it stops at.
pub open spec fn sp_parse_run(lx: Seq<LexemeModel>, s: ParserStateId, p: ParseModel) -> Result<QueryModel, ErrorModel>
    decreases parse_measure(lx, s, p),
{
    if !(0 <= p.idx <= lx.len()) {
        Ok(p.query)
    } else {
        match sp_parse_step(lx, s, p) {
            Err(e) => Err(e),
            Ok((p2, next)) => match next {
                None => Ok(p2.query),
                Some(n) => {
                    proof {
                        lemma_parse_step(lx, s, p);
                    }
                    sp_parse_run(lx, n, p2)
                },
            },
        }
    }
}

/// The result of parsing the lexemes into the query `q`.
pub open spec fn parse_lexemes(lx: Seq<LexemeModel>, q: QueryModel) -> Result<QueryModel, ErrorModel> {
    sp_parse_run(lx, ParserStateId::ParseClause, ParseModel { query: q, current: default_clause(), idx: 0 })
}

/// The result of parsing a query string into the query `q`.
pub open spec fn parse_query(input: Seq<char>, q: QueryModel) -> Result<QueryModel, ErrorModel> {
    parse_lexemes(lex(input)->0, q)
}

// ---------------------------------------------------------------------------
// Executable helpers.
// ---------------------------------------------------------------------------

fn kind_str(t: TokenType) -> (r: &'static str)
    ensures
        r@ == kind_name(t),
{
    match t {
        TokenType::EOS => "EOS",
        TokenType::FIELD => "FIELD",
        TokenType::TERM => "TERM",
        TokenType::EDIT_DISTANCE => "EDIT_DISTANCE",
        TokenType::BOOST => "BOOST",
        TokenType::PRESENCE => "PRESENCE",
    }
}

/// Whether the string is the single character `c`.
fn is_single_char(s: &String, c: char) -> (r: bool)
    ensures
        r == (s@ == seq![c]),
{
    let v = chars_of(s.as_str());
    if v.len() == 1 && v[0] == c {
        assert(v@ =~= seq![c]);
        true
    } else {
        assert(v@.len() != 1 || v@[0] != c);
        false
    }
}

/// Whether one of the strings equals `s`.
fn contains_string(v: &Vec<String>, s: &String) -> (r: bool)
    ensures
        r == strings_view(v@).contains(s@),
{
    let mut i: usize = 0;
    while i < v.len()
        invariant
            0 <= i <= v@.len(),
            forall|j: int| 0 <= j < i ==> strings_view(v@)[j] != s@,
        decreases v.len() - i,
    {
        if v[i] == *s {
            assert(strings_view(v@)[i as int] == s@);
            return true;
        }
        i = i + 1;
    }
    assert(!strings_view(v@).contains(s@)) by {
        if strings_view(v@).contains(s@) {
            let j = choose|j: int| 0 <= j < strings_view(v@).len() && strings_view(v@)[j] == s@;
            assert(strings_view(v@)[j] != s@);
        }
    }
    false
}

fn join_quoted_fields(v: &Vec<String>) -> (r: String)
    ensures
        r@ == join_quoted(strings_view(v@)),
{
    let mut r = String::new();
    let mut i: usize = 0;
    proof {
        assert(strings_view(v@).take(0) =~= Seq::<Seq<char>>::empty());
    }
    while i < v.len()
        invariant
            0 <= i <= v@.len(),
            r@ == join_quoted(strings_view(v@).take(i as int)),
        decreases v.len() - i,
    {
        let ghost before = r@;
        if i > 0 {
            r.append(", ");
        }
        r.append("'");
        r.append(v[i].as_str());
        r.append("'");
        proof {
            let f = strings_view(v@);
            assert(f.take(i + 1).drop_last() =~= f.take(i as int));
            assert(f.take(i + 1).last() == v@[i as int]@);
            if i == 0 {
                assert(r@ =~= quoted(v@[0]@));
            } else {
                assert(r@ =~= before + ", "@ + quoted(v@[i as int]@));
            }
        }
        i = i + 1;
    }
    proof {
        assert(strings_view(v@).take(v@.len() as int) =~= strings_view(v@));
    }
    r
}

proof fn lemma_digits_value_grows(s: Seq<char>, k: int)
    requires
        all_digits(s),
        0 <= k <= s.len(),
    ensures
        digits_value(s.take(k)) <= digits_value(s),
    decreases s.len() - k,
{
    if k < s.len() {
        lemma_digits_value_grows(s, k + 1);
        assert(s.take(k + 1).drop_last() =~= s.take(k));
    } else {
        assert(s.take(k) =~= s);
    }
}

/// `str::parse::<usize>`.
/// Whether the characters from `from` on are all digits.
fn digits_from(t: &Vec<char>, from: usize) -> (r: bool)
    requires
        from <= t@.len(),
    ensures
        r == all_digits(t@.skip(from as int)),
{
    let mut i = from;
    while i < t.len()
        invariant
            from <= i <= t@.len(),
            forall|j: int| from <= j < i ==> is_digit_char(t@[j]),
        decreases t.len() - i,
    {
        if !('0' <= t[i] && t[i] <= '9') {
            assert(t@.skip(from as int)[i - from] == t@[i as int]);
            return false;
        }
        i = i + 1;
    }
    assert forall|j: int| 0 <= j < t@.skip(from as int).len() implies is_digit_char(t@.skip(from as int)[j]) by {
        assert(t@.skip(from as int)[j] == t@[j + from]);
    }
    true
}

/// Whether the characters from `from` on are all zeros.
fn zeros_from(t: &Vec<char>, from: usize) -> (r: bool)
    requires
        from <= t@.len(),
    ensures
        r == zero_digits(t@.skip(from as int)),
{
    let mut i = from;
    while i < t.len()
        invariant
            from <= i <= t@.len(),
            forall|j: int| from <= j < i ==> t@[j] == '0',
        decreases t.len() - i,
    {
        if t[i] != '0' {
            assert(t@.skip(from as int)[i - from] == t@[i as int]);
            return false;
        }
        i = i + 1;
    }
    assert forall|j: int| 0 <= j < t@.skip(from as int).len() implies t@.skip(from as int)[j] == '0' by {
        assert(t@.skip(from as int)[j] == t@[j + from]);
    }
    true
}

fn parse_usize_str(text: &String) -> (r: Option<usize>)
    ensures
        r == parse_usize(text@),
{
    let t = chars_of(text.as_str());
    let mut i: usize = 0;
    if t.len() > 0 && t[0] == '+' {
        i = 1;
    }
    let ghost d = if t@.len() > 0 && t@[0] == '+' { t@.drop_first() } else { t@ };
    if i >= t.len() {
        return None;
    }
    let first = i;
    let mut value: u128 = 0;
    while i < t.len()
        invariant
            first <= i <= t@.len(),
            first < t@.len(),
            t@ == text@,
            d == t@.skip(first as int),
            d == (if text@.len() > 0 && text@[0] == '+' { text@.drop_first() } else { text@ }),
            all_digits(d.take(i - first)),
            value == digits_value(d.take(i - first)),
            value <= usize::MAX,
        decreases t.len() - i,
    {
        let c = t[i];
        if c < '0' || c > '9' {
            assert(!all_digits(d)) by {
                assert(d[i - first] == c);
                assert(!is_digit_char(d[i - first]));
            }
            assert(parse_usize(text@) is None);
            return None;
        }
        let dv = (c as u32 - 48) as u128;
        proof {
            assert(d.take(i - first + 1).drop_last() =~= d.take(i - first));
            assert(d.take(i - first + 1).last() == c);
        }
        value = value * 10 + dv;
        if value > usize::MAX as u128 {
            proof {
                let k = i - first;
                assert(digits_value(d.take(k + 1)) == digits_value(d.take(k)) * 10 + dv);
                if all_digits(d) {
                    lemma_digits_value_grows(d, k + 1);
                }
            }
            assert(parse_usize(text@) is None);
            return None;
        }
        i = i + 1;
    }
    proof {
        assert(d.take(i - first) =~= d);
    }
    Some(value as usize)
}

/// `f64::from_str` on digits with at most one point, kept exactly.
fn parse_decimal_str(text: &String) -> (r: Option<Boost>)
    ensures
        r matches Some(b) ==> parse_decimal(text@) == Some(b.model()),
        r is None ==> parse_decimal(text@) is None,
{
    let t = chars_of(text.as_str());
    let mut i: usize = 0;
    while i < t.len() && '0' <= t[i] && t[i] <= '9'
        invariant
            0 <= i <= t@.len(),
            all_digits(t@.take(i as int)),
        decreases t.len() - i,
    {
        proof {
            assert(t@.take(i + 1).drop_last() =~= t@.take(i as int));
        }
        i = i + 1;
    }
    let mut whole: Vec<u8> = Vec::new();
    let mut k: usize = 0;
    while k < i
        invariant
            0 <= k <= i <= t@.len(),
            all_digits(t@.take(i as int)),
            whole@ == digit_values(t@.take(k as int)),
        decreases i - k,
    {
        assert(t@.take(i as int)[k as int] == t@[k as int]);
        whole.push((t[k] as u32 - 48) as u8);
        k = k + 1;
        proof {
            assert(whole@ =~= digit_values(t@.take(k as int)));
        }
    }
    if i == t.len() {
        proof {
            assert(t@.take(i as int) =~= t@);
        }
        if t.len() == 0 {
            return None;
        }
        let r = Boost { whole, fraction: Vec::new() };
        proof {
            assert(r.model().fraction =~= Seq::<u8>::empty());
        }
        return Some(r);
    }
    // t[i] is the first character that is not a digit.
    proof {
        assert(!all_digits(t@));
    }
    if t[i] != '.' {
        proof {
            assert forall|j: int| 0 <= j < t@.len() && t@[j] == '.' implies !all_digits(t@.take(j)) by {
                if j < i {
                    assert(t@.take(i as int)[j] == t@[j]);
                } else {
                    assert(t@.take(j)[i as int] == t@[i as int]);
                }
            }
        }
        return None;
    }
    let mut fraction: Vec<u8> = Vec::new();
    let mut m: usize = i + 1;
    while m < t.len()
        invariant
            i < m <= t@.len(),
            t@[i as int] == '.',
            t@ == text@,
            all_digits(t@.take(i as int)),
            fraction@ == digit_values(t@.subrange(i + 1, m as int)),
            all_digits(t@.subrange(i + 1, m as int)),
        decreases t.len() - m,
    {
        if t[m] < '0' || t[m] > '9' {
            proof {
                assert forall|j: int| 0 <= j < t@.len() && t@[j] == '.' && all_digits(t@.take(j)) implies !all_digits(t@.skip(j + 1)) by {
                    if j < i {
                        assert(t@.take(i as int)[j] == t@[j]);
                    } else if j > i {
                        assert(t@.take(j)[i as int] == t@[i as int]);
                    } else {
                        assert(t@.skip(j + 1)[m - j - 1] == t@[m as int]);
                        assert(!is_digit_char(t@.skip(j + 1)[m - j - 1]));
                    }
                }
            }
            return None;
        }
        fraction.push((t[m] as u32 - 48) as u8);
        m = m + 1;
        proof {
            assert(t@.subrange(i + 1, m as int).drop_last() =~= t@.subrange(i + 1, m - 1));
            assert(fraction@ =~= digit_values(t@.subrange(i + 1, m as int)));
        }
    }
    proof {
        let ii = i as int;
        assert(t@.subrange(ii + 1, t@.len() as int) =~= t@.skip(ii + 1));
        assert(t@[ii] == '.' && all_digits(t@.take(ii)) && all_digits(t@.skip(ii + 1)));
        let c = choose|j: int| 0 <= j < t@.len() && t@[j] == '.' && all_digits(t@.take(j)) && all_digits(t@.skip(j + 1));
        if c < ii {
            assert(t@.take(ii)[c] == t@[c]);
        } else if c > ii {
            assert(t@.take(c)[ii] == t@[ii]);
        }
        assert(c == ii);
    }
    if t.len() == 1 {
        return None;
    }
    Some(Boost { whole, fraction })
}

fn copy_lexemes(v: &[Lexeme]) -> (r: Vec<Lexeme>)
    ensures
        models(r@) == models(v@),
{
    let mut r: Vec<Lexeme> = Vec::new();
    let mut i: usize = 0;
    while i < v.len()
        invariant
            0 <= i <= v@.len(),
            models(r@) == models(v@).take(i as int),
        decreases v.len() - i,
    {
        let l = v[i].duplicate();
        let ghost old_r = r@;
        r.push(l);
        proof {
            assert(models(old_r).len() == old_r.len());
            assert forall|j: int| 0 <= j < i + 1 implies models(r@)[j] == models(v@)[j] by {
                if j < i {
                    assert(models(old_r)[j] == models(v@).take(i as int)[j]);
                    assert(r@[j] == old_r[j]);
                } else {
                    assert(r@[j] == l);
                }
            }
            assert(models(r@) =~= models(v@).take(i + 1));
        }
        i = i + 1;
    }
    proof {
        assert(models(v@).take(v@.len() as int) =~= models(v@));
    }
    r
}

// ---------------------------------------------------------------------------
// The executable parser.
// ---------------------------------------------------------------------------

/// A parser for query strings.
pub struct QueryParser {
    lexer: QueryLexer,
    query: Query,
    current_clause: Clause,
    lexeme_idx: usize,
    lexemes: Vec<Lexeme>,
}

pub type StepReturn = Result<Option<ParserStateId>, QueryParseError>;

/// The executable step returned what the step's meaning says.
pub open spec fn step_agrees(r: StepReturn, p2: ParseModel, expected: StepResult) -> bool {
    match expected {
        Ok((q, n)) => r == Ok::<Option<ParserStateId>, QueryParseError>(n) && p2 == q,
        Err(e) => r is Err && r->Err_0.model() == e && r->Err_0.name@ == "QueryParseError"@,
    }
}

impl QueryParser {
    pub closed spec fn input_view(&self) -> Seq<char> {
        self.lexer.input_view()
    }

    pub closed spec fn query_model(&self) -> QueryModel {
        self.query.model()
    }

    /// The parser has not started yet.
    pub closed spec fn fresh(&self) -> bool {
        &&& self.lexer.wf()
        &&& self.lexer.bytes() == crate::text::utf8_of(self.lexer.input_view())
        &&& self.lexer.model() == crate::query_lexer::initial_model()
        &&& self.current_clause.model() == default_clause()
        &&& self.lexeme_idx == 0
    }

    closed spec fn lx(&self) -> Seq<LexemeModel> {
        models(self.lexemes@)
    }

    closed spec fn pmodel(&self) -> ParseModel {
        ParseModel { query: self.query.model(), current: self.current_clause.model(), idx: self.lexeme_idx as int }
    }

    closed spec fn pwf(&self) -> bool {
        self.lexeme_idx <= self.lexemes@.len()
    }

    pub fn new(input: &str, query: Query) -> (r: Self)
        requires
            input.spec_bytes().len() < usize::MAX,
        ensures
            r.input_view() == input@,
            r.query_model() == query.model(),
            r.fresh(),
    {
        QueryParser {
            lexer: QueryLexer::new(input),
            query,
            current_clause: Clause::default(),
            lexeme_idx: 0,
            lexemes: Vec::new(),
        }
    }

    /// Lexes the input and parses its lexemes into clauses of the query.
    pub fn parse(self) -> (r: Result<Query, QueryParseError>)
        requires
            self.fresh(),
            lex(self.input_view()) is Some,
        ensures
            r matches Ok(q) ==> parse_query(self.input_view(), self.query_model()) == Ok::<QueryModel, ErrorModel>(q.model()),
            r matches Err(e) ==> parse_query(self.input_view(), self.query_model()) == Err::<QueryModel, ErrorModel>(e.model())
                && e.name@ == "QueryParseError"@,
    {
        let ghost input = self.input_view();
        let ghost q0 = self.query_model();
        let mut parser = self;
        parser.run_and_collect()
    }

    fn run_and_collect(&mut self) -> (r: Result<Query, QueryParseError>)
        requires
            old(self).fresh(),
            lex(old(self).input_view()) is Some,
        ensures
            r matches Ok(q) ==> parse_query(old(self).input_view(), old(self).query_model()) == Ok::<QueryModel, ErrorModel>(q.model()),
            r matches Err(e) ==> parse_query(old(self).input_view(), old(self).query_model()) == Err::<QueryModel, ErrorModel>(e.model())
                && e.name@ == "QueryParseError"@,
    {
        let ghost input = self.input_view();
        let ghost q0 = self.query_model();
        self.lexer.run();
        self.lexemes = copy_lexemes(self.lexer.lexemes());
        let ghost lx = self.lx();
        let ghost target = parse_query(input, q0);
        proof {
            assert(lx == lex(input)->0);
            assert(target == sp_parse_run(lx, ParserStateId::ParseClause, self.pmodel()));
        }
        let mut state = Some(ParserStateId::ParseClause);
        while state.is_some()
            invariant
                self.lx() == lx,
                self.pwf(),
                target == parse_query(old(self).input_view(), old(self).query_model()),
                state matches Some(s) ==> sp_parse_run(lx, s, self.pmodel()) == target,
                state is None ==> target == Ok::<QueryModel, ErrorModel>(self.query.model()),
            decreases
                (if let Some(s) = state { parse_measure(lx, s, self.pmodel()) + 1 } else { 0 }),
        {
            let s = state.unwrap();
            proof {
                lemma_parse_step(lx, s, self.pmodel());
            }
            let ghost before = self.pmodel();
            let r = dispatch(s, self);
            match r {
                Ok(n) => {
                    state = n;
                },
                Err(e) => {
                    proof {
                        let sr = sp_parse_step(lx, s, before);
                        assert(sr is Err);
                        assert(sp_parse_run(lx, s, before) == Err::<QueryModel, ErrorModel>(sr->Err_0));
                        assert(e.model() == sr->Err_0);
                    }
                    return Err(e);
                },
            }
        }
        Ok(self.query.duplicate())
    }

    fn peek_kind(&self) -> (r: Option<TokenType>)
        ensures
            self.lexeme_idx < self.lexemes@.len() ==> r == Some(self.lx()[self.lexeme_idx as int].kind),
            self.lexeme_idx >= self.lexemes@.len() ==> r is None,
    {
        if self.lexeme_idx < self.lexemes.len() {
            Some(self.lexemes[self.lexeme_idx].lexeme_type)
        } else {
            None
        }
    }

    fn consume_lexeme(&mut self) -> (r: Option<Lexeme>)
        requires
            old(self).pwf(),
        ensures
            final(self).pwf(),
            final(self).lx() == old(self).lx(),
            final(self).query.model() == old(self).query.model(),
            final(self).current_clause.model() == old(self).current_clause.model(),
            old(self).lexeme_idx < old(self).lexemes@.len() ==> (r matches Some(l) && l.model() == old(self).lx()[
                old(self).lexeme_idx as int] && final(self).lexeme_idx == old(self).lexeme_idx + 1),
            old(self).lexeme_idx >= old(self).lexemes@.len() ==> r is None && final(self).lexeme_idx == old(
                self,
            ).lexeme_idx,
    {
        if self.lexeme_idx < self.lexemes.len() {
            let lexeme = self.lexemes[self.lexeme_idx].duplicate();
            self.lexeme_idx += 1;
            Some(lexeme)
        } else {
            None
        }
    }

    fn next_clause(&mut self)
        ensures
            final(self).lx() == old(self).lx(),
            final(self).lexeme_idx == old(self).lexeme_idx,
            final(self).pmodel() == sp_next_clause(old(self).pmodel()),
    {
        self.query.clause(&mut self.current_clause);
        self.current_clause = Clause::default();
    }
}

fn dispatch(s: ParserStateId, parser: &mut QueryParser) -> (r: StepReturn)
    requires
        old(parser).pwf(),
    ensures
        final(parser).pwf(),
        final(parser).lx() == old(parser).lx(),
        step_agrees(r, final(parser).pmodel(), sp_parse_step(old(parser).lx(), s, old(parser).pmodel())),
{
    match s {
        ParserStateId::ParseClause => parse_clause(parser),
        ParserStateId::ParsePresence => parse_presence(parser),
        ParserStateId::ParseField => parse_field(parser),
        ParserStateId::ParseTerm => parse_term(parser),
        ParserStateId::ParseEditDistance => parse_edit_distance(parser),
        ParserStateId::ParseBoost => parse_boost(parser),
    }
}

fn error_at(message: &String, l: &Lexeme) -> (r: StepReturn)
    ensures
        r is Err && r->Err_0.model() == (ErrorModel { message: message@, start: l.start as int, end: l.end as int })
            && r->Err_0.name@ == "QueryParseError"@,
{
    Err(QueryParseError::new(message.as_str(), l.start, l.end))
}

fn parse_clause(parser: &mut QueryParser) -> (r: StepReturn)
    requires
        old(parser).pwf(),
    ensures
        final(parser).pwf(),
        final(parser).lx() == old(parser).lx(),
        step_agrees(r, final(parser).pmodel(), sp_parse_clause(old(parser).lx(), old(parser).pmodel())),
{
    if parser.lexeme_idx >= parser.lexemes.len() {
        return Ok(None);
    }
    let lexeme = &parser.lexemes[parser.lexeme_idx];
    match lexeme.lexeme_type {
        TokenType::PRESENCE => Ok(Some(ParserStateId::ParsePresence)),
        TokenType::FIELD => Ok(Some(ParserStateId::ParseField)),
        TokenType::TERM => Ok(Some(ParserStateId::ParseTerm)),
        _ => {
            let mut msg = String::new();
            msg.append("expected either a field or a term, found ");
            msg.append(kind_str(lexeme.lexeme_type));
            if !lexeme.str.as_str().is_empty() {
                msg.append(" with value '");
                msg.append(lexeme.str.as_str());
                msg.append("'");
            }
            proof {
                let l = parser.lx()[parser.lexeme_idx as int];
                assert(l == lexeme.model());
                if l.text.len() >= 1 {
                    assert(msg@ =~= "expected either a field or a term, found "@ + kind_name(l.kind) + (" with value '"@
                        + l.text + "'"@));
                } else {
                    assert(msg@ =~= "expected either a field or a term, found "@ + kind_name(l.kind) + Seq::<char>::empty());
                }
            }
            error_at(&msg, lexeme)
        },
    }
}

fn parse_presence(parser: &mut QueryParser) -> (r: StepReturn)
    requires
        old(parser).pwf(),
    ensures
        final(parser).pwf(),
        final(parser).lx() == old(parser).lx(),
        step_agrees(r, final(parser).pmodel(), sp_parse_presence(old(parser).lx(), old(parser).pmodel())),
{
    let lexeme = match parser.consume_lexeme() {
        Some(l) => l,
        None => return Ok(None),
    };
    if is_single_char(&lexeme.str, '-') {
        parser.current_clause.presence = PRESENCE_PROHIBITED;
    } else if is_single_char(&lexeme.str, '+') {
        parser.current_clause.presence = PRESENCE_REQUIRED;
    } else {
        let mut msg = String::new();
        msg.append("unrecognised presence operator'");
        msg.append(lexeme.str.as_str());
        msg.append("'");
        proof {
            assert(msg@ =~= "unrecognised presence operator'"@ + lexeme.str@ + "'"@);
        }
        return error_at(&msg, &lexeme);
    }
    match parser.peek_kind() {
        None => {
            let msg = "expecting term or field, found nothing".to_owned();
            error_at(&msg, &lexeme)
        },
        Some(TokenType::FIELD) => Ok(Some(ParserStateId::ParseField)),
        Some(TokenType::TERM) => Ok(Some(ParserStateId::ParseTerm)),
        Some(k) => {
            let next = &parser.lexemes[parser.lexeme_idx];
            let mut msg = String::new();
            msg.append("expecting term or field, found '");
            msg.append(kind_str(k));
            msg.append("'");
            proof {
                assert(msg@ =~= "expecting term or field, found '"@ + kind_name(k) + "'"@);
            }
            error_at(&msg, next)
        },
    }
}

fn parse_field(parser: &mut QueryParser) -> (r: StepReturn)
    requires
        old(parser).pwf(),
    ensures
        final(parser).pwf(),
        final(parser).lx() == old(parser).lx(),
        step_agrees(r, final(parser).pmodel(), sp_parse_field(old(parser).lx(), old(parser).pmodel())),
{
    let lexeme = match parser.consume_lexeme() {
        Some(l) => l,
        None => return Ok(None),
    };
    if !contains_string(&parser.query.all_fields, &lexeme.str) {
        let possible = join_quoted_fields(&parser.query.all_fields);
        let mut msg = String::new();
        msg.append("unrecognised field '");
        msg.append(lexeme.str.as_str());
        msg.append("', possible fields: ");
        msg.append(possible.as_str());
        proof {
            assert(msg@ =~= "unrecognised field '"@ + lexeme.str@ + "', possible fields: "@ + possible@);
        }
        return error_at(&msg, &lexeme);
    }
    let mut fields: Vec<String> = Vec::new();
    fields.push(lexeme.str.clone());
    parser.current_clause.fields = fields;
    proof {
        assert(parser.current_clause.model().fields =~= seq![lexeme.str@]);
    }
    match parser.peek_kind() {
        None => {
            let msg = "expecting term, found nothing".to_owned();
            error_at(&msg, &lexeme)
        },
        Some(TokenType::TERM) => Ok(Some(ParserStateId::ParseTerm)),
        Some(k) => {
            let next = &parser.lexemes[parser.lexeme_idx];
            let mut msg = String::new();
            msg.append("expecting term, found '");
            msg.append(kind_str(k));
            msg.append("'");
            proof {
                assert(msg@ =~= "expecting term, found '"@ + kind_name(k) + "'"@);
            }
            error_at(&msg, next)
        },
    }
}

fn after_term(parser: &mut QueryParser) -> (r: StepReturn)
    requires
        old(parser).pwf(),
    ensures
        final(parser).pwf(),
        final(parser).lx() == old(parser).lx(),
        step_agrees(r, final(parser).pmodel(), sp_after_term(old(parser).lx(), old(parser).pmodel())),
{
    match parser.peek_kind() {
        None => {
            parser.next_clause();
            Ok(None)
        },
        Some(TokenType::TERM) => {
            parser.next_clause();
            Ok(Some(ParserStateId::ParseTerm))
        },
        Some(TokenType::FIELD) => {
            parser.next_clause();
            Ok(Some(ParserStateId::ParseField))
        },
        Some(TokenType::EDIT_DISTANCE) => Ok(Some(ParserStateId::ParseEditDistance)),
        Some(TokenType::BOOST) => Ok(Some(ParserStateId::ParseBoost)),
        Some(TokenType::PRESENCE) => {
            parser.next_clause();
            Ok(Some(ParserStateId::ParsePresence))
        },
        Some(k) => {
            let next = &parser.lexemes[parser.lexeme_idx];
            let mut msg = String::new();
            msg.append("Unexpected lexeme type '");
            msg.append(kind_str(k));
            msg.append("'");
            proof {
                assert(msg@ =~= "Unexpected lexeme type '"@ + kind_name(k) + "'"@);
            }
            error_at(&msg, next)
        },
    }
}

fn parse_term(parser: &mut QueryParser) -> (r: StepReturn)
    requires
        old(parser).pwf(),
    ensures
        final(parser).pwf(),
        final(parser).lx() == old(parser).lx(),
        step_agrees(r, final(parser).pmodel(), sp_parse_term(old(parser).lx(), old(parser).pmodel())),
{
    let lexeme = match parser.consume_lexeme() {
        Some(l) => l,
        None => return Ok(None),
    };
    parser.current_clause.term = to_lowercase(lexeme.str.as_str());
    if str_contains_char(lexeme.str.as_str(), '*') {
        parser.current_clause.use_pipeline = false;
    }
    after_term(parser)
}

fn parse_edit_distance(parser: &mut QueryParser) -> (r: StepReturn)
    requires
        old(parser).pwf(),
    ensures
        final(parser).pwf(),
        final(parser).lx() == old(parser).lx(),
        step_agrees(r, final(parser).pmodel(), sp_parse_edit_distance(old(parser).lx(), old(parser).pmodel())),
{
    let lexeme = match parser.consume_lexeme() {
        Some(l) => l,
        None => return Ok(None),
    };
    let t = chars_of(lexeme.str.as_str());
    proof {
        assert(t@.skip(1) =~= t@.drop_first());
    }
    let edit_distance = if t.len() > 1 && t[0] == '-' && digits_from(&t, 1) {
        if zeros_from(&t, 1) {
            0
        } else {
            let msg = "edit distance must be a non-negative integer".to_owned();
            return error_at(&msg, &lexeme);
        }
    } else {
        match parse_usize_str(&lexeme.str) {
            Some(v) => v,
            None => {
                let msg = "edit distance must be numeric".to_owned();
                return error_at(&msg, &lexeme);
            },
        }
    };
    parser.current_clause.edit_distance = Some(edit_distance);
    after_term(parser)
}

fn parse_boost(parser: &mut QueryParser) -> (r: StepReturn)
    requires
        old(parser).pwf(),
    ensures
        final(parser).pwf(),
        final(parser).lx() == old(parser).lx(),
        step_agrees(r, final(parser).pmodel(), sp_parse_boost(old(parser).lx(), old(parser).pmodel())),
{
    let lexeme = match parser.consume_lexeme() {
        Some(l) => l,
        None => return Ok(None),
    };
    let t = chars_of(lexeme.str.as_str());
    if t.len() > 1 && t[0] == '-' {
        let rest = string_from_range(&t, 1, t.len());
        proof {
            assert(t@.subrange(1, t@.len() as int) =~= t@.drop_first());
        }
        if parse_decimal_str(&rest).is_some() {
            let msg = "boost must be a positive number".to_owned();
            return error_at(&msg, &lexeme);
        }
    }
    let boost = match parse_decimal_str(&lexeme.str) {
        Some(b) => b,
        None => {
            let msg = "boost must be numeric".to_owned();
            return error_at(&msg, &lexeme);
        },
    };
    if boost.is_zero() {
        let msg = "boost must be a positive number".to_owned();
        return error_at(&msg, &lexeme);
    }
    parser.current_clause.boost = boost;
    after_term(parser)
}

// ---------------------------------------------------------------------------
// What parsing keeps.
// ---------------------------------------------------------------------------

/// A clause scoped to known fields, with a set presence and a positive boost.
pub open spec fn clause_well_scoped(c: ClauseModel, fields: Seq<Seq<char>>) -> bool {
    &&& forall|i: int| 0 <= i < c.fields.len() ==> fields.contains(#[trigger] c.fields[i])
    &&& 1 <= c.presence <= 3
    &&& !boost_is_zero(c.boost)
}

/// `q2` is `q` with clauses added, each of them well scoped.
pub open spec fn extends_with_scoped_clauses(q: QueryModel, q2: QueryModel) -> bool {
    &&& q2.all_fields == q.all_fields
    &&& q.clauses.len() <= q2.clauses.len()
    &&& q2.clauses.take(q.clauses.len() as int) == q.clauses
    &&& forall|i: int| q.clauses.len() <= i < q2.clauses.len() ==> clause_well_scoped(#[trigger] q2.clauses[i], q.all_fields)
}

spec fn parse_state_ok(p: ParseModel, q0: QueryModel) -> bool {
    &&& extends_with_scoped_clauses(q0, p.query)
    &&& (p.current.fields.len() == 0 || clause_well_scoped(p.current, q0.all_fields))
    &&& 1 <= p.current.presence <= 3
    &&& !boost_is_zero(p.current.boost)
}

proof fn lemma_next_clause_ok(p: ParseModel, q0: QueryModel)
    requires
        parse_state_ok(p, q0),
    ensures
        parse_state_ok(sp_next_clause(p), q0),
{
    let q2 = sp_next_clause(p).query;
    let c = normalize_clause(p.current, p.query.all_fields);
    assert(q2.clauses == p.query.clauses.push(c));
    assert(q2.clauses.take(q0.clauses.len() as int) =~= p.query.clauses.take(q0.clauses.len() as int));
    assert(clause_well_scoped(c, q0.all_fields)) by {
        if p.current.fields.len() == 0 {
            assert forall|i: int| 0 <= i < c.fields.len() implies q0.all_fields.contains(#[trigger] c.fields[i]) by {
                assert(q0.all_fields[i] == c.fields[i]);
            }
        }
    }
    assert forall|i: int| q0.clauses.len() <= i < q2.clauses.len() implies clause_well_scoped(#[trigger] q2.clauses[i], q0.all_fields) by {
        if i < p.query.clauses.len() {
            assert(q2.clauses[i] == p.query.clauses[i]);
        }
    }
    assert(boost_one().whole[0] == 1u8);
}

proof fn lemma_after_term_ok(lx: Seq<LexemeModel>, p: ParseModel, q0: QueryModel)
    requires
        parse_state_ok(p, q0),
    ensures
        sp_after_term(lx, p) matches Ok((p2, _)) ==> parse_state_ok(p2, q0),
{
    lemma_next_clause_ok(p, q0);
}

proof fn lemma_step_ok(lx: Seq<LexemeModel>, s: ParserStateId, p: ParseModel, q0: QueryModel)
    requires
        parse_state_ok(p, q0),
    ensures
        sp_parse_step(lx, s, p) matches Ok((p2, _)) ==> parse_state_ok(p2, q0),
{
    match s {
        ParserStateId::ParseClause => {},
        ParserStateId::ParsePresence => {},
        ParserStateId::ParseField => {
            if p.idx < lx.len() {
                let l = lx[p.idx];
                if p.query.all_fields.contains(l.text) {
                    let c = ClauseModel { fields: seq![l.text], ..p.current };
                    assert(clause_well_scoped(c, q0.all_fields)) by {
                        assert forall|i: int| 0 <= i < c.fields.len() implies q0.all_fields.contains(#[trigger] c.fields[i]) by {
                            assert(c.fields[i] == l.text);
                        }
                    }
                }
            }
        },
        ParserStateId::ParseTerm => {
            if p.idx < lx.len() {
                let l = lx[p.idx];
                let c1 = ClauseModel { term: lowercase(l.text), ..p.current };
                let c2 = if l.text.contains('*') { ClauseModel { use_pipeline: false, ..c1 } } else { c1 };
                lemma_after_term_ok(lx, ParseModel { current: c2, idx: p.idx + 1, ..p }, q0);
            }
        },
        ParserStateId::ParseEditDistance => {
            if p.idx < lx.len() {
                let l = lx[p.idx];
                let parsed = if signed_minus(l.text) && all_digits(l.text.drop_first()) {
                    if zero_digits(l.text.drop_first()) { Some(0usize) } else { None }
                } else {
                    parse_usize(l.text)
                };
                if let Some(d) = parsed {
                    lemma_after_term_ok(lx, ParseModel { current: ClauseModel { edit_distance: Some(d), ..p.current }, idx: p.idx + 1, ..p }, q0);
                }
            }
        },
        ParserStateId::ParseBoost => {
            if p.idx < lx.len() {
                let l = lx[p.idx];
                if let Some(b) = parse_decimal(l.text) {
                    if !boost_is_zero(b) {
                        lemma_after_term_ok(lx, ParseModel { current: ClauseModel { boost: b, ..p.current }, idx: p.idx + 1, ..p }, q0);
                    }
                }
            }
        },
    }
}

proof fn lemma_run_ok(lx: Seq<LexemeModel>, s: ParserStateId, p: ParseModel, q0: QueryModel)
    requires
        parse_state_ok(p, q0),
    ensures
        sp_parse_run(lx, s, p) matches Ok(q2) ==> extends_with_scoped_clauses(q0, q2),
    decreases parse_measure(lx, s, p),
{
    if 0 <= p.idx <= lx.len() {
        lemma_step_ok(lx, s, p, q0);
        lemma_parse_step(lx, s, p);
        if let Ok((p2, Some(n))) = sp_parse_step(lx, s, p) {
            lemma_run_ok(lx, n, p2, q0);
        }
    }
}

/// Parsing only adds clauses, and each clause it adds is scoped to fields of the
/// query, has its presence set and a positive boost.
pub proof fn law_parse_adds_well_scoped_clauses(lx: Seq<LexemeModel>, q: QueryModel)
    ensures
        parse_lexemes(lx, q) matches Ok(q2) ==> extends_with_scoped_clauses(q, q2),
{
    let p = ParseModel { query: q, current: default_clause(), idx: 0 };
    assert(q.clauses.take(q.clauses.len() as int) =~= q.clauses);
    assert(boost_one().whole[0] == 1u8);
    lemma_run_ok(lx, ParserStateId::ParseClause, p, q);
}


// ---------------------------------------------------------------------------
// Clauses parse independently of one another.
// ---------------------------------------------------------------------------

/// `p` with its lexeme index moved on by `d`.
pub open spec fn shifted(p: ParseModel, d: int) -> ParseModel {
    ParseModel { idx: p.idx + d, ..p }
}

pub open spec fn shifted_result(r: StepResult, d: int) -> StepResult {
    match r {
        Ok((p, n)) => Ok((shifted(p, d), n)),
        Err(e) => Err(e),
    }
}

/// The state that a lexeme starting a clause leads to.
pub open spec fn clause_state(k: TokenType) -> ParserStateId {
    if k == TokenType::TERM {
        ParserStateId::ParseTerm
    } else if k == TokenType::FIELD {
        ParserStateId::ParseField
    } else {
        ParserStateId::ParsePresence
    }
}

proof fn lemma_step_shift(lx1: Seq<LexemeModel>, lx2: Seq<LexemeModel>, s: ParserStateId, p: ParseModel)
    requires
        0 <= p.idx,
    ensures
        sp_parse_step(lx1 + lx2, s, shifted(p, lx1.len() as int)) == shifted_result(
            sp_parse_step(lx2, s, p),
            lx1.len() as int,
        ),
{
    let lx = lx1 + lx2;
    let d = lx1.len() as int;
    assert(lx.len() == d + lx2.len());
    if p.idx < lx2.len() {
        assert(lx[p.idx + d] == lx2[p.idx]);
    }
    if p.idx + 1 < lx2.len() {
        assert(lx[p.idx + 1 + d] == lx2[p.idx + 1]);
    }
    if p.idx + 2 < lx2.len() {
        assert(lx[p.idx + 2 + d] == lx2[p.idx + 2]);
    }
}

proof fn lemma_run_shift(lx1: Seq<LexemeModel>, lx2: Seq<LexemeModel>, s: ParserStateId, p: ParseModel)
    requires
        0 <= p.idx,
    ensures
        sp_parse_run(lx1 + lx2, s, shifted(p, lx1.len() as int)) == sp_parse_run(lx2, s, p),
    decreases parse_measure(lx2, s, p),
{
    let lx = lx1 + lx2;
    let d = lx1.len() as int;
    if 0 <= p.idx <= lx2.len() {
        lemma_step_shift(lx1, lx2, s, p);
        lemma_parse_step(lx2, s, p);
        match sp_parse_step(lx2, s, p) {
            Err(e) => {},
            Ok((p2, next)) => match next {
                None => {},
                Some(n) => {
                    lemma_run_shift(lx1, lx2, n, p2);
                },
            },
        }
    }
}

/// A step from an index inside `lx1` behaves on `lx1 + lx2` as on `lx1`,
/// until `lx1` ends a clause.
proof fn lemma_step_prefix(lx1: Seq<LexemeModel>, lx2: Seq<LexemeModel>, s: ParserStateId, p: ParseModel)
    requires
        0 <= p.idx < lx1.len(),
        lx2.len() > 0 ==> (lx2[0].kind == TokenType::TERM || lx2[0].kind == TokenType::FIELD || lx2[0].kind
            == TokenType::PRESENCE),
    ensures
        sp_parse_step(lx1, s, p) matches Ok((p2, Some(n))) ==> p2.idx < lx1.len() && sp_parse_step(lx1 + lx2, s, p)
            == sp_parse_step(lx1, s, p),
        sp_parse_step(lx1, s, p) matches Ok((p2, None)) ==> p2.idx == lx1.len() && p2.current == default_clause() && (
        lx2.len() == 0 ==> sp_parse_step(lx1 + lx2, s, p) == sp_parse_step(lx1, s, p)) && (lx2.len() > 0
            ==> sp_parse_step(lx1 + lx2, s, p) == Ok::<(ParseModel, Option<ParserStateId>), ErrorModel>(
            (p2, Some(clause_state(lx2[0].kind))),
        )),
{
    let lx = lx1 + lx2;
    let n1 = lx1.len() as int;
    assert(lx[p.idx] == lx1[p.idx]);
    if p.idx + 1 < n1 {
        assert(lx[p.idx + 1] == lx1[p.idx + 1]);
    }
    if p.idx + 2 < n1 {
        assert(lx[p.idx + 2] == lx1[p.idx + 2]);
    }
    if lx2.len() > 0 {
        assert(lx[n1] == lx2[0]);
    }
}

proof fn lemma_run_prefix(lx1: Seq<LexemeModel>, lx2: Seq<LexemeModel>, s: ParserStateId, p: ParseModel)
    requires
        0 <= p.idx < lx1.len(),
        lx2.len() > 0 ==> (lx2[0].kind == TokenType::TERM || lx2[0].kind == TokenType::FIELD || lx2[0].kind
            == TokenType::PRESENCE),
    ensures
        sp_parse_run(lx1, s, p) matches Ok(q1) ==> sp_parse_run(lx1 + lx2, s, p) == parse_lexemes(lx2, q1),
    decreases parse_measure(lx1, s, p),
{
    let lx = lx1 + lx2;
    let n1 = lx1.len() as int;
    lemma_step_prefix(lx1, lx2, s, p);
    lemma_parse_step(lx1, s, p);
    match sp_parse_step(lx1, s, p) {
        Err(e) => {},
        Ok((p2, next)) => match next {
            Some(n) => {
                lemma_run_prefix(lx1, lx2, n, p2);
            },
            None => {
                let q1 = p2.query;
                let p0 = ParseModel { query: q1, current: default_clause(), idx: 0 };
                if lx2.len() > 0 {
                    let st = clause_state(lx2[0].kind);
                    assert(p2 == shifted(p0, n1));
                    lemma_run_shift(lx1, lx2, st, p0);
                    assert(sp_parse_step(lx2, ParserStateId::ParseClause, p0) == Ok::<(ParseModel, Option<ParserStateId>), ErrorModel>((p0, Some(st))));
                    lemma_parse_step(lx2, ParserStateId::ParseClause, p0);
                }
            },
        },
    }
}

/// Parsing lexemes that parse on their own, followed by lexemes that start a
/// clause (with a term, a field or a presence), is parsing the second part
/// into the query the first part gave: each clause starts afresh, taking
/// nothing from the one before (not its fields, presence, boost or edit
/// distance), so a clause that names no field searches all of the query's
/// fields whatever field an earlier clause named.
pub proof fn law_clauses_parse_independently(lx1: Seq<LexemeModel>, lx2: Seq<LexemeModel>, q: QueryModel)
    requires
        lx2.len() > 0 ==> (lx2[0].kind == TokenType::TERM || lx2[0].kind == TokenType::FIELD || lx2[0].kind
            == TokenType::PRESENCE),
    ensures
        parse_lexemes(lx1, q) matches Ok(q1) ==> parse_lexemes(lx1 + lx2, q) == parse_lexemes(lx2, q1),
{
    let p = ParseModel { query: q, current: default_clause(), idx: 0 };
    if lx1.len() == 0 {
        assert(lx1 + lx2 =~= lx2);
        assert(sp_parse_step(lx1, ParserStateId::ParseClause, p) == Ok::<(ParseModel, Option<ParserStateId>), ErrorModel>((p, None)));
    } else {
        lemma_run_prefix(lx1, lx2, ParserStateId::ParseClause, p);
    }
}


/// The clause of term `t` searched in `fields` with presence `presence`, as
/// the parser adds it: boost 1, no edit distance, no wildcard, the term lower
/// cased, and the pipeline used unless the term holds a `*`.
pub open spec fn plain_clause(t: Seq<char>, fields: Seq<Seq<char>>, presence: u8) -> ClauseModel {
    ClauseModel {
        fields,
        boost: BoostModel { whole: seq![1u8], fraction: Seq::empty() },
        edit_distance: None,
        use_pipeline: !t.contains('*'),
        wildcard: crate::query::WILDCARD_NONE,
        presence,
        term: lowercase(t),
    }
}

/// A lone term adds one clause over all of the query's fields; a field
/// before it limits the clause to that field; a `-` or `+` before it makes
/// the clause prohibited or required.
pub proof fn law_single_clause(l1: LexemeModel, l2: LexemeModel, q: QueryModel)
    ensures
        l1.kind == TokenType::TERM ==> parse_lexemes(seq![l1], q) == Ok::<QueryModel, ErrorModel>(
            QueryModel { clauses: q.clauses.push(plain_clause(l1.text, q.all_fields, crate::query::PRESENCE_OPTIONAL)), ..q },
        ),
        l1.kind == TokenType::FIELD && q.all_fields.contains(l1.text) && l2.kind == TokenType::TERM ==> parse_lexemes(
            seq![l1, l2],
            q,
        ) == Ok::<QueryModel, ErrorModel>(
            QueryModel { clauses: q.clauses.push(plain_clause(l2.text, seq![l1.text], crate::query::PRESENCE_OPTIONAL)), ..q },
        ),
        l1.kind == TokenType::PRESENCE && l1.text == seq!['-'] && l2.kind == TokenType::TERM ==> parse_lexemes(
            seq![l1, l2],
            q,
        ) == Ok::<QueryModel, ErrorModel>(
            QueryModel { clauses: q.clauses.push(plain_clause(l2.text, q.all_fields, PRESENCE_PROHIBITED)), ..q },
        ),
        l1.kind == TokenType::PRESENCE && l1.text == seq!['+'] && l2.kind == TokenType::TERM ==> parse_lexemes(
            seq![l1, l2],
            q,
        ) == Ok::<QueryModel, ErrorModel>(
            QueryModel { clauses: q.clauses.push(plain_clause(l2.text, q.all_fields, PRESENCE_REQUIRED)), ..q },
        ),
{
    reveal_with_fuel(sp_parse_run, 4);
    assert(0u8 & 1u8 == 0u8) by (bit_vector);
    assert(0u8 & 2u8 == 0u8) by (bit_vector);
    assert(boost_one().whole[0] == 1u8);
    assert(!boost_is_zero(boost_one()));
    if l1.kind == TokenType::TERM {
        let lx = seq![l1];
        assert(lx[0] == l1);
        let c = plain_clause(l1.text, q.all_fields, crate::query::PRESENCE_OPTIONAL);
        assert(normalize_clause(
            ClauseModel {
                term: lowercase(l1.text),
                use_pipeline: !l1.text.contains('*'),
                ..default_clause()
            },
            q.all_fields,
        ) == c);
    }
    if l2.kind == TokenType::TERM {
        let lx = seq![l1, l2];
        assert(lx[0] == l1 && lx[1] == l2);
        if l1.kind == TokenType::FIELD && q.all_fields.contains(l1.text) {
            let c = plain_clause(l2.text, seq![l1.text], crate::query::PRESENCE_OPTIONAL);
            assert(normalize_clause(
                ClauseModel {
                    term: lowercase(l2.text),
                    use_pipeline: !l2.text.contains('*'),
                    fields: seq![l1.text],
                    ..default_clause()
                },
                q.all_fields,
            ) == c);
        }
        if l1.kind == TokenType::PRESENCE && (l1.text == seq!['-'] || l1.text == seq!['+']) {
            let pr = if l1.text == seq!['-'] { PRESENCE_PROHIBITED } else { PRESENCE_REQUIRED };
            let c = plain_clause(l2.text, q.all_fields, pr);
            assert(normalize_clause(
                ClauseModel {
                    term: lowercase(l2.text),
                    use_pipeline: !l2.text.contains('*'),
                    presence: pr,
                    ..default_clause()
                },
                q.all_fields,
            ) == c);
        }
    }
}

} // verus!
