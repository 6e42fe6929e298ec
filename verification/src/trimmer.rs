use vstd::prelude::*;
use crate::pipeline::{PipelineResult, PipelineResultModel};
use crate::token::{Token, TokenModel};
use crate::text::{chars_of, string_from_range};

verus! {

/// A word character: an ASCII letter or digit, `_`, or a letter of the Unicode
/// ranges that the trimmer keeps.
pub open spec fn spec_is_word_char(c: char) -> bool {
    let u = c as u32;
    ||| ('a' <= c <= 'z') || ('A' <= c <= 'Z') || ('0' <= c <= '9') || c == '_'
    ||| u == 0xAA || u == 0xBA
    ||| 0xC0 <= u <= 0xD6
    ||| 0xD8 <= u <= 0xF6
    ||| 0xF8 <= u <= 0x2FF
    ||| 0x370 <= u <= 0x37D
    ||| 0x37F <= u <= 0x1FFF
    ||| 0x200C <= u <= 0x200D
    ||| 0x2070 <= u <= 0x218F
    ||| 0x2C00 <= u <= 0x2FEF
    ||| 0x3001 <= u <= 0xD7FF
    ||| 0xF900 <= u <= 0xFDCF
    ||| 0xFDF0 <= u <= 0xFFFD
}

fn is_word_char(c: char) -> (r: bool)
    ensures
        r == spec_is_word_char(c),
{
    let u = c as u32;
    (('a' <= c && c <= 'z') || ('A' <= c && c <= 'Z') || ('0' <= c && c <= '9') || c == '_') || (u == 0xAA || u == 0xBA) || (0xC0 <= u && u <= 0xD6) || (0xD8 <= u && u <= 0xF6) || (0xF8 <= u && u <= 0x2FF) || (0x370
        <= u && u <= 0x37D) || (0x37F <= u && u <= 0x1FFF) || (0x200C <= u && u <= 0x200D) || (0x2070 <= u && u
        <= 0x218F) || (0x2C00 <= u && u <= 0x2FEF) || (0x3001 <= u && u <= 0xD7FF) || (0xF900 <= u && u <= 0xFDCF)
        || (0xFDF0 <= u && u <= 0xFFFD)
}

/// `s` without its leading non-word characters.
pub open spec fn trim_left(s: Seq<char>) -> Seq<char>
    decreases s.len(),
{
    if s.len() > 0 && !spec_is_word_char(s[0]) {
        trim_left(s.drop_first())
    } else {
        s
    }
}

/// `s` without its trailing non-word characters.
pub open spec fn trim_right(s: Seq<char>) -> Seq<char>
    decreases s.len(),
{
    if s.len() > 0 && !spec_is_word_char(s.last()) {
        trim_right(s.drop_last())
    } else {
        s
    }
}

/// `s` without non-word characters at either end.
pub open spec fn trimmed(s: Seq<char>) -> Seq<char> {
    trim_right(trim_left(s))
}

/// What the trimmer makes of a token: the trimmed term with the same
/// metadata, or nothing where no word character is left.
pub open spec fn trim_result(t: TokenModel) -> PipelineResultModel {
    if trimmed(t.term).len() == 0 {
        PipelineResultModel::Nothing
    } else {
        PipelineResultModel::Token(TokenModel { term: trimmed(t.term), ..t })
    }
}

proof fn lemma_trim_left_skip(s: Seq<char>, i: int)
    requires
        0 <= i <= s.len(),
        forall|j: int| 0 <= j < i ==> !spec_is_word_char(s[j]),
    ensures
        trim_left(s) == trim_left(s.skip(i)),
    decreases i,
{
    if i > 0 {
        assert(s.skip(i - 1).drop_first() =~= s.skip(i));
        lemma_trim_left_skip(s, i - 1);
        assert(s.skip(i - 1)[0] == s[i - 1]);
    } else {
        assert(s.skip(0) =~= s);
    }
}

proof fn lemma_trim_right_take(s: Seq<char>, e: int)
    requires
        0 <= e <= s.len(),
        forall|j: int| e <= j < s.len() ==> !spec_is_word_char(s[j]),
    ensures
        trim_right(s) == trim_right(s.take(e)),
    decreases s.len() - e,
{
    if e < s.len() {
        assert(s.drop_last().take(e) =~= s.take(e));
        lemma_trim_right_take(s.drop_last(), e);
    } else {
        assert(s.take(e) =~= s);
    }
}

/// Removes non-word characters from both ends of the token's term.
pub fn trimmer(token: Token) -> (r: PipelineResult)
    ensures
        r.model() == trim_result(token.model()),
{
    let chars = chars_of(token.term.as_str());
    let n = chars.len();
    let ghost s = chars@;
    let mut start: usize = 0;
    while start < n && !is_word_char(chars[start])
        invariant
            s == chars@,
            n == s.len(),
            0 <= start <= n,
            forall|j: int| 0 <= j < start ==> !spec_is_word_char(s[j]),
        decreases n - start,
    {
        start = start + 1;
    }
    proof {
        lemma_trim_left_skip(s, start as int);
    }
    if start == n {
        proof {
            assert(s.skip(n as int) =~= Seq::<char>::empty());
        }
        return PipelineResult::Nothing;
    }
    let mut end: usize = n;
    while end > start && !is_word_char(chars[end - 1])
        invariant
            s == chars@,
            n == s.len(),
            start < n,
            spec_is_word_char(s[start as int]),
            start <= end <= n,
            forall|j: int| end <= j < n ==> !spec_is_word_char(s[j]),
        decreases end,
    {
        end = end - 1;
    }
    let ghost l = s.skip(start as int);
    proof {
        // trim_left stops at the first word character.
        assert(trim_left(l) == l);
        assert(end > start);
        lemma_trim_right_take(l, end - start);
        assert(l.take(end - start) =~= s.subrange(start as int, end as int));
        assert(s.subrange(start as int, end as int).last() == s[end - 1]);
        assert(trim_right(s.subrange(start as int, end as int)) == s.subrange(start as int, end as int));
    }
    let trimmed_term = string_from_range(&chars, start, end);
    PipelineResult::Token(Token { term: trimmed_term, metadata: token.metadata })
}


proof fn lemma_trim_left_empty(s: Seq<char>)
    ensures
        trim_left(s).len() == 0 <==> forall|i: int| 0 <= i < s.len() ==> !spec_is_word_char(#[trigger] s[i]),
        trim_left(s).len() > 0 ==> spec_is_word_char(trim_left(s)[0]),
    decreases s.len(),
{
    if s.len() > 0 && !spec_is_word_char(s[0]) {
        lemma_trim_left_empty(s.drop_first());
        assert forall|i: int| 0 < i < s.len() implies s[i] == #[trigger] s.drop_first()[i - 1] by {}
        if trim_left(s).len() == 0 {
            assert forall|i: int| 0 <= i < s.len() implies !spec_is_word_char(#[trigger] s[i]) by {
                if i > 0 {
                    assert(s[i] == s.drop_first()[i - 1]);
                }
            }
        }
    }
}

proof fn lemma_trim_right_keeps(s: Seq<char>)
    requires
        s.len() > 0,
        spec_is_word_char(s[0]),
    ensures
        trim_right(s).len() > 0,
    decreases s.len(),
{
    if !spec_is_word_char(s.last()) {
        assert(s.len() > 1);
        assert(s.drop_last()[0] == s[0]);
        lemma_trim_right_keeps(s.drop_last());
    }
}

/// What the trimmer does, in terms of the word characters: ASCII letters and
/// digits, `_`, U+00AA, U+00BA, and the ranges U+00C0..U+00D6, U+00D8..U+00F6,
/// U+00F8..U+02FF, U+0370..U+037D, U+037F..U+1FFF (Greek, Cyrillic, Armenian,
/// Hebrew, Arabic and more), U+200C..U+200D, U+2070..U+218F, U+2C00..U+2FEF,
/// U+3001..U+D7FF, U+F900..U+FDCF and U+FDF0..U+FFFD. A token without word
/// characters gives nothing; otherwise its term is cut down to the part from
/// its first word character to its last, the rest of the token kept.
pub proof fn law_trimmer_keeps_word_characters(t: TokenModel, i: int, j: int)
    ensures
        ({
            let word = |c: char|
                {
                    let u = c as u32;
                    ||| ('a' <= c <= 'z') || ('A' <= c <= 'Z') || ('0' <= c <= '9') || c == '_'
                    ||| u == 0xAA || u == 0xBA
                    ||| 0xC0 <= u <= 0xD6
                    ||| 0xD8 <= u <= 0xF6
                    ||| 0xF8 <= u <= 0x2FF
                    ||| 0x370 <= u <= 0x37D
                    ||| 0x37F <= u <= 0x1FFF
                    ||| 0x200C <= u <= 0x200D
                    ||| 0x2070 <= u <= 0x218F
                    ||| 0x2C00 <= u <= 0x2FEF
                    ||| 0x3001 <= u <= 0xD7FF
                    ||| 0xF900 <= u <= 0xFDCF
                    ||| 0xFDF0 <= u <= 0xFFFD
                };
            let s = t.term;
            &&& (trim_result(t) is Nothing <==> forall|k: int| 0 <= k < s.len() ==> !word(#[trigger] s[k]))
            &&& (0 <= i <= j < s.len() && word(s[i]) && word(s[j]) && (forall|k: int|
                0 <= k < i ==> !word(#[trigger] s[k])) && (forall|k: int| j < k < s.len() ==> !word(#[trigger] s[k])))
                ==> trim_result(t) == PipelineResultModel::Token(TokenModel { term: s.subrange(i, j + 1), ..t })
        }),
{
    let s = t.term;
    lemma_trim_left_empty(s);
    let l = trim_left(s);
    if l.len() > 0 {
        lemma_trim_right_keeps(l);
    } else {
        assert(trim_right(l) =~= l);
    }
    if 0 <= i <= j < s.len() && spec_is_word_char(s[i]) && spec_is_word_char(s[j]) && (forall|k: int|
        0 <= k < i ==> !spec_is_word_char(#[trigger] s[k])) && (forall|k: int|
        j < k < s.len() ==> !spec_is_word_char(#[trigger] s[k])) {
        lemma_trim_left_skip(s, i);
        let r = s.skip(i);
        assert(r[0] == s[i]);
        assert(trim_left(r) == r);
        assert forall|k: int| j + 1 - i <= k < r.len() implies !spec_is_word_char(r[k]) by {
            assert(r[k] == s[k + i]);
        }
        lemma_trim_right_take(r, j + 1 - i);
        let r2 = r.take(j + 1 - i);
        assert(r2 =~= s.subrange(i, j + 1));
        assert(r2.last() == s[j]);
        assert(trim_right(r2) == r2);
    }
}

} // verus!
