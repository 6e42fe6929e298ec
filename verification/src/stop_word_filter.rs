use vstd::prelude::*;
use crate::pipeline::{PipelineResult, PipelineResultModel};
use crate::token::{Token, TokenModel};
use crate::text::{str_eq, strings_view};

verus! {

/// The English stop words.
pub open spec fn stop_words() -> Seq<Seq<char>> {
    seq![
        "a"@,
        "able"@,
        "about"@,
        "across"@,
        "after"@,
        "all"@,
        "almost"@,
        "also"@,
        "am"@,
        "among"@,
        "an"@,
        "and"@,
        "any"@,
        "are"@,
        "as"@,
        "at"@,
        "be"@,
        "because"@,
        "been"@,
        "but"@,
        "by"@,
        "can"@,
        "cannot"@,
        "could"@,
        "dear"@,
        "did"@,
        "do"@,
        "does"@,
        "either"@,
        "else"@,
        "ever"@,
        "every"@,
        "for"@,
        "from"@,
        "get"@,
        "got"@,
        "had"@,
        "has"@,
        "have"@,
        "he"@,
        "her"@,
        "hers"@,
        "him"@,
        "his"@,
        "how"@,
        "however"@,
        "i"@,
        "if"@,
        "in"@,
        "into"@,
        "is"@,
        "it"@,
        "its"@,
        "just"@,
        "least"@,
        "let"@,
        "like"@,
        "likely"@,
        "may"@,
        "me"@,
        "might"@,
        "most"@,
        "must"@,
        "my"@,
        "neither"@,
        "no"@,
        "nor"@,
        "not"@,
        "of"@,
        "off"@,
        "often"@,
        "on"@,
        "only"@,
        "or"@,
        "other"@,
        "our"@,
        "own"@,
        "rather"@,
        "said"@,
        "say"@,
        "says"@,
        "she"@,
        "should"@,
        "since"@,
        "so"@,
        "some"@,
        "than"@,
        "that"@,
        "the"@,
        "their"@,
        "them"@,
        "then"@,
        "there"@,
        "these"@,
        "they"@,
        "this"@,
        "tis"@,
        "to"@,
        "too"@,
        "twas"@,
        "us"@,
        "wants"@,
        "was"@,
        "we"@,
        "were"@,
        "what"@,
        "when"@,
        "where"@,
        "which"@,
        "while"@,
        "who"@,
        "whom"@,
        "why"@,
        "will"@,
        "with"@,
        "would"@,
        "yet"@,
        "you"@,
        "your"@
    ]
}

pub open spec fn strs_view(v: Seq<&str>) -> Seq<Seq<char>> {
    v.map_values(|s: &str| s@)
}

fn stop_word_list() -> (v: Vec<&'static str>)
    ensures
        strs_view(v@) == stop_words(),
{
    let v = vec!["a", "able", "about", "across", "after", "all", "almost", "also", "am", "among", "an", "and", "any", "are", "as", "at", "be", "because", "been", "but", "by", "can", "cannot", "could", "dear", "did", "do", "does", "either", "else", "ever", "every", "for", "from", "get", "got", "had", "has", "have", "he", "her", "hers", "him", "his", "how", "however", "i", "if", "in", "into", "is", "it", "its", "just", "least", "let", "like", "likely", "may", "me", "might", "most", "must", "my", "neither", "no", "nor", "not", "of", "off", "often", "on", "only", "or", "other", "our", "own", "rather", "said", "say", "says", "she", "should", "since", "so", "some", "than", "that", "the", "their", "them", "then", "there", "these", "they", "this", "tis", "to", "too", "twas", "us", "wants", "was", "we", "were", "what", "when", "where", "which", "while", "who", "whom", "why", "will", "with", "would", "yet", "you", "your"];
    proof {
        assert(strs_view(v@) =~= stop_words());
    }
    v
}

/// What filtering a token against a word list gives: nothing for a listed word,
/// else the token itself.
pub open spec fn filter_result(words: Seq<Seq<char>>, t: TokenModel) -> PipelineResultModel {
    if words.contains(t.term) {
        PipelineResultModel::Nothing
    } else {
        PipelineResultModel::Token(t)
    }
}

fn contains_str(v: &Vec<&str>, s: &str) -> (r: bool)
    ensures
        r == strs_view(v@).contains(s@),
{
    let mut i: usize = 0;
    while i < v.len()
        invariant
            0 <= i <= v@.len(),
            forall|j: int| 0 <= j < i ==> strs_view(v@)[j] != s@,
        decreases v.len() - i,
    {
        if str_eq(v[i], s) {
            assert(strs_view(v@)[i as int] == s@);
            return true;
        }
        i = i + 1;
    }
    assert(!strs_view(v@).contains(s@)) by {
        if strs_view(v@).contains(s@) {
            let j = choose|j: int| 0 <= j < strs_view(v@).len() && strs_view(v@)[j] == s@;
            assert(strs_view(v@)[j] != s@);
        }
    }
    false
}

/// Drops the token if its term is an English stop word.
pub fn stop_word_filter(token: Token) -> (r: PipelineResult)
    ensures
        r.model() == filter_result(stop_words(), token.model()),
{
    let words = stop_word_list();
    if contains_str(&words, token.term.as_str()) {
        PipelineResult::Nothing
    } else {
        PipelineResult::Token(token)
    }
}

/// A filter that drops the tokens whose terms are in its word list.
pub struct StopWordFilter {
    words: Vec<String>,
}

impl StopWordFilter {
    pub closed spec fn words(&self) -> Seq<Seq<char>> {
        strings_view(self.words@)
    }

    /// Drops the token if its term is in the word list.
    pub fn filter(&self, token: Token) -> (r: PipelineResult)
        ensures
            r.model() == filter_result(self.words(), token.model()),
    {
        let mut i: usize = 0;
        while i < self.words.len()
            invariant
                0 <= i <= self.words@.len(),
                forall|j: int| 0 <= j < i ==> self.words()[j] != token.term@,
            decreases self.words.len() - i,
        {
            if str_eq(self.words[i].as_str(), token.term.as_str()) {
                assert(self.words()[i as int] == token.term@);
                return PipelineResult::Nothing;
            }
            i = i + 1;
        }
        assert(!self.words().contains(token.term@)) by {
            if self.words().contains(token.term@) {
                let j = choose|j: int| 0 <= j < self.words().len() && self.words()[j] == token.term@;
                assert(self.words()[j] != token.term@);
            }
        }
        PipelineResult::Token(token)
    }
}

/// A filter for the given stop words.
pub fn generate_stop_word_filter(stop_words: &[&str]) -> (r: StopWordFilter)
    ensures
        r.words() == strs_view(stop_words@),
{
    let mut words: Vec<String> = Vec::new();
    let mut i: usize = 0;
    while i < stop_words.len()
        invariant
            0 <= i <= stop_words@.len(),
            strings_view(words@) == strs_view(stop_words@).take(i as int),
        decreases stop_words.len() - i,
    {
        let w = stop_words[i].to_owned();
        let ghost before = words@;
        words.push(w);
        proof {
            assert(strings_view(before).len() == before.len());
            assert forall|j: int| 0 <= j < i + 1 implies strings_view(words@)[j] == strs_view(stop_words@)[j] by {
                if j < i {
                    assert(strings_view(before)[j] == strs_view(stop_words@).take(i as int)[j]);
                    assert(words@[j] == before[j]);
                } else {
                    assert(words@[j] == w);
                }
            }
            assert(strings_view(words@) =~= strs_view(stop_words@).take(i + 1));
        }
        i = i + 1;
    }
    proof {
        assert(strs_view(stop_words@).take(stop_words@.len() as int) =~= strs_view(stop_words@));
    }
    StopWordFilter { words }
}


/// The English stop-word filter drops exactly these words and lets every
/// other token through unchanged.
pub proof fn law_english_stop_words(t: TokenModel)
    ensures
        filter_result(stop_words(), t) is Nothing <==> (t.term == "a"@ || t.term == "able"@ || t.term == "about"@ || t.term == "across"@
            || t.term == "after"@ || t.term == "all"@ || t.term == "almost"@ || t.term == "also"@
            || t.term == "am"@ || t.term == "among"@ || t.term == "an"@ || t.term == "and"@ || t.term == "any"@
            || t.term == "are"@ || t.term == "as"@ || t.term == "at"@ || t.term == "be"@ || t.term == "because"@
            || t.term == "been"@ || t.term == "but"@ || t.term == "by"@ || t.term == "can"@ || t.term == "cannot"@
            || t.term == "could"@ || t.term == "dear"@ || t.term == "did"@ || t.term == "do"@ || t.term == "does"@
            || t.term == "either"@ || t.term == "else"@ || t.term == "ever"@ || t.term == "every"@
            || t.term == "for"@ || t.term == "from"@ || t.term == "get"@ || t.term == "got"@ || t.term == "had"@
            || t.term == "has"@ || t.term == "have"@ || t.term == "he"@ || t.term == "her"@ || t.term == "hers"@
            || t.term == "him"@ || t.term == "his"@ || t.term == "how"@ || t.term == "however"@ || t.term == "i"@
            || t.term == "if"@ || t.term == "in"@ || t.term == "into"@ || t.term == "is"@ || t.term == "it"@
            || t.term == "its"@ || t.term == "just"@ || t.term == "least"@ || t.term == "let"@ || t.term == "like"@
            || t.term == "likely"@ || t.term == "may"@ || t.term == "me"@ || t.term == "might"@
            || t.term == "most"@ || t.term == "must"@ || t.term == "my"@ || t.term == "neither"@ || t.term == "no"@
            || t.term == "nor"@ || t.term == "not"@ || t.term == "of"@ || t.term == "off"@ || t.term == "often"@
            || t.term == "on"@ || t.term == "only"@ || t.term == "or"@ || t.term == "other"@ || t.term == "our"@
            || t.term == "own"@ || t.term == "rather"@ || t.term == "said"@ || t.term == "say"@
            || t.term == "says"@ || t.term == "she"@ || t.term == "should"@ || t.term == "since"@
            || t.term == "so"@ || t.term == "some"@ || t.term == "than"@ || t.term == "that"@ || t.term == "the"@
            || t.term == "their"@ || t.term == "them"@ || t.term == "then"@ || t.term == "there"@
            || t.term == "these"@ || t.term == "they"@ || t.term == "this"@ || t.term == "tis"@ || t.term == "to"@
            || t.term == "too"@ || t.term == "twas"@ || t.term == "us"@ || t.term == "wants"@ || t.term == "was"@
            || t.term == "we"@ || t.term == "were"@ || t.term == "what"@ || t.term == "when"@ || t.term == "where"@
            || t.term == "which"@ || t.term == "while"@ || t.term == "who"@ || t.term == "whom"@
            || t.term == "why"@ || t.term == "will"@ || t.term == "with"@ || t.term == "would"@ || t.term == "yet"@
            || t.term == "you"@ || t.term == "your"@),
        filter_result(stop_words(), t) is Token ==> filter_result(stop_words(), t) == PipelineResultModel::Token(t),
{
    let ws = stop_words();
        assert(ws[0] == "a"@);
        assert(ws[1] == "able"@);
        assert(ws[2] == "about"@);
        assert(ws[3] == "across"@);
        assert(ws[4] == "after"@);
        assert(ws[5] == "all"@);
        assert(ws[6] == "almost"@);
        assert(ws[7] == "also"@);
        assert(ws[8] == "am"@);
        assert(ws[9] == "among"@);
        assert(ws[10] == "an"@);
        assert(ws[11] == "and"@);
        assert(ws[12] == "any"@);
        assert(ws[13] == "are"@);
        assert(ws[14] == "as"@);
        assert(ws[15] == "at"@);
        assert(ws[16] == "be"@);
        assert(ws[17] == "because"@);
        assert(ws[18] == "been"@);
        assert(ws[19] == "but"@);
        assert(ws[20] == "by"@);
        assert(ws[21] == "can"@);
        assert(ws[22] == "cannot"@);
        assert(ws[23] == "could"@);
        assert(ws[24] == "dear"@);
        assert(ws[25] == "did"@);
        assert(ws[26] == "do"@);
        assert(ws[27] == "does"@);
        assert(ws[28] == "either"@);
        assert(ws[29] == "else"@);
        assert(ws[30] == "ever"@);
        assert(ws[31] == "every"@);
        assert(ws[32] == "for"@);
        assert(ws[33] == "from"@);
        assert(ws[34] == "get"@);
        assert(ws[35] == "got"@);
        assert(ws[36] == "had"@);
        assert(ws[37] == "has"@);
        assert(ws[38] == "have"@);
        assert(ws[39] == "he"@);
        assert(ws[40] == "her"@);
        assert(ws[41] == "hers"@);
        assert(ws[42] == "him"@);
        assert(ws[43] == "his"@);
        assert(ws[44] == "how"@);
        assert(ws[45] == "however"@);
        assert(ws[46] == "i"@);
        assert(ws[47] == "if"@);
        assert(ws[48] == "in"@);
        assert(ws[49] == "into"@);
        assert(ws[50] == "is"@);
        assert(ws[51] == "it"@);
        assert(ws[52] == "its"@);
        assert(ws[53] == "just"@);
        assert(ws[54] == "least"@);
        assert(ws[55] == "let"@);
        assert(ws[56] == "like"@);
        assert(ws[57] == "likely"@);
        assert(ws[58] == "may"@);
        assert(ws[59] == "me"@);
        assert(ws[60] == "might"@);
        assert(ws[61] == "most"@);
        assert(ws[62] == "must"@);
        assert(ws[63] == "my"@);
        assert(ws[64] == "neither"@);
        assert(ws[65] == "no"@);
        assert(ws[66] == "nor"@);
        assert(ws[67] == "not"@);
        assert(ws[68] == "of"@);
        assert(ws[69] == "off"@);
        assert(ws[70] == "often"@);
        assert(ws[71] == "on"@);
        assert(ws[72] == "only"@);
        assert(ws[73] == "or"@);
        assert(ws[74] == "other"@);
        assert(ws[75] == "our"@);
        assert(ws[76] == "own"@);
        assert(ws[77] == "rather"@);
        assert(ws[78] == "said"@);
        assert(ws[79] == "say"@);
        assert(ws[80] == "says"@);
        assert(ws[81] == "she"@);
        assert(ws[82] == "should"@);
        assert(ws[83] == "since"@);
        assert(ws[84] == "so"@);
        assert(ws[85] == "some"@);
        assert(ws[86] == "than"@);
        assert(ws[87] == "that"@);
        assert(ws[88] == "the"@);
        assert(ws[89] == "their"@);
        assert(ws[90] == "them"@);
        assert(ws[91] == "then"@);
        assert(ws[92] == "there"@);
        assert(ws[93] == "these"@);
        assert(ws[94] == "they"@);
        assert(ws[95] == "this"@);
        assert(ws[96] == "tis"@);
        assert(ws[97] == "to"@);
        assert(ws[98] == "too"@);
        assert(ws[99] == "twas"@);
        assert(ws[100] == "us"@);
        assert(ws[101] == "wants"@);
        assert(ws[102] == "was"@);
        assert(ws[103] == "we"@);
        assert(ws[104] == "were"@);
        assert(ws[105] == "what"@);
        assert(ws[106] == "when"@);
        assert(ws[107] == "where"@);
        assert(ws[108] == "which"@);
        assert(ws[109] == "while"@);
        assert(ws[110] == "who"@);
        assert(ws[111] == "whom"@);
        assert(ws[112] == "why"@);
        assert(ws[113] == "will"@);
        assert(ws[114] == "with"@);
        assert(ws[115] == "would"@);
        assert(ws[116] == "yet"@);
        assert(ws[117] == "you"@);
        assert(ws[118] == "your"@);
    assert(ws.len() == 119);
}

} // verus!
