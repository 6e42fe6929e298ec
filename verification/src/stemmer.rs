use vstd::prelude::*;
use crate::pipeline::{PipelineResult, PipelineResultModel};
use crate::token::{Token, TokenModel};
use crate::text::{chars_of, push_char, utf8_len, char_width, char_utf8_width, lemma_utf8_len_push};

verus! {

/// The rule tables of the Porter stemmer.
pub struct PorterStemmer {
    step2list: Vec<(String, String)>,
    step3list: Vec<(String, String)>,
}

// ---------------------------------------------------------------------------
// The stemming rules, on character sequences. Lengths that the rules compare
// are byte lengths in UTF-8.
// ---------------------------------------------------------------------------

pub open spec fn is_vowel(c: char) -> bool {
    c == 'a' || c == 'e' || c == 'i' || c == 'o' || c == 'u' || c == 'y'
}

/// Whether `w` holds a vowel, `y` counting as one.
pub open spec fn has_vowel(w: Seq<char>) -> bool {
    exists|i: int| 0 <= i < w.len() && is_vowel(w[i])
}

pub open spec fn ends_with(w: Seq<char>, suffix: Seq<char>) -> bool {
    suffix.len() <= w.len() && w.skip(w.len() - suffix.len()) == suffix
}

/// `w` without its last `k` characters.
pub open spec fn cut(w: Seq<char>, k: int) -> Seq<char> {
    w.take(w.len() - k)
}

/// The first index at or after `i` that is not a consonant.
pub open spec fn skip_consonants(w: Seq<char>, i: int) -> int
    decreases w.len() - i,
{
    if 0 <= i < w.len() && !is_vowel(w[i]) {
        skip_consonants(w, i + 1)
    } else {
        i
    }
}

/// The first index at or after `i` that is not a vowel.
pub open spec fn skip_vowels(w: Seq<char>, i: int) -> int
    decreases w.len() - i,
{
    if 0 <= i < w.len() && is_vowel(w[i]) {
        skip_vowels(w, i + 1)
    } else {
        i
    }
}

/// The number of vowel-run/consonant-run pairs from index `i` on.
pub open spec fn measure_from(w: Seq<char>, i: int) -> nat
    decreases w.len() - i,
{
    let j = skip_vowels(w, i);
    if j >= w.len() {
        0
    } else {
        let k = skip_consonants(w, j);
        if k > i && k <= w.len() {
            1 + measure_from(w, k)
        } else {
            0
        }
    }
}

/// The Porter measure of `w`: the number of vowel-consonant sequences after
/// its leading consonants.
pub open spec fn measure(w: Seq<char>) -> nat {
    measure_from(w, skip_consonants(w, 0))
}

/// `w` ends consonant-vowel-consonant, the last one not `w`, `x` or `y`.
pub open spec fn ends_cvc(w: Seq<char>) -> bool {
    let n = w.len();
    n >= 3 && !is_vowel(w[n - 1]) && is_vowel(w[n - 2]) && !is_vowel(w[n - 3]) && w[n - 1] != 'w' && w[n - 1]
        != 'x' && w[n - 1] != 'y'
}

/// Step 1a: `sses` becomes `ss` and `ies` becomes `i` after at least one
/// character; otherwise a final `s` after at least one character other than
/// `s` is dropped.
pub open spec fn step1a(w: Seq<char>) -> Seq<char> {
    if ends_with(w, seq!['s', 's', 'e', 's']) && w.len() >= 5 {
        cut(w, 2)
    } else if ends_with(w, seq!['i', 'e', 's']) && w.len() >= 4 {
        cut(w, 2)
    } else if ends_with(w, seq!['s']) && w.len() >= 3 && w[w.len() - 2] != 's' {
        cut(w, 1)
    } else {
        w
    }
}

pub open spec fn is_aeiou(c: char) -> bool {
    c == 'a' || c == 'e' || c == 'i' || c == 'o' || c == 'u'
}

/// A doubled final consonant other than `l`, `s` or `z`.
pub open spec fn undoubles(stem: Seq<char>) -> bool {
    let n = stem.len();
    n >= 2 && stem[n - 1] == stem[n - 2] && !is_vowel(stem[n - 1]) && stem[n - 1] != 'l' && stem[n - 1]
        != 's' && stem[n - 1] != 'z'
}

/// The whole stem is consonants, one vowel, and a final consonant other than
/// `w`, `x` or `y`: a first character not in `aeiou`, then characters not in
/// `aeiouy`, then one in `aeiouy`, then one not in `aeiouwxy`.
pub open spec fn short_cvc(stem: Seq<char>) -> bool {
    let n = stem.len();
    &&& n >= 3
    &&& !is_aeiou(stem[0])
    &&& forall|i: int| 1 <= i < n - 2 ==> !is_vowel(#[trigger] stem[i])
    &&& is_vowel(stem[n - 2])
    &&& !is_vowel(stem[n - 1]) && stem[n - 1] != 'w' && stem[n - 1] != 'x'
}

/// The stem once `-ed` or `-ing` is taken off: `at`, `bl` and `iz` take an
/// `e`; a doubled consonant is undoubled; a short consonant-vowel-consonant
/// stem takes an `e`.
pub open spec fn step1b_stem(stem: Seq<char>) -> Seq<char> {
    if ends_with(stem, seq!['a', 't']) || ends_with(stem, seq!['b', 'l']) || ends_with(stem, seq!['i', 'z']) {
        stem.push('e')
    } else if undoubles(stem) {
        cut(stem, 1)
    } else if short_cvc(stem) {
        stem.push('e')
    } else {
        stem
    }
}

pub open spec fn step1b_suffix(w: Seq<char>) -> int {
    if ends_with(w, seq!['e', 'd']) { 2 } else { 3 }
}

/// Step 1b: `eed` after at least one character becomes `ee` where the stem
/// has a positive measure; otherwise `ed` or `ing` after at least one
/// character is taken off where the stem has a vowel, and the stem fixed up.
pub open spec fn step1b(w: Seq<char>) -> Seq<char> {
    if ends_with(w, seq!['e', 'e', 'd']) && w.len() >= 4 {
        if measure(cut(w, 3)) > 0 { cut(w, 1) } else { w }
    } else if (ends_with(w, seq!['e', 'd']) && w.len() >= 3) || (ends_with(w, seq!['i', 'n', 'g']) && w.len() >= 4) {
        let stem = cut(w, step1b_suffix(w));
        if has_vowel(stem) { step1b_stem(stem) } else { w }
    } else {
        w
    }
}

/// Step 1c: a final `y` after at least two characters, the one before it not
/// in `aeiou`, becomes `i`.
pub open spec fn step1c(w: Seq<char>) -> Seq<char> {
    if ends_with(w, seq!['y']) && w.len() >= 3 && !is_aeiou(w[w.len() - 2]) {
        cut(w, 1).push('i')
    } else {
        w
    }
}

/// The first rule from index `i` on whose suffix `w` ends with and whose stem
/// has a measure above `min`, applied; `w` itself where none applies.
pub open spec fn replace_suffix(w: Seq<char>, rules: Seq<(Seq<char>, Seq<char>)>, min: nat, i: int) -> Seq<char>
    decreases rules.len() - i,
{
    if i < 0 || i >= rules.len() {
        w
    } else {
        let (suffix, replacement) = rules[i];
        if ends_with(w, suffix) && measure(cut(w, suffix.len() as int)) > min {
            cut(w, suffix.len() as int) + replacement
        } else {
            replace_suffix(w, rules, min, i + 1)
        }
    }
}

pub open spec fn step2_rules() -> Seq<(Seq<char>, Seq<char>)> {
    seq![
        ("ational"@, "ate"@), ("tional"@, "tion"@), ("enci"@, "ence"@), ("anci"@, "ance"@),
        ("izer"@, "ize"@), ("bli"@, "ble"@), ("alli"@, "al"@), ("entli"@, "ent"@), ("eli"@, "e"@),
        ("ousli"@, "ous"@), ("ization"@, "ize"@), ("ation"@, "ate"@), ("ator"@, "ate"@), ("alism"@, "al"@),
        ("iveness"@, "ive"@), ("fulness"@, "ful"@), ("ousness"@, "ous"@), ("aliti"@, "al"@), ("iviti"@, "ive"@),
        ("biliti"@, "ble"@), ("logi"@, "log"@),
    ]
}

pub open spec fn step3_rules() -> Seq<(Seq<char>, Seq<char>)> {
    seq![
        ("icate"@, "ic"@), ("ative"@, ""@), ("alize"@, "al"@), ("iciti"@, "ic"@), ("ical"@, "ic"@), ("ful"@, ""@),
        ("ness"@, ""@),
    ]
}

/// Step 4's suffixes; each is removed, not replaced.
pub open spec fn step4_rules() -> Seq<(Seq<char>, Seq<char>)> {
    seq![
        ("al"@, ""@), ("ance"@, ""@), ("ence"@, ""@), ("er"@, ""@), ("ic"@, ""@), ("able"@, ""@), ("ible"@, ""@),
        ("ant"@, ""@), ("ement"@, ""@), ("ment"@, ""@), ("ent"@, ""@), ("ou"@, ""@), ("ism"@, ""@), ("ate"@, ""@),
        ("iti"@, ""@), ("ous"@, ""@), ("ive"@, ""@), ("ize"@, ""@),
    ]
}

pub open spec fn step4(w: Seq<char>) -> Seq<char> {
    let r = replace_suffix(w, step4_rules(), 1, 0);
    if r != w {
        r
    } else if (ends_with(w, seq!['s', 'i', 'o', 'n']) || ends_with(w, seq!['t', 'i', 'o', 'n'])) && utf8_len(w) > 4
        && measure(cut(w, 3)) > 1 {
        cut(w, 3)
    } else {
        w
    }
}

pub open spec fn step5(w: Seq<char>) -> Seq<char> {
    if ends_with(w, seq!['e']) && utf8_len(w) > 2 && (measure(cut(w, 1)) > 1 || (measure(cut(w, 1)) == 1
        && !ends_cvc(cut(w, 1)))) {
        cut(w, 1)
    } else if ends_with(w, seq!['l', 'l']) && measure(w) > 1 {
        cut(w, 1)
    } else {
        w
    }
}

/// `w` with an initial `y` written `Y`.
pub open spec fn mark_initial_y(w: Seq<char>) -> Seq<char> {
    if w.len() > 0 && w[0] == 'y' { w.update(0, 'Y') } else { w }
}

pub open spec fn all_steps(w: Seq<char>) -> Seq<char> {
    step5(step4(replace_suffix(replace_suffix(step1c(step1b(step1a(w))), step2_rules(), 0, 0), step3_rules(), 0, 0)))
}

/// The Porter stem of `w`; words under three bytes stay as they are.
pub open spec fn stem_word(w: Seq<char>) -> Seq<char> {
    if utf8_len(w) < 3 {
        w
    } else {
        let r = all_steps(mark_initial_y(w));
        if w[0] == 'y' && r.len() > 0 { r.update(0, 'y') } else { r }
    }
}

/// What the stemmer makes of a token: its stem, or nothing where the stem is empty.
pub open spec fn stem_result(t: TokenModel) -> PipelineResultModel {
    if stem_word(t.term).len() == 0 {
        PipelineResultModel::Nothing
    } else {
        PipelineResultModel::Token(TokenModel { term: stem_word(t.term), ..t })
    }
}

// ---------------------------------------------------------------------------
// The executable stemmer.
// ---------------------------------------------------------------------------

fn ends_with_chars(w: &Vec<char>, suffix: &Vec<char>) -> (r: bool)
    ensures
        r == ends_with(w@, suffix@),
{
    if suffix.len() > w.len() {
        return false;
    }
    let off = w.len() - suffix.len();
    let mut i: usize = 0;
    while i < suffix.len()
        invariant
            off + suffix@.len() == w@.len(),
            w@.len() == w.len(),
            0 <= i <= suffix@.len(),
            forall|j: int| 0 <= j < i ==> w@[off + j] == suffix@[j],
        decreases suffix.len() - i,
    {
        if w[off + i] != suffix[i] {
            assert(w@.skip(off as int)[i as int] != suffix@[i as int]);
            return false;
        }
        i = i + 1;
    }
    assert(w@.skip(off as int) =~= suffix@);
    true
}

fn ends_with_str(w: &Vec<char>, suffix: &str) -> (r: bool)
    ensures
        r == ends_with(w@, suffix@),
{
    let s = chars_of(suffix);
    ends_with_chars(w, &s)
}

fn ends_with_char(w: &Vec<char>, c: char) -> (r: bool)
    ensures
        r == ends_with(w@, seq![c]),
{
    let mut s: Vec<char> = Vec::new();
    s.push(c);
    proof {
        assert(s@ =~= seq![c]);
    }
    ends_with_chars(w, &s)
}

fn ends_with_2(w: &Vec<char>, a: char, b: char) -> (r: bool)
    ensures
        r == ends_with(w@, seq![a, b]),
{
    let mut s: Vec<char> = Vec::new();
    s.push(a);
    s.push(b);
    proof {
        assert(s@ =~= seq![a, b]);
    }
    ends_with_chars(w, &s)
}

fn ends_with_3(w: &Vec<char>, a: char, b: char, c: char) -> (r: bool)
    ensures
        r == ends_with(w@, seq![a, b, c]),
{
    let mut s: Vec<char> = Vec::new();
    s.push(a);
    s.push(b);
    s.push(c);
    proof {
        assert(s@ =~= seq![a, b, c]);
    }
    ends_with_chars(w, &s)
}

fn ends_with_4(w: &Vec<char>, a: char, b: char, c: char, d: char) -> (r: bool)
    ensures
        r == ends_with(w@, seq![a, b, c, d]),
{
    let mut s: Vec<char> = Vec::new();
    s.push(a);
    s.push(b);
    s.push(c);
    s.push(d);
    proof {
        assert(s@ =~= seq![a, b, c, d]);
    }
    ends_with_chars(w, &s)
}

/// The first `len - k` characters.
fn cut_chars(w: &Vec<char>, k: usize) -> (r: Vec<char>)
    requires
        k <= w@.len(),
    ensures
        r@ == cut(w@, k as int),
{
    let n = w.len() - k;
    let mut r: Vec<char> = Vec::new();
    let mut i: usize = 0;
    while i < n
        invariant
            n == w@.len() - k,
            0 <= i <= n,
            r@ == w@.take(i as int),
        decreases n - i,
    {
        r.push(w[i]);
        i = i + 1;
        proof {
            assert(r@ =~= w@.take(i as int));
        }
    }
    r
}

fn append_str(w: &mut Vec<char>, s: &str)
    ensures
        final(w)@ == old(w)@ + s@,
{
    let v = chars_of(s);
    let mut i: usize = 0;
    let ghost w0 = w@;
    while i < v.len()
        invariant
            0 <= i <= v@.len(),
            v@ == s@,
            w@ == w0 + v@.take(i as int),
        decreases v.len() - i,
    {
        w.push(v[i]);
        i = i + 1;
        proof {
            assert(w@ =~= w0 + v@.take(i as int));
        }
    }
    proof {
        assert(v@.take(v@.len() as int) =~= v@);
    }
}

fn to_string(w: &Vec<char>) -> (r: String)
    ensures
        r@ == w@,
{
    let r = crate::text::string_from_range(w, 0, w.len());
    proof {
        assert(w@.subrange(0, w@.len() as int) =~= w@);
    }
    r
}

/// The UTF-8 length of `w`, or 5 if it is longer.
fn utf8_len_capped(w: &Vec<char>) -> (r: usize)
    ensures
        r == (if utf8_len(w@) < 5 { utf8_len(w@) } else { 5 }),
{
    let mut total: usize = 0;
    let mut i: usize = 0;
    proof {
        assert(w@.take(0) =~= Seq::<char>::empty());
        assert(utf8_len(Seq::<char>::empty()) == 0);
    }
    while i < w.len()
        invariant
            0 <= i <= w@.len(),
            total == utf8_len(w@.take(i as int)),
            total < 5,
        decreases w.len() - i,
    {
        proof {
            assert(w@.take(i + 1) =~= w@.take(i as int).push(w@[i as int]));
            lemma_utf8_len_push(w@.take(i as int), w@[i as int]);
        }
        total = total + char_utf8_width(w[i]);
        i = i + 1;
        if total >= 5 {
            proof {
                crate::text::lemma_utf8_len_append(w@.take(i as int), w@.skip(i as int));
                assert(w@.take(i as int) + w@.skip(i as int) =~= w@);
            }
            return 5;
        }
    }
    proof {
        assert(w@.take(w@.len() as int) =~= w@);
    }
    total
}

fn vowel(c: char) -> (r: bool)
    ensures
        r == is_vowel(c),
{
    c == 'a' || c == 'e' || c == 'i' || c == 'o' || c == 'u' || c == 'y'
}

fn aeiou(c: char) -> (r: bool)
    ensures
        r == is_aeiou(c),
{
    c == 'a' || c == 'e' || c == 'i' || c == 'o' || c == 'u'
}

fn has_vowel_chars(w: &Vec<char>) -> (r: bool)
    ensures
        r == has_vowel(w@),
{
    let mut i: usize = 0;
    while i < w.len()
        invariant
            0 <= i <= w@.len(),
            forall|j: int| 0 <= j < i ==> !is_vowel(w@[j]),
        decreases w.len() - i,
    {
        if vowel(w[i]) {
            return true;
        }
        i = i + 1;
    }
    false
}

proof fn lemma_skip_consonants(w: Seq<char>, i: int, j: int)
    requires
        0 <= i <= j <= w.len(),
        forall|k: int| i <= k < j ==> !is_vowel(w[k]),
    ensures
        skip_consonants(w, i) == skip_consonants(w, j),
    decreases j - i,
{
    if i < j {
        lemma_skip_consonants(w, i + 1, j);
    }
}

proof fn lemma_skip_vowels(w: Seq<char>, i: int, j: int)
    requires
        0 <= i <= j <= w.len(),
        forall|k: int| i <= k < j ==> is_vowel(w[k]),
    ensures
        skip_vowels(w, i) == skip_vowels(w, j),
    decreases j - i,
{
    if i < j {
        lemma_skip_vowels(w, i + 1, j);
    }
}

/// `skip_*` from `i` to `j` moved over one kind of character only.
fn skip_run(w: &Vec<char>, i: usize, vowels: bool) -> (r: usize)
    requires
        i <= w@.len(),
    ensures
        i <= r <= w@.len(),
        r < w@.len() ==> is_vowel(w@[r as int]) != vowels,
        i < w@.len() && is_vowel(w@[i as int]) == vowels ==> r > i,
        vowels ==> r == skip_vowels(w@, i as int),
        !vowels ==> r == skip_consonants(w@, i as int),
{
    let mut j = i;
    while j < w.len() && vowel(w[j]) == vowels
        invariant
            i <= j <= w@.len(),
            forall|k: int| i <= k < j ==> is_vowel(w@[k]) == vowels,
        decreases w.len() - j,
    {
        j = j + 1;
    }
    proof {
        if vowels {
            lemma_skip_vowels(w@, i as int, j as int);
        } else {
            lemma_skip_consonants(w@, i as int, j as int);
        }
    }
    j
}

impl PorterStemmer {
    /// The Porter measure of `w`.
    fn m(&self, w: &Vec<char>) -> (r: usize)
        ensures
            r == measure(w@),
    {
        let n = w.len();
        let mut i = skip_run(w, 0, false);
        let mut m: usize = 0;
        let ghost start = i as int;
        while i < n
            invariant
                n == w@.len(),
                0 <= i <= n,
                m <= i,
                m + measure_from(w@, i as int) == measure_from(w@, start),
            ensures
                m == measure_from(w@, start),
            decreases n - i,
        {
            let j = skip_run(w, i, true);
            if j >= n {
                proof {
                    assert(measure_from(w@, i as int) == 0);
                }
                break;
            }
            let k = skip_run(w, j, false);
            proof {
                assert(!is_vowel(w@[j as int]));
                assert(k > j);
            }
            m = m + 1;
            i = k;
        }
        m
    }

    fn is_vowel(&self, c: char) -> (r: bool)
        ensures
            r == is_vowel(c),
    {
        vowel(c)
    }

    fn contains_vowel(&self, w: &Vec<char>) -> (r: bool)
        ensures
            r == has_vowel(w@),
    {
        has_vowel_chars(w)
    }

    fn ends_cvc(&self, w: &Vec<char>) -> (r: bool)
        ensures
            r == ends_cvc(w@),
    {
        let n = w.len();
        if n < 3 {
            return false;
        }
        let c = w[n - 1];
        let v = w[n - 2];
        let c2 = w[n - 3];
        !vowel(c) && vowel(v) && !vowel(c2) && !(c == 'w' || c == 'x' || c == 'y')
    }
}

pub open spec fn rules_view(v: Seq<(String, String)>) -> Seq<(Seq<char>, Seq<char>)> {
    v.map_values(|p: (String, String)| (p.0@, p.1@))
}

fn rule(suffix: &str, replacement: &str) -> (r: (String, String))
    ensures
        r.0@ == suffix@,
        r.1@ == replacement@,
{
    (suffix.to_owned(), replacement.to_owned())
}

fn push_chars(w: &Vec<char>, c: char) -> (r: Vec<char>)
    ensures
        r@ == w@.push(c),
{
    let mut r = cut_chars(w, 0);
    proof {
        assert(cut(w@, 0) =~= w@);
    }
    r.push(c);
    r
}

impl PorterStemmer {
    pub closed spec fn wf(&self) -> bool {
        &&& rules_view(self.step2list@) == step2_rules()
        &&& rules_view(self.step3list@) == step3_rules()
    }

    fn new() -> (r: Self)
        ensures
            r.wf(),
    {
        let step2list = vec![rule("ational", "ate"), rule("tional", "tion"), rule("enci", "ence"), rule("anci", "ance"), rule("izer", "ize"), rule("bli", "ble"), rule("alli", "al"), rule("entli", "ent"), rule("eli", "e"), rule("ousli", "ous"), rule("ization", "ize"), rule("ation", "ate"), rule("ator", "ate"), rule("alism", "al"), rule("iveness", "ive"), rule("fulness", "ful"), rule("ousness", "ous"), rule("aliti", "al"), rule("iviti", "ive"), rule("biliti", "ble"), rule("logi", "log")];
        let step3list = vec![rule("icate", "ic"), rule("ative", ""), rule("alize", "al"), rule("iciti", "ic"), rule("ical", "ic"), rule("ful", ""), rule("ness", "")];
        proof {
            assert(rules_view(step2list@) =~= step2_rules());
            assert(rules_view(step3list@) =~= step3_rules());
        }
        PorterStemmer { step2list, step3list }
    }

    /// The first rule whose suffix `w` ends with and whose stem has a measure
    /// above `min`, applied.
    fn apply_rules(&self, w: &Vec<char>, rules: &Vec<(String, String)>, min: usize) -> (r: Vec<char>)
        ensures
            r@ == replace_suffix(w@, rules_view(rules@), min as nat, 0),
    {
        let ghost rs = rules_view(rules@);
        let mut i: usize = 0;
        while i < rules.len()
            invariant
                0 <= i <= rules@.len(),
                rs == rules_view(rules@),
                replace_suffix(w@, rs, min as nat, 0) == replace_suffix(w@, rs, min as nat, i as int),
            decreases rules.len() - i,
        {
            let suffix = chars_of(rules[i].0.as_str());
            assert(rs[i as int] == (rules@[i as int].0@, rules@[i as int].1@));
            if ends_with_chars(w, &suffix) {
                let mut stem = cut_chars(w, suffix.len());
                if self.m(&stem) > min {
                    append_str(&mut stem, rules[i].1.as_str());
                    return stem;
                }
            }
            i = i + 1;
        }
        cut_chars_all(w)
    }

    fn step1a(&self, w: &str) -> (r: String)
        ensures
            r@ == step1a(w@),
    {
        let v = chars_of(w);
        let n = v.len();
        if ends_with_4(&v, 's', 's', 'e', 's') && n >= 5 {
            to_string(&cut_chars(&v, 2))
        } else if ends_with_3(&v, 'i', 'e', 's') && n >= 4 {
            to_string(&cut_chars(&v, 2))
        } else if ends_with_char(&v, 's') && n >= 3 && v[n - 2] != 's' {
            to_string(&cut_chars(&v, 1))
        } else {
            w.to_owned()
        }
    }

    fn short_cvc(&self, stem: &Vec<char>) -> (r: bool)
        ensures
            r == short_cvc(stem@),
    {
        let n = stem.len();
        if n < 3 {
            return false;
        }
        let f = stem[0];
        if f == 'a' || f == 'e' || f == 'i' || f == 'o' || f == 'u' {
            return false;
        }
        let mut i: usize = 1;
        while i < n - 2
            invariant
                n == stem@.len(),
                n >= 3,
                1 <= i <= n - 2,
                forall|j: int| 1 <= j < i ==> !is_vowel(#[trigger] stem@[j]),
            decreases n - 2 - i,
        {
            if vowel(stem[i]) {
                return false;
            }
            i = i + 1;
        }
        let last = stem[n - 1];
        vowel(stem[n - 2]) && !vowel(last) && last != 'w' && last != 'x'
    }

    fn step1b_stem(&self, stem: &Vec<char>) -> (r: Vec<char>)
        ensures
            r@ == step1b_stem(stem@),
    {
        if ends_with_2(stem, 'a', 't') || ends_with_2(stem, 'b', 'l') || ends_with_2(stem, 'i', 'z') {
            return push_chars(stem, 'e');
        }
        let n = stem.len();
        if n >= 2 && stem[n - 1] == stem[n - 2] && !vowel(stem[n - 1]) && stem[n - 1] != 'l' && stem[n - 1] != 's'
            && stem[n - 1] != 'z' {
            return cut_chars(stem, 1);
        }
        if self.short_cvc(stem) {
            return push_chars(stem, 'e');
        }
        cut_chars_all(stem)
    }

    fn step1b(&self, w: &str) -> (r: String)
        ensures
            r@ == step1b(w@),
    {
        let v = chars_of(w);
        let n = v.len();
        if ends_with_3(&v, 'e', 'e', 'd') && n >= 4 {
            if self.m(&cut_chars(&v, 3)) > 0 {
                to_string(&cut_chars(&v, 1))
            } else {
                w.to_owned()
            }
        } else if (ends_with_2(&v, 'e', 'd') && n >= 3) || (ends_with_3(&v, 'i', 'n', 'g') && n >= 4) {
            let suffix_len: usize = if ends_with_2(&v, 'e', 'd') { 2 } else { 3 };
            let stem = cut_chars(&v, suffix_len);
            if self.contains_vowel(&stem) {
                to_string(&self.step1b_stem(&stem))
            } else {
                w.to_owned()
            }
        } else {
            w.to_owned()
        }
    }

    fn step1c(&self, w: &str) -> (r: String)
        ensures
            r@ == step1c(w@),
    {
        let v = chars_of(w);
        if ends_with_char(&v, 'y') && v.len() >= 3 && !aeiou(v[v.len() - 2]) {
            let stem = cut_chars(&v, 1);
            to_string(&push_chars(&stem, 'i'))
        } else {
            w.to_owned()
        }
    }

    fn step2(&self, w: &str) -> (r: String)
        requires
            self.wf(),
        ensures
            r@ == replace_suffix(w@, step2_rules(), 0, 0),
    {
        let v = chars_of(w);
        to_string(&self.apply_rules(&v, &self.step2list, 0))
    }

    fn step3(&self, w: &str) -> (r: String)
        requires
            self.wf(),
        ensures
            r@ == replace_suffix(w@, step3_rules(), 0, 0),
    {
        let v = chars_of(w);
        to_string(&self.apply_rules(&v, &self.step3list, 0))
    }

    fn step4(&self, w: &str) -> (r: String)
        ensures
            r@ == step4(w@),
    {
        let v = chars_of(w);
        let suffixes = vec![rule("al", ""), rule("ance", ""), rule("ence", ""), rule("er", ""), rule("ic", ""), rule("able", ""), rule("ible", ""), rule("ant", ""), rule("ement", ""), rule("ment", ""), rule("ent", ""), rule("ou", ""), rule("ism", ""), rule("ate", ""), rule("iti", ""), rule("ous", ""), rule("ive", ""), rule("ize", "")];
        proof {
            assert(rules_view(suffixes@) =~= step4_rules());
        }
        let r = self.apply_rules(&v, &suffixes, 1);
        if !same_chars(&r, &v) {
            return to_string(&r);
        }
        if (ends_with_4(&v, 's', 'i', 'o', 'n') || ends_with_4(&v, 't', 'i', 'o', 'n')) && utf8_len_capped(&v) > 4 {
            let stem = cut_chars(&v, 3);
            if self.m(&stem) > 1 {
                return to_string(&stem);
            }
        }
        w.to_owned()
    }

    fn step5(&self, w: &str) -> (r: String)
        ensures
            r@ == step5(w@),
    {
        let v = chars_of(w);
        if ends_with_char(&v, 'e') && utf8_len_capped(&v) > 2 {
            let stem = cut_chars(&v, 1);
            let m = self.m(&stem);
            if m > 1 || (m == 1 && !self.ends_cvc(&stem)) {
                return to_string(&stem);
            }
        }
        if ends_with_2(&v, 'l', 'l') && self.m(&v) > 1 {
            return to_string(&cut_chars(&v, 1));
        }
        w.to_owned()
    }

    /// The Porter stem of `w`.
    fn stem(&self, w: &str) -> (r: String)
        requires
            self.wf(),
        ensures
            r@ == stem_word(w@),
    {
        let v = chars_of(w);
        if utf8_len_capped(&v) < 3 {
            return w.to_owned();
        }
        proof {
            if v@.len() == 0 {
                assert(utf8_len(v@) == 0);
            }
        }
        let firstch = v[0];
        let mut marked = cut_chars_all(&v);
        if firstch == 'y' {
            marked.set(0, 'Y');
        }
        proof {
            assert(marked@ =~= mark_initial_y(w@));
        }
        let w0 = to_string(&marked);
        let w1 = self.step1a(w0.as_str());
        let w2 = self.step1b(w1.as_str());
        let w3 = self.step1c(w2.as_str());
        let w4 = self.step2(w3.as_str());
        let w5 = self.step3(w4.as_str());
        let w6 = self.step4(w5.as_str());
        let w7 = self.step5(w6.as_str());
        let mut result = chars_of(w7.as_str());
        if firstch == 'y' && result.len() > 0 {
            result.set(0, 'y');
        }
        proof {
            assert(w7@ == all_steps(mark_initial_y(w@)));
        }
        to_string(&result)
    }
}

fn cut_chars_all(w: &Vec<char>) -> (r: Vec<char>)
    ensures
        r@ == w@,
{
    let r = cut_chars(w, 0);
    proof {
        assert(cut(w@, 0) =~= w@);
    }
    r
}

fn same_chars(a: &Vec<char>, b: &Vec<char>) -> (r: bool)
    ensures
        r == (a@ == b@),
{
    if a.len() != b.len() {
        return false;
    }
    let mut i: usize = 0;
    while i < a.len()
        invariant
            a@.len() == b@.len(),
            0 <= i <= a@.len(),
            forall|j: int| 0 <= j < i ==> a@[j] == b@[j],
        decreases a.len() - i,
    {
        if a[i] != b[i] {
            return false;
        }
        i = i + 1;
    }
    assert(a@ =~= b@);
    true
}

/// Reduces the token's term to its Porter stem; drops the token if the stem is empty.
pub fn stemmer(token: Token) -> (r: PipelineResult)
    ensures
        r.model() == stem_result(token.model()),
{
    let stemmer = PorterStemmer::new();
    let stemmed = stemmer.stem(token.term.as_str());
    if stemmed.as_str().is_empty() {
        PipelineResult::Nothing
    } else {
        PipelineResult::Token(Token { term: stemmed, metadata: token.metadata })
    }
}


/// Step 2 of the Porter stemmer: the first of these suffixes that the word
/// ends with, where the stem before it has a positive measure, is replaced.
pub proof fn law_step2_table(w: Seq<char>)
    ensures
        replace_suffix(w, step2_rules(), 0, 0) == ({
            if ends_with(w, "ational"@) && measure(cut(w, 7)) > 0 {
                cut(w, 7) + "ate"@
            } else if ends_with(w, "tional"@) && measure(cut(w, 6)) > 0 {
                cut(w, 6) + "tion"@
            } else if ends_with(w, "enci"@) && measure(cut(w, 4)) > 0 {
                cut(w, 4) + "ence"@
            } else if ends_with(w, "anci"@) && measure(cut(w, 4)) > 0 {
                cut(w, 4) + "ance"@
            } else if ends_with(w, "izer"@) && measure(cut(w, 4)) > 0 {
                cut(w, 4) + "ize"@
            } else if ends_with(w, "bli"@) && measure(cut(w, 3)) > 0 {
                cut(w, 3) + "ble"@
            } else if ends_with(w, "alli"@) && measure(cut(w, 4)) > 0 {
                cut(w, 4) + "al"@
            } else if ends_with(w, "entli"@) && measure(cut(w, 5)) > 0 {
                cut(w, 5) + "ent"@
            } else if ends_with(w, "eli"@) && measure(cut(w, 3)) > 0 {
                cut(w, 3) + "e"@
            } else if ends_with(w, "ousli"@) && measure(cut(w, 5)) > 0 {
                cut(w, 5) + "ous"@
            } else if ends_with(w, "ization"@) && measure(cut(w, 7)) > 0 {
                cut(w, 7) + "ize"@
            } else if ends_with(w, "ation"@) && measure(cut(w, 5)) > 0 {
                cut(w, 5) + "ate"@
            } else if ends_with(w, "ator"@) && measure(cut(w, 4)) > 0 {
                cut(w, 4) + "ate"@
            } else if ends_with(w, "alism"@) && measure(cut(w, 5)) > 0 {
                cut(w, 5) + "al"@
            } else if ends_with(w, "iveness"@) && measure(cut(w, 7)) > 0 {
                cut(w, 7) + "ive"@
            } else if ends_with(w, "fulness"@) && measure(cut(w, 7)) > 0 {
                cut(w, 7) + "ful"@
            } else if ends_with(w, "ousness"@) && measure(cut(w, 7)) > 0 {
                cut(w, 7) + "ous"@
            } else if ends_with(w, "aliti"@) && measure(cut(w, 5)) > 0 {
                cut(w, 5) + "al"@
            } else if ends_with(w, "iviti"@) && measure(cut(w, 5)) > 0 {
                cut(w, 5) + "ive"@
            } else if ends_with(w, "biliti"@) && measure(cut(w, 6)) > 0 {
                cut(w, 6) + "ble"@
            } else if ends_with(w, "logi"@) && measure(cut(w, 4)) > 0 {
                cut(w, 4) + "log"@
            } else {
                w
            }
        }),
{
    reveal_strlit("ational");
    reveal_strlit("tional");
    reveal_strlit("enci");
    reveal_strlit("anci");
    reveal_strlit("izer");
    reveal_strlit("bli");
    reveal_strlit("alli");
    reveal_strlit("entli");
    reveal_strlit("eli");
    reveal_strlit("ousli");
    reveal_strlit("ization");
    reveal_strlit("ation");
    reveal_strlit("ator");
    reveal_strlit("alism");
    reveal_strlit("iveness");
    reveal_strlit("fulness");
    reveal_strlit("ousness");
    reveal_strlit("aliti");
    reveal_strlit("iviti");
    reveal_strlit("biliti");
    reveal_strlit("logi");
    reveal_with_fuel(replace_suffix, 22);
}

/// Step 3 of the Porter stemmer: the first of these suffixes that the word
/// ends with, where the stem before it has a positive measure, is replaced
/// (`-ness` and `-ful` dropped, `-icate` made `-ic`, and so on).
pub proof fn law_step3_table(w: Seq<char>)
    ensures
        replace_suffix(w, step3_rules(), 0, 0) == ({
            if ends_with(w, "icate"@) && measure(cut(w, 5)) > 0 {
                cut(w, 5) + "ic"@
            } else if ends_with(w, "ative"@) && measure(cut(w, 5)) > 0 {
                cut(w, 5)
            } else if ends_with(w, "alize"@) && measure(cut(w, 5)) > 0 {
                cut(w, 5) + "al"@
            } else if ends_with(w, "iciti"@) && measure(cut(w, 5)) > 0 {
                cut(w, 5) + "ic"@
            } else if ends_with(w, "ical"@) && measure(cut(w, 4)) > 0 {
                cut(w, 4) + "ic"@
            } else if ends_with(w, "ful"@) && measure(cut(w, 3)) > 0 {
                cut(w, 3)
            } else if ends_with(w, "ness"@) && measure(cut(w, 4)) > 0 {
                cut(w, 4)
            } else {
                w
            }
        }),
{
    reveal_strlit("icate");
    reveal_strlit("ative");
    reveal_strlit("alize");
    reveal_strlit("iciti");
    reveal_strlit("ical");
    reveal_strlit("ful");
    reveal_strlit("ness");
    reveal_strlit("");
    assert forall|x: Seq<char>| #[trigger] (x + ""@) == x by {
        assert(x + ""@ =~= x);
    }
    reveal_with_fuel(replace_suffix, 8);
}

/// Step 4 of the Porter stemmer, before its `-ion` rule: the first of these
/// suffixes that the word ends with, where the stem before it has a measure
/// above one, is dropped.
pub proof fn law_step4_table(w: Seq<char>)
    ensures
        replace_suffix(w, step4_rules(), 1, 0) == ({
            if ends_with(w, "al"@) && measure(cut(w, 2)) > 1 {
                cut(w, 2)
            } else if ends_with(w, "ance"@) && measure(cut(w, 4)) > 1 {
                cut(w, 4)
            } else if ends_with(w, "ence"@) && measure(cut(w, 4)) > 1 {
                cut(w, 4)
            } else if ends_with(w, "er"@) && measure(cut(w, 2)) > 1 {
                cut(w, 2)
            } else if ends_with(w, "ic"@) && measure(cut(w, 2)) > 1 {
                cut(w, 2)
            } else if ends_with(w, "able"@) && measure(cut(w, 4)) > 1 {
                cut(w, 4)
            } else if ends_with(w, "ible"@) && measure(cut(w, 4)) > 1 {
                cut(w, 4)
            } else if ends_with(w, "ant"@) && measure(cut(w, 3)) > 1 {
                cut(w, 3)
            } else if ends_with(w, "ement"@) && measure(cut(w, 5)) > 1 {
                cut(w, 5)
            } else if ends_with(w, "ment"@) && measure(cut(w, 4)) > 1 {
                cut(w, 4)
            } else if ends_with(w, "ent"@) && measure(cut(w, 3)) > 1 {
                cut(w, 3)
            } else if ends_with(w, "ou"@) && measure(cut(w, 2)) > 1 {
                cut(w, 2)
            } else if ends_with(w, "ism"@) && measure(cut(w, 3)) > 1 {
                cut(w, 3)
            } else if ends_with(w, "ate"@) && measure(cut(w, 3)) > 1 {
                cut(w, 3)
            } else if ends_with(w, "iti"@) && measure(cut(w, 3)) > 1 {
                cut(w, 3)
            } else if ends_with(w, "ous"@) && measure(cut(w, 3)) > 1 {
                cut(w, 3)
            } else if ends_with(w, "ive"@) && measure(cut(w, 3)) > 1 {
                cut(w, 3)
            } else if ends_with(w, "ize"@) && measure(cut(w, 3)) > 1 {
                cut(w, 3)
            } else {
                w
            }
        }),
{
    reveal_strlit("al");
    reveal_strlit("ance");
    reveal_strlit("ence");
    reveal_strlit("er");
    reveal_strlit("ic");
    reveal_strlit("able");
    reveal_strlit("ible");
    reveal_strlit("ant");
    reveal_strlit("ement");
    reveal_strlit("ment");
    reveal_strlit("ent");
    reveal_strlit("ou");
    reveal_strlit("ism");
    reveal_strlit("ate");
    reveal_strlit("iti");
    reveal_strlit("ous");
    reveal_strlit("ive");
    reveal_strlit("ize");
    reveal_strlit("");
    assert forall|x: Seq<char>| #[trigger] (x + ""@) == x by {
        assert(x + ""@ =~= x);
    }
    reveal_with_fuel(replace_suffix, 19);
}

} // verus!
