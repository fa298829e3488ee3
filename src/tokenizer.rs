//! Text to terms: split on separators, trim, lower-case, stem.
use vstd::prelude::*;

use crate::term::{terms_view, Term};

verus! {

/// The characters that end a word.
pub open spec fn separators() -> Seq<char> {
    seq![' ', '.', ',', '!', ':', '?']
}

/// Whether `c` has Unicode's White_Space property.
pub open spec fn white(c: char) -> bool {
    let u = c as u32;
    (0x09 <= u && u <= 0x0d) || u == 0x20 || u == 0x85 || u == 0xa0 || u == 0x1680
        || (0x2000 <= u && u <= 0x200a) || u == 0x2028 || u == 0x2029 || u == 0x202f
        || u == 0x205f || u == 0x3000
}

/// The pieces of `s` between separators, in order: one more than the
/// separators that `s` holds.
pub open spec fn pieces(s: Seq<char>) -> Seq<Seq<char>>
    decreases s.len(),
{
    if s.len() == 0 {
        seq![Seq::empty()]
    } else {
        let p = pieces(s.drop_last());
        if separators().contains(s.last()) {
            p.push(Seq::empty())
        } else {
            p.update(p.len() - 1, p.last().push(s.last()))
        }
    }
}

pub open spec fn trim_start(w: Seq<char>) -> Seq<char>
    decreases w.len(),
{
    if w.len() > 0 && white(w[0]) {
        trim_start(w.drop_first())
    } else {
        w
    }
}

pub open spec fn trim_end(w: Seq<char>) -> Seq<char>
    decreases w.len(),
{
    if w.len() > 0 && white(w.last()) {
        trim_end(w.drop_last())
    } else {
        w
    }
}

/// `w` without leading and trailing white space.
pub open spec fn trimmed(w: Seq<char>) -> Seq<char> {
    trim_end(trim_start(w))
}

/// What `str::to_lowercase` makes of a text.
pub uninterp spec fn lower_of(s: Seq<char>) -> Seq<char>;

/// What the English Snowball stemmer makes of a word.
pub uninterp spec fn english_stem(s: Seq<char>) -> Seq<char>;

/// The term that a trimmed, non-empty word becomes.
pub open spec fn normalized(w: Seq<char>) -> Seq<char> {
    english_stem(lower_of(w))
}

/// The words of a sequence of pieces: each piece trimmed, the empty ones
/// dropped.
pub open spec fn words(ps: Seq<Seq<char>>) -> Seq<Seq<char>>
    decreases ps.len(),
{
    if ps.len() == 0 {
        Seq::empty()
    } else {
        let w = trimmed(ps.last());
        if w.len() > 0 {
            words(ps.drop_last()).push(w)
        } else {
            words(ps.drop_last())
        }
    }
}

/// The words of a text, in order.
pub open spec fn text_words(s: Seq<char>) -> Seq<Seq<char>> {
    words(pieces(s))
}

/// The terms of a text: its words, normalized.
pub open spec fn token_texts(s: Seq<char>) -> Seq<Seq<char>> {
    text_words(s).map_values(|w: Seq<char>| normalized(w))
}

/// Every word of a sequence of pieces is non-empty.
pub proof fn lemma_words_non_empty(ps: Seq<Seq<char>>)
    ensures
        forall|i: int| 0 <= i < words(ps).len() ==> (#[trigger] words(ps)[i]).len() > 0,
    decreases ps.len(),
{
    if ps.len() > 0 {
        lemma_words_non_empty(ps.drop_last());
        let prev = words(ps.drop_last());
        assert forall|i: int| 0 <= i < words(ps).len() implies (#[trigger] words(ps)[i]).len()
            > 0 by {
            if i < prev.len() {
                assert(words(ps)[i] == prev[i]);
            }
        }
    }
}

/// The terms of a text are its words, normalized one by one, in order; no
/// word is empty, however many separators stand together; and an empty text
/// has no terms.
pub proof fn lemma_token_texts(s: Seq<char>)
    ensures
        token_texts(s).len() == text_words(s).len(),
        forall|i: int| 0 <= i < text_words(s).len() ==> (#[trigger] text_words(s)[i]).len() > 0
            && token_texts(s)[i] == normalized(text_words(s)[i]),
        token_texts(Seq::empty()).len() == 0,
{
    lemma_words_non_empty(pieces(s));
    let e = Seq::<char>::empty();
    assert(pieces(e) == seq![e]);
    assert(seq![e].drop_last() =~= Seq::<Seq<char>>::empty());
    assert(trimmed(e) == e);
    assert(words(seq![e]) == words(Seq::<Seq<char>>::empty()));
}

/// Relies on `str::to_lowercase`: the result depends on the text alone.
#[verifier::external_body]
fn lowercase(s: &str) -> (r: String)
    ensures
        r@ == lower_of(s@),
{
    s.to_lowercase()
}

/// Relies on rust_stemmers' `Stemmer::create(Algorithm::English)` and
/// `Stemmer::stem`: the English Snowball stem of a word, which depends on the
/// word alone.
#[verifier::external_body]
fn stem_english(s: &str) -> (r: String)
    ensures
        r@ == english_stem(s@),
{
    rust_stemmers::Stemmer::create(rust_stemmers::Algorithm::English).stem(s).into_owned()
}

/// The separator characters, held in a hashbrown set.
#[verifier::external_body]
pub struct SeparatorSet {
    set: hashbrown::HashSet<char>,
}

/// The characters that a separator set holds.
pub uninterp spec fn separator_contents(s: SeparatorSet) -> Set<char>;

/// Relies on hashbrown's `HashSet` as `FromIterator`: the set holds exactly
/// the characters given.
#[verifier::external_body]
fn separator_set_of(cs: Vec<char>) -> (r: SeparatorSet)
    ensures
        separator_contents(r) == cs@.to_set(),
{
    SeparatorSet { set: cs.into_iter().collect() }
}

/// Relies on hashbrown's `HashSet::contains`: whether the set holds `c`.
#[verifier::external_body]
fn separator_set_contains(s: &SeparatorSet, c: char) -> (r: bool)
    ensures
        r == separator_contents(*s).contains(c),
{
    s.set.contains(&c)
}

/// Relies on `String`'s `FromIterator<&char>`: the characters in order.
#[verifier::external_body]
fn string_of_chars(cs: &Vec<char>) -> (r: String)
    ensures
        r@ == cs@,
{
    cs.iter().collect()
}

/// Whether `c` is white space, as `char::is_whitespace` decides.
pub fn is_white_space(c: char) -> (r: bool)
    ensures
        r == white(c),
{
    let u = c as u32;
    (0x09 <= u && u <= 0x0d) || u == 0x20 || u == 0x85 || u == 0xa0 || u == 0x1680
        || (0x2000 <= u && u <= 0x200a) || u == 0x2028 || u == 0x2029 || u == 0x202f
        || u == 0x205f || u == 0x3000
}

/// The characters of a text.
fn chars_of(text: &str) -> (r: Vec<char>)
    ensures
        r@ == text@,
{
    let mut out: Vec<char> = Vec::new();
    for c in it: text.chars()
        invariant
            out@ == it.seq().subrange(0, it.index() as int),
            it.seq() == text@,
    {
        out.push(c);
    }
    out
}

/// The characters `chars[from..to]`.
fn chars_between(chars: &Vec<char>, from: usize, to: usize) -> (r: Vec<char>)
    requires
        from <= to <= chars.len(),
    ensures
        r@ == chars@.subrange(from as int, to as int),
{
    let mut out: Vec<char> = Vec::new();
    let mut i: usize = from;
    while i < to
        invariant
            from <= i <= to <= chars.len(),
            out@ == chars@.subrange(from as int, i as int),
        decreases to - i,
    {
        out.push(chars[i]);
        i = i + 1;
        assert(out@ =~= chars@.subrange(from as int, i as int));
    }
    out
}

/// The word in `chars[start..end]`, appended to `out` where the trimmed piece
/// is not empty.
fn push_word(out: &mut Vec<String>, chars: &Vec<char>, start: usize, end: usize)
    requires
        start <= end <= chars.len(),
    ensures
        ({
            let w = trimmed(chars@.subrange(start as int, end as int));
            strings_view(final(out)@) == if w.len() > 0 {
                strings_view(old(out)@).push(w)
            } else {
                strings_view(old(out)@)
            }
        }),
{
    let ghost piece = chars@.subrange(start as int, end as int);
    let mut a: usize = start;
    while a < end && is_white_space(chars[a])
        invariant
            start <= a <= end <= chars.len(),
            trim_start(piece) == trim_start(chars@.subrange(a as int, end as int)),
        decreases end - a,
    {
        assert(chars@.subrange(a as int, end as int).drop_first() =~= chars@.subrange(
            a + 1,
            end as int,
        ));
        a = a + 1;
    }
    let mut b: usize = end;
    while b > a && is_white_space(chars[b - 1])
        invariant
            start <= a <= b <= end <= chars.len(),
            trimmed(piece) == trim_end(chars@.subrange(a as int, b as int)),
        decreases b - a,
    {
        assert(chars@.subrange(a as int, b as int).drop_last() =~= chars@.subrange(
            a as int,
            b - 1,
        ));
        b = b - 1;
    }
    if a < b {
        let word = string_of_chars(&chars_between(chars, a, b));
        out.push(word);
        assert(strings_view(out@) =~= strings_view(old(out)@).push(trimmed(piece)));
    }
}

/// The texts of a sequence of strings.
pub open spec fn strings_view(ss: Seq<String>) -> Seq<Seq<char>> {
    ss.map_values(|s: String| s@)
}

/// The words of `text`: the pieces between separators, trimmed, the empty
/// ones dropped.
pub fn split_words(text: &str) -> (r: Vec<String>)
    ensures
        strings_view(r@) == text_words(text@),
{
    let seps = separator_set_of(vec![' ', '.', ',', '!', ':', '?']);
    let chars = chars_of(text);
    let mut out: Vec<String> = Vec::new();
    let mut start: usize = 0;
    let ghost mut done: Seq<Seq<char>> = Seq::empty();
    proof {
        assert(chars@.subrange(0, 0) =~= Seq::<char>::empty());
        assert(strings_view(out@) =~= words(done));
    }
    for i in 0..chars.len()
        invariant
            start <= i <= chars.len(),
            chars@ == text@,
            separator_contents(seps) == separators().to_set(),
            pieces(chars@.subrange(0, i as int)) == done.push(
                chars@.subrange(start as int, i as int),
            ),
            strings_view(out@) == words(done),
    {
        let c = chars[i];
        let ghost prefix = chars@.subrange(0, i + 1);
        assert(prefix.drop_last() =~= chars@.subrange(0, i as int));
        if separator_set_contains(&seps, c) {
            push_word(&mut out, &chars, start, i);
            proof {
                let p = chars@.subrange(start as int, i as int);
                let ghost old_done = done;
                done = done.push(p);
                assert(done.drop_last() =~= old_done);
                assert(chars@.subrange(i + 1, i + 1) =~= Seq::<char>::empty());
            }
            start = i + 1;
        } else {
            proof {
                let p = done.push(chars@.subrange(start as int, i as int));
                assert(chars@.subrange(start as int, i as int).push(c) =~= chars@.subrange(
                    start as int,
                    i + 1,
                ));
                assert(p.update(p.len() - 1, p.last().push(c)) =~= done.push(
                    chars@.subrange(start as int, i + 1),
                ));
            }
        }
    }
    push_word(&mut out, &chars, start, chars.len());
    proof {
        let p = chars@.subrange(start as int, chars.len() as int);
        let ghost old_done = done;
        done = done.push(p);
        assert(done.drop_last() =~= old_done);
        assert(chars@.subrange(0, chars.len() as int) =~= text@);
    }
    out
}

/// The terms of `text`: each of its words lower-cased and reduced to its
/// English stem, in order.
pub fn tokenize(text: &str) -> (r: Vec<Term>)
    ensures
        terms_view(r@) == token_texts(text@),
{
    let words = split_words(text);
    let mut out: Vec<Term> = Vec::new();
    let mut k: usize = 0;
    while k < words.len()
        invariant
            k <= words@.len(),
            strings_view(words@) == text_words(text@),
            out@.len() == k,
            forall|j: int| 0 <= j < k ==> (#[trigger] out@[j])@ == normalized(words@[j]@),
        decreases words@.len() - k,
    {
        let lower = lowercase(words[k].as_str());
        let stemmed = stem_english(lower.as_str());
        out.push(Term::new(stemmed));
        k = k + 1;
    }
    proof {
        assert forall|j: int| 0 <= j < out@.len() implies terms_view(out@)[j] == token_texts(text@)[j] by {
            assert(strings_view(words@)[j] == words@[j]@);
        }
        assert(terms_view(out@) =~= token_texts(text@));
    }
    out
}

} // verus!
