//! From text to elements and back.

use vstd::prelude::*;
use vstd::std_specs::iter::IteratorSpec;
use vstd::string::*;
use crate::elements::{elements_view, placeholder, Element, SentenceMarker, StateElement};

verus! {

/// The characters of each string, in order.
pub open spec fn strings_view(strings: Seq<String>) -> Seq<Seq<char>> {
    Seq::new(strings.len(), |i: int| strings[i]@)
}

/// The characters that separate words: the space and the line feed.
pub open spec fn is_separator(c: char) -> bool {
    c == ' ' || c == '\n'
}

/// The pieces of `text` between its separators, in order. There is one piece
/// more than there are separators, and a piece is empty where two separators
/// meet or where the text starts or ends with one.
pub open spec fn split_spec(text: Seq<char>) -> Seq<Seq<char>>
    decreases text.len(),
{
    if text.len() == 0 {
        seq![Seq::empty()]
    } else {
        let before = split_spec(text.drop_last());
        if is_separator(text.last()) {
            before.push(Seq::empty())
        } else {
            before.drop_last().push(before.last().push(text.last()))
        }
    }
}

/// The pieces that are not empty, each as a word.
pub open spec fn word_elements(pieces: Seq<Seq<char>>) -> Seq<Element>
    decreases pieces.len(),
{
    if pieces.len() == 0 {
        Seq::empty()
    } else {
        let before = word_elements(pieces.drop_last());
        if pieces.last().len() == 0 {
            before
        } else {
            before.push(Element::Word(pieces.last()))
        }
    }
}

/// The words among `sentence`, in order.
pub open spec fn words_in(sentence: Seq<Element>) -> Seq<Seq<char>>
    decreases sentence.len(),
{
    if sentence.len() == 0 {
        Seq::empty()
    } else {
        let before = words_in(sentence.drop_last());
        match sentence.last() {
            Element::Word(w) => before.push(w),
            Element::Marker(_) => before,
        }
    }
}

/// `words` with one space between each two.
pub open spec fn joined(words: Seq<Seq<char>>) -> Seq<char>
    decreases words.len(),
{
    if words.len() == 0 {
        Seq::empty()
    } else if words.len() == 1 {
        words[0]
    } else {
        joined(words.drop_last()) + seq![' '] + words.last()
    }
}

/// The text of a sentence: its words, one space between each two.
pub open spec fn sentence_text(sentence: Seq<Element>) -> Seq<char> {
    joined(words_in(sentence))
}

/// What `str::to_lowercase` returns for `text`.
pub uninterp spec fn lowercase_of(text: Seq<char>) -> Seq<char>;

/// Whether `c` is whitespace: one of the characters with the Unicode
/// property White_Space.
pub open spec fn is_whitespace(c: char) -> bool {
    let code = c as u32;
    ||| 0x09 <= code <= 0x0d
    ||| code == 0x20
    ||| code == 0x85
    ||| code == 0xa0
    ||| code == 0x1680
    ||| 0x2000 <= code <= 0x200a
    ||| code == 0x2028
    ||| code == 0x2029
    ||| code == 0x202f
    ||| code == 0x205f
    ||| code == 0x3000
}

/// `text` without the whitespace at its end.
pub open spec fn trimmed_end(text: Seq<char>) -> Seq<char>
    decreases text.len(),
{
    if text.len() == 0 || !is_whitespace(text.last()) {
        text
    } else {
        trimmed_end(text.drop_last())
    }
}

/// A line as ingestion reads it: placeholder and start marker, the words of
/// the lower-cased line, end marker and placeholder.
pub open spec fn tokenize_spec(line: Seq<char>) -> Seq<Element> {
    seq![placeholder(), Element::Marker(SentenceMarker::Start)] + word_elements(
        split_spec(lowercase_of(line)),
    ) + seq![Element::Marker(SentenceMarker::End), placeholder()]
}

/// A line as generation reads it: the pieces of the line without its
/// trailing whitespace, as they are written.
pub open spec fn input_pieces(input: Seq<char>) -> Seq<Seq<char>> {
    split_spec(trimmed_end(input))
}

/// Calls `str::to_lowercase`, which maps every character by the Unicode
/// lower-case rules. Claimed: the result is [`lowercase_of`] of the text.
#[verifier::external_body]
fn lowercase(text: &str) -> (r: String)
    ensures
        r@ == lowercase_of(text@),
{
    text.to_lowercase()
}

/// Calls `str::trim_end`, which returns the string without the whitespace at
/// its end, whitespace being the characters with the Unicode property
/// White_Space. Claimed: the result is [`trimmed_end`] of the text, the
/// longest start of it that does not end in such a character.
#[verifier::external_body]
fn trim_end(text: &str) -> (r: &str)
    ensures
        r@ == trimmed_end(text@),
{
    text.trim_end()
}

/// Calls `String::push`, which appends one character to a string.
#[verifier::external_body]
fn push_char(text: &mut String, c: char)
    ensures
        final(text)@ == old(text)@.push(c),
{
    text.push(c)
}

/// Splits `text` at every space and line feed.
pub fn split(text: &str) -> (r: Vec<String>)
    ensures
        strings_view(r@) == split_spec(text@),
{
    broadcast use vstd::string::group_string_axioms;

    let mut pieces: Vec<String> = Vec::new();
    let mut current = String::new();
    let mut chars = text.chars();
    let ghost mut done: Seq<char> = Seq::empty();
    assert(strings_view(pieces@).push(current@) =~= split_spec(done));
    loop
        invariant
            done + chars.remaining() == text@,
            strings_view(pieces@).push(current@) == split_spec(done),
        ensures
            done == text@,
            strings_view(pieces@).push(current@) == split_spec(done),
        decreases text@.len() - done.len(),
    {
        let ghost before = chars.remaining();
        match chars.next() {
            Some(c) => {
                proof {
                    assert(done.push(c) + chars.remaining() =~= done + before);
                    assert(done.push(c).drop_last() =~= done);
                    assert(strings_view(pieces@).push(current@).drop_last() =~= strings_view(
                        pieces@,
                    ));
                }
                if c == ' ' || c == '\n' {
                    pieces.push(current);
                    current = String::new();
                    assert(strings_view(pieces@).push(current@) =~= split_spec(done.push(c)));
                } else {
                    push_char(&mut current, c);
                    assert(strings_view(pieces@).push(current@) =~= split_spec(done.push(c)));
                }
                proof {
                    done = done.push(c);
                }
            },
            None => {
                assert(done =~= done + before);
                break ;
            },
        }
    }
    pieces.push(current);
    assert(strings_view(pieces@) =~= split_spec(text@));
    pieces
}

/// Reads a line as ingestion does: lower-cased, split into words, and
/// wrapped in start and end markers with a placeholder on each side.
pub fn tokenize(line: &str) -> (r: Vec<StateElement>)
    ensures
        elements_view(r@) == tokenize_spec(line@),
{
    let lowered = lowercase(line);
    let pieces = split(lowered.as_str());
    let ghost all = strings_view(pieces@);
    let mut elements: Vec<StateElement> = Vec::new();
    elements.push(StateElement::Marker(SentenceMarker::Placeholder));
    elements.push(StateElement::Marker(SentenceMarker::Start));
    let ghost head = seq![placeholder(), Element::Marker(SentenceMarker::Start)];
    let mut i: usize = 0;
    assert(elements_view(elements@) =~= head + word_elements(all.subrange(0, 0)));
    while i < pieces.len()
        invariant
            i <= pieces.len(),
            all == strings_view(pieces@),
            elements_view(elements@) == head + word_elements(all.subrange(0, i as int)),
        decreases pieces.len() - i,
    {
        let ghost prior = elements_view(elements@);
        let ghost words = word_elements(all.subrange(0, i as int));
        assert(all.subrange(0, i + 1).drop_last() =~= all.subrange(0, i as int));
        assert(all.subrange(0, i + 1).last() == pieces[i as int]@);
        if !pieces[i].as_str().is_empty() {
            elements.push(StateElement::Word(pieces[i].clone()));
            assert(elements_view(elements@) =~= prior.push(Element::Word(pieces[i as int]@)));
            assert(prior.push(Element::Word(pieces[i as int]@)) =~= head + words.push(
                Element::Word(pieces[i as int]@),
            ));
        }
        i = i + 1;
    }
    assert(all.subrange(0, i as int) =~= all);
    elements.push(StateElement::Marker(SentenceMarker::End));
    elements.push(StateElement::Marker(SentenceMarker::Placeholder));
    assert(elements_view(elements@) =~= tokenize_spec(line@));
    elements
}

/// Reads a line as generation does: without its trailing whitespace, split
/// at every space and line feed, nothing dropped and nothing lower-cased.
pub fn input_words(input: &str) -> (r: Vec<String>)
    ensures
        strings_view(r@) == input_pieces(input@),
{
    split(trim_end(input))
}

/// The text of a sentence: its words, one space between each two.
pub fn join_words(sentence: &[StateElement]) -> (r: String)
    ensures
        r@ == sentence_text(elements_view(sentence@)),
{
    let ghost all = elements_view(sentence@);
    let mut text = String::new();
    let mut any: bool = false;
    let mut i: usize = 0;
    proof {
        reveal_strlit(" ");
        assert(" "@ =~= seq![' ']);
    }
    while i < sentence.len()
        invariant
            i <= sentence.len(),
            all == elements_view(sentence@),
            " "@ == seq![' '],
            any == (words_in(all.subrange(0, i as int)).len() > 0),
            text@ == joined(words_in(all.subrange(0, i as int))),
        decreases sentence.len() - i,
    {
        assert(all.subrange(0, i + 1).drop_last() =~= all.subrange(0, i as int));
        let ghost before = words_in(all.subrange(0, i as int));
        match &sentence[i] {
            StateElement::Word(w) => {
                assert(before.push(w@).drop_last() =~= before);
                if any {
                    text.append(" ");
                }
                text.append(w.as_str());
                any = true;
                assert(text@ =~= joined(before.push(w@)));
            },
            StateElement::Marker(_) => {},
        }
        i = i + 1;
    }
    assert(all.subrange(0, i as int) =~= all);
    text
}

} // verus!
