use rustkov::elements::{SentenceMarker, StateElement};
use rustkov::text::{input_words, join_words, split, tokenize};

fn w(text: &str) -> StateElement {
    StateElement::Word(text.to_string())
}

fn m(marker: SentenceMarker) -> StateElement {
    StateElement::Marker(marker)
}

#[test]
fn tokenize_wraps_the_words_in_markers() {
    assert_eq!(
        tokenize("the cat sat"),
        vec![
            m(SentenceMarker::Placeholder),
            m(SentenceMarker::Start),
            w("the"),
            w("cat"),
            w("sat"),
            m(SentenceMarker::End),
            m(SentenceMarker::Placeholder),
        ]
    );
}

#[test]
fn tokenize_of_an_empty_line_is_the_markers() {
    let markers = vec![
        m(SentenceMarker::Placeholder),
        m(SentenceMarker::Start),
        m(SentenceMarker::End),
        m(SentenceMarker::Placeholder),
    ];
    assert_eq!(tokenize(""), markers);
    assert_eq!(tokenize("   "), markers);
    assert_eq!(tokenize(" \n \n"), markers);
}

#[test]
fn tokenize_lower_cases_and_drops_empty_pieces() {
    assert_eq!(
        tokenize("  Hello   WORLD\nÀgain "),
        vec![
            m(SentenceMarker::Placeholder),
            m(SentenceMarker::Start),
            w("hello"),
            w("world"),
            w("àgain"),
            m(SentenceMarker::End),
            m(SentenceMarker::Placeholder),
        ]
    );
}

#[test]
fn tokenize_splits_at_spaces_and_line_feeds_only() {
    assert_eq!(
        tokenize("a\tb c\r\nd"),
        vec![
            m(SentenceMarker::Placeholder),
            m(SentenceMarker::Start),
            w("a\tb"),
            w("c\r"),
            w("d"),
            m(SentenceMarker::End),
            m(SentenceMarker::Placeholder),
        ]
    );
}

#[test]
fn split_keeps_empty_pieces() {
    assert_eq!(split(""), vec!["".to_string()]);
    assert_eq!(split("a"), vec!["a".to_string()]);
    assert_eq!(split("a b"), vec!["a".to_string(), "b".to_string()]);
    assert_eq!(
        split(" a  b\n"),
        vec!["".to_string(), "a".to_string(), "".to_string(), "b".to_string(), "".to_string()]
    );
    assert_eq!(split("héllo wörld"), vec!["héllo".to_string(), "wörld".to_string()]);
}

#[test]
fn split_agrees_with_the_standard_split() {
    for text in ["", " ", "a", "a b c", "  two  spaces ", "line\nfeed\n\nhere", "x \n y"] {
        let expected: Vec<String> = text.split(&[' ', '\n']).map(|p| p.to_string()).collect();
        assert_eq!(split(text), expected);
    }
}

#[test]
fn input_words_drops_trailing_whitespace_only() {
    assert_eq!(input_words("cat  \n\t "), vec!["cat".to_string()]);
    assert_eq!(input_words("Cat  Dog"), vec!["Cat".to_string(), "".to_string(), "Dog".to_string()]);
    assert_eq!(input_words(" cat"), vec!["".to_string(), "cat".to_string()]);
    assert_eq!(input_words(""), vec!["".to_string()]);
    assert_eq!(input_words("   "), vec!["".to_string()]);
}

#[test]
fn join_words_puts_one_space_between_words() {
    let sentence = vec![
        m(SentenceMarker::Start),
        w("the"),
        w("cat"),
        w("sat"),
        m(SentenceMarker::End),
    ];
    assert_eq!(join_words(&sentence), "the cat sat");
    assert_eq!(join_words(&[w("alone")]), "alone");
    assert_eq!(join_words(&[m(SentenceMarker::Start), m(SentenceMarker::End)]), "");
    assert_eq!(join_words(&[]), "");
    assert_eq!(join_words(&[w("a"), m(SentenceMarker::Placeholder), w("b")]), "a b");
    assert_eq!(join_words(&[w("a"), w(""), w("b")]), "a  b");
}

#[test]
fn trailing_whitespace_is_every_character_with_the_white_space_property() {
    let listed = |c: char| {
        let code = c as u32;
        (0x09..=0x0d).contains(&code)
            || code == 0x20
            || code == 0x85
            || code == 0xa0
            || code == 0x1680
            || (0x2000..=0x200a).contains(&code)
            || code == 0x2028
            || code == 0x2029
            || code == 0x202f
            || code == 0x205f
            || code == 0x3000
    };
    let mut text = String::new();
    for code in 0..=0x10ffffu32 {
        if let Some(c) = char::from_u32(code) {
            text.clear();
            text.push('a');
            text.push(c);
            let trimmed = input_words(&text) == vec!["a".to_string()];
            assert_eq!(trimmed, listed(c));
        }
    }
}

#[test]
fn input_words_drops_all_the_whitespace_at_the_end_and_none_elsewhere() {
    assert_eq!(input_words("cat\u{a0}\u{3000}\r\n"), vec!["cat".to_string()]);
    assert_eq!(input_words("cat\u{200b}"), vec!["cat\u{200b}".to_string()]);
    assert_eq!(input_words("\tcat"), vec!["\tcat".to_string()]);
    assert_eq!(input_words("a \t b \t"), vec!["a".to_string(), "\t".to_string(), "b".to_string()]);
}
