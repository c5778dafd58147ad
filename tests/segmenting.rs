use multi_reader::segment::{remove_newlines, segment, sentence_text};
use multi_reader::text::{split_lines, string_of, chars_of};

#[test]
fn segments_spanish_greeting() {
    let s = segment("Hola. Adiós!");
    assert_eq!(s, vec!["Hola.".to_string(), " Adiós!".to_string()]);
    assert_eq!(sentence_text(&s, 0), "Hola.");
    assert_eq!(sentence_text(&s, 1), "Adiós!");
}

#[test]
fn segment_drops_line_breaks() {
    let s = segment("One\ntwo. Three\nfour? Five");
    assert_eq!(s, vec!["Onetwo.".to_string(), " Threefour?".to_string(), " Five".to_string()]);
}

#[test]
fn segment_keeps_empty_pieces() {
    let s = segment("Wait... What?!");
    assert_eq!(
        s,
        vec![
            "Wait.".to_string(),
            ".".to_string(),
            ".".to_string(),
            " What?".to_string(),
            "!".to_string()
        ]
    );
}

#[test]
fn segment_of_empty_text_is_empty() {
    assert!(segment("").is_empty());
    assert!(segment("\n\n").is_empty());
}

#[test]
fn segment_is_idempotent_on_rejoined_sentences() {
    let first = segment("A b. C d!\nE f? G");
    let joined: String = first.concat();
    assert_eq!(segment(&joined), first);
}

#[test]
fn remove_newlines_removes_all() {
    assert_eq!(remove_newlines("a\nb\n\nc\n"), "abc");
}

#[test]
fn split_lines_like_std() {
    assert_eq!(split_lines("a\r\nb\n\nc\n"), vec!["a", "b", "", "c"]);
    assert_eq!(split_lines("x\r"), vec!["x\r"]);
    assert!(split_lines("").is_empty());
    assert_eq!(split_lines("\n"), vec![""]);
}

#[test]
fn chars_and_strings_round_trip() {
    let v = chars_of("héllo");
    assert_eq!(v, vec!['h', 'é', 'l', 'l', 'o']);
    assert_eq!(string_of(&v), "héllo");
}
