use multi_reader::reader::Reader;
use multi_reader::segment::segment;
use multi_reader::session::{classify, Command, Display, Outcome, Session, SessionError};

#[test]
fn walks_spanish_greeting() {
    let sentences = segment("Hola. Adiós!");
    let mut s = Session::new(sentences.len(), 2, 0).unwrap();
    assert_eq!(s.counter, 0);
    assert_eq!(s.display(), Display::Original { sentence: 0 });
    assert_eq!(s.on_line("\n"), Outcome::Moved);
    assert_eq!(s.counter, 1);
    assert_eq!(s.display(), Display::Translation { sentence: 0, from: 0, to: 1 });
    assert_eq!(s.on_line("1\n"), Outcome::Moved);
    assert_eq!(s.counter, 2);
    assert_eq!(s.display(), Display::Original { sentence: 1 });
}

#[test]
fn classify_commands() {
    assert_eq!(classify(""), Command::Next);
    assert_eq!(classify("3"), Command::Jump(3));
    assert_eq!(classify("-2"), Command::Jump(-2));
    assert_eq!(classify("q"), Command::Quit);
    assert_eq!(classify("qq"), Command::Text);
    assert_eq!(classify("hola"), Command::Text);
}

#[test]
fn next_advances_by_one() {
    let mut s = Session::new(3, 3, 1).unwrap();
    assert_eq!(s.counter, 3);
    assert_eq!(s.apply(Command::Next), Outcome::Moved);
    assert_eq!(s.counter, 4);
    assert_eq!(s.sentence_index(), 1);
    assert_eq!(s.language_index(), 1);
}

#[test]
fn next_at_end_is_out_of_range() {
    let mut s = Session::new(1, 2, 0).unwrap();
    assert_eq!(s.apply(Command::Next), Outcome::Moved);
    assert_eq!(s.apply(Command::Next), Outcome::OutOfRange);
    assert_eq!(s.counter, 1);
}

#[test]
fn jump_sets_counter() {
    let mut s = Session::new(5, 3, 0).unwrap();
    assert_eq!(s.apply(Command::Jump(4)), Outcome::Moved);
    assert_eq!(s.counter, 12);
    assert_eq!(s.language_index(), 0);
    assert_eq!(s.sentence_index(), 4);
}

#[test]
fn jump_out_of_range_keeps_counter() {
    let mut s = Session::new(5, 3, 2).unwrap();
    assert_eq!(s.apply(Command::Jump(5)), Outcome::OutOfRange);
    assert_eq!(s.apply(Command::Jump(-1)), Outcome::OutOfRange);
    assert_eq!(s.counter, 6);
}

#[test]
fn text_translates_toward_native() {
    let mut s = Session::new(2, 3, 0).unwrap();
    assert_eq!(s.apply(Command::Text), Outcome::Translate { from: 0, to: 2 });
    s.apply(Command::Next);
    assert_eq!(s.apply(Command::Text), Outcome::Translate { from: 1, to: 2 });
    s.apply(Command::Next);
    assert_eq!(s.apply(Command::Text), Outcome::Translate { from: 2, to: 0 });
    assert_eq!(s.counter, 2);
}

#[test]
fn single_language_text_translates_to_itself() {
    let mut s = Session::new(2, 1, 0).unwrap();
    assert_eq!(s.apply(Command::Text), Outcome::Translate { from: 0, to: 0 });
    assert_eq!(s.apply(Command::Next), Outcome::Moved);
    assert_eq!(s.display(), Display::Original { sentence: 1 });
}

#[test]
fn session_errors() {
    assert_eq!(Session::new(3, 0, 0), Err(SessionError::NoLanguages));
    assert_eq!(Session::new(3, 2, 3), Err(SessionError::OutOfRange));
    assert_eq!(Session::new(0, 2, 0), Err(SessionError::OutOfRange));
}

#[test]
fn trimmed_input_is_read() {
    let mut s = Session::new(2, 2, 0).unwrap();
    assert_eq!(s.on_line("  q  \n"), Outcome::Quit { sentence: 0 });
    assert_eq!(s.on_line("   \n"), Outcome::Moved);
}

#[test]
fn reader_resumes_and_quits() {
    let progress = multi_reader::ledger::get_progress("book.txt 5\nother.txt 1");
    let mut r = Reader::open(progress, "/texts/book.txt", 8, 2).unwrap();
    assert_eq!(r.entry, 0);
    assert_eq!(r.session.counter, 10);
    assert_eq!(r.on_line("\n"), Outcome::Moved);
    assert_eq!(r.ledger_text(), "book.txt 5\nother.txt 1");
    assert_eq!(r.on_line("7\n"), Outcome::Moved);
    assert_eq!(r.on_line("q\n"), Outcome::Quit { sentence: 7 });
    assert_eq!(r.ledger_text(), "book.txt 7\nother.txt 1");
}

#[test]
fn reader_adds_new_file_once() {
    let progress = multi_reader::ledger::get_progress("book.txt 5");
    let mut r = Reader::open(progress, "new.txt", 3, 2).unwrap();
    assert_eq!(r.entry, 1);
    assert_eq!(r.session.counter, 0);
    assert_eq!(r.on_command(Command::Jump(2)), Outcome::Moved);
    assert_eq!(r.on_command(Command::Quit), Outcome::Quit { sentence: 2 });
    assert_eq!(r.ledger_text(), "book.txt 5\nnew.txt 2");
}

#[test]
fn reader_saved_position_past_end_starts_over() {
    let progress = multi_reader::ledger::get_progress("book.txt 50");
    let r = Reader::open(progress, "book.txt", 3, 2).unwrap();
    assert_eq!(r.session.counter, 0);
    assert!(Reader::open(Vec::new(), "book.txt", 0, 2).is_err());
    assert!(Reader::open(Vec::new(), "book.txt", 3, 0).is_err());
}
