use multi_reader::ledger::{
    commit_progress, file_id, format_progress, get_current_file_progress, get_progress,
    parse_progress_line,
};

#[test]
fn loads_and_queries_book() {
    let mut p = get_progress("book.txt 5");
    assert_eq!(get_current_file_progress(&mut p, "book.txt"), (5, 0));
    assert_eq!(p.len(), 1);
    assert_eq!(get_current_file_progress(&mut p, "other.txt"), (0, 1));
    assert_eq!(p, vec![("book.txt".to_string(), 5), ("other.txt".to_string(), 0)]);
}

#[test]
fn lookup_uses_last_path_component() {
    let mut p = get_progress("book.txt 5\nnovel.txt 9");
    assert_eq!(get_current_file_progress(&mut p, "/home/me/texts/novel.txt"), (9, 1));
    assert_eq!(p.len(), 2);
}

#[test]
fn file_id_is_basename() {
    assert_eq!(file_id("a/b/c.txt"), "c.txt");
    assert_eq!(file_id("c.txt"), "c.txt");
    assert_eq!(file_id("dir/"), "");
}

#[test]
fn progress_line_parsing() {
    assert_eq!(parse_progress_line("dir/book.txt 5"), Some(("book.txt".to_string(), 5)));
    assert_eq!(parse_progress_line("nospace"), None);
    assert_eq!(parse_progress_line("a b"), None);
    assert_eq!(parse_progress_line("a 1 2"), None);
}

#[test]
fn corrupt_ledger_loads_empty() {
    assert!(get_progress("book.txt 5\ngarbage").is_empty());
    assert!(get_progress("").is_empty());
}

#[test]
fn ledger_with_crlf_loads() {
    let p = get_progress("a.txt 1\r\nb.txt 2\r\n");
    assert_eq!(p, vec![("a.txt".to_string(), 1), ("b.txt".to_string(), 2)]);
}

#[test]
fn ledger_round_trip() {
    let text = "a.txt 3\nb.txt 10\nc.txt 0";
    assert_eq!(format_progress(&get_progress(text)), text);
    let p = vec![("x.txt".to_string(), 12345usize), ("y".to_string(), 7)];
    assert_eq!(get_progress(&format_progress(&p)), p);
}

#[test]
fn format_has_no_trailing_newline() {
    assert_eq!(format_progress(&vec![("book.txt".to_string(), 42)]), "book.txt 42");
    assert_eq!(format_progress(&Vec::new()), "");
}

#[test]
fn commit_overwrites_one_record() {
    let mut p = get_progress("a.txt 1\nb.txt 2");
    commit_progress(&mut p, 1, 8);
    assert_eq!(format_progress(&p), "a.txt 1\nb.txt 8");
}
