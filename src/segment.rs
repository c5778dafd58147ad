use vstd::prelude::*;
use crate::text::{
    chars_of, chomp_cr, joined, lines_of, push_char, scan_lines, split_lines, trim_str, trimmed, views,
};

verus! {

/// A character that ends a sentence.
pub open spec fn is_terminator(c: char) -> bool {
    c == '.' || c == '!' || c == '?'
}

/// `s` with every `'\n'` removed.
pub open spec fn strip_newlines(s: Seq<char>) -> Seq<char>
    decreases s.len(),
{
    if s.len() == 0 {
        Seq::empty()
    } else if s.last() == '\n' {
        strip_newlines(s.drop_last())
    } else {
        strip_newlines(s.drop_last()).push(s.last())
    }
}

/// `s` with a `'\n'` inserted after every sentence terminator.
pub open spec fn break_after_terminators(s: Seq<char>) -> Seq<char>
    decreases s.len(),
{
    if s.len() == 0 {
        Seq::empty()
    } else if is_terminator(s.last()) {
        break_after_terminators(s.drop_last()).push(s.last()).push('\n')
    } else {
        break_after_terminators(s.drop_last()).push(s.last())
    }
}

/// The sentences of a text: line breaks dropped, a break put after each
/// terminator, then split into lines. Pieces keep their surrounding spaces.
pub open spec fn sentences_of(text: Seq<char>) -> Seq<Seq<char>> {
    lines_of(break_after_terminators(strip_newlines(text)))
}

/// Relies on regex::Regex::new and Regex::replace_all: the pattern
/// `([.!?])` compiles, and replacing each of its matches by `$1` followed by a
/// line feed puts a line feed after every `.`, `!` and `?`.
#[verifier::external_body]
fn regex_replace_all(pattern: &str, text: &str, replacement: &str) -> (r: Option<String>)
    ensures
        r is Some ==> (pattern@ == "([.!?])"@ && replacement@ == "$1\n"@ ==> r->0@
            == break_after_terminators(text@)),
        r is None ==> !(pattern@ == "([.!?])"@ && replacement@ == "$1\n"@),
{
    match regex::Regex::new(pattern) {
        Ok(re) => Some(re.replace_all(text, replacement).into_owned()),
        Err(_) => None,
    }
}

/// `text` with every line feed removed.
pub fn remove_newlines(text: &str) -> (r: String)
    ensures
        r@ == strip_newlines(text@),
{
    let chars = chars_of(text);
    let mut out = String::new();
    let mut i: usize = 0;
    while i < chars.len()
        invariant
            i <= chars.len(),
            chars@ == text@,
            out@ == strip_newlines(text@.take(i as int)),
        decreases chars.len() - i,
    {
        assert(text@.take(i + 1).drop_last() =~= text@.take(i as int));
        if chars[i] != '\n' {
            push_char(&mut out, chars[i]);
        }
        i += 1;
    }
    assert(text@.take(i as int) =~= text@);
    out
}

/// Splits a text into sentences: line breaks are dropped, a break is put
/// after every `.`, `!` and `?`, and the result is split into lines. Pieces
/// are not trimmed, and empty pieces are kept.
pub fn segment(text: &str) -> (r: Vec<String>)
    ensures
        views(r@) == sentences_of(text@),
{
    let flat = remove_newlines(text);
    let broken = regex_replace_all("([.!?])", flat.as_str(), "$1\n");
    match broken {
        Some(b) => split_lines(b.as_str()),
        None => Vec::new(),
    }
}

/// Sentence `index` as it is shown: without surrounding white space.
pub fn sentence_text(sentences: &Vec<String>, index: usize) -> (r: &str)
    requires
        index < sentences.len(),
    ensures
        r@ == trimmed(sentences[index as int]@),
{
    trim_str(sentences[index].as_str())
}

/// No character of `s` is a line feed.
pub open spec fn newline_free(s: Seq<char>) -> bool {
    forall|i: int| 0 <= i < s.len() ==> s[i] != '\n'
}

proof fn lemma_strip_newlines_free(s: Seq<char>)
    ensures
        newline_free(strip_newlines(s)),
    decreases s.len(),
{
    if s.len() > 0 {
        lemma_strip_newlines_free(s.drop_last());
    }
}

proof fn lemma_strip_newlines_id(s: Seq<char>)
    requires
        newline_free(s),
    ensures
        strip_newlines(s) == s,
    decreases s.len(),
{
    if s.len() > 0 {
        lemma_strip_newlines_id(s.drop_last());
        assert(s.drop_last().push(s.last()) =~= s);
    }
}

proof fn lemma_scan_broken(x: Seq<char>)
    requires
        newline_free(x),
    ensures
        joined(scan_lines(break_after_terminators(x)).0) + scan_lines(
            break_after_terminators(x),
        ).1 == x,
    decreases x.len(),
{
    if x.len() > 0 {
        let y = x.drop_last();
        let a = x.last();
        lemma_scan_broken(y);
        let by = break_after_terminators(y);
        let (dy, cy) = scan_lines(by);
        assert(by.push(a).drop_last() =~= by);
        assert(scan_lines(by.push(a)) == (dy, cy.push(a)));
        assert(joined(dy) + cy.push(a) =~= (joined(dy) + cy).push(a));
        assert(y.push(a) =~= x);
        if is_terminator(a) {
            let b = by.push(a).push('\n');
            assert(b.drop_last() =~= by.push(a));
            assert(chomp_cr(cy.push(a)) == cy.push(a));
            assert(scan_lines(b) == (dy.push(cy.push(a)), Seq::<char>::empty()));
            assert(dy.push(cy.push(a)).drop_last() =~= dy);
            assert(joined(dy.push(cy.push(a))) == joined(dy) + cy.push(a));
            assert(joined(dy) + cy.push(a) + Seq::<char>::empty() =~= x);
        } else {
            assert(joined(dy) + cy.push(a) =~= x);
        }
    }
}

/// Segmenting is idempotent: laying the sentences of a text end to end and
/// segmenting the result gives the same sentences again.
pub proof fn lemma_segment_idempotent(text: Seq<char>)
    ensures
        sentences_of(joined(sentences_of(text))) == sentences_of(text),
{
    let x = strip_newlines(text);
    lemma_strip_newlines_free(text);
    lemma_scan_broken(x);
    let (d, c) = scan_lines(break_after_terminators(x));
    if c.len() > 0 {
        assert(d.push(c).drop_last() =~= d);
        assert(joined(d.push(c)) == joined(d) + c);
    } else {
        assert(joined(d) + c =~= joined(d));
    }
    assert(joined(sentences_of(text)) == x);
    lemma_strip_newlines_id(x);
}

} // verus!
