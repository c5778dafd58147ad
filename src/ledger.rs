use vstd::prelude::*;
use crate::number::{parse_usize, usize_value};
use crate::text::{chars_of, lines_of, push_char, split_lines, string_of};
use vstd::string::StringExecFns;

verus! {

/// One record of the ledger: a file identifier and a sentence index.
pub type Entry = (String, usize);

/// The view of a ledger: pairs of identifier characters and index.
pub open spec fn ledger_view(v: Seq<Entry>) -> Seq<(Seq<char>, nat)> {
    v.map_values(|e: Entry| (e.0@, e.1 as nat))
}

/// The last component of a path: what follows its last `'/'`.
pub open spec fn file_id_of(path: Seq<char>) -> Seq<char>
    decreases path.len(),
{
    if path.len() == 0 {
        Seq::empty()
    } else if path.last() == '/' {
        Seq::empty()
    } else {
        file_id_of(path.drop_last()).push(path.last())
    }
}

/// The position of the first `c` in `s`.
pub open spec fn first_index_of(s: Seq<char>, c: char) -> Option<nat>
    decreases s.len(),
{
    if s.len() == 0 {
        None
    } else {
        match first_index_of(s.drop_last(), c) {
            Some(i) => Some(i),
            None => if s.last() == c {
                Some((s.len() - 1) as nat)
            } else {
                None
            },
        }
    }
}

/// A record line `"<path> <index>"`, split at its first space: the file
/// identifier of the part before and the index that the part after writes.
pub open spec fn parse_line(line: Seq<char>) -> Option<(Seq<char>, nat)> {
    match first_index_of(line, ' ') {
        Some(i) => match usize_value(line.subrange(i as int + 1, line.len() as int)) {
            Some(n) => Some((file_id_of(line.take(i as int)), n)),
            None => None,
        },
        None => None,
    }
}

/// The records of all `lines`, or `None` where one of them is malformed.
pub open spec fn parse_lines(lines: Seq<Seq<char>>) -> Option<Seq<(Seq<char>, nat)>>
    decreases lines.len(),
{
    if lines.len() == 0 {
        Some(Seq::empty())
    } else {
        match (parse_lines(lines.drop_last()), parse_line(lines.last())) {
            (Some(l), Some(e)) => Some(l.push(e)),
            _ => None,
        }
    }
}

/// The ledger that a stored text holds, or `None` where it is corrupt.
pub open spec fn parse_ledger(text: Seq<char>) -> Option<Seq<(Seq<char>, nat)>> {
    parse_lines(lines_of(text))
}

/// The ledger loaded from a stored text: a corrupt text counts as empty.
pub open spec fn loaded_ledger(text: Seq<char>) -> Seq<(Seq<char>, nat)> {
    match parse_ledger(text) {
        Some(l) => l,
        None => Seq::empty(),
    }
}

/// The position of the first record for `id`.
pub open spec fn find_entry(l: Seq<(Seq<char>, nat)>, id: Seq<char>) -> Option<nat>
    decreases l.len(),
{
    if l.len() == 0 {
        None
    } else {
        match find_entry(l.drop_last(), id) {
            Some(i) => Some(i),
            None => if l.last().0 == id {
                Some((l.len() - 1) as nat)
            } else {
                None
            },
        }
    }
}

/// The decimal digits of `n`, without leading zeros.
pub open spec fn decimal(n: nat) -> Seq<char>
    decreases n,
{
    if n < 10 {
        seq![(n + '0' as nat) as char]
    } else {
        decimal(n / 10).push(((n % 10) + '0' as nat) as char)
    }
}

/// The stored line of one record.
pub open spec fn record_line(e: (Seq<char>, nat)) -> Seq<char> {
    e.0.push(' ') + decimal(e.1)
}

/// The stored text of a ledger: its record lines joined by line feeds, with
/// no line feed at the end.
pub open spec fn ledger_text(l: Seq<(Seq<char>, nat)>) -> Seq<char>
    decreases l.len(),
{
    if l.len() == 0 {
        Seq::empty()
    } else if l.len() == 1 {
        record_line(l[0])
    } else {
        ledger_text(l.drop_last()).push('\n') + record_line(l.last())
    }
}

/// The last component of `path`: what follows its last `'/'`.
pub fn file_id(path: &str) -> (r: String)
    ensures
        r@ == file_id_of(path@),
{
    let chars = chars_of(path);
    let mut cur: Vec<char> = Vec::new();
    let mut i: usize = 0;
    while i < chars.len()
        invariant
            i <= chars.len(),
            chars@ == path@,
            cur@ == file_id_of(path@.take(i as int)),
        decreases chars.len() - i,
    {
        assert(path@.take(i + 1).drop_last() =~= path@.take(i as int));
        if chars[i] == '/' {
            cur = Vec::new();
        } else {
            cur.push(chars[i]);
        }
        i += 1;
    }
    assert(path@.take(i as int) =~= path@);
    string_of(&cur)
}

/// Reads one record line `"<path> <index>"`; `None` where it has no space
/// or the part after the first space is no index.
pub fn parse_progress_line(line: &str) -> (r: Option<Entry>)
    ensures
        r is Some <==> parse_line(line@) is Some,
        r is Some ==> ((r->0).0@, (r->0).1 as nat) == parse_line(line@)->0,
{
    let chars = chars_of(line);
    let mut i: usize = 0;
    while i < chars.len() && chars[i] != ' '
        invariant
            i <= chars.len(),
            chars@ == line@,
            first_index_of(line@.take(i as int), ' ') is None,
        decreases chars.len() - i,
    {
        assert(line@.take(i + 1).drop_last() =~= line@.take(i as int));
        i += 1;
    }
    if i == chars.len() {
        assert(line@.take(i as int) =~= line@);
        return None;
    }
    assert(line@.take(i + 1).drop_last() =~= line@.take(i as int));
    proof {
        lemma_first_index_prefix(line@, i as nat);
    }
    let mut head: Vec<char> = Vec::new();
    let mut j: usize = 0;
    while j < i
        invariant
            j <= i < chars.len(),
            chars@ == line@,
            head@ == line@.take(j as int),
        decreases i - j,
    {
        head.push(chars[j]);
        assert(line@.take(j + 1) =~= line@.take(j as int).push(line@[j as int]));
        j += 1;
    }
    let mut tail: Vec<char> = Vec::new();
    let mut k: usize = i + 1;
    while k < chars.len()
        invariant
            i < k <= chars.len(),
            chars@ == line@,
            tail@ == line@.subrange(i + 1, k as int),
        decreases chars.len() - k,
    {
        tail.push(chars[k]);
        assert(line@.subrange(i + 1, k + 1) =~= line@.subrange(i + 1, k as int).push(line@[k as int]));
        k += 1;
    }
    let head_str = string_of(&head);
    let tail_str = string_of(&tail);
    match parse_usize(tail_str.as_str()) {
        Some(n) => Some((file_id(head_str.as_str()), n)),
        None => None,
    }
}

/// Where `s` has its first `c` at `i`, `first_index_of` finds it there.
proof fn lemma_first_index_prefix(s: Seq<char>, i: nat)
    requires
        i < s.len(),
        s[i as int] == ' ',
        first_index_of(s.take(i as int), ' ') is None,
    ensures
        first_index_of(s, ' ') == Some(i),
    decreases s.len(),
{
    if i + 1 < s.len() {
        assert(s.drop_last().take(i as int) =~= s.take(i as int));
        lemma_first_index_prefix(s.drop_last(), i);
    } else {
        assert(s.drop_last() =~= s.take(i as int));
    }
}

/// Loads a ledger from its stored text. A corrupt text counts as an empty
/// ledger, so that a damaged store loses old positions and nothing else.
pub fn get_progress(contents: &str) -> (r: Vec<Entry>)
    ensures
        ledger_view(r@) == loaded_ledger(contents@),
{
    let lines = split_lines(contents);
    let mut out: Vec<Entry> = Vec::new();
    let mut i: usize = 0;
    while i < lines.len()
        invariant
            i <= lines.len(),
            crate::text::views(lines@) == lines_of(contents@),
            parse_lines(crate::text::views(lines@).take(i as int)) == Some(ledger_view(out@)),
        decreases lines.len() - i,
    {
        let ghost ls = crate::text::views(lines@);
        assert(ls.take(i + 1).drop_last() =~= ls.take(i as int));
        assert(ls.take(i + 1).last() == lines[i as int]@);
        match parse_progress_line(lines[i].as_str()) {
            Some(e) => {
                let ghost before = out@;
                out.push(e);
                assert(ledger_view(out@) =~= ledger_view(before).push((e.0@, e.1 as nat)));
            },
            None => {
                proof {
                    lemma_parse_lines_extend_none(ls, i as nat);
                }
                return Vec::new();
            },
        }
        i += 1;
    }
    assert(crate::text::views(lines@).take(i as int) =~= crate::text::views(lines@));
    out
}

/// One malformed line makes the whole text malformed.
proof fn lemma_parse_lines_extend_none(ls: Seq<Seq<char>>, i: nat)
    requires
        i < ls.len(),
        parse_lines(ls.take(i as int + 1)) is None,
    ensures
        parse_lines(ls) is None,
    decreases ls.len(),
{
    if i + 1 < ls.len() {
        assert(ls.drop_last().take(i as int + 1) =~= ls.take(i as int + 1));
        lemma_parse_lines_extend_none(ls.drop_last(), i);
    } else {
        assert(ls.take(i as int + 1) =~= ls);
    }
}

/// Finds the record of the file at `current_file` (by its last path
/// component) and returns its index and position. A file seen for the first
/// time gets a new record with index 0 at the end.
pub fn get_current_file_progress(all_progress: &mut Vec<Entry>, current_file: &str) -> (r: (
    usize,
    usize,
))
    requires
        old(all_progress).len() < usize::MAX,
    ensures
        ({
            let id = file_id_of(current_file@);
            let l = ledger_view(old(all_progress)@);
            match find_entry(l, id) {
                Some(p) => {
                    &&& final(all_progress)@ == old(all_progress)@
                    &&& r.1 == p
                    &&& r.0 == l[p as int].1
                },
                None => {
                    &&& ledger_view(final(all_progress)@) == l.push((id, 0))
                    &&& r.1 == l.len()
                    &&& r.0 == 0
                },
            }
        }),
{
    let id = file_id(current_file);
    let ghost l = ledger_view(all_progress@);
    let mut i: usize = 0;
    while i < all_progress.len()
        invariant
            i <= all_progress.len(),
            all_progress@ == old(all_progress)@,
            l == ledger_view(all_progress@),
            id@ == file_id_of(current_file@),
            find_entry(l.take(i as int), id@) is None,
        decreases all_progress.len() - i,
    {
        assert(l.take(i + 1).drop_last() =~= l.take(i as int));
        if all_progress[i].0 == id {
            proof {
                lemma_find_entry_prefix(l, id@, i as nat);
            }
            return (all_progress[i].1, i);
        }
        i += 1;
    }
    assert(l.take(i as int) =~= l);
    let n = all_progress.len();
    all_progress.push((id, 0));
    assert(ledger_view(all_progress@) =~= l.push((file_id_of(current_file@), 0)));
    (0, n)
}

/// Where the first record for `id` is at `i`, `find_entry` finds it there.
proof fn lemma_find_entry_prefix(l: Seq<(Seq<char>, nat)>, id: Seq<char>, i: nat)
    requires
        i < l.len(),
        l[i as int].0 == id,
        find_entry(l.take(i as int), id) is None,
    ensures
        find_entry(l, id) == Some(i),
    decreases l.len(),
{
    if i + 1 < l.len() {
        assert(l.drop_last().take(i as int) =~= l.take(i as int));
        lemma_find_entry_prefix(l.drop_last(), id, i);
    } else {
        assert(l.drop_last() =~= l.take(i as int));
    }
}

/// Records `sentence` as the position of the record at `position`.
pub fn commit_progress(all_progress: &mut Vec<Entry>, position: usize, sentence: usize)
    requires
        position < old(all_progress).len(),
    ensures
        ledger_view(final(all_progress)@) == ledger_view(old(all_progress)@).update(
            position as int,
            (ledger_view(old(all_progress)@)[position as int].0, sentence as nat),
        ),
{
    let name = all_progress[position].0.clone();
    all_progress.set(position, (name, sentence));
    assert(ledger_view(all_progress@) =~= ledger_view(old(all_progress)@).update(
        position as int,
        (ledger_view(old(all_progress)@)[position as int].0, sentence as nat),
    ));
}

/// Appends the decimal digits of `n` to `out`.
fn push_decimal(out: &mut String, n: usize)
    ensures
        final(out)@ == old(out)@ + decimal(n as nat),
    decreases n,
{
    if n >= 10 {
        push_decimal(out, n / 10);
    }
    let d = (n % 10) as u8;
    let c = (48u8 + d) as char;
    push_char(out, c);
    assert(old(out)@ + decimal(n as nat) =~= if n >= 10 {
        old(out)@ + decimal((n / 10) as nat) + seq![((n % 10) + '0' as nat) as char]
    } else {
        old(out)@ + seq![(n + '0' as nat) as char]
    });
}

/// The stored text of a ledger: one line `"<id> <index>"` per record, joined
/// by line feeds, with no line feed at the end.
pub fn format_progress(all_progress: &Vec<Entry>) -> (r: String)
    ensures
        r@ == ledger_text(ledger_view(all_progress@)),
{
    let ghost l = ledger_view(all_progress@);
    let mut data = String::new();
    let mut i: usize = 0;
    while i < all_progress.len()
        invariant
            i <= all_progress.len(),
            l == ledger_view(all_progress@),
            data@ == ledger_text(l.take(i as int)),
        decreases all_progress.len() - i,
    {
        let ghost before = data@;
        assert(l.take(i + 1).drop_last() =~= l.take(i as int));
        if i > 0 {
            push_char(&mut data, '\n');
        }
        data.append(all_progress[i].0.as_str());
        push_char(&mut data, ' ');
        push_decimal(&mut data, all_progress[i].1);
        if i > 0 {
            assert(data@ =~= before.push('\n') + record_line(l[i as int]));
        } else {
            assert(l.take(1)[0] == l[0]);
            assert(data@ =~= record_line(l[0]));
        }
        i += 1;
    }
    assert(l.take(i as int) =~= l);
    data
}

/// What `find_entry` finds: the first record for `id`, or none at all.
pub proof fn lemma_find_entry(l: Seq<(Seq<char>, nat)>, id: Seq<char>)
    ensures
        find_entry(l, id) matches Some(p) ==> p < l.len() && l[p as int].0 == id && forall|
            i: int,
        | 0 <= i < p ==> l[i].0 != id,
        find_entry(l, id) is None ==> forall|i: int| 0 <= i < l.len() ==> l[i].0 != id,
    decreases l.len(),
{
    if l.len() > 0 {
        let d = l.drop_last();
        lemma_find_entry(d, id);
        assert(forall|i: int| 0 <= i < d.len() ==> d[i] == l[i]);
        if find_entry(d, id) is None && l.last().0 != id {
            assert forall|i: int| 0 <= i < l.len() implies l[i].0 != id by {
                if i < d.len() {
                    assert(d[i] == l[i]);
                }
            }
        }
    }
}

/// A record that its stored line gives back: an identifier with no space,
/// slash or line feed, and an index that fits a `usize`.
pub open spec fn valid_record(e: (Seq<char>, nat)) -> bool {
    &&& forall|i: int| 0 <= i < e.0.len() ==> e.0[i] != ' ' && e.0[i] != '/' && e.0[i] != '\n'
    &&& e.1 <= usize::MAX
}

/// Every record of `l` is valid.
pub open spec fn valid_ledger(l: Seq<(Seq<char>, nat)>) -> bool {
    forall|i: int| 0 <= i < l.len() ==> valid_record(#[trigger] l[i])
}

proof fn lemma_decimal(n: nat)
    ensures
        decimal(n).len() > 0,
        crate::number::all_digits(decimal(n)),
        crate::number::digits_value(decimal(n)) == n,
    decreases n,
{
    if n < 10 {
        assert(decimal(n).drop_last() =~= Seq::<char>::empty());
        assert(((n + '0' as nat) as char) as int == n + 48);
        assert(crate::number::digit_value(decimal(n).last()) == n);
        assert(crate::number::digits_value(Seq::<char>::empty()) == 0);
        assert(crate::number::digits_value(decimal(n)) == crate::number::digits_value(
            Seq::<char>::empty(),
        ) * 10 + n);
    } else {
        assert((((n % 10) + '0' as nat) as char) as int == (n % 10) + 48);
        assert(n == (n / 10) * 10 + n % 10);
        lemma_decimal(n / 10);
        let d = decimal(n / 10);
        assert(decimal(n).drop_last() =~= d);
        assert(crate::number::digit_value(decimal(n).last()) == n % 10);
        assert(crate::number::digits_value(decimal(n)) == crate::number::digits_value(d) * 10 + n
            % 10);
        assert(crate::number::all_digits(decimal(n))) by {
            assert forall|i: int| 0 <= i < decimal(n).len() implies crate::number::is_digit(
                decimal(n)[i],
            ) by {
                if i < d.len() {
                    assert(decimal(n)[i] == d[i]);
                }
            }
        }
    }
}

proof fn lemma_no_space_none(s: Seq<char>)
    requires
        forall|i: int| 0 <= i < s.len() ==> s[i] != ' ',
    ensures
        first_index_of(s, ' ') is None,
    decreases s.len(),
{
    if s.len() > 0 {
        lemma_no_space_none(s.drop_last());
    }
}

proof fn lemma_file_id_plain(s: Seq<char>)
    requires
        forall|i: int| 0 <= i < s.len() ==> s[i] != '/',
    ensures
        file_id_of(s) == s,
    decreases s.len(),
{
    if s.len() > 0 {
        lemma_file_id_plain(s.drop_last());
        assert(s.drop_last().push(s.last()) =~= s);
    }
}

proof fn lemma_parse_record_line(e: (Seq<char>, nat))
    requires
        valid_record(e),
    ensures
        parse_line(record_line(e)) == Some(e),
{
    let line = record_line(e);
    let k = e.0.len();
    lemma_decimal(e.1);
    assert(line.take(k as int) =~= e.0);
    lemma_no_space_none(e.0);
    lemma_first_index_prefix(line, k);
    assert(line.subrange(k as int + 1, line.len() as int) =~= decimal(e.1));
    lemma_file_id_plain(e.0);
}

proof fn lemma_scan_append(u: Seq<char>, b: Seq<char>)
    requires
        forall|i: int| 0 <= i < b.len() ==> b[i] != '\n',
    ensures
        crate::text::scan_lines(u + b) == (crate::text::scan_lines(u).0, crate::text::scan_lines(u).1
            + b),
    decreases b.len(),
{
    if b.len() == 0 {
        assert(u + b =~= u);
        assert(crate::text::scan_lines(u).1 + b =~= crate::text::scan_lines(u).1);
    } else {
        lemma_scan_append(u, b.drop_last());
        assert((u + b).drop_last() =~= u + b.drop_last());
        assert((crate::text::scan_lines(u).1 + b.drop_last()).push(b.last()) =~= crate::text::scan_lines(u).1 + b);
    }
}

proof fn lemma_record_line_plain(e: (Seq<char>, nat))
    requires
        valid_record(e),
    ensures
        forall|i: int| 0 <= i < record_line(e).len() ==> record_line(e)[i] != '\n',
        record_line(e).len() > 0,
        record_line(e).last() != '\r',
{
    lemma_decimal(e.1);
    let line = record_line(e);
    assert forall|i: int| 0 <= i < line.len() implies line[i] != '\n' by {
        if i > e.0.len() {
            assert(line[i] == decimal(e.1)[i - e.0.len() - 1]);
        }
    }
    assert(line.last() == decimal(e.1).last());
}

proof fn lemma_scan_ledger_text(l: Seq<(Seq<char>, nat)>)
    requires
        l.len() > 0,
        valid_ledger(l),
    ensures
        crate::text::scan_lines(ledger_text(l)) == (
            l.drop_last().map_values(|e: (Seq<char>, nat)| record_line(e)),
            record_line(l.last()),
        ),
    decreases l.len(),
{
    let rl = |e: (Seq<char>, nat)| record_line(e);
    assert(valid_record(l[l.len() - 1]));
    lemma_record_line_plain(l.last());
    if l.len() == 1 {
        lemma_scan_append(Seq::empty(), record_line(l[0]));
        assert(Seq::<char>::empty() + record_line(l[0]) =~= record_line(l[0]));
        assert(Seq::<char>::empty() + record_line(l[0]) =~= record_line(l[0]));
        assert(l.drop_last().map_values(rl) =~= Seq::empty());
    } else {
        let p = l.drop_last();
        assert(valid_ledger(p)) by {
            assert forall|i: int| 0 <= i < p.len() implies valid_record(#[trigger] p[i]) by {
                assert(p[i] == l[i]);
            }
        }
        lemma_scan_ledger_text(p);
        assert(valid_record(p[p.len() - 1]));
        lemma_record_line_plain(p.last());
        let t = ledger_text(p).push('\n');
        assert(t.drop_last() =~= ledger_text(p));
        lemma_scan_append(t, record_line(l.last()));
        assert(p.drop_last().map_values(rl).push(record_line(p.last())) =~= p.map_values(rl));
    }
}

/// The stored text of a valid ledger splits into its record lines.
proof fn lemma_lines_of_ledger_text(l: Seq<(Seq<char>, nat)>)
    requires
        valid_ledger(l),
    ensures
        lines_of(ledger_text(l)) == l.map_values(|e: (Seq<char>, nat)| record_line(e)),
{
    let rl = |e: (Seq<char>, nat)| record_line(e);
    if l.len() == 0 {
        assert(l.map_values(rl) =~= Seq::empty());
    } else {
        lemma_scan_ledger_text(l);
        assert(valid_record(l[l.len() - 1]));
        lemma_record_line_plain(l.last());
        assert(l.drop_last().map_values(rl).push(record_line(l.last())) =~= l.map_values(rl));
    }
}

proof fn lemma_parse_record_lines(l: Seq<(Seq<char>, nat)>)
    requires
        valid_ledger(l),
    ensures
        parse_lines(l.map_values(|e: (Seq<char>, nat)| record_line(e))) == Some(l),
    decreases l.len(),
{
    let rl = |e: (Seq<char>, nat)| record_line(e);
    if l.len() == 0 {
        assert(l.map_values(rl) =~= Seq::empty());
        assert(l =~= Seq::empty());
    } else {
        let p = l.drop_last();
        assert(valid_ledger(p)) by {
            assert forall|i: int| 0 <= i < p.len() implies valid_record(#[trigger] p[i]) by {
                assert(p[i] == l[i]);
            }
        }
        lemma_parse_record_lines(p);
        assert(l.map_values(rl).drop_last() =~= p.map_values(rl));
        assert(valid_record(l[l.len() - 1]));
        lemma_parse_record_line(l.last());
        assert(p.push(l.last()) =~= l);
    }
}

/// Saving a valid ledger and loading it back gives the same ledger, so that
/// saving what was loaded writes the same text again.
pub proof fn lemma_ledger_round_trip(l: Seq<(Seq<char>, nat)>)
    requires
        valid_ledger(l),
    ensures
        parse_ledger(ledger_text(l)) == Some(l),
        loaded_ledger(ledger_text(l)) == l,
        ledger_text(loaded_ledger(ledger_text(l))) == ledger_text(l),
{
    lemma_lines_of_ledger_text(l);
    lemma_parse_record_lines(l);
}

} // verus!
