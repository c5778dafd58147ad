use vstd::prelude::*;
use crate::ledger::{
    commit_progress, file_id_of, find_entry, format_progress, get_current_file_progress,
    ledger_text, ledger_view, Entry,
};
use crate::session::{classify, command_of, Command, Outcome, Session, SessionError};
use crate::text::{trim_str, trimmed};

verus! {

/// The ledger after a file is opened, with the position of the file's record
/// and the index saved there: the first record with the file's identifier,
/// or a new record with index 0 at the end.
pub open spec fn opened(l: Seq<(Seq<char>, nat)>, id: Seq<char>) -> (
    Seq<(Seq<char>, nat)>,
    nat,
    nat,
) {
    match find_entry(l, id) {
        Some(p) => (l, p, l[p as int].1),
        None => (l.push((id, 0)), l.len(), 0),
    }
}

/// The ledger with `sentence` recorded in the record at `pos`.
pub open spec fn committed(l: Seq<(Seq<char>, nat)>, pos: nat, sentence: nat) -> Seq<
    (Seq<char>, nat),
> {
    l.update(pos as int, (l[pos as int].0, sentence))
}

/// No two records share an identifier.
pub open spec fn distinct_ids(l: Seq<(Seq<char>, nat)>) -> bool {
    forall|i: int, j: int| 0 <= i < l.len() && 0 <= j < l.len() && i != j ==> l[i].0 != l[j].0
}

/// A reading session on one file, with the ledger that it records into.
pub struct Reader {
    /// The reading position.
    pub session: Session,
    /// The ledger, as loaded, with a record for this file.
    pub progress: Vec<Entry>,
    /// The position of this file's record in `progress`.
    pub entry: usize,
}

impl Reader {
    /// The position is on the text and the file's record exists.
    pub open spec fn wf(&self) -> bool {
        &&& self.session.wf()
        &&& self.entry < self.progress.len()
    }

    /// Opens the file at `path`: finds or adds its record in `progress` and
    /// starts at the saved sentence, in the text's own language. A saved
    /// sentence that the text no longer has starts the reader at sentence 0.
    pub fn open(progress: Vec<Entry>, path: &str, sentences: usize, languages: usize) -> (r: Result<
        Reader,
        SessionError,
    >)
        requires
            progress.len() < usize::MAX,
            sentences * languages <= usize::MAX,
        ensures
            languages == 0 ==> r == Err::<Reader, SessionError>(SessionError::NoLanguages),
            languages > 0 && sentences == 0 ==> r == Err::<Reader, SessionError>(
                SessionError::OutOfRange,
            ),
            languages > 0 && sentences > 0 ==> r is Ok,
            r matches Ok(rd) ==> ({
                let (l, pos, saved) = opened(ledger_view(progress@), file_id_of(path@));
                let start = if saved < sentences {
                    saved
                } else {
                    0
                };
                &&& rd.wf()
                &&& ledger_view(rd.progress@) == l
                &&& rd.entry == pos
                &&& rd.session == Session { counter: (start * languages) as usize, languages, sentences }
            }),
    {
        let mut progress = progress;
        proof {
            crate::ledger::lemma_find_entry(ledger_view(progress@), file_id_of(path@));
        }
        let (saved, entry) = get_current_file_progress(&mut progress, path);
        let start = if saved < sentences {
            saved
        } else {
            0
        };
        match Session::new(sentences, languages, start) {
            Ok(session) => {
                assert(progress.len() == ledger_view(progress@).len());
                Ok(Reader { session, progress, entry })
            },
            Err(e) => Err(e),
        }
    }

    /// Carries out one command on the position; `q` also records the current
    /// sentence in this file's record. No other command touches the ledger.
    pub fn on_command(&mut self, c: Command) -> (r: Outcome)
        requires
            old(self).wf(),
        ensures
            final(self).wf(),
            (final(self).session, r) == old(self).session.step(c),
            final(self).entry == old(self).entry,
            r is Quit ==> ledger_view(final(self).progress@) == committed(
                ledger_view(old(self).progress@),
                old(self).entry as nat,
                old(self).session.sentence_of(),
            ),
            !(r is Quit) ==> final(self).progress@ == old(self).progress@,
    {
        let r = self.session.apply(c);
        match r {
            Outcome::Quit { sentence } => {
                commit_progress(&mut self.progress, self.entry, sentence);
                assert(self.progress.len() == ledger_view(self.progress@).len());
            },
            _ => {},
        }
        r
    }

    /// Carries out one raw line of input: trimmed, read as a command, applied.
    pub fn on_line(&mut self, line: &str) -> (r: Outcome)
        requires
            old(self).wf(),
        ensures
            final(self).wf(),
            (final(self).session, r) == old(self).session.step(command_of(trimmed(line@))),
            final(self).entry == old(self).entry,
            r is Quit ==> ledger_view(final(self).progress@) == committed(
                ledger_view(old(self).progress@),
                old(self).entry as nat,
                old(self).session.sentence_of(),
            ),
            !(r is Quit) ==> final(self).progress@ == old(self).progress@,
    {
        let input = trim_str(line);
        let c = classify(input);
        self.on_command(c)
    }

    /// The text to store for the ledger.
    pub fn ledger_text(&self) -> (r: String)
        ensures
            r@ == ledger_text(ledger_view(self.progress@)),
    {
        format_progress(&self.progress)
    }
}

/// Quitting keeps one record per identifier: where the loaded ledger has no
/// two records for one identifier, the ledger after opening the file `id` and
/// quitting on sentence `sentence` has none either; the file's record holds
/// `sentence`, and every other record is as loaded.
pub proof fn lemma_quit_records(l: Seq<(Seq<char>, nat)>, id: Seq<char>, sentence: nat)
    requires
        distinct_ids(l),
    ensures
        ({
            let (l2, pos, saved) = opened(l, id);
            let l3 = committed(l2, pos, sentence);
            &&& distinct_ids(l3)
            &&& pos < l3.len()
            &&& l3[pos as int] == (id, sentence)
            &&& forall|i: int| 0 <= i < l3.len() ==> (l3[i].0 == id <==> i == pos)
            &&& forall|i: int| 0 <= i < l.len() && i != pos ==> l3[i] == l[i]
            &&& l3.len() == if find_entry(l, id) is Some {
                l.len()
            } else {
                l.len() + 1
            }
        }),
{
    crate::ledger::lemma_find_entry(l, id);
    let (l2, pos, saved) = opened(l, id);
    let l3 = committed(l2, pos, sentence);
    assert(forall|i: int| 0 <= i < l.len() ==> l2[i] == l[i]);
    assert forall|i: int| 0 <= i < l3.len() implies (l3[i].0 == id <==> i == pos) by {
        if i != pos {
            assert(l3[i] == l2[i]);
            if find_entry(l, id) is Some {
                assert(l[i].0 != l[pos as int].0);
            }
        }
    }
}

} // verus!
