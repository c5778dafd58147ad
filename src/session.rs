use vstd::prelude::*;
use vstd::arithmetic::div_mod::{lemma_div_by_multiple, lemma_mod_multiples_basic, lemma_mod_pos_bound, lemma_multiply_divide_lt};
use vstd::arithmetic::mul::lemma_mul_strict_inequality;
use crate::number::{i32_value, parse_i32};
use crate::text::{chars_of, trim_str, trimmed};

verus! {

/// What one line of input asks for.
#[derive(Clone, Copy, Debug, PartialEq, Eq)]
pub enum Command {
    /// An empty line: the next language, or the next sentence.
    Next,
    /// A number: go to that sentence, in the text's own language.
    Jump(i32),
    /// `q`: record the position and stop.
    Quit,
    /// Anything else: a phrase to translate.
    Text,
}

/// What the caller has to do after a command.
#[derive(Clone, Copy, Debug, PartialEq, Eq)]
pub enum Outcome {
    /// The cursor moved: show the new position.
    Moved,
    /// The command would leave the text: say so; the cursor stays.
    OutOfRange,
    /// Record `sentence` for this file, save the ledger and stop.
    Quit { sentence: usize },
    /// Translate the phrase from language `from` to language `to`.
    Translate { from: usize, to: usize },
}

/// What the current position shows.
#[derive(Clone, Copy, Debug, PartialEq, Eq)]
pub enum Display {
    /// The sentence as written, under a heading with its number.
    Original { sentence: usize },
    /// The sentence rendered from language `from` into language `to`.
    Translation { sentence: usize, from: usize, to: usize },
}

/// Why a session cannot start.
#[derive(Clone, Copy, Debug, PartialEq, Eq)]
pub enum SessionError {
    /// No language was given.
    NoLanguages,
    /// The starting sentence is not in the text.
    OutOfRange,
}

/// The command that a line of input (already trimmed) gives.
pub open spec fn command_of(input: Seq<char>) -> Command {
    if input.len() == 0 {
        Command::Next
    } else if i32_value(input) is Some {
        Command::Jump(i32_value(input)->0 as i32)
    } else if input == seq!['q'] {
        Command::Quit
    } else {
        Command::Text
    }
}

/// Reads a trimmed line of input as a command: empty is `Next`, a number is
/// `Jump`, `q` is `Quit`, and anything else is `Text`.
pub fn classify(input: &str) -> (r: Command)
    ensures
        r == command_of(input@),
{
    let chars = chars_of(input);
    if chars.len() == 0 {
        return Command::Next;
    }
    match parse_i32(input) {
        Some(k) => Command::Jump(k),
        None => {
            if chars.len() == 1 && chars[0] == 'q' {
                assert(input@ =~= seq!['q']);
                Command::Quit
            } else {
                assert(input@ != seq!['q']) by {
                    if input@ == seq!['q'] {
                        assert(chars@[0] == 'q');
                    }
                }
                Command::Text
            }
        },
    }
}

/// The reading position: one counter over all (sentence, language) pairs,
/// language by language within a sentence.
#[derive(Clone, Copy, Debug, PartialEq, Eq)]
pub struct Session {
    /// The position: `counter / languages` is the sentence, `counter %
    /// languages` the language.
    pub counter: usize,
    /// How many languages each sentence is shown in; the first is the
    /// text's own and the last the reader's.
    pub languages: usize,
    /// How many sentences the text has.
    pub sentences: usize,
}

impl Session {
    /// The counter stays on a sentence of the text.
    pub open spec fn wf(self) -> bool {
        &&& self.languages >= 1
        &&& self.sentences * self.languages <= usize::MAX
        &&& self.counter < self.sentences * self.languages
    }

    /// The sentence that `counter` stands on.
    pub open spec fn sentence_of(self) -> nat {
        (self.counter / self.languages) as nat
    }

    /// The language that `counter` stands on.
    pub open spec fn language_of(self) -> nat {
        (self.counter % self.languages) as nat
    }

    /// The session and outcome after `c`.
    pub open spec fn step(self, c: Command) -> (Session, Outcome) {
        match c {
            Command::Next => if self.counter + 1 < self.sentences * self.languages {
                (Session { counter: (self.counter + 1) as usize, ..self }, Outcome::Moved)
            } else {
                (self, Outcome::OutOfRange)
            },
            Command::Jump(k) => if 0 <= k < self.sentences {
                (Session { counter: (k * self.languages) as usize, ..self }, Outcome::Moved)
            } else {
                (self, Outcome::OutOfRange)
            },
            Command::Quit => (self, Outcome::Quit { sentence: self.sentence_of() as usize }),
            Command::Text => if self.language_of() == self.languages - 1 {
                (
                    self,
                    Outcome::Translate {
                        from: (self.languages - 1) as usize,
                        to: 0,
                    },
                )
            } else {
                (
                    self,
                    Outcome::Translate {
                        from: self.language_of() as usize,
                        to: (self.languages - 1) as usize,
                    },
                )
            },
        }
    }

    /// Starts on sentence `start`, in the text's own language.
    pub fn new(sentences: usize, languages: usize, start: usize) -> (r: Result<Session, SessionError>)
        requires
            sentences * languages <= usize::MAX,
        ensures
            languages == 0 ==> r == Err::<Session, SessionError>(SessionError::NoLanguages),
            languages > 0 && start >= sentences ==> r == Err::<Session, SessionError>(
                SessionError::OutOfRange,
            ),
            languages > 0 && start < sentences ==> (r matches Ok(s) && s.wf() && s.counter == start
                * languages && s.languages == languages && s.sentences == sentences),
    {
        if languages == 0 {
            return Err(SessionError::NoLanguages);
        }
        if start >= sentences {
            return Err(SessionError::OutOfRange);
        }
        proof {
            lemma_mul_strict_inequality(start as int, sentences as int, languages as int);
        }
        Ok(Session { counter: start * languages, languages, sentences })
    }

    /// The sentence shown now.
    pub fn sentence_index(&self) -> (r: usize)
        requires
            self.wf(),
        ensures
            r == self.sentence_of(),
            r < self.sentences,
    {
        proof {
            lemma_cursor_in_range(*self);
        }
        self.counter / self.languages
    }

    /// The language shown now.
    pub fn language_index(&self) -> (r: usize)
        requires
            self.wf(),
        ensures
            r == self.language_of(),
            r < self.languages,
    {
        proof {
            lemma_cursor_in_range(*self);
        }
        self.counter % self.languages
    }

    /// What to show now: the sentence as written in the text's own language,
    /// or rendered from it into the current language.
    pub fn display(&self) -> (r: Display)
        requires
            self.wf(),
        ensures
            self.language_of() == 0 ==> r == (Display::Original {
                sentence: self.sentence_of() as usize,
            }),
            self.language_of() != 0 ==> r == (Display::Translation {
                sentence: self.sentence_of() as usize,
                from: 0,
                to: self.language_of() as usize,
            }),
    {
        let sentence = self.sentence_index();
        let language = self.language_index();
        if language == 0 {
            Display::Original { sentence }
        } else {
            Display::Translation { sentence, from: 0, to: language }
        }
    }

    /// Carries out one command. An empty line moves one step on and a number
    /// jumps to that sentence, unless that would leave the text; `q` asks to
    /// record the current sentence; other text asks for a translation into
    /// the reader's language, or from it into the text's own where that is
    /// what is shown.
    pub fn apply(&mut self, c: Command) -> (r: Outcome)
        requires
            old(self).wf(),
        ensures
            final(self).wf(),
            (*final(self), r) == old(self).step(c),
    {
        proof {
            lemma_cursor_in_range(*self);
        }
        match c {
            Command::Next => {
                if self.counter + 1 < self.sentences * self.languages {
                    self.counter = self.counter + 1;
                    Outcome::Moved
                } else {
                    Outcome::OutOfRange
                }
            },
            Command::Jump(k) => {
                if 0 <= k && (k as usize) < self.sentences {
                    proof {
                        lemma_mul_strict_inequality(k as int, self.sentences as int, self.languages as int);
                    }
                    self.counter = (k as usize) * self.languages;
                    Outcome::Moved
                } else {
                    Outcome::OutOfRange
                }
            },
            Command::Quit => Outcome::Quit { sentence: self.counter / self.languages },
            Command::Text => {
                let language = self.counter % self.languages;
                if language == self.languages - 1 {
                    Outcome::Translate { from: self.languages - 1, to: 0 }
                } else {
                    Outcome::Translate { from: language, to: self.languages - 1 }
                }
            },
        }
    }

    /// Carries out one raw line of input: it is trimmed, read as a command
    /// and applied.
    pub fn on_line(&mut self, line: &str) -> (r: Outcome)
        requires
            old(self).wf(),
        ensures
            final(self).wf(),
            (*final(self), r) == old(self).step(command_of(trimmed(line@))),
    {
        let input = trim_str(line);
        let c = classify(input);
        self.apply(c)
    }
}

/// On every counter that stays on the text, the sentence and the language
/// it stands for are in range.
pub proof fn lemma_cursor_in_range(s: Session)
    requires
        s.wf(),
    ensures
        s.sentence_of() < s.sentences,
        s.language_of() < s.languages,
{
    lemma_multiply_divide_lt(s.counter as int, s.languages as int, s.sentences as int);
    lemma_mod_pos_bound(s.counter as int, s.languages as int);
}

/// An empty line moves the counter on by exactly one, wherever the text has
/// a next position.
pub proof fn lemma_next_advances(s: Session)
    requires
        s.wf(),
        s.counter + 1 < s.sentences * s.languages,
    ensures
        s.step(Command::Next).0.counter == s.counter + 1,
        s.step(Command::Next).0.wf(),
        s.step(Command::Next).1 == Outcome::Moved,
{
}

/// A number `k` of a sentence in the text moves the counter to exactly
/// `k * languages`, the text's own language of sentence `k`; any other number
/// is out of range and leaves the session as it was.
pub proof fn lemma_jump(s: Session, k: i32)
    requires
        s.wf(),
    ensures
        0 <= k < s.sentences ==> {
            let t = s.step(Command::Jump(k)).0;
            &&& t.counter == k * s.languages
            &&& t.wf()
            &&& t.sentence_of() == k
            &&& t.language_of() == 0
            &&& s.step(Command::Jump(k)).1 == Outcome::Moved
        },
        !(0 <= k < s.sentences) ==> s.step(Command::Jump(k)) == (s, Outcome::OutOfRange),
{
    if 0 <= k < s.sentences {
        lemma_mul_strict_inequality(k as int, s.sentences as int, s.languages as int);
        lemma_div_by_multiple(k as int, s.languages as int);
        lemma_mod_multiples_basic(k as int, s.languages as int);
    }
}

} // verus!
