//! Commands, the answers they carry, and how a line of text becomes a command.

use crate::scalar::{Distance, Scalar};
use crate::text::{join_from, joined, split, split_text, Separator};
use vstd::prelude::*;
use vstd::string::*;

verus! {

/// The kind of a command.
#[derive(Debug, Clone, Copy, PartialEq, Eq, Structural)]
pub enum CommandType {
    Invalid,
    SetAnswer,
    GetAnswer,
    GetSource,
    Believe,
    Configure,
    TestEquality,
    GetAnswers,
}

impl Default for CommandType {
    fn default() -> (r: CommandType)
        ensures
            r == CommandType::Invalid,
    {
        CommandType::Invalid
    }
}

/// A command with the fields that its kind uses.
#[derive(Debug)]
pub struct Command {
    pub cmd: CommandType,
    pub source: Option<String>,
    pub distribution: String,
    pub question: Option<String>,
    pub answer: Option<String>,
    pub config_key: Option<String>,
    pub config_val: Option<String>,
    pub answer1: Option<String>,
    pub answer2: Option<String>,
}

/// What a command holds, as plain text.
pub struct CommandView {
    pub cmd: CommandType,
    pub source: Option<Seq<char>>,
    pub distribution: Seq<char>,
    pub question: Option<Seq<char>>,
    pub answer: Option<Seq<char>>,
    pub config_key: Option<Seq<char>>,
    pub config_val: Option<Seq<char>>,
    pub answer1: Option<Seq<char>>,
    pub answer2: Option<Seq<char>>,
}

/// The text of an optional string.
pub open spec fn opt_text(o: Option<String>) -> Option<Seq<char>> {
    match o {
        Some(s) => Some(s@),
        None => None,
    }
}

impl View for Command {
    type V = CommandView;

    open spec fn view(&self) -> CommandView {
        CommandView {
            cmd: self.cmd,
            source: opt_text(self.source),
            distribution: self.distribution@,
            question: opt_text(self.question),
            answer: opt_text(self.answer),
            config_key: opt_text(self.config_key),
            config_val: opt_text(self.config_val),
            answer1: opt_text(self.answer1),
            answer2: opt_text(self.answer2),
        }
    }
}

/// Why a line is no command.
#[derive(Debug, Clone, Copy, PartialEq, Eq, Structural)]
pub enum CommandError {
    /// The line holds no word.
    Empty,
    /// The first word names a command, and words that it needs are missing.
    Incomplete,
    /// The line starts with GET and asks for nothing that can be read.
    InvalidGet,
    /// The line starts with TEST and names no test.
    InvalidTest,
    /// The first word names no command.
    UnknownCommand,
}

/// A command of kind `cmd` with every field empty.
pub open spec fn bare(cmd: CommandType) -> CommandView {
    CommandView {
        cmd,
        source: None,
        distribution: Seq::empty(),
        question: None,
        answer: None,
        config_key: None,
        config_val: None,
        answer1: None,
        answer2: None,
    }
}

/// A command about a question.
pub open spec fn about_question(cmd: CommandType, question: Seq<char>) -> CommandView {
    CommandView { question: Some(question), distribution: "default"@, ..bare(cmd) }
}

/// A command about a source.
pub open spec fn about_source(cmd: CommandType, source: Seq<char>) -> CommandView {
    CommandView { source: Some(source), distribution: "default"@, ..bare(cmd) }
}

/// The command that a line with the words `w` writes.
///
/// `SET <question> <answer> FROM <source>`, `GET ANSWER TO <question>`,
/// `GET ANSWERS TO <question>`, `GET SOURCE <source>`, `BELIEVE <source>`,
/// `CONFIGURE <key> <value>` and `TEST EQUALITY <answer> <answer>`. The first
/// word may be written in lower case; the fourth word of a `SET` line is not
/// looked at. The value of a configuration is the
/// rest of the line, its words joined by one space each. Of the other
/// commands, words after those that a command needs are ignored.
pub open spec fn parsed(w: Seq<Seq<char>>) -> Result<CommandView, CommandError> {
    if w.len() == 0 {
        Err(CommandError::Empty)
    } else if w[0] == "SET"@ || w[0] == "set"@ {
        if w.len() < 5 {
            Err(CommandError::Incomplete)
        } else {
            Ok(
                CommandView {
                    answer: Some(w[2]),
                    source: Some(w[4]),
                    ..about_question(CommandType::SetAnswer, w[1])
                },
            )
        }
    } else if w[0] == "GET"@ || w[0] == "get"@ {
        if w.len() >= 4 && w[1] == "ANSWER"@ && w[2] == "TO"@ {
            Ok(about_question(CommandType::GetAnswer, w[3]))
        } else if w.len() >= 3 && w[1] == "SOURCE"@ {
            Ok(about_source(CommandType::GetSource, w[2]))
        } else if w.len() >= 4 && w[1] == "ANSWERS"@ && w[2] == "TO"@ {
            Ok(about_question(CommandType::GetAnswers, w[3]))
        } else {
            Err(CommandError::InvalidGet)
        }
    } else if w[0] == "BELIEVE"@ || w[0] == "believe"@ {
        if w.len() < 2 {
            Err(CommandError::Incomplete)
        } else {
            Ok(about_source(CommandType::Believe, w[1]))
        }
    } else if w[0] == "CONFIGURE"@ || w[0] == "configure"@ {
        if w.len() < 3 {
            Err(CommandError::Incomplete)
        } else {
            Ok(
                CommandView {
                    config_key: Some(w[1]),
                    config_val: Some(joined(w.skip(2))),
                    ..bare(CommandType::Configure)
                },
            )
        }
    } else if w[0] == "TEST"@ || w[0] == "test"@ {
        if w.len() >= 4 && w[1] == "EQUALITY"@ {
            Ok(
                CommandView {
                    answer1: Some(w[2]),
                    answer2: Some(w[3]),
                    distribution: "default"@,
                    ..bare(CommandType::TestEquality)
                },
            )
        } else {
            Err(CommandError::InvalidTest)
        }
    } else {
        Err(CommandError::UnknownCommand)
    }
}

/// The line that writes a command; none where the command lacks a field of
/// its kind.
pub open spec fn written(c: CommandView) -> Option<Seq<char>> {
    match c.cmd {
        CommandType::SetAnswer => if c.question is Some && c.answer is Some && c.source is Some {
            Some("SET "@ + c.question->0 + " "@ + c.answer->0 + " FROM "@ + c.source->0)
        } else {
            None
        },
        CommandType::GetAnswer => if c.question is Some {
            Some("GET ANSWER TO "@ + c.question->0)
        } else {
            None
        },
        CommandType::GetSource => if c.source is Some {
            Some("GET SOURCE "@ + c.source->0)
        } else {
            None
        },
        CommandType::Believe => if c.source is Some {
            Some("BELIEVE "@ + c.source->0)
        } else {
            None
        },
        CommandType::Configure => if c.config_key is Some && c.config_val is Some {
            Some("CONFIGURE "@ + c.config_key->0 + " "@ + c.config_val->0)
        } else {
            None
        },
        CommandType::TestEquality => if c.answer1 is Some && c.answer2 is Some {
            Some("TEST EQUALITY "@ + c.answer1->0 + " "@ + c.answer2->0)
        } else {
            None
        },
        CommandType::GetAnswers => if c.question is Some {
            Some("GET ANSWERS TO "@ + c.question->0)
        } else {
            None
        },
        CommandType::Invalid => Some("INVALID"@),
    }
}

/// Whether `word` is the text `lit`.
fn is_word(word: &String, lit: &str) -> (r: bool)
    ensures
        r == (word@ == lit@),
{
    let other = String::from_str(lit);
    *word == other
}

impl Command {
    /// A command of kind `cmd` with every field empty.
    fn blank(cmd: CommandType) -> (c: Command)
        ensures
            c@ == bare(cmd),
    {
        Command {
            cmd,
            source: None,
            distribution: String::new(),
            question: None,
            answer: None,
            config_key: None,
            config_val: None,
            answer1: None,
            answer2: None,
        }
    }

    /// Reads a command from a line of text. The line is cut at white space.
    pub fn from(line: &str) -> (r: Result<Command, CommandError>)
        ensures
            match r {
                Ok(c) => parsed(split(line@, Separator::Whitespace, false)) == Ok::<
                    CommandView,
                    CommandError,
                >(c@),
                Err(e) => parsed(split(line@, Separator::Whitespace, false)) == Err::<
                    CommandView,
                    CommandError,
                >(e),
            },
    {
        let items = split_text(line, Separator::Whitespace, false);
        let ghost w = split(line@, Separator::Whitespace, false);
        assert(w == crate::text::texts(items@));
        assert(forall|i: int| 0 <= i < items.len() ==> #[trigger] w[i] == items@[i]@);
        let n: usize = items.len();
        if n == 0 {
            return Err(CommandError::Empty);
        }
        if is_word(&items[0], "SET") || is_word(&items[0], "set") {
            if n < 5 {
                return Err(CommandError::Incomplete);
            }
            let mut c = Command::blank(CommandType::SetAnswer);
            c.question = Some(items[1].clone());
            c.distribution = String::from_str("default");
            c.answer = Some(items[2].clone());
            c.source = Some(items[4].clone());
            Ok(c)
        } else if is_word(&items[0], "GET") || is_word(&items[0], "get") {
            if n >= 4 && is_word(&items[1], "ANSWER") && is_word(&items[2], "TO") {
                let mut c = Command::blank(CommandType::GetAnswer);
                c.question = Some(items[3].clone());
                c.distribution = String::from_str("default");
                Ok(c)
            } else if n >= 3 && is_word(&items[1], "SOURCE") {
                let mut c = Command::blank(CommandType::GetSource);
                c.source = Some(items[2].clone());
                c.distribution = String::from_str("default");
                Ok(c)
            } else if n >= 4 && is_word(&items[1], "ANSWERS") && is_word(&items[2], "TO") {
                let mut c = Command::blank(CommandType::GetAnswers);
                c.question = Some(items[3].clone());
                c.distribution = String::from_str("default");
                Ok(c)
            } else {
                Err(CommandError::InvalidGet)
            }
        } else if is_word(&items[0], "BELIEVE") || is_word(&items[0], "believe") {
            if n < 2 {
                return Err(CommandError::Incomplete);
            }
            let mut c = Command::blank(CommandType::Believe);
            c.source = Some(items[1].clone());
            c.distribution = String::from_str("default");
            Ok(c)
        } else if is_word(&items[0], "CONFIGURE") || is_word(&items[0], "configure") {
            if n < 3 {
                return Err(CommandError::Incomplete);
            }
            let mut c = Command::blank(CommandType::Configure);
            c.config_key = Some(items[1].clone());
            c.config_val = Some(join_from(&items, 2));
            Ok(c)
        } else if is_word(&items[0], "TEST") || is_word(&items[0], "test") {
            if n >= 4 && is_word(&items[1], "EQUALITY") {
                let mut c = Command::blank(CommandType::TestEquality);
                c.answer1 = Some(items[2].clone());
                c.answer2 = Some(items[3].clone());
                c.distribution = String::from_str("default");
                Ok(c)
            } else {
                Err(CommandError::InvalidTest)
            }
        } else {
            Err(CommandError::UnknownCommand)
        }
    }

    /// Writes the command as a line of text.
    pub fn to_text(&self) -> (r: Option<String>)
        ensures
            opt_text(r) == written(self@),
    {
        match self.cmd {
            CommandType::SetAnswer => match (&self.question, &self.answer, &self.source) {
                (Some(q), Some(a), Some(s)) => Some(
                    String::from_str("SET ").concat(q.as_str()).concat(" ").concat(
                        a.as_str(),
                    ).concat(" FROM ").concat(s.as_str()),
                ),
                _ => None,
            },
            CommandType::GetAnswer => match &self.question {
                Some(q) => Some(String::from_str("GET ANSWER TO ").concat(q.as_str())),
                None => None,
            },
            CommandType::GetSource => match &self.source {
                Some(s) => Some(String::from_str("GET SOURCE ").concat(s.as_str())),
                None => None,
            },
            CommandType::Believe => match &self.source {
                Some(s) => Some(String::from_str("BELIEVE ").concat(s.as_str())),
                None => None,
            },
            CommandType::Configure => match (&self.config_key, &self.config_val) {
                (Some(k), Some(v)) => Some(
                    String::from_str("CONFIGURE ").concat(k.as_str()).concat(" ").concat(
                        v.as_str(),
                    ),
                ),
                _ => None,
            },
            CommandType::TestEquality => match (&self.answer1, &self.answer2) {
                (Some(a), Some(b)) => Some(
                    String::from_str("TEST EQUALITY ").concat(a.as_str()).concat(" ").concat(
                        b.as_str(),
                    ),
                ),
                _ => None,
            },
            CommandType::GetAnswers => match &self.question {
                Some(q) => Some(String::from_str("GET ANSWERS TO ").concat(q.as_str())),
                None => None,
            },
            CommandType::Invalid => Some(String::from_str("INVALID")),
        }
    }
}

impl Default for Command {
    fn default() -> (c: Command)
        ensures
            c@ == bare(CommandType::Invalid),
    {
        Command::blank(CommandType::Invalid)
    }
}

/// The 64-bit MetroHash fingerprint of a text: what `fasthash::metro::hash64`
/// returns for its bytes.
pub uninterp spec fn metro_hash64(content: Seq<char>) -> u64;

/// Calls `fasthash::metro::hash64` on the bytes of `content`: MetroHash64
/// with the seed zero, in the variant that the features of `fasthash`
/// select. The contract claims only that the fingerprint is a function of
/// the text; nothing is proved of its value.
#[verifier::external_body]
fn fingerprint(content: &str) -> (h: u64)
    ensures
        h == metro_hash64(content@),
{
    fasthash::metro::hash64(content.as_bytes())
}

/// An answer that a source gave. It does not change once made.
#[derive(Debug, Clone)]
pub struct Answer {
    pub hash: u64,
    pub content: String,
    pub source: String,
}

impl Answer {
    /// The answer `content` as given by `source`, with the fingerprint of its
    /// content.
    pub fn new(content: String, source: String) -> (a: Answer)
        ensures
            a.content@ == content@,
            a.source@ == source@,
            a.hash == metro_hash64(content@),
    {
        let hash = fingerprint(content.as_str());
        Answer { hash, content, source }
    }

    /// Whether the answer carries the fingerprint of its content.
    pub open spec fn well_marked(&self) -> bool {
        self.hash == metro_hash64(self.content@)
    }

    /// Decides whether the answer carries the fingerprint of its content.
    pub fn is_well_marked(&self) -> (r: bool)
        ensures
            r == self.well_marked(),
    {
        fingerprint(self.content.as_str()) == self.hash
    }

    /// Whether the two answers have the same content, source and
    /// fingerprint.
    pub open spec fn matches_answer(&self, other: &Answer) -> bool {
        self.hash == other.hash && self.content@ == other.content@ && self.source@ == other.source@
    }

    /// Decides whether the two answers have the same content, source and
    /// fingerprint.
    pub fn same_as(&self, other: &Answer) -> (r: bool)
        ensures
            r == self.matches_answer(other),
    {
        self.hash == other.hash && self.content == other.content && self.source == other.source
    }

    /// A copy of this answer.
    pub fn duplicate(&self) -> (a: Answer)
        ensures
            a == *self,
    {
        Answer { hash: self.hash, content: self.content.clone(), source: self.source.clone() }
    }
}

/// An answer with the confidence in the cluster that holds it.
#[derive(Debug)]
pub struct AnswerConfidencePair<N: Scalar> {
    pub answer: String,
    pub confidence: N,
}

/// What a command returns: its kind, and the fields that the kind fills.
#[derive(Debug)]
pub struct CommandResponse<N: Scalar> {
    pub cmd: CommandType,
    pub answer: Option<String>,
    pub confidence: Option<N>,
    pub quality: Option<N>,
    pub distance: Option<Distance<N>>,
    pub answers: Option<Vec<AnswerConfidencePair<N>>>,
}

impl<N: Scalar> CommandResponse<N> {
    /// Whether the response holds its kind and nothing else.
    pub open spec fn is_bare(&self) -> bool {
        &&& self.answer is None
        &&& self.confidence is None
        &&& self.quality is None
        &&& self.distance is None
        &&& self.answers is None
    }

    /// A response of kind `cmd` with no field filled.
    pub fn tagged(cmd: CommandType) -> (r: Self)
        ensures
            r.cmd == cmd,
            r.is_bare(),
    {
        CommandResponse {
            cmd,
            answer: None,
            confidence: None,
            quality: None,
            distance: None,
            answers: None,
        }
    }
}

} // verus!
