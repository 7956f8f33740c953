//! The commands of the wire protocol: their parsed form, the parser, and the
//! canonical text that is sent when a command is forwarded to another node.

use crate::text::{
    is_word, join, joined, lemma_words_are_words, lemma_words_of_joined,
    lemma_words_trailing_space, same_text, split_whitespace, words,
};
use vstd::prelude::*;
use vstd::string::*;

verus! {

/// A parsed request.
#[derive(Debug)]
pub enum Command {
    Put(String, String),
    Read(String),
    ReadKeyByRange(String, String),
    /// The tokens after the keyword; adjacent tokens pair up into key and value.
    BatchPut(Vec<String>),
    Delete(String),
}

/// The mathematical content of a [`Command`].
pub enum CommandView {
    Put(Seq<char>, Seq<char>),
    Read(Seq<char>),
    ReadKeyByRange(Seq<char>, Seq<char>),
    BatchPut(Seq<Seq<char>>),
    Delete(Seq<char>),
}

impl View for Command {
    type V = CommandView;

    open spec fn view(&self) -> CommandView {
        match self {
            Command::Put(k, v) => CommandView::Put(k@, v@),
            Command::Read(k) => CommandView::Read(k@),
            Command::ReadKeyByRange(a, b) => CommandView::ReadKeyByRange(a@, b@),
            Command::BatchPut(ts) => CommandView::BatchPut(ts.deep_view()),
            Command::Delete(k) => CommandView::Delete(k@),
        }
    }
}

/// The command that a sequence of words stands for, if any: a keyword
/// followed by exactly the arguments it takes (any number for `BATCHPUT`).
pub open spec fn command_of_words(w: Seq<Seq<char>>) -> Option<CommandView> {
    if w.len() == 3 && w[0] == "PUT"@ {
        Some(CommandView::Put(w[1], w[2]))
    } else if w.len() == 2 && w[0] == "READ"@ {
        Some(CommandView::Read(w[1]))
    } else if w.len() == 3 && w[0] == "READRANGE"@ {
        Some(CommandView::ReadKeyByRange(w[1], w[2]))
    } else if w.len() >= 1 && w[0] == "BATCHPUT"@ {
        Some(CommandView::BatchPut(w.skip(1)))
    } else if w.len() == 2 && w[0] == "DELETE"@ {
        Some(CommandView::Delete(w[1]))
    } else {
        None
    }
}

/// The command that a request text stands for, if any.
pub open spec fn parse(s: Seq<char>) -> Option<CommandView> {
    command_of_words(words(s))
}

impl CommandView {
    /// The keyword and the arguments, in the order in which they are written.
    pub open spec fn tokens(self) -> Seq<Seq<char>> {
        match self {
            CommandView::Put(k, v) => seq!["PUT"@, k, v],
            CommandView::Read(k) => seq!["READ"@, k],
            CommandView::ReadKeyByRange(a, b) => seq!["READRANGE"@, a, b],
            CommandView::BatchPut(ts) => seq!["BATCHPUT"@] + ts,
            CommandView::Delete(k) => seq!["DELETE"@, k],
        }
    }

    /// The canonical text: the tokens separated by single blanks.
    pub open spec fn text(self) -> Seq<char> {
        joined(self.tokens(), seq![' '])
    }

    /// Every argument is a word, so that the text can be split again.
    pub open spec fn well_formed(self) -> bool {
        forall|i: int| 1 <= i < self.tokens().len() ==> is_word(#[trigger] self.tokens()[i])
    }
}

impl TryFrom<&str> for Command {
    type Error = String;

    /// Parses one request. The text is split at white space; the first word
    /// selects the command and fixes how many arguments must follow.
    fn try_from(s: &str) -> (r: Result<Command, String>)
        ensures
            match parse(s@) {
                Some(c) => r is Ok && r->Ok_0@ == c,
                None => r is Err && r->Err_0@ == "Invalid command format"@,
            },
    {
        let mut parts = split_whitespace(s);
        let n = parts.len();
        let ghost w = parts.deep_view();
        if n == 3 && same_text(parts[0].as_str(), "PUT") {
            Ok(Command::Put(parts[1].clone(), parts[2].clone()))
        } else if n == 2 && same_text(parts[0].as_str(), "READ") {
            Ok(Command::Read(parts[1].clone()))
        } else if n == 3 && same_text(parts[0].as_str(), "READRANGE") {
            Ok(Command::ReadKeyByRange(parts[1].clone(), parts[2].clone()))
        } else if n >= 1 && same_text(parts[0].as_str(), "BATCHPUT") {
            parts.remove(0);
            assert(parts.deep_view() == w.skip(1));
            Ok(Command::BatchPut(parts))
        } else if n == 2 && same_text(parts[0].as_str(), "DELETE") {
            Ok(Command::Delete(parts[1].clone()))
        } else {
            Err(String::from_str("Invalid command format"))
        }
    }
}

/// What `try_from` returns is stated on `try_from` itself, over [`parse`] and
/// the views. No string can be made in a specification, so the function that
/// would name the result as a value is left without meaning.
impl vstd::std_specs::convert::TryFromSpecImpl<&str> for Command {
    open spec fn obeys_try_from_spec() -> bool {
        false
    }

    open spec fn try_from_spec(s: &str) -> Result<Command, String> {
        arbitrary()
    }
}

impl Command {
    /// The canonical text of the command, as it is written to a peer.
    pub fn to_string(&self) -> (out: String)
        ensures
            out@ == self@.text(),
    {
        let mut tokens: Vec<String> = Vec::new();
        match self {
            Command::Put(k, v) => {
                tokens.push(String::from_str("PUT"));
                tokens.push(k.clone());
                tokens.push(v.clone());
            },
            Command::Read(k) => {
                tokens.push(String::from_str("READ"));
                tokens.push(k.clone());
            },
            Command::ReadKeyByRange(a, b) => {
                tokens.push(String::from_str("READRANGE"));
                tokens.push(a.clone());
                tokens.push(b.clone());
            },
            Command::BatchPut(ts) => {
                tokens.push(String::from_str("BATCHPUT"));
                let mut i: usize = 0;
                while i < ts.len()
                    invariant
                        i <= ts.len(),
                        tokens.deep_view() == seq!["BATCHPUT"@] + ts.deep_view().take(i as int),
                    decreases ts.len() - i,
                {
                    let ghost before = tokens.deep_view();
                    tokens.push(ts[i].clone());
                    assert(tokens.deep_view() == before.push(ts@[i as int]@));
                    assert(ts.deep_view().take(i + 1) == ts.deep_view().take(i as int).push(
                        ts@[i as int]@,
                    ));
                    i += 1;
                }
                assert(ts.deep_view().take(ts.len() as int) == ts.deep_view());
            },
            Command::Delete(k) => {
                tokens.push(String::from_str("DELETE"));
                tokens.push(k.clone());
            },
        }
        assert(tokens.deep_view() == self@.tokens());
        proof {
            reveal_strlit(" ");
            assert(" "@ == seq![' ']);
        }
        join(&tokens, " ")
    }
}

/// The five keywords are words of five different lengths, so that no two of
/// them are equal.
pub proof fn lemma_keywords()
    ensures
        is_word("PUT"@),
        is_word("READ"@),
        is_word("READRANGE"@),
        is_word("BATCHPUT"@),
        is_word("DELETE"@),
        "PUT"@.len() == 3,
        "READ"@.len() == 4,
        "READRANGE"@.len() == 9,
        "BATCHPUT"@.len() == 8,
        "DELETE"@.len() == 6,
{
    reveal_strlit("PUT");
    reveal_strlit("READ");
    reveal_strlit("READRANGE");
    reveal_strlit("BATCHPUT");
    reveal_strlit("DELETE");
}

/// Writing a command and parsing the text gives the command back, also when
/// the text is followed by a line feed, as it is on the wire.
pub proof fn lemma_parse_text(c: CommandView)
    requires
        c.well_formed(),
    ensures
        parse(c.text()) == Some(c),
        parse(c.text().push('\n')) == Some(c),
{
    lemma_keywords();
    let t = c.tokens();
    assert forall|i: int| 0 <= i < t.len() implies is_word(#[trigger] t[i]) by {
        if i >= 1 {
            assert(is_word(c.tokens()[i]));
        }
    }
    lemma_words_of_joined(t);
    lemma_words_trailing_space(c.text(), '\n');
    match c {
        CommandView::BatchPut(ts) => {
            assert(t.skip(1) == ts);
        },
        _ => {},
    }
}

/// What the parser accepts is well formed: its text parses to it again.
pub proof fn lemma_parsed_is_well_formed(s: Seq<char>)
    requires
        parse(s) is Some,
    ensures
        parse(s)->Some_0.well_formed(),
{
    lemma_words_are_words(s);
    let w = words(s);
    let c = parse(s)->Some_0;
    assert forall|i: int| 1 <= i < c.tokens().len() implies is_word(#[trigger] c.tokens()[i]) by {
        assert(c.tokens()[i] == w[i]);
    }
}

} // verus!
