//! The command line of the store: a line is either `set <key> <value>` or
//! `get <key>`, its words parted by whitespace, the command word in any case.

use vstd::prelude::*;
use vstd::slice::*;
use vstd::string::*;
use vstd::utf8::*;

verus! {

/// What a command asks for.
#[derive(Debug, Clone, Copy, PartialEq, Eq, Structural)]
pub enum InputCommandType {
    Get,
    Put,
}

/// A command: what it asks for, the key, and the value, which is empty
/// where a `get` names none.
#[derive(Debug)]
pub struct InputCommand {
    command: InputCommandType,
    key: String,
    value: String,
}

/// The mathematical content of an [`InputCommand`].
pub struct InputCommandView {
    pub command: InputCommandType,
    pub key: Seq<char>,
    pub value: Seq<char>,
}

/// Why a line is no command.
#[derive(Debug)]
pub enum InputError {
    /// The first word, given here, is neither `set` nor `get`; it is empty
    /// where the line has no word.
    UnknownCommand(String),
    /// The key is missing, or the value of a `set`.
    MissingArgument,
}

/// The mathematical content of an [`InputError`].
pub enum InputErrorView {
    UnknownCommand(Seq<char>),
    MissingArgument,
}

impl View for InputCommand {
    type V = InputCommandView;

    closed spec fn view(&self) -> InputCommandView {
        InputCommandView { command: self.command, key: self.key@, value: self.value@ }
    }
}

impl View for InputError {
    type V = InputErrorView;

    open spec fn view(&self) -> InputErrorView {
        match self {
            InputError::UnknownCommand(word) => InputErrorView::UnknownCommand(word@),
            InputError::MissingArgument => InputErrorView::MissingArgument,
        }
    }
}

/// The words of a line: its maximal stretches without whitespace, as
/// `str::split_whitespace` yields them.
pub uninterp spec fn words_of(line: Seq<char>) -> Seq<Seq<char>>;

/// `str::split_whitespace`, each word made into a string of its own. The
/// contract names the words that it yields.
#[verifier::external_body]
fn split_words(line: &str) -> (words: Vec<String>)
    ensures
        word_texts(words@) == words_of(line@),
{
    line.split_whitespace().map(|word| word.to_string()).collect()
}

/// The words as texts.
pub open spec fn word_texts(words: Seq<String>) -> Seq<Seq<char>> {
    Seq::new(words.len(), |i: int| words[i]@)
}

/// The byte with an ASCII capital letter made small.
pub open spec fn small(byte: u8) -> u8 {
    if 65 <= byte <= 90 {
        (byte + 32) as u8
    } else {
        byte
    }
}

/// `word` spells the three letters, in any case.
pub open spec fn spells(word: Seq<u8>, first: u8, second: u8, third: u8) -> bool {
    word.len() == 3 && small(word[0]) == first && small(word[1]) == second && small(word[2])
        == third
}

/// The command that a word stands for: `set` or `get`, in any case.
pub open spec fn command_of(word: Seq<char>) -> Option<InputCommandType> {
    if spells(encode_utf8(word), 115, 101, 116) {
        Some(InputCommandType::Put)
    } else if spells(encode_utf8(word), 103, 101, 116) {
        Some(InputCommandType::Get)
    } else {
        None
    }
}

/// What the words of a line mean: the command that they spell, or why they
/// spell none. The first word names the command, the second is the key, the
/// third the value; a `set` needs all three, a `get` the first two.
pub open spec fn parsed(words: Seq<Seq<char>>) -> Result<InputCommandView, InputErrorView> {
    if words.len() == 0 {
        Err(InputErrorView::UnknownCommand(Seq::empty()))
    } else {
        match command_of(words[0]) {
            None => Err(InputErrorView::UnknownCommand(words[0])),
            Some(command) => if words.len() == 1 {
                Err(InputErrorView::MissingArgument)
            } else if words.len() == 2 {
                match command {
                    InputCommandType::Put => Err(InputErrorView::MissingArgument),
                    InputCommandType::Get => Ok(
                        InputCommandView { command, key: words[1], value: Seq::empty() },
                    ),
                }
            } else {
                Ok(InputCommandView { command, key: words[1], value: words[2] })
            },
        }
    }
}

/// The content of what parsing returned.
pub open spec fn parsed_view(r: Result<InputCommand, InputError>) -> Result<
    InputCommandView,
    InputErrorView,
> {
    match r {
        Ok(command) => Ok(command@),
        Err(e) => Err(e@),
    }
}

fn make_small(byte: u8) -> (b: u8)
    ensures
        b == small(byte),
{
    if 65 <= byte && byte <= 90 {
        byte + 32
    } else {
        byte
    }
}

fn word_spells(word: &[u8], first: u8, second: u8, third: u8) -> (b: bool)
    ensures
        b == spells(word@, first, second, third),
{
    word.len() == 3 && make_small(word[0]) == first && make_small(word[1]) == second && make_small(
        word[2],
    ) == third
}

/// The command that a word stands for.
pub fn command_type(word: &String) -> (command: Option<InputCommandType>)
    ensures
        command == command_of(word@),
{
    let bytes = word.as_str().as_bytes();
    if word_spells(bytes, 115, 101, 116) {
        Some(InputCommandType::Put)
    } else if word_spells(bytes, 103, 101, 116) {
        Some(InputCommandType::Get)
    } else {
        None
    }
}

impl InputCommand {
    /// What the command asks for.
    pub fn command(&self) -> (command: InputCommandType)
        ensures
            command == self@.command,
    {
        self.command
    }

    /// The key.
    pub fn key(&self) -> (key: &String)
        ensures
            key@ == self@.key,
    {
        &self.key
    }

    /// The value; empty where a `get` names none.
    pub fn value(&self) -> (value: &String)
        ensures
            value@ == self@.value,
    {
        &self.value
    }

    /// The command that the words of a line spell.
    pub fn from_words(words: &Vec<String>) -> (r: Result<InputCommand, InputError>)
        ensures
            parsed_view(r) == parsed(word_texts(words@)),
    {
        if words.len() == 0 {
            return Err(InputError::UnknownCommand(String::new()));
        }
        let command = match command_type(&words[0]) {
            Some(command) => command,
            None => {
                return Err(InputError::UnknownCommand(words[0].clone()));
            },
        };
        if words.len() == 1 {
            return Err(InputError::MissingArgument);
        }
        let key = words[1].clone();
        let value = if words.len() == 2 {
            match command {
                InputCommandType::Put => {
                    return Err(InputError::MissingArgument);
                },
                InputCommandType::Get => String::new(),
            }
        } else {
            words[2].clone()
        };
        Ok(InputCommand { command, key, value })
    }

    /// The command that a line spells.
    pub fn parse(line: &str) -> (r: Result<InputCommand, InputError>)
        ensures
            parsed_view(r) == parsed(words_of(line@)),
    {
        let words = split_words(line);
        InputCommand::from_words(&words)
    }
}

} // verus!
