//! State behind the interactive front end's prompts and message dialogs: what an
//! input prompt starts with and is for, and what a dialog shows.

use vstd::prelude::*;
use crate::text::push_char;

verus! {

/// Which part of a response a save writes out.
#[derive(Clone, Copy, Debug, PartialEq, Eq, Structural)]
pub enum SaveOption {
    All,
    Body,
}

impl Default for SaveOption {
    fn default() -> (r: SaveOption)
        ensures
            r == SaveOption::All,
    {
        SaveOption::All
    }
}

/// What the text typed into a prompt is for.
#[derive(Clone, Debug, PartialEq, Eq)]
pub enum InputType {
    /// The name of a file to save a response into.
    FileName(SaveOption),
    /// The new value of the named variable.
    VarValue(String),
}

/// The initial state of an input prompt.
#[derive(Clone, Debug, PartialEq, Eq)]
pub struct InputBuilder {
    content: String,
    cursor: Option<usize>,
    typ: InputType,
}

impl View for InputBuilder {
    type V = (Seq<char>, Option<usize>, InputType);

    closed spec fn view(&self) -> (Seq<char>, Option<usize>, InputType) {
        (self.content@, self.cursor, self.typ)
    }
}

impl InputBuilder {
    /// An empty prompt, with no cursor position set.
    pub fn new(typ: InputType) -> (r: InputBuilder)
        ensures
            r@ == (Seq::<char>::empty(), None::<usize>, typ),
    {
        InputBuilder { content: String::new(), cursor: None, typ }
    }

    /// The same prompt, starting with `content`.
    pub fn with_content(self, content: String) -> (r: InputBuilder)
        ensures
            r@ == (content@, self@.1, self@.2),
    {
        InputBuilder { content, ..self }
    }

    /// The same prompt, with its cursor at `cursor`.
    pub fn with_cursor(self, cursor: usize) -> (r: InputBuilder)
        ensures
            r@ == (self@.0, Some(cursor), self@.2),
    {
        InputBuilder { cursor: Some(cursor), ..self }
    }

    pub fn content(&self) -> (r: &String)
        ensures
            r@ == self@.0,
    {
        &self.content
    }

    pub fn cursor(&self) -> (r: Option<usize>)
        ensures
            r == self@.1,
    {
        self.cursor
    }

    pub fn typ(&self) -> (r: &InputType)
        ensures
            *r == self@.2,
    {
        &self.typ
    }
}

/// A message for the user.
#[derive(Clone, Debug, PartialEq, Eq)]
pub enum Message {
    Info(String),
    Error(String),
}

/// A dialog that shows one message.
#[derive(Clone, Debug, PartialEq, Eq)]
pub struct MessageDialog {
    content: Message,
}

/// The title text of a dialog: the word with a space on each side.
pub open spec fn framed(word: Seq<char>) -> Seq<char> {
    seq![' '] + word + seq![' ']
}

impl MessageDialog {
    pub fn new(message: Message) -> (r: MessageDialog)
        ensures
            r.message() == message,
    {
        MessageDialog { content: message }
    }

    pub closed spec fn message(&self) -> Message {
        self.content
    }

    fn format_title(title: &str) -> (r: String)
        ensures
            r@ == framed(title@),
    {
        let mut r = String::new();
        push_char(&mut r, ' ');
        r.append(title);
        push_char(&mut r, ' ');
        r
    }

    /// The dialog's title: ` info ` or ` error ` after the kind of message.
    pub fn title(&self) -> (r: String)
        ensures
            r@ == framed(
                match self.message() {
                    Message::Info(_) => "info"@,
                    Message::Error(_) => "error"@,
                },
            ),
    {
        match &self.content {
            Message::Info(_) => MessageDialog::format_title("info"),
            Message::Error(_) => MessageDialog::format_title("error"),
        }
    }

    /// The text of the message.
    pub fn text(&self) -> (r: &String)
        ensures
            r == match self.message() {
                Message::Info(s) => s,
                Message::Error(s) => s,
            },
    {
        match &self.content {
            Message::Info(s) => s,
            Message::Error(s) => s,
        }
    }
}

} // verus!
