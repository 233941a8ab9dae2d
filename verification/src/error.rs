//! Messages of the compiler.

use crate::opaque;
use crate::order::same_text;
use colored::Colorize;
use vstd::prelude::*;

verus! {

/// The colour of a message.
#[derive(Clone, Copy, Debug, PartialEq, Eq, Structural)]
pub enum Colour {
    Red,
    Yellow,
}

impl Colour {
    /// The sequence that starts the colour on a terminal.
    pub open spec fn sequence(self) -> Seq<char> {
        match self {
            Colour::Red => "\u{1b}[31m"@,
            Colour::Yellow => "\u{1b}[33m"@,
        }
    }
}

/// Why a JSON value is no severity.
#[derive(Clone, Debug, PartialEq, Eq)]
pub enum SeverityError {
    /// The value is not a string.
    NotText,
    /// The value is a string of some other word. The message says so.
    Unknown(String),
}

/// How severe a message is.
#[derive(Clone, Debug, PartialEq, Eq, Hash, Structural)]
pub enum Severity {
    Error,
    Warning,
    Info,
}

impl Severity {
    /// The word that the compiler uses.
    pub open spec fn word(self) -> Seq<char> {
        match self {
            Severity::Error => "error"@,
            Severity::Warning => "warning"@,
            Severity::Info => "info"@,
        }
    }

    /// The word that is shown.
    pub open spec fn label(self) -> Seq<char> {
        match self {
            Severity::Error => "Error"@,
            Severity::Warning => "Warning"@,
            Severity::Info => "Info"@,
        }
    }

    /// The severity that the compiler means by a word, if any.
    pub open spec fn meant(word: Seq<char>) -> Option<Severity> {
        if exists|s: Severity| #[trigger] s.word() == word {
            Some(choose|s: Severity| #[trigger] s.word() == word)
        } else {
            None
        }
    }

    /// The severity that a JSON value stands for: a string of the compiler's word for it.
    pub open spec fn read(value: serde_json::Value) -> Option<Severity> {
        match opaque::json_text(value) {
            Some(word) => Severity::meant(word),
            None => None,
        }
    }

    /// Whether this is an error.
    pub fn is_error(&self) -> (b: bool)
        ensures
            b == (*self is Error),
    {
        matches!(self, Severity::Error)
    }

    /// Whether this is a warning.
    pub fn is_warning(&self) -> (b: bool)
        ensures
            b == (*self is Warning),
    {
        matches!(self, Severity::Warning)
    }

    /// Whether this is just for information.
    pub fn is_info(&self) -> (b: bool)
        ensures
            b == (*self is Info),
    {
        matches!(self, Severity::Info)
    }

    /// The word that is shown.
    pub fn to_string(&self) -> (label: String)
        ensures
            label@ == self.label(),
    {
        let label = match self {
            Severity::Error => "Error",
            Severity::Warning => "Warning",
            Severity::Info => "Info",
        };
        label.to_owned()
    }

    /// The word that the compiler uses.
    pub fn as_str(&self) -> (word: &'static str)
        ensures
            word@ == self.word(),
    {
        match self {
            Severity::Error => "error",
            Severity::Warning => "warning",
            Severity::Info => "info",
        }
    }

    /// The colour of messages: red for errors, yellow for all others.
    pub fn colour(&self) -> (colour: Colour)
        ensures
            colour == (if *self is Error {
                Colour::Red
            } else {
                Colour::Yellow
            }),
    {
        match self {
            Severity::Error => Colour::Red,
            Severity::Warning | Severity::Info => Colour::Yellow,
        }
    }

    /// Reads a severity from a JSON value.
    pub fn from_value(value: &serde_json::Value) -> (result: Result<Self, SeverityError>)
        ensures
            match result {
                Ok(severity) => Severity::read(*value) == Some(severity),
                Err(error) => Severity::read(*value) is None && match opaque::json_text(*value) {
                    Some(word) => error matches SeverityError::Unknown(message) && message@
                        == "Invalid severity: "@ + word,
                    None => error is NotText,
                },
            },
    {
        match value.as_str() {
            Some(word) => match <Severity as std::str::FromStr>::from_str(word) {
                Ok(severity) => Ok(severity),
                Err(message) => Err(SeverityError::Unknown(message)),
            },
            None => Err(SeverityError::NotText),
        }
    }
}

impl std::str::FromStr for Severity {
    type Err = String;

    fn from_str(s: &str) -> (result: Result<Self, Self::Err>)
        ensures
            match result {
                Ok(severity) => Severity::meant(s@) == Some(severity),
                Err(message) => Severity::meant(s@) is None && message@ == "Invalid severity: "@
                    + s@,
            },
    {
        let severity = if same_text(s, "error") {
            Severity::Error
        } else if same_text(s, "warning") {
            Severity::Warning
        } else if same_text(s, "info") {
            Severity::Info
        } else {
            return Err("Invalid severity: ".to_owned().concat(s));
        };
        proof {
            lemma_meant(severity);
        }
        Ok(severity)
    }
}

/// A severity is what its word means.
pub proof fn lemma_meant(s: Severity)
    ensures
        Severity::meant(s.word()) == Some(s),
{
    reveal_strlit("error");
    reveal_strlit("warning");
    reveal_strlit("info");
    let t = choose|t: Severity| #[trigger] t.word() == s.word();
    assert(t.word().len() == s.word().len());
}

/// The severity that a word means has that word.
pub proof fn lemma_meant_has_word(word: Seq<char>, s: Severity)
    requires
        Severity::meant(word) == Some(s),
    ensures
        s.word() == word,
{
}

/// A JSON value reads as a severity just if it is a string of its word.
pub proof fn lemma_read(value: serde_json::Value, s: Severity)
    ensures
        Severity::read(value) == Some(s) <==> opaque::json_text(value) == Some(s.word()),
{
    lemma_meant(s);
}

/// A place in a source file.
#[derive(Clone, Debug, PartialEq, Eq, Hash)]
pub struct SourceLocation {
    pub file: String,
    pub start: i32,
    pub end: i32,
}

/// A further place that a message is about.
#[derive(Clone, Debug, PartialEq, Eq, Hash)]
pub struct SecondarySourceLocation {
    pub file: Option<String>,
    pub start: Option<i32>,
    pub end: Option<i32>,
    pub message: Option<String>,
}

/// A message of the compiler.
#[derive(Clone, Debug, PartialEq, Eq, Hash)]
pub struct Error {
    pub source_location: Option<SourceLocation>,
    pub secondary_source_locations: Vec<SecondarySourceLocation>,
    /// The type of the message, such as `DeclarationError`.
    pub error_type: String,
    pub component: String,
    pub severity: Severity,
    pub error_code: Option<u64>,
    pub message: String,
    pub formatted_message: Option<String>,
}

/// The sequence that ends colouring on a terminal.
pub open spec fn reset() -> Seq<char> {
    "\u{1b}[0m"@
}

/// A text with a colour started again behind each [`reset`] in it.
pub open spec fn restarted(text: Seq<char>, colour: Seq<char>) -> Seq<char>
    decreases text.len(),
{
    if text.len() == 0 {
        text
    } else {
        let more = restarted(text.drop_last(), colour).push(text.last());
        if reset().is_suffix_of(text) {
            more + colour
        } else {
            more
        }
    }
}

/// Whether `shown` is `text` in a colour, as far as colouring is on: the text as it is, or
/// between the colour's sequence and [`reset`], with the colour started again wherever the text
/// itself ends colouring. Colouring can be switched while the text is being written, so either of
/// the two may be missing.
pub open spec fn tinted(shown: Seq<char>, text: Seq<char>, colour: Seq<char>) -> bool {
    ||| shown == text
    ||| shown == colour + restarted(text, colour) + reset()
    ||| shown == colour + text + reset()
    ||| shown == restarted(text, colour) + reset()
    ||| shown == text + reset()
}

/// Writes a text in red, with `red` of `colored::Colorize` and the `Display` of what it returns.
/// Whether there is colour rests on the environment and the terminal.
#[verifier::external_body]
fn paint_red(text: &str) -> (shown: String)
    ensures
        tinted(shown@, text@, Colour::Red.sequence()),
{
    text.red().to_string()
}

/// Writes a text in yellow, with `yellow` of `colored::Colorize` and the `Display` of what it
/// returns. Whether there is colour rests on the environment and the terminal.
#[verifier::external_body]
fn paint_yellow(text: &str) -> (shown: String)
    ensures
        tinted(shown@, text@, Colour::Yellow.sequence()),
{
    text.yellow().to_string()
}

impl Error {
    /// What is shown of a message: the text that the compiler formatted, in red for an error and
    /// in yellow otherwise, or else a line with the severity and the message.
    pub fn to_string(&self) -> (shown: String)
        ensures
            match (self.formatted_message, self.severity) {
                (Some(text), Severity::Error) => tinted(shown@, text@, Colour::Red.sequence()),
                (Some(text), _) => tinted(shown@, text@, Colour::Yellow.sequence()),
                (None, severity) => shown@ == severity.label() + ": "@ + self.message@ + "\n"@,
            },
    {
        match &self.formatted_message {
            Some(text) => match self.severity.colour() {
                Colour::Red => paint_red(text.as_str()),
                Colour::Yellow => paint_yellow(text.as_str()),
            },
            None => self.severity.to_string().concat(": ").concat(self.message.as_str()).concat(
                "\n",
            ),
        }
    }
}

/// A text without escape characters is shown as it is, with the colour's sequence before it or
/// not, and then maybe with the sequence behind it that ends colouring.
pub proof fn lemma_tinted_plain(shown: Seq<char>, text: Seq<char>, colour: Seq<char>)
    requires
        !text.contains('\u{1b}'),
    ensures
        tinted(shown, text, colour) <==> shown == text || shown == text + "\u{1b}[0m"@ || shown
            == colour + text + "\u{1b}[0m"@,
{
    lemma_restarted_plain(text, colour);
}

/// In a text without escape characters no colour starts again.
proof fn lemma_restarted_plain(text: Seq<char>, colour: Seq<char>)
    requires
        !text.contains('\u{1b}'),
    ensures
        restarted(text, colour) == text,
    decreases text.len(),
{
    reveal_strlit("\u{1b}[0m");
    if text.len() > 0 {
        let front = text.drop_last();
        assert(!front.contains('\u{1b}')) by {
            if front.contains('\u{1b}') {
                let i = choose|i: int| 0 <= i < front.len() && front[i] == '\u{1b}';
                assert(text[i] == '\u{1b}');
            }
        }
        lemma_restarted_plain(front, colour);
        if reset().is_suffix_of(text) {
            assert(reset()[0] == text.subrange(text.len() - 4, text.len() as int)[0]);
            assert(text[text.len() - 4] == '\u{1b}');
        }
        assert(front.push(text.last()) =~= text);
    }
}

/// Behind a sequence that ends colouring, and only there, the colour starts again.
pub proof fn lemma_restarted_behind_reset(before: Seq<char>, after: Seq<char>, colour: Seq<char>)
    requires
        !after.contains('\u{1b}'),
    ensures
        restarted(before + "\u{1b}[0m"@ + after, colour) == restarted(before, colour)
            + "\u{1b}[0m"@ + colour + after,
    decreases after.len(),
{
    reveal_strlit("\u{1b}[0m");
    let ended = before + reset();
    let whole = ended + after;
    if after.len() == 0 {
        let one = before.push('\u{1b}');
        let two = one.push('[');
        let three = two.push('0');
        let four = three.push('m');
        assert(whole =~= four);
        assert(ended =~= four);
        assert(four.drop_last() =~= three);
        assert(three.drop_last() =~= two);
        assert(two.drop_last() =~= one);
        assert(one.drop_last() =~= before);
        lemma_no_reset(one);
        lemma_no_reset(two);
        lemma_no_reset(three);
        assert(reset() =~= four.subrange(four.len() - 4, four.len() as int));
        let start = restarted(before, colour);
        assert(restarted(one, colour) == start.push('\u{1b}'));
        assert(restarted(two, colour) == start.push('\u{1b}').push('['));
        assert(restarted(three, colour) == start.push('\u{1b}').push('[').push('0'));
        assert(restarted(four, colour) == start.push('\u{1b}').push('[').push('0').push('m')
            + colour);
        assert(start.push('\u{1b}').push('[').push('0').push('m') =~= start + reset());
        assert(restarted(whole, colour) =~= restarted(before, colour) + reset() + colour + after);
    } else {
        let front = after.drop_last();
        assert(!front.contains('\u{1b}')) by {
            if front.contains('\u{1b}') {
                let i = choose|i: int| 0 <= i < front.len() && front[i] == '\u{1b}';
                assert(after[i] == '\u{1b}');
            }
        }
        lemma_restarted_behind_reset(before, front, colour);
        assert(whole.drop_last() =~= ended + front);
        assert(whole.last() == after.last());
        if reset().is_suffix_of(whole) {
            let at = whole.len() - 4;
            assert(reset()[0] == whole.subrange(at, whole.len() as int)[0]);
            assert(whole[at] == '\u{1b}');
            if at >= ended.len() {
                assert(after[at - ended.len()] == '\u{1b}');
            } else {
                assert(reset()[at - before.len()] == '\u{1b}');
            }
        }
        assert(restarted(whole, colour) =~= restarted(before, colour) + reset() + colour + after);
    }
}

/// A text that does not end in an `m` does not end colouring.
proof fn lemma_no_reset(text: Seq<char>)
    requires
        text.len() > 0,
        text.last() != 'm',
    ensures
        !reset().is_suffix_of(text),
{
    reveal_strlit("\u{1b}[0m");
    if reset().is_suffix_of(text) {
        assert(reset()[3] == text.subrange(text.len() - 4, text.len() as int)[3]);
    }
}

} // verus!
