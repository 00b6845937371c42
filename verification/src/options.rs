//! What the user of the runner can choose.

use vstd::prelude::*;

verus! {

/// When the console output is coloured.
#[derive(Clone, Copy, Debug, PartialEq, Eq, Structural)]
pub enum ColorChoice {
    /// Always, with whatever the terminal understands.
    Always,
    /// Always, with ANSI escape sequences.
    AlwaysAnsi,
    /// Where the terminal is thought to show colours.
    Auto,
    /// Never.
    Never,
}

/// The colouring that was asked for.
#[derive(Clone, Copy, Debug, PartialEq, Eq, Structural)]
pub struct Color(pub ColorChoice);

/// The choice that a word on the command line stands for.
pub open spec fn choice_named(word: Seq<char>) -> Option<ColorChoice> {
    if word == "auto"@ {
        Some(ColorChoice::Auto)
    } else if word == "always"@ {
        Some(ColorChoice::Always)
    } else if word == "always-ansi"@ {
        Some(ColorChoice::AlwaysAnsi)
    } else if word == "never"@ {
        Some(ColorChoice::Never)
    } else {
        None
    }
}

/// The word on the command line that stands for a choice.
pub open spec fn word_for(choice: ColorChoice) -> Seq<char> {
    match choice {
        ColorChoice::Always => "always"@,
        ColorChoice::AlwaysAnsi => "always-ansi"@,
        ColorChoice::Auto => "auto"@,
        ColorChoice::Never => "never"@,
    }
}

/// Every choice has one word that stands for it, and no other word stands for anything.
pub proof fn law_choice_words(choice: ColorChoice, word: Seq<char>)
    ensures
        choice_named(word) == Some(choice) <==> word == word_for(choice),
{
    reveal_strlit("auto");
    reveal_strlit("always");
    reveal_strlit("always-ansi");
    reveal_strlit("never");
    assert("auto"@[1] == 'u');
    assert("always"@[1] == 'l');
    assert("always-ansi"@[1] == 'l');
    assert("never"@[1] == 'e');
    assert("always"@.len() == 6);
    assert("always-ansi"@.len() == 11);
}

/// Four words name a choice, letter by letter, each its own; every other text names none.
pub proof fn law_named_choices(word: Seq<char>)
    ensures
        choice_named(word) == Some(ColorChoice::Auto) <==> word == seq!['a', 'u', 't', 'o'],
        choice_named(word) == Some(ColorChoice::Always) <==> word == seq![
            'a', 'l', 'w', 'a', 'y', 's',
        ],
        choice_named(word) == Some(ColorChoice::AlwaysAnsi) <==> word == seq![
            'a', 'l', 'w', 'a', 'y', 's', '-', 'a', 'n', 's', 'i',
        ],
        choice_named(word) == Some(ColorChoice::Never) <==> word == seq!['n', 'e', 'v', 'e', 'r'],
        "auto"@ == seq!['a', 'u', 't', 'o'],
        "always"@ == seq!['a', 'l', 'w', 'a', 'y', 's'],
        "always-ansi"@ == seq!['a', 'l', 'w', 'a', 'y', 's', '-', 'a', 'n', 's', 'i'],
        "never"@ == seq!['n', 'e', 'v', 'e', 'r'],
{
    law_choice_words(ColorChoice::Auto, word);
    law_choice_words(ColorChoice::Always, word);
    law_choice_words(ColorChoice::AlwaysAnsi, word);
    law_choice_words(ColorChoice::Never, word);
    reveal_strlit("auto");
    reveal_strlit("always");
    reveal_strlit("always-ansi");
    reveal_strlit("never");
    assert("auto"@ =~= seq!['a', 'u', 't', 'o']);
    assert("always"@ =~= seq!['a', 'l', 'w', 'a', 'y', 's']);
    assert("always-ansi"@ =~= seq!['a', 'l', 'w', 'a', 'y', 's', '-', 'a', 'n', 's', 'i']);
    assert("never"@ =~= seq!['n', 'e', 'v', 'e', 'r']);
}

impl Color {
    /// The colouring that a word on the command line asks for.
    pub fn from_str(s: &str) -> (color: Result<Color, &'static str>)
        ensures
            match color {
                Ok(color) => choice_named(s@) == Some(color.0),
                Err(message) => choice_named(s@) is None && message@
                    == "Expected on of auto, always, always-ansi, never"@,
            },
            s@ == "auto"@ <==> color == Ok::<Color, &'static str>(Color(ColorChoice::Auto)),
            s@ == "always"@ <==> color == Ok::<Color, &'static str>(Color(ColorChoice::Always)),
            s@ == "always-ansi"@ <==> color == Ok::<Color, &'static str>(Color(ColorChoice::AlwaysAnsi)),
            s@ == "never"@ <==> color == Ok::<Color, &'static str>(Color(ColorChoice::Never)),
    {
        proof {
            law_named_choices(s@);
        }
        let word = String::from(s);
        if word == String::from("auto") {
            Ok(Color(ColorChoice::Auto))
        } else if word == String::from("always") {
            Ok(Color(ColorChoice::Always))
        } else if word == String::from("always-ansi") {
            Ok(Color(ColorChoice::AlwaysAnsi))
        } else if word == String::from("never") {
            Ok(Color(ColorChoice::Never))
        } else {
            Err("Expected on of auto, always, always-ansi, never")
        }
    }
}

impl Default for Color {
    fn default() -> (color: Color)
        ensures
            color.0 == ColorChoice::Auto,
    {
        Color(ColorChoice::Auto)
    }
}

/// How a suite is run: which tests, and how their results are shown.
pub struct Options {
    /// Only tests whose path holds this text are run.
    pub filter: String,
    /// The colouring of the output.
    pub color: Color,
}

impl Default for Options {
    fn default() -> (options: Options)
        ensures
            options.filter@ == Seq::<char>::empty(),
            options.color.0 == ColorChoice::Auto,
    {
        Options { filter: String::new(), color: Color::default() }
    }
}

impl Options {
    /// The options that run every test and leave the colouring to the terminal.
    pub fn new() -> (options: Options)
        ensures
            options.filter@ == Seq::<char>::empty(),
            options.color.0 == ColorChoice::Auto,
    {
        Options::default()
    }

    /// The same options with another filter.
    pub fn filter<S>(self, filter: S) -> (options: Options) where S: Into<String>
        ensures
            call_ensures(S::into, (filter,), options.filter),
            options.color == self.color,
    {
        Options { filter: filter.into(), color: self.color }
    }

    /// The same options with another colouring.
    pub fn color(self, color: ColorChoice) -> (options: Options)
        ensures
            options.filter == self.filter,
            options.color == Color(color),
    {
        Options { filter: self.filter, color: Color(color) }
    }
}

} // verus!
