//! How values and panics decide a test.

use vstd::prelude::*;

verus! {

/// A value that decides a test by itself.
pub trait Testable: Sized + Send {
    /// What is reported of a failure.
    type Error;

    /// Whether the value decides the test this way.
    spec fn resolves_to(self, outcome: Result<(), Self::Error>) -> bool;

    /// The outcome of the test.
    fn test(self) -> (outcome: Result<(), Self::Error>)
        ensures
            self.resolves_to(outcome),
    ;
}

impl Testable for bool {
    type Error = String;

    open spec fn resolves_to(self, outcome: Result<(), String>) -> bool {
        if self {
            outcome == Ok::<(), String>(())
        } else {
            outcome matches Err(error) && error@ == "false"@
        }
    }

    /// `true` passes and `false` fails.
    fn test(self) -> (outcome: Result<(), String>)
        ensures
            outcome is Ok <==> self,
            outcome matches Err(error) ==> error@ == "false"@,
    {
        if self {
            Ok(())
        } else {
            Err(String::from("false"))
        }
    }
}

impl Testable for () {
    type Error = String;

    open spec fn resolves_to(self, outcome: Result<(), String>) -> bool {
        outcome == Ok::<(), String>(())
    }

    /// A test that returns at all passes.
    fn test(self) -> (outcome: Result<(), String>)
        ensures
            outcome is Ok,
    {
        Ok(())
    }
}

impl<E: Send> Testable for Result<(), E> {
    type Error = E;

    open spec fn resolves_to(self, outcome: Result<(), E>) -> bool {
        outcome == self
    }

    /// A result is its own outcome.
    fn test(self) -> (outcome: Result<(), E>)
        ensures
            outcome == self,
    {
        self
    }
}

/// A truth value decides a test one way alone: the test passes exactly where the value is true, and
/// the error of one that fails spells the value out.
pub proof fn law_bool_decides(value: bool, error: String)
    ensures
        value.resolves_to(Ok(())) <==> value,
        value.resolves_to(Err(error)) <==> !value && error@ == seq!['f', 'a', 'l', 's', 'e'],
{
    reveal_strlit("false");
    assert("false"@ =~= seq!['f', 'a', 'l', 's', 'e']);
}

/// A test that returns nothing passes, and one that returns a result has that result.
pub proof fn law_value_decides<E: Send>(
    value: Result<(), E>,
    outcome: Result<(), E>,
    error: String,
)
    ensures
        ().resolves_to(Ok(())),
        !().resolves_to(Err(error)),
        value.resolves_to(outcome) <==> outcome == value,
{
}

/// What the payload of a panic is taken for.
#[derive(Clone, Copy, Debug, PartialEq, Eq, Structural)]
pub enum PayloadKind {
    /// An error of the test.
    Error,
    /// An owned text.
    Text,
    /// A text in the program.
    Literal,
    /// Anything else.
    Unknown,
}

/// What a payload is taken for that has these types: an error comes before a text.
pub open spec fn kind_of(is_error: bool, is_text: bool, is_literal: bool) -> PayloadKind {
    if is_error {
        PayloadKind::Error
    } else if is_text {
        PayloadKind::Text
    } else if is_literal {
        PayloadKind::Literal
    } else {
        PayloadKind::Unknown
    }
}

/// A payload that is an error of the test is taken for one; a text that is no error is taken for a
/// text; and only a payload that is none of the three is unknown.
pub proof fn law_kind_of(is_error: bool, is_text: bool, is_literal: bool)
    ensures
        kind_of(is_error, is_text, is_literal) == PayloadKind::Error <==> is_error,
        kind_of(is_error, is_text, is_literal) == PayloadKind::Text <==> !is_error && is_text,
        kind_of(is_error, is_text, is_literal) == PayloadKind::Literal <==> !is_error && !is_text && is_literal,
        kind_of(is_error, is_text, is_literal) == PayloadKind::Unknown <==> !is_error && !is_text && !is_literal,
{
}

/// What a payload is taken for that has these types.
pub fn payload_kind(is_error: bool, is_text: bool, is_literal: bool) -> (kind: PayloadKind)
    ensures
        kind == kind_of(is_error, is_text, is_literal),
        kind == PayloadKind::Error <==> is_error,
        kind == PayloadKind::Text <==> !is_error && is_text,
        kind == PayloadKind::Literal <==> !is_error && !is_text && is_literal,
        kind == PayloadKind::Unknown <==> !is_error && !is_text && !is_literal,
{
    if is_error {
        PayloadKind::Error
    } else if is_text {
        PayloadKind::Text
    } else if is_literal {
        PayloadKind::Literal
    } else {
        PayloadKind::Unknown
    }
}

/// The payload of a panic.
pub enum Payload<E> {
    Error(E),
    Text(String),
    Literal(&'static str),
    Unknown,
}

/// The error of a test that panicked with this payload, where the payload says anything.
pub fn panic_error<E>(payload: Payload<E>) -> (error: Option<E>) where
    E: From<String> + From<&'static str>,

    ensures
        match payload {
            Payload::Error(thrown) => error == Some(thrown),
            Payload::Text(text) => error matches Some(made) && call_ensures(
                <E as From<String>>::from,
                (text,),
                made,
            ),
            Payload::Literal(text) => error matches Some(made) && call_ensures(
                <E as From<&'static str>>::from,
                (text,),
                made,
            ),
            Payload::Unknown => error is None,
        },
{
    match payload {
        Payload::Error(thrown) => Some(thrown),
        Payload::Text(text) => Some(E::from(text)),
        Payload::Literal(text) => Some(E::from(text)),
        Payload::Unknown => None,
    }
}

} // verus!
