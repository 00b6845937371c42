//! The few operations on text that the runner needs.

use vstd::prelude::*;
use vstd::string::*;

verus! {

/// `String::from` on a string slice gives a string with the same characters.
pub assume_specification<'a>[ <String as From<&'a str>>::from ](text: &str) -> (string: String)
    ensures
        string@ == text@,
;

/// The conversion of a type to itself, which std gives every type, returns its argument unchanged.
pub assume_specification<Value>[ <Value as From<Value>>::from ](value: Value) -> (same: Value)
    ensures
        same == value,
;

/// Whether `pattern` stands somewhere in `text`.
pub open spec fn occurs_in(pattern: Seq<char>, text: Seq<char>) -> bool {
    exists|at: int| occurs_at(pattern, text, at)
}

/// Whether `pattern` stands in `text` from place `at` on.
pub open spec fn occurs_at(pattern: Seq<char>, text: Seq<char>, at: int) -> bool {
    0 <= at && at + pattern.len() <= text.len() && text.subrange(at, at + pattern.len()) == pattern
}

/// The path of an item called `name` below `path`.
pub open spec fn joined(path: Seq<char>, name: Seq<char>) -> Seq<char> {
    path + seq!['/'] + name
}

/// A path holds the path that it continues, a slash, and the whole name that follows, and nothing
/// else.
pub proof fn law_joined(path: Seq<char>, name: Seq<char>)
    ensures
        joined(path, name).len() == path.len() + 1 + name.len(),
        joined(path, name).take(path.len() as int) == path,
        joined(path, name)[path.len() as int] == '/',
        joined(path, name).skip(path.len() as int + 1) == name,
{
    assert(joined(path, name).take(path.len() as int) =~= path);
    assert(joined(path, name).skip(path.len() as int + 1) =~= name);
}

/// A pattern stands in a text exactly where the text is made of something, the pattern, and
/// something else.
pub proof fn law_occurs_in(pattern: Seq<char>, text: Seq<char>)
    ensures
        occurs_in(pattern, text) <==> exists|before: Seq<char>, after: Seq<char>|
            text == #[trigger] (before + pattern + after),
{
    if occurs_in(pattern, text) {
        let at = choose|at: int| occurs_at(pattern, text, at);
        let before = text.take(at);
        let after = text.skip(at + pattern.len());
        assert(text =~= text.take(at) + text.subrange(at, at + pattern.len()) + after);
        assert(text == before + pattern + after);
    }
    if exists|before: Seq<char>, after: Seq<char>| text == #[trigger] (before + pattern + after) {
        let (before, after) = choose|before: Seq<char>, after: Seq<char>|
            text == #[trigger] (before + pattern + after);
        let at = before.len() as int;
        assert(text.subrange(at, at + pattern.len()) =~= pattern);
        assert(occurs_at(pattern, text, at));
    }
}

/// Whatever stands in a name stands in every path that ends with the name.
pub proof fn law_occurs_in_name(pattern: Seq<char>, path: Seq<char>, name: Seq<char>)
    requires
        occurs_in(pattern, name),
    ensures
        occurs_in(pattern, joined(path, name)),
{
    let at = choose|at: int| occurs_at(pattern, name, at);
    let end = at + pattern.len();
    let start = path.len() as int + 1;
    law_joined(path, name);
    assert(joined(path, name).subrange(start + at, start + end) =~= name.subrange(at, end));
    assert(occurs_at(pattern, joined(path, name), start + at));
}

/// The path of an item called `name` below `path`.
pub fn join(path: &str, name: &str) -> (whole: String)
    ensures
        whole@ == joined(path@, name@),
        whole@.len() == path@.len() + 1 + name@.len(),
        whole@.take(path@.len() as int) == path@,
        whole@[path@.len() as int] == '/',
        whole@.skip(path@.len() as int + 1) == name@,
{
    let mut whole = String::from(path);
    whole.append("/");
    whole.append(name);
    proof {
        reveal_strlit("/");
        assert("/"@ =~= seq!['/']);
        law_joined(path@, name@);
    }
    whole
}

/// Whether `pattern` stands somewhere in `text`.
///
/// Calls `str::contains` with a string as the pattern, which is true exactly where the pattern is
/// a substring; the empty pattern is a substring of every text.
#[verifier::external_body]
pub(crate) fn contains(text: &str, pattern: &str) -> (found: bool)
    ensures
        found == occurs_in(pattern@, text@),
{
    text.contains(pattern)
}

/// A decimal digit as a character.
pub open spec fn digit(n: nat) -> char {
    if n == 0 {
        '0'
    } else if n == 1 {
        '1'
    } else if n == 2 {
        '2'
    } else if n == 3 {
        '3'
    } else if n == 4 {
        '4'
    } else if n == 5 {
        '5'
    } else if n == 6 {
        '6'
    } else if n == 7 {
        '7'
    } else if n == 8 {
        '8'
    } else {
        '9'
    }
}

/// A natural number in decimal notation, without leading zeros.
pub open spec fn digits(n: nat) -> Seq<char>
    decreases n,
{
    if n < 10 {
        seq![digit(n)]
    } else {
        digits(n / 10).push(digit(n % 10))
    }
}

/// An integer in decimal notation, with a minus sign where it is negative.
pub open spec fn decimal(n: int) -> Seq<char> {
    if n < 0 {
        seq!['-'] + digits((-n) as nat)
    } else {
        digits(n as nat)
    }
}

/// The number that a row of decimal digits stands for.
pub open spec fn worth(text: Seq<char>) -> int
    decreases text.len(),
{
    if text.len() == 0 {
        0
    } else {
        10 * worth(text.drop_last()) + (text.last() as int - '0' as int)
    }
}

/// The notation of a natural number is made of digits, stands for the number, and has no zero in
/// front of other digits.
pub proof fn law_digits(n: nat)
    ensures
        digits(n).len() > 0,
        worth(digits(n)) == n,
        forall|i: int|
            0 <= i < digits(n).len() ==> '0' as int <= #[trigger] digits(n)[i] as int <= '9' as int,
        digits(n).len() > 1 ==> digits(n)[0] != '0',
    decreases n,
{
    reveal_with_fuel(worth, 2);
    if n >= 10 {
        law_digits(n / 10);
        assert(digits(n).drop_last() =~= digits(n / 10));
        assert(digits(n)[0] == digits(n / 10)[0]);
        if digits(n / 10).len() == 1 {
            assert(digits(n / 10).drop_last() =~= seq![]);
        }
    } else {
        assert(digits(n).drop_last() =~= seq![]);
    }
}

/// The notation of a negative number is that of its opposite after a minus sign.
pub proof fn law_decimal(n: int)
    ensures
        n >= 0 ==> decimal(n) == digits(n as nat),
        n < 0 ==> decimal(n) == seq!['-'] + decimal(-n),
{
}

/// Appends the digits of `n`.
fn append_digits(text: &mut String, n: u32)
    ensures
        final(text)@ == old(text)@ + digits(n as nat),
    decreases n,
{
    if n >= 10 {
        append_digits(text, n / 10);
    }
    let last: u32 = n % 10;
    let figure = match last {
        0 => "0",
        1 => "1",
        2 => "2",
        3 => "3",
        4 => "4",
        5 => "5",
        6 => "6",
        7 => "7",
        8 => "8",
        _ => "9",
    };
    proof {
        reveal_strlit("0");
        reveal_strlit("1");
        reveal_strlit("2");
        reveal_strlit("3");
        reveal_strlit("4");
        reveal_strlit("5");
        reveal_strlit("6");
        reveal_strlit("7");
        reveal_strlit("8");
        reveal_strlit("9");
        assert(figure@ =~= seq![digit(last as nat)]);
    }
    text.append(figure);
    proof {
        assert(text@ =~= old(text)@ + digits(n as nat));
    }
}

/// Appends `n` in decimal notation.
pub fn append_decimal(text: &mut String, n: i32)
    ensures
        final(text)@ == old(text)@ + decimal(n as int),
{
    if n < 0 {
        text.append("-");
        proof {
            reveal_strlit("-");
            assert("-"@ =~= seq!['-']);
        }
        append_digits(text, (-(n as i64)) as u32);
    } else {
        append_digits(text, n as u32);
    }
    proof {
        assert(text@ =~= old(text)@ + decimal(n as int));
    }
}

} // verus!
