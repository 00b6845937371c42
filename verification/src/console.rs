//! The console output of a run, as coloured pieces of text and as commands to a terminal.

use vstd::prelude::*;
use vstd::string::*;
use crate::progress::{progress, progress_all, Progress, TestProgress};
use crate::tree::{leaves_all, Tree};

verus! {

/// A colour of the output.
#[derive(Clone, Copy, Debug, PartialEq, Eq, Structural)]
pub enum Hue {
    Green,
    Red,
}

/// How a piece of text looks.
#[derive(Clone, Copy, Debug, PartialEq, Eq, Structural)]
pub struct Style {
    /// The colour of the letters.
    pub fg: Option<Hue>,
    /// Whether the letters are bold.
    pub bold: bool,
}

impl Style {
    /// Bold letters.
    pub open spec fn strong() -> Style {
        Style { fg: None, bold: true }
    }

    /// Letters of this colour.
    pub open spec fn hued(hue: Hue) -> Style {
        Style { fg: Some(hue), bold: false }
    }
}

#[verifier::external_type_specification]
#[verifier::external_body]
pub struct ExColorSpec(termcolor::ColorSpec);

/// The terminal setting that `termcolor::ColorSpec::new` gives once `set_fg` and `set_bold` have
/// been called on it with these arguments.
pub uninterp spec fn color_spec_of(fg: Option<Hue>, bold: bool) -> termcolor::ColorSpec;

/// Makes a `termcolor::ColorSpec` with `ColorSpec::new` and sets the colour of its letters with
/// `set_fg` and their weight with `set_bold`. The contract claims that the setting is determined by
/// the two arguments; it does not say what a terminal makes of it.
#[verifier::external_body]
fn color_spec(fg: Option<Hue>, bold: bool) -> (spec: termcolor::ColorSpec)
    ensures
        spec == color_spec_of(fg, bold),
{
    let color = match fg {
        Some(Hue::Green) => Some(termcolor::Color::Green),
        Some(Hue::Red) => Some(termcolor::Color::Red),
        None => None,
    };
    let mut spec = termcolor::ColorSpec::new();
    spec.set_fg(color).set_bold(bold);
    spec
}

impl Style {
    /// The terminal setting for this look.
    pub fn color_spec(&self) -> (spec: termcolor::ColorSpec)
        ensures
            spec == color_spec_of(self.fg, self.bold),
    {
        color_spec(self.fg, self.bold)
    }
}

/// A message and how it looks; without a colour the terminal is reset before it.
#[derive(Debug, PartialEq)]
pub struct Colored<T> {
    pub color: Option<Style>,
    pub msg: T,
}

impl<T> From<T> for Colored<T> {
    fn from(msg: T) -> (colored: Self) {
        Colored { color: None, msg }
    }
}

impl<T> vstd::std_specs::convert::FromSpecImpl<T> for Colored<T> {
    open spec fn obeys_from_spec() -> bool {
        true
    }

    open spec fn from_spec(msg: T) -> Self {
        Colored { color: None, msg }
    }
}

/// What a coloured message says.
pub struct Piece {
    pub color: Option<Style>,
    pub msg: Seq<char>,
}

impl View for Colored<String> {
    type V = Piece;

    open spec fn view(&self) -> Piece {
        Piece { color: self.color, msg: self.msg@ }
    }
}

/// What a row of coloured messages says.
pub open spec fn pieces(messages: Seq<Colored<String>>) -> Seq<Piece> {
    messages.map_values(|message: Colored<String>| message@)
}

/// A message without a colour.
pub open spec fn plain(msg: Seq<char>) -> Piece {
    Piece { color: None, msg }
}

/// A message with a colour.
pub open spec fn styled(style: Style, msg: Seq<char>) -> Piece {
    Piece { color: Some(style), msg }
}

/// What the console shows of a report that comes at this indentation.
pub open spec fn shown(indent: Seq<char>, report: Progress<String>) -> Seq<Piece> {
    match report {
        Progress::GroupStart(name) => seq![styled(Style::strong(), indent + name + seq!['\n'])],
        Progress::GroupEnd => seq![plain(seq!['\n'])],
        Progress::Test(name, Ok(_)) => seq![
            plain(indent + name + " ... "@),
            styled(Style::hued(Hue::Green), "ok"@),
            plain(seq!['\n']),
        ],
        Progress::Test(name, Err(error)) => seq![
            plain(indent + name + " ... "@),
            styled(Style::hued(Hue::Red), "FAILED"@),
            plain(seq!['\n'] + error@),
        ],
    }
}

/// The indentation after a report that comes at this indentation.
pub open spec fn indented(indent: Seq<char>, report: Progress<String>) -> Seq<char> {
    match report {
        Progress::GroupStart(_) => indent.push('\t'),
        Progress::GroupEnd => {
            if indent.len() == 0 {
                indent
            } else {
                indent.drop_last()
            }
        },
        Progress::Test(..) => indent,
    }
}

/// What the console shows of a test: its name, indented and without a look; the result, `ok` in green
/// where the test passed and `FAILED` in red where it did not; and, after an end of line, the whole
/// text of the error where there is one. The indentation stays.
pub proof fn law_shown_test(indent: Seq<char>, name: Seq<char>, outcome: Result<(), String>)
    ensures
        shown(indent, Progress::Test(name, outcome)).len() == 3,
        shown(indent, Progress::Test(name, outcome))[0] == (Piece {
            color: None,
            msg: indent + name + seq![' ', '.', '.', '.', ' '],
        }),
        shown(indent, Progress::Test(name, outcome))[1] == (if outcome is Ok {
            Piece { color: Some(Style { fg: Some(Hue::Green), bold: false }), msg: seq!['o', 'k'] }
        } else {
            Piece {
                color: Some(Style { fg: Some(Hue::Red), bold: false }),
                msg: seq!['F', 'A', 'I', 'L', 'E', 'D'],
            }
        }),
        shown(indent, Progress::Test(name, outcome))[2].color is None,
        shown(indent, Progress::Test(name, outcome))[2].msg == seq!['\n'] + (match outcome {
            Ok(_) => seq![],
            Err(error) => error@,
        }),
        indented(indent, Progress::Test(name, outcome)) == indent,
{
    reveal_strlit(" ... ");
    reveal_strlit("ok");
    reveal_strlit("FAILED");
    assert(" ... "@ =~= seq![' ', '.', '.', '.', ' ']);
    assert("ok"@ =~= seq!['o', 'k']);
    assert("FAILED"@ =~= seq!['F', 'A', 'I', 'L', 'E', 'D']);
    assert(seq!['\n'] + Seq::<char>::empty() =~= seq!['\n']);
}

/// What the console shows tells reports on tests apart: where two look alike, so do the names, and
/// both tests passed, or both failed with errors of one text.
pub proof fn law_shown_apart(
    indent: Seq<char>,
    first: Seq<char>,
    second: Seq<char>,
    a: Result<(), String>,
    b: Result<(), String>,
)
    requires
        shown(indent, Progress::Test(first, a)) == shown(indent, Progress::Test(second, b)),
    ensures
        first == second,
        a is Ok <==> b is Ok,
        a is Err ==> a->Err_0@ == b->Err_0@,
{
    law_shown_test(indent, first, a);
    law_shown_test(indent, second, b);
    let left = shown(indent, Progress::Test(first, a));
    let right = shown(indent, Progress::Test(second, b));
    let n = indent.len() as int;
    assert(left[0].msg.subrange(n, left[0].msg.len() - 5) =~= first);
    assert(right[0].msg.subrange(n, right[0].msg.len() - 5) =~= second);
    assert(left[1].color == right[1].color);
    if a is Err {
        assert(left[2].msg.skip(1) =~= a->Err_0@);
        assert(right[2].msg.skip(1) =~= b->Err_0@);
    }
}

/// What the console shows of a group: its name in bold letters, indented, on a line of its own, and
/// one more end of line where it ends; in between the indentation is one tab longer, and after it
/// as it was.
pub proof fn law_shown_group(indent: Seq<char>, name: Seq<char>)
    ensures
        shown(indent, Progress::GroupStart(name)).len() == 1,
        shown(indent, Progress::GroupStart(name))[0] == (Piece {
            color: Some(Style { fg: None, bold: true }),
            msg: indent + name + seq!['\n'],
        }),
        shown(indent, Progress::GroupEnd).len() == 1,
        shown(indent, Progress::GroupEnd)[0] == (Piece { color: None, msg: seq!['\n'] }),
        indented(indent, Progress::GroupStart(name)) == indent + seq!['\t'],
        indented(indented(indent, Progress::GroupStart(name)), Progress::GroupEnd) == indent,
        indented(seq![], Progress::GroupEnd) == Seq::<char>::empty(),
{
    assert(indent.push('\t') =~= indent + seq!['\t']);
    assert(indent.push('\t').drop_last() =~= indent);
}

/// A message that is made of a text alone has no look and says that text.
pub proof fn law_colored<T>(msg: T, message: Colored<String>)
    ensures
        <Colored<T> as vstd::std_specs::convert::FromSpec<T>>::from_spec(msg) == (Colored {
            color: None::<Style>,
            msg,
        }),
        message@.color == message.color,
        message@.msg == message.msg@,
{
}

/// `String::pop` removes the last character and hands it out; it leaves an empty string as it is.
pub assume_specification[ String::pop ](text: &mut String) -> (last: Option<char>)
    ensures
        match last {
            Some(c) => old(text)@.len() > 0 && c == old(text)@.last() && final(text)@
                == old(text)@.drop_last(),
            None => old(text)@.len() == 0 && final(text)@ == old(text)@,
        },
;

/// The console, which indents what belongs to a group.
pub struct Console {
    pub indent: String,
}

impl Console {
    /// A console on which no group is open.
    pub fn new() -> (console: Console)
        ensures
            console.indent@ == Seq::<char>::empty(),
    {
        Console { indent: String::new() }
    }

    /// The messages that show a report, in which an error is given by its text.
    pub fn render(&mut self, progress: TestProgress<String>) -> (messages: Vec<Colored<String>>)
        ensures
            pieces(messages@) == shown(old(self).indent@, progress@),
            final(self).indent@ == indented(old(self).indent@, progress@),
            match progress {
                TestProgress::GroupStart(name) => {
                    &&& messages@.len() == 1
                    &&& messages@[0].color == Some(Style { fg: None, bold: true })
                    &&& messages@[0].msg@ == old(self).indent@ + name@ + seq!['\n']
                    &&& final(self).indent@ == old(self).indent@ + seq!['\t']
                },
                TestProgress::GroupEnd => {
                    &&& messages@.len() == 1
                    &&& messages@[0].color is None
                    &&& messages@[0].msg@ == seq!['\n']
                    &&& old(self).indent@.len() == 0 ==> final(self).indent@.len() == 0
                    &&& old(self).indent@.len() > 0 ==> final(self).indent@.push(
                        old(self).indent@.last(),
                    ) == old(self).indent@
                },
                TestProgress::Test(name, outcome) => {
                    &&& messages@.len() == 3
                    &&& messages@[0].color is None
                    &&& messages@[0].msg@ == old(self).indent@ + name@ + " ... "@
                    &&& outcome is Ok ==> {
                        &&& messages@[1].color == Some(Style { fg: Some(Hue::Green), bold: false })
                        &&& messages@[1].msg@ == "ok"@
                        &&& messages@[2].msg@ == seq!['\n']
                    }
                    &&& outcome matches Err(error) ==> {
                        &&& messages@[1].color == Some(Style { fg: Some(Hue::Red), bold: false })
                        &&& messages@[1].msg@ == "FAILED"@
                        &&& messages@[2].msg@ == seq!['\n'] + error@
                    }
                    &&& messages@[2].color is None
                    &&& final(self).indent@ == old(self).indent@
                },
            },
    {
        proof {
            reveal_strlit("\n");
            reveal_strlit("\t");
            assert("\n"@ =~= seq!['\n']);
        }
        let ghost report = progress@;
        let ghost indent = self.indent@;
        let mut messages: Vec<Colored<String>> = Vec::new();
        match progress {
            TestProgress::GroupStart(name) => {
                let mut msg = self.indent.clone();
                msg.append(name.as_str());
                msg.append("\n");
                self.indent.append("\t");
                assert(self.indent@ =~= indent.push('\t'));
                messages.push(Colored { color: Some(Style { fg: None, bold: true }), msg });
            },
            TestProgress::GroupEnd => {
                self.indent.pop();
                assert(indent.len() > 0 ==> indent.drop_last().push(indent.last()) =~= indent);
                messages.push(Colored::from(String::from("\n")));
            },
            TestProgress::Test(name, result) => {
                let mut msg = self.indent.clone();
                msg.append(name.as_str());
                msg.append(" ... ");
                messages.push(Colored::from(msg));
                match result {
                    Ok(()) => {
                        messages.push(
                            Colored {
                                color: Some(Style { fg: Some(Hue::Green), bold: false }),
                                msg: String::from("ok"),
                            },
                        );
                        messages.push(Colored::from(String::from("\n")));
                    },
                    Err(error) => {
                        messages.push(
                            Colored {
                                color: Some(Style { fg: Some(Hue::Red), bold: false }),
                                msg: String::from("FAILED"),
                            },
                        );
                        let mut text = String::from("\n");
                        text.append(error.as_str());
                        messages.push(Colored::from(text));
                    },
                }
            },
        }
        assert(pieces(messages@) =~= shown(indent, report));
        messages
    }
}

/// A command to a terminal.
#[derive(Debug, PartialEq)]
pub enum Command {
    /// What is written from now on has this look.
    SetColor(Style),
    /// What is written from now on has no particular look.
    Reset,
    /// Write this text.
    Write(String),
}

/// What a [`Command`] asks for.
pub enum Order {
    SetColor(Style),
    Reset,
    Write(Seq<char>),
}

impl View for Command {
    type V = Order;

    open spec fn view(&self) -> Order {
        match *self {
            Command::SetColor(style) => Order::SetColor(style),
            Command::Reset => Order::Reset,
            Command::Write(text) => Order::Write(text@),
        }
    }
}

/// What a row of commands asks for.
pub open spec fn orders(commands: Seq<Command>) -> Seq<Order> {
    commands.map_values(|command: Command| command@)
}

/// What writes a piece of text with its look.
pub open spec fn written(piece: Piece) -> Seq<Order> {
    seq![
        match piece.color {
            Some(style) => Order::SetColor(style),
            None => Order::Reset,
        },
        Order::Write(piece.msg),
    ]
}

/// What writes a row of pieces of text with their looks.
pub open spec fn written_all(pieces: Seq<Piece>) -> Seq<Order>
    decreases pieces.len(),
{
    if pieces.len() == 0 {
        seq![]
    } else {
        written_all(pieces.drop_last()) + written(pieces.last())
    }
}

/// The commands that write messages with their looks.
pub fn write_all(messages: Vec<Colored<String>>) -> (commands: Vec<Command>)
    ensures
        orders(commands@) == written_all(pieces(messages@)),
        commands@.len() == 2 * messages@.len(),
        forall|i: int|
            0 <= i < messages@.len() ==> commands@[2 * i]@ == match (
                #[trigger] messages@[i]
            ).color {
                Some(style) => Order::SetColor(style),
                None => Order::Reset,
            },
        forall|i: int|
            0 <= i < messages@.len() ==> commands@[2 * i + 1]@ == Order::Write(
                (#[trigger] messages@[i]).msg@,
            ),
{
    let ghost all = messages@;
    let mut commands: Vec<Command> = Vec::new();
    assert(orders(commands@) =~= written_all(pieces(all.take(0))));
    for message in it: messages
        invariant
            it.seq() == all,
            orders(commands@) == written_all(pieces(all.take(it.index()))),
    {
        let ghost i = it.index();
        let ghost earlier = commands@;
        let mut more = message.commands();
        let ghost added = more@;
        commands.append(&mut more);
        proof {
            let grown = pieces(all.take(i + 1));
            assert(grown.drop_last() =~= pieces(all.take(i)));
            assert(orders(commands@) =~= orders(earlier) + orders(added));
        }
    }
    proof {
        assert(all.take(all.len() as int) =~= all);
        law_written_all(pieces(all));
        let asked = orders(commands@);
        assert forall|i: int| 0 <= i < all.len() implies commands@[2 * i]@ == match (
            #[trigger] all[i]
        ).color {
            Some(style) => Order::SetColor(style),
            None => Order::Reset,
        } && commands@[2 * i + 1]@ == Order::Write(all[i].msg@) by {
            assert(pieces(all)[i] == all[i]@);
            assert(asked[2 * i] == commands@[2 * i]@);
            assert(asked[2 * i + 1] == commands@[2 * i + 1]@);
        }
    }
    commands
}

/// A row of pieces is written piece by piece, each with two orders: first its look, or that there is
/// none, and then its whole text.
pub proof fn law_written_all(pieces: Seq<Piece>)
    ensures
        written_all(pieces).len() == 2 * pieces.len(),
        forall|i: int|
            0 <= i < pieces.len() ==> written_all(pieces)[2 * i] == match (
                #[trigger] pieces[i]
            ).color {
                Some(style) => Order::SetColor(style),
                None => Order::Reset,
            },
        forall|i: int|
            0 <= i < pieces.len() ==> written_all(pieces)[2 * i + 1] == Order::Write(
                (#[trigger] pieces[i]).msg,
            ),
    decreases pieces.len(),
{
    if pieces.len() > 0 {
        let fewer = pieces.drop_last();
        law_written_all(fewer);
        assert forall|i: int| 0 <= i < pieces.len() implies written_all(pieces)[2 * i] == match (
            #[trigger] pieces[i]
        ).color {
            Some(style) => Order::SetColor(style),
            None => Order::Reset,
        } && written_all(pieces)[2 * i + 1] == Order::Write(pieces[i].msg) by {
            if i < fewer.len() {
                assert(fewer[i] == pieces[i]);
            }
        }
    }
}

/// A command asks for what it holds, and a row of commands for what they ask for one by one.
pub proof fn law_orders(command: Command, commands: Seq<Command>)
    ensures
        match (command, command@) {
            (Command::SetColor(style), Order::SetColor(asked)) => asked == style,
            (Command::Reset, Order::Reset) => true,
            (Command::Write(text), Order::Write(asked)) => asked == text@,
            _ => false,
        },
        orders(commands).len() == commands.len(),
        forall|i: int| 0 <= i < commands.len() ==> #[trigger] orders(commands)[i] == commands[i]@,
{
}

/// A row of messages says what they say one by one.
pub proof fn law_pieces(messages: Seq<Colored<String>>)
    ensures
        pieces(messages).len() == messages.len(),
        forall|i: int|
            0 <= i < messages.len() ==> {
                &&& (#[trigger] pieces(messages)[i]).color == messages[i].color
                &&& pieces(messages)[i].msg == messages[i].msg@
            },
{
}

/// Two rows of pieces are written one after the other.
pub proof fn lemma_written_add(first: Seq<Piece>, second: Seq<Piece>)
    ensures
        written_all(first + second) == written_all(first) + written_all(second),
    decreases second.len(),
{
    if second.len() == 0 {
        assert(first + second =~= first);
        assert(written_all(first) + written_all(second) =~= written_all(first));
    } else {
        lemma_written_add(first, second.drop_last());
        assert((first + second).drop_last() =~= first + second.drop_last());
        assert(written_all(first + second) =~= written_all(first) + written_all(second));
    }
}

impl Colored<String> {
    /// The commands that write this message with its look.
    pub fn commands(self) -> (commands: Vec<Command>)
        ensures
            orders(commands@) == written(self@),
            commands@.len() == 2,
            match self.color {
                Some(style) => commands@[0] == Command::SetColor(style),
                None => commands@[0] == Command::Reset,
            },
            commands@[1] == Command::Write(self.msg),
    {
        let ghost piece = self@;
        let mut commands: Vec<Command> = Vec::new();
        match self.color {
            Some(style) => commands.push(Command::SetColor(style)),
            None => commands.push(Command::Reset),
        }
        commands.push(Command::Write(self.msg));
        assert(orders(commands@) =~= written(piece));
        commands
    }
}

/// What the console shows of a row of reports that comes at this indentation.
pub open spec fn transcript(indent: Seq<char>, reports: Seq<Progress<String>>) -> Seq<Piece>
    decreases reports.len(),
{
    if reports.len() == 0 {
        seq![]
    } else {
        shown(indent, reports[0]) + transcript(indented(indent, reports[0]), reports.drop_first())
    }
}

/// The indentation after a row of reports that comes at this indentation.
pub open spec fn indented_all(indent: Seq<char>, reports: Seq<Progress<String>>) -> Seq<char>
    decreases reports.len(),
{
    if reports.len() == 0 {
        indent
    } else {
        indented_all(indented(indent, reports[0]), reports.drop_first())
    }
}

/// The reports on a tree leave the indentation as it was.
pub proof fn law_indent_restored<T>(
    tree: Tree<T>,
    outcomes: Seq<Result<(), String>>,
    indent: Seq<char>,
)
    ensures
        indented_all(indent, progress(tree, outcomes)) == indent,
    decreases tree,
{
    let reports = progress(tree, outcomes);
    reveal_with_fuel(indented_all, 2);
    match tree {
        Tree::Leaf { .. } => {
            assert(reports.drop_first() =~= seq![]);
        },
        Tree::Branch { name, tests } => {
            let inner = indent.push('\t');
            let start = seq![Progress::<String>::GroupStart(name)];
            let middle = progress_all(tests, outcomes);
            let end = seq![Progress::<String>::GroupEnd];
            lemma_transcript_add(indent, start + middle, end);
            lemma_transcript_add(indent, start, middle);
            assert(start.drop_first() =~= seq![]);
            assert(end.drop_first() =~= seq![]);
            law_indent_restored_all(tests, outcomes, inner);
            assert(inner.drop_last() =~= indent);
        },
    }
}

/// The reports on a row of trees leave the indentation as it was.
pub proof fn law_indent_restored_all<T>(
    trees: Seq<Tree<T>>,
    outcomes: Seq<Result<(), String>>,
    indent: Seq<char>,
)
    ensures
        indented_all(indent, progress_all(trees, outcomes)) == indent,
    decreases trees,
{
    if trees.len() > 0 {
        let before = leaves_all(trees.drop_last()) as int;
        law_indent_restored_all(trees.drop_last(), outcomes.take(before), indent);
        law_indent_restored(trees.last(), outcomes.skip(before), indent);
        lemma_transcript_add(
            indent,
            progress_all(trees.drop_last(), outcomes.take(before)),
            progress(trees.last(), outcomes.skip(before)),
        );
    }
}

/// The console shows a group as its name in bold letters, what belongs to it one tab further in,
/// and an end of line.
pub proof fn law_transcript_group<T>(
    name: Seq<char>,
    tests: Seq<Tree<T>>,
    outcomes: Seq<Result<(), String>>,
    indent: Seq<char>,
)
    ensures
        transcript(indent, progress(Tree::Branch { name, tests }, outcomes)) == seq![
            styled(Style::strong(), indent + name + seq!['\n']),
        ] + transcript(indent.push('\t'), progress_all(tests, outcomes)) + seq![plain(seq!['\n'])],
{
    let inner = indent.push('\t');
    let start = seq![Progress::<String>::GroupStart(name)];
    let middle = progress_all(tests, outcomes);
    let end = seq![Progress::<String>::GroupEnd];
    reveal_with_fuel(transcript, 2);
    reveal_with_fuel(indented_all, 2);
    lemma_transcript_add(indent, start + middle, end);
    lemma_transcript_add(indent, start, middle);
    assert(start.drop_first() =~= seq![]);
    assert(end.drop_first() =~= seq![]);
    law_indent_restored_all(tests, outcomes, inner);
    assert(transcript(indent, start) =~= shown(indent, start[0]));
    assert(transcript(inner, end) =~= shown(inner, end[0]));
}

/// The console shows a test as its name, the result in its colour, and the error where it failed.
pub proof fn law_transcript_test<T>(
    name: Seq<char>,
    test: T,
    outcomes: Seq<Result<(), String>>,
    indent: Seq<char>,
)
    requires
        outcomes.len() == 1,
    ensures
        transcript(indent, progress(Tree::Leaf { name, test }, outcomes)) == seq![
            plain(indent + name + " ... "@),
            if outcomes[0] is Ok {
                styled(Style { fg: Some(Hue::Green), bold: false }, "ok"@)
            } else {
                styled(Style { fg: Some(Hue::Red), bold: false }, "FAILED"@)
            },
            match outcomes[0] {
                Ok(_) => plain(seq!['\n']),
                Err(error) => plain(seq!['\n'] + error@),
            },
        ],
{
    let reports = progress(Tree::Leaf { name, test }, outcomes);
    reveal_with_fuel(transcript, 2);
    assert(reports.drop_first() =~= seq![]);
    assert(transcript(indent, reports) =~= shown(indent, reports[0]));
}

/// A row of reports is shown report by report, each at the indentation that those before it leave.
pub proof fn law_transcript(indent: Seq<char>, reports: Seq<Progress<String>>, last: Progress<String>)
    ensures
        transcript(indent, seq![]) == Seq::<Piece>::empty(),
        transcript(indent, reports.push(last)) == transcript(indent, reports) + shown(
            indented_all(indent, reports),
            last,
        ),
        indented_all(indent, seq![]) == indent,
        indented_all(indent, reports.push(last)) == indented(indented_all(indent, reports), last),
{
    let end = seq![last];
    assert(reports.push(last) =~= reports + end);
    lemma_transcript_add(indent, reports, end);
    reveal_with_fuel(transcript, 2);
    reveal_with_fuel(indented_all, 2);
    assert(end.drop_first() =~= seq![]);
    let at = indented_all(indent, reports);
    assert(transcript(at, end) =~= shown(at, last));
}

/// The console shows the trees of a row one after the other, all at the same indentation.
pub proof fn law_transcript_row<T>(
    trees: Seq<Tree<T>>,
    tree: Tree<T>,
    outcomes: Seq<Result<(), String>>,
    indent: Seq<char>,
)
    ensures
        transcript(indent, progress_all(trees.push(tree), outcomes)) == transcript(
            indent,
            progress_all(trees, outcomes.take(leaves_all(trees) as int)),
        ) + transcript(indent, progress(tree, outcomes.skip(leaves_all(trees) as int))),
{
    let before = leaves_all(trees) as int;
    assert(trees.push(tree).drop_last() =~= trees);
    lemma_transcript_add(
        indent,
        progress_all(trees, outcomes.take(before)),
        progress(tree, outcomes.skip(before)),
    );
    law_indent_restored_all(trees, outcomes.take(before), indent);
}

/// What the console shows of two rows of reports.
proof fn lemma_transcript_add(
    indent: Seq<char>,
    first: Seq<Progress<String>>,
    second: Seq<Progress<String>>,
)
    ensures
        transcript(indent, first + second) == transcript(indent, first) + transcript(
            indented_all(indent, first),
            second,
        ),
        indented_all(indent, first + second) == indented_all(indented_all(indent, first), second),
    decreases first.len(),
{
    if first.len() == 0 {
        assert(first + second =~= second);
        assert(transcript(indent, first) + transcript(indent, second) =~= transcript(
            indent,
            second,
        ));
    } else {
        assert((first + second).drop_first() =~= first.drop_first() + second);
        lemma_transcript_add(indented(indent, first[0]), first.drop_first(), second);
        assert(transcript(indent, first + second) =~= transcript(indent, first) + transcript(
            indented_all(indent, first),
            second,
        ));
    }
}

} // verus!
