//! The numbered menu: what is printed for a list of projects, and how the
//! menu answers each line of input.
//!
//! The caller prints the lines of each step, one per line of output. While
//! the state is `AwaitingInput` it prints `PROMPT`, reads a line and hands it
//! to `respond`; at `Exiting` it stops. The list is printed once, at the
//! start; after a detail view the prompt returns without the list.

use crate::discover::{discovered, lemma_no_directory_no_project, Entry};
use crate::input::{
    all_digits, command_of, interpret, is_digit, number_of, trimmed, Command,
};
use crate::project::{ProjectCollection, ProjectInfo, ProjectView};
use crate::text::{decimal, decimal_text, join, joined};
use vstd::prelude::*;

verus! {

/// Where the menu stands after a step.
#[derive(Clone, Copy, Debug, PartialEq, Eq, Structural)]
pub enum State {
    /// The menu waits for the next line of input.
    AwaitingInput,
    /// The menu has ended; nothing more is read or printed.
    Exiting,
}

/// One step of the menu: the lines that it prints and the state that follows.
#[derive(Debug)]
pub struct Step {
    pub lines: Vec<String>,
    pub state: State,
}

/// The text that is printed, without a line end, before a line is read.
pub const PROMPT: &'static str = "> ";

/// The description of a project as it is shown: its own, or a placeholder
/// where it has none.
pub open spec fn description_text(p: ProjectView) -> Seq<char> {
    match p.description {
        Some(d) => d,
        None => "No description"@,
    }
}

/// The line of the list for the project `p` at position `i`, counted from 0:
/// its number, counted from 1, its name and its description.
pub open spec fn listing_line(i: int, p: ProjectView) -> Seq<char> {
    decimal_text((i + 1) as nat) + ". "@ + p.name + " - "@ + description_text(p)
}

/// What is printed at the start for the projects `s`: one line for each, in
/// their order, and the instruction; or a single notice where there is none.
pub open spec fn listing(s: Seq<ProjectView>) -> Seq<Seq<char>> {
    if s.len() == 0 {
        seq!["No Rust projects found."@]
    } else {
        Seq::new(s.len(), |i: int| listing_line(i, s[i])).push(
            "Enter the number of the project to view details, or 'q' to quit:"@,
        )
    }
}

/// The directory from which the built project `p` can be run.
pub open spec fn run_path(p: ProjectView) -> Seq<char> {
    joined(p.path, "target/release"@)
}

/// The detail view of the project `p`.
pub open spec fn details(p: ProjectView) -> Seq<Seq<char>> {
    seq![
        ""@,
        "Project Details:"@,
        "Project Name: "@ + p.name,
        "Description: "@ + description_text(p),
        "Path: "@ + p.path,
        "You can run this project from: "@ + run_path(p),
    ]
}

/// The answer of the menu to the line `input`, over the projects `s`: the
/// state that follows and the lines that are printed.
pub open spec fn reply(s: Seq<ProjectView>, input: Seq<char>) -> (State, Seq<Seq<char>>) {
    match command_of(input, s.len()) {
        Command::Quit => (State::Exiting, seq!["Exiting program..."@]),
        Command::Select(i) => (State::AwaitingInput, details(s[i as int])),
        Command::OutOfRange => (
            State::AwaitingInput,
            seq!["Invalid selection. Please enter a valid project number."@],
        ),
        Command::Unrecognised => (
            State::AwaitingInput,
            seq!["Please enter a valid number or 'q' to quit."@],
        ),
    }
}

/// What is printed when the menu is interrupted from outside.
pub open spec fn interruption() -> Seq<Seq<char>> {
    seq![""@, "Program interrupted. Exiting..."@]
}

/// The menu ends on `q` or `Q`, and on nothing else that is typed.
pub proof fn lemma_only_q_leaves(s: Seq<ProjectView>, input: Seq<char>)
    ensures
        reply(s, input).0 == State::Exiting <==> trimmed(input) == seq!['q'] || trimmed(input)
            == seq!['Q'],
{
}

/// A line that writes a number of the list shows the project of that
/// number, counted from 1; any other number that fits the machine's word is
/// an invalid selection. Either way the menu goes on.
pub proof fn lemma_number_selects(s: Seq<ProjectView>, input: Seq<char>, n: nat)
    requires
        number_of(trimmed(input)) == Some(n),
        n <= usize::MAX,
    ensures
        reply(s, input) == if 1 <= n <= s.len() {
            (State::AwaitingInput, details(s[n - 1]))
        } else {
            (State::AwaitingInput, seq!["Invalid selection. Please enter a valid project number."@])
        },
{
    let line = trimmed(input);
    if line == seq!['q'] || line == seq!['Q'] {
        assert(line.len() == 1);
        assert(!is_digit(line[0]));
        assert(!all_digits(line));
    }
}

/// A root directory without a directory among its entries leads to the
/// notice that there is no project, with which the menu ends.
pub proof fn lemma_nothing_found(entries: Seq<Entry>)
    requires
        forall|i: int| 0 <= i < entries.len() ==> !(#[trigger] entries[i]).is_dir,
    ensures
        listing(discovered(entries)) == seq!["No Rust projects found."@],
{
    lemma_no_directory_no_project(entries);
}

/// `head` followed by `tail`.
fn labelled(head: &str, tail: &str) -> (r: String)
    ensures
        r@ == head@ + tail@,
{
    let mut r = String::from_str(head);
    r.append(tail);
    r
}

/// The description of `info` as it is shown.
fn shown_description(info: &ProjectInfo) -> (r: &str)
    ensures
        r@ == description_text(info@),
{
    match &info.description {
        Some(d) => d.as_str(),
        None => "No description",
    }
}

/// A step that prints the single line `line`.
fn one_line(line: &str, state: State) -> (r: Step)
    ensures
        r.state == state,
        r.lines.deep_view() == seq![line@],
{
    let mut lines: Vec<String> = Vec::new();
    lines.push(String::from_str(line));
    assert(lines.deep_view() =~= seq![line@]);
    Step { lines, state }
}

/// Starts the menu: prints the list of `projects`, numbered from 1 in the
/// order of their names, and waits for input; or says that there is no
/// project, and ends.
pub fn display_projects(projects: &ProjectCollection) -> (r: Step)
    ensures
        r.state == if projects@.len() == 0 {
            State::Exiting
        } else {
            State::AwaitingInput
        },
        r.lines.deep_view() == listing(projects@),
{
    if projects.is_empty() {
        return one_line("No Rust projects found.", State::Exiting);
    }
    let mut lines: Vec<String> = Vec::new();
    let n: usize = projects.len();
    let mut i: usize = 0;
    while i < n
        invariant
            i <= n,
            n == projects@.len(),
            lines@.len() == i,
            forall|j: int| 0 <= j < i ==> (#[trigger] lines@[j])@ == listing_line(j, projects@[j]),
        decreases n - i,
    {
        let info = projects.at(i);
        let mut line = decimal(i + 1);
        line.append(". ");
        line.append(info.name.as_str());
        line.append(" - ");
        line.append(shown_description(info));
        lines.push(line);
        i += 1;
    }
    lines.push(
        String::from_str("Enter the number of the project to view details, or 'q' to quit:"),
    );
    assert(lines.deep_view() =~= listing(projects@));
    Step { lines, state: State::AwaitingInput }
}

/// The lines of the detail view of the project `info`.
pub fn display_project_details(info: &ProjectInfo) -> (r: Vec<String>)
    ensures
        r.deep_view() == details(info@),
{
    let mut lines: Vec<String> = Vec::new();
    lines.push(String::new());
    lines.push(String::from_str("Project Details:"));
    lines.push(labelled("Project Name: ", info.name.as_str()));
    lines.push(labelled("Description: ", shown_description(info)));
    lines.push(labelled("Path: ", info.path.as_str()));
    let run = join(info.path.as_str(), "target/release");
    lines.push(labelled("You can run this project from: ", run.as_str()));
    proof {
        reveal_strlit("");
        assert(lines@[0]@ =~= ""@);
        assert(lines.deep_view() =~= details(info@));
    }
    lines
}

/// Answers the line `input` that was read while the menu was waiting.
pub fn respond(projects: &ProjectCollection, input: &str) -> (r: Step)
    ensures
        (r.state, r.lines.deep_view()) == reply(projects@, input@),
{
    match interpret(input, projects.len()) {
        Command::Quit => one_line("Exiting program...", State::Exiting),
        Command::Select(i) => Step {
            lines: display_project_details(projects.at(i)),
            state: State::AwaitingInput,
        },
        Command::OutOfRange => one_line(
            "Invalid selection. Please enter a valid project number.",
            State::AwaitingInput,
        ),
        Command::Unrecognised => one_line(
            "Please enter a valid number or 'q' to quit.",
            State::AwaitingInput,
        ),
    }
}

/// What is said, in place of the menu, where the root directory of the
/// projects does not exist.
pub fn missing_root() -> (r: Step)
    ensures
        r.state == State::Exiting,
        r.lines.deep_view() == seq!["Sorry, no Rust projects found."@],
{
    one_line("Sorry, no Rust projects found.", State::Exiting)
}

/// Ends the menu on an interrupt from outside, in whatever state it is.
pub fn interrupt() -> (r: Step)
    ensures
        r.state == State::Exiting,
        r.lines.deep_view() == interruption(),
{
    let mut lines: Vec<String> = Vec::new();
    lines.push(String::new());
    lines.push(String::from_str("Program interrupted. Exiting..."));
    proof {
        reveal_strlit("");
        assert(lines@[0]@ =~= ""@);
        assert(lines.deep_view() =~= interruption());
    }
    Step { lines, state: State::Exiting }
}

} // verus!
