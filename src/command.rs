//! The commands of the interactive loop.
use vstd::prelude::*;

verus! {

/// What one line typed at the command prompt asks for.
#[derive(Clone, Copy, PartialEq, Eq, Debug, Structural)]
pub enum Command {
    Quit,
    PrintLetters,
    ResetLetters,
    Solve,
    Help,
    ResetBoards,
    PrintBoards,
    AddLetters,
}

/// The command named by a (trimmed) line: one of the letters `q`, `p`, `r`,
/// `s`, `h`, `b`, `c` alone; any other line asks to add letters.
pub open spec fn command_of(line: Seq<char>) -> Command {
    if line.len() != 1 {
        Command::AddLetters
    } else if line[0] == 'q' {
        Command::Quit
    } else if line[0] == 'p' {
        Command::PrintLetters
    } else if line[0] == 'r' {
        Command::ResetLetters
    } else if line[0] == 's' {
        Command::Solve
    } else if line[0] == 'h' {
        Command::Help
    } else if line[0] == 'b' {
        Command::ResetBoards
    } else if line[0] == 'c' {
        Command::PrintBoards
    } else {
        Command::AddLetters
    }
}

/// Reads the command a line names.
pub fn parse_command(line: &Vec<char>) -> (r: Command)
    ensures
        r == command_of(line@),
{
    if line.len() != 1 {
        return Command::AddLetters;
    }
    match line[0] {
        'q' => Command::Quit,
        'p' => Command::PrintLetters,
        'r' => Command::ResetLetters,
        's' => Command::Solve,
        'h' => Command::Help,
        'b' => Command::ResetBoards,
        'c' => Command::PrintBoards,
        _ => Command::AddLetters,
    }
}

} // verus!
