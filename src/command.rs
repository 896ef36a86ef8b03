use vstd::prelude::*;

verus! {

/// An executable **HOHOHO!** command.
#[derive(Clone, Copy, Debug, PartialEq, Eq, Structural)]
pub enum Command {
    /// Increment memory cell at pointer.
    IncrementCell,
    /// Decrement memory cell at pointer.
    DecrementCell,
    /// Move pointer to the right (or "forward" on the "tape").
    MoveRight,
    /// Move pointer to the left (or "backward" on the "tape").
    MoveLeft,
    /// Jump past the matching `HoHoHO` if the cell at the pointer is `0`.
    JumpForward,
    /// Jump back to the matching `HOHoHo` if the cell at the pointer is *not* `0`.
    JumpBackward,
    /// Output the character signified by the memory cell where the pointer is.
    OutputFromCell,
    /// Input a character and store it in the memory cell where the pointer is.
    InputToCell,
}

/// The six letters that spell a command in source text.
pub open spec fn triplet_of(c: Command) -> Seq<char> {
    match c {
        Command::IncrementCell => seq!['H', 'O', 'H', 'O', 'H', 'O'],
        Command::DecrementCell => seq!['H', 'o', 'H', 'o', 'H', 'o'],
        Command::MoveRight => seq!['H', 'O', 'H', 'O', 'H', 'o'],
        Command::MoveLeft => seq!['H', 'o', 'H', 'O', 'H', 'O'],
        Command::JumpForward => seq!['H', 'O', 'H', 'o', 'H', 'o'],
        Command::JumpBackward => seq!['H', 'o', 'H', 'o', 'H', 'O'],
        Command::OutputFromCell => seq!['H', 'o', 'H', 'O', 'H', 'o'],
        Command::InputToCell => seq!['H', 'O', 'H', 'o', 'H', 'O'],
    }
}

/// The Brainfuck instruction character of a command.
pub open spec fn brainfuck_of(c: Command) -> char {
    match c {
        Command::IncrementCell => '+',
        Command::DecrementCell => '-',
        Command::MoveRight => '>',
        Command::MoveLeft => '<',
        Command::JumpForward => '[',
        Command::JumpBackward => ']',
        Command::OutputFromCell => '.',
        Command::InputToCell => ',',
    }
}

/// The command that a six-letter word spells, if it spells one.
pub open spec fn decode(s: Seq<char>) -> Option<Command> {
    if s == triplet_of(Command::IncrementCell) {
        Some(Command::IncrementCell)
    } else if s == triplet_of(Command::DecrementCell) {
        Some(Command::DecrementCell)
    } else if s == triplet_of(Command::MoveRight) {
        Some(Command::MoveRight)
    } else if s == triplet_of(Command::MoveLeft) {
        Some(Command::MoveLeft)
    } else if s == triplet_of(Command::JumpForward) {
        Some(Command::JumpForward)
    } else if s == triplet_of(Command::JumpBackward) {
        Some(Command::JumpBackward)
    } else if s == triplet_of(Command::OutputFromCell) {
        Some(Command::OutputFromCell)
    } else if s == triplet_of(Command::InputToCell) {
        Some(Command::InputToCell)
    } else {
        None
    }
}

/// Spelling a command and reading the word back gives the command again, and
/// a word that reads as a command is exactly that command's spelling.
pub proof fn lemma_triplet_round_trip(c: Command, s: Seq<char>)
    ensures
        decode(triplet_of(c)) == Some(c),
        decode(s) == Some(c) ==> s == triplet_of(c),
{
}

impl Command {
    /// Reads a six-letter word as a command.
    pub fn from_str(s: &str) -> (r: Option<Self>)
        ensures
            r == decode(s@),
    {
        if s.unicode_len() != 6 {
            return None;
        }
        let c0 = s.get_char(0);
        let c1 = s.get_char(1);
        let c2 = s.get_char(2);
        let c3 = s.get_char(3);
        let c4 = s.get_char(4);
        let c5 = s.get_char(5);
        if c0 != 'H' || c2 != 'H' || c4 != 'H' {
            return None;
        }
        if (c1 != 'O' && c1 != 'o') || (c3 != 'O' && c3 != 'o') || (c5 != 'O' && c5 != 'o') {
            return None;
        }
        let r = if c1 == 'O' {
            if c3 == 'O' {
                if c5 == 'O' { Command::IncrementCell } else { Command::MoveRight }
            } else {
                if c5 == 'O' { Command::InputToCell } else { Command::JumpForward }
            }
        } else {
            if c3 == 'O' {
                if c5 == 'O' { Command::MoveLeft } else { Command::OutputFromCell }
            } else {
                if c5 == 'O' { Command::JumpBackward } else { Command::DecrementCell }
            }
        };
        assert(s@ =~= triplet_of(r));
        proof { lemma_triplet_round_trip(r, s@); }
        Some(r)
    }

    /// The six letters that spell this command.
    pub fn triplet(&self) -> (r: &'static str)
        ensures
            r@ == triplet_of(*self),
    {
        match *self {
            Command::IncrementCell => {
                proof { reveal_strlit("HOHOHO"); }
                "HOHOHO"
            },
            Command::DecrementCell => {
                proof { reveal_strlit("HoHoHo"); }
                "HoHoHo"
            },
            Command::MoveRight => {
                proof { reveal_strlit("HOHOHo"); }
                "HOHOHo"
            },
            Command::MoveLeft => {
                proof { reveal_strlit("HoHOHO"); }
                "HoHOHO"
            },
            Command::JumpForward => {
                proof { reveal_strlit("HOHoHo"); }
                "HOHoHo"
            },
            Command::JumpBackward => {
                proof { reveal_strlit("HoHoHO"); }
                "HoHoHO"
            },
            Command::OutputFromCell => {
                proof { reveal_strlit("HoHOHo"); }
                "HoHOHo"
            },
            Command::InputToCell => {
                proof { reveal_strlit("HOHoHO"); }
                "HOHoHO"
            },
        }
    }

    /// The Brainfuck instruction for this command.
    pub fn as_brainfuck(&self) -> (r: &'static char)
        ensures
            *r == brainfuck_of(*self),
    {
        match *self {
            Command::IncrementCell => &'+',
            Command::DecrementCell => &'-',
            Command::MoveRight => &'>',
            Command::MoveLeft => &'<',
            Command::JumpForward => &'[',
            Command::JumpBackward => &']',
            Command::OutputFromCell => &'.',
            Command::InputToCell => &',',
        }
    }
}

} // verus!
