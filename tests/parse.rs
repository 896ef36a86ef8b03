use hohoho::{Command, Error, Program, TripletParseIter};

fn commands_of(source: &str) -> Vec<Command> {
    Program::parse(source).unwrap().commands().to_vec()
}

const ALL: [Command; 8] = [
    Command::IncrementCell,
    Command::DecrementCell,
    Command::MoveRight,
    Command::MoveLeft,
    Command::JumpForward,
    Command::JumpBackward,
    Command::OutputFromCell,
    Command::InputToCell,
];

#[test]
fn triplets_read_back_as_their_commands() {
    for c in ALL {
        assert_eq!(Command::from_str(c.triplet()), Some(c));
    }
}

#[test]
fn triplet_table() {
    let expected = [
        ("HOHOHO", '+'),
        ("HoHoHo", '-'),
        ("HOHOHo", '>'),
        ("HoHOHO", '<'),
        ("HOHoHo", '['),
        ("HoHoHO", ']'),
        ("HoHOHo", '.'),
        ("HOHoHO", ','),
    ];
    for (c, (t, b)) in ALL.iter().zip(expected.iter()) {
        assert_eq!(c.triplet(), *t);
        assert_eq!(*c.as_brainfuck(), *b);
    }
}

#[test]
fn from_str_rejects_other_words() {
    assert_eq!(Command::from_str("hohoho"), None);
    assert_eq!(Command::from_str("HOHOH"), None);
    assert_eq!(Command::from_str("HOHOHOH"), None);
    assert_eq!(Command::from_str("HOHOHX"), None);
    assert_eq!(Command::from_str(""), None);
}

#[test]
fn single_increment() {
    let p = Program::parse("HOHOHO").unwrap();
    assert_eq!(p.commands(), &[Command::IncrementCell]);
    assert_eq!(p.brainfuck_text(), "+");
    let bf = p.to_brainfuck().unwrap();
    assert_eq!(format!("{}", bf), "+");
}

#[test]
fn empty_loop() {
    let p = Program::parse("HOHoHoHoHoHO").unwrap();
    assert_eq!(p.commands(), &[Command::JumpForward, Command::JumpBackward]);
    assert_eq!(p.brainfuck_text(), "[]");
    let bf = p.to_brainfuck().unwrap();
    assert_eq!(format!("{}", bf), "[]");
}

#[test]
fn bare_loop_backward() {
    assert_eq!(Program::parse("HoHoHO").unwrap_err(), Error::MissingHOHoHo);
}

#[test]
fn bare_loop_forward() {
    assert_eq!(Program::parse("HOHoHo").unwrap_err(), Error::MissingHoHoHO(1));
}

#[test]
fn unclosed_loops_are_counted() {
    assert_eq!(
        Program::parse("HOHoHo HOHoHo HOHoHo HoHoHO").unwrap_err(),
        Error::MissingHoHoHO(2)
    );
}

#[test]
fn invalid_triplet() {
    assert_eq!(
        Program::parse("ABCDEF").unwrap_err(),
        Error::InvalidTriplet("ABCDEF".to_string())
    );
}

#[test]
fn invalid_triplet_skips_whitespace_in_the_word() {
    assert_eq!(
        Program::parse("HOHOHO hoh\noho HOHOHO").unwrap_err(),
        Error::InvalidTriplet("hohoho".to_string())
    );
}

#[test]
fn invalid_triplet_of_wide_characters() {
    assert_eq!(
        Program::parse("ééé ééé").unwrap_err(),
        Error::InvalidTriplet("éééééé".to_string())
    );
}

#[test]
fn first_fault_wins() {
    assert_eq!(Program::parse("HoHoHOABCDEF").unwrap_err(), Error::MissingHOHoHo);
    assert_eq!(
        Program::parse("ABCDEFHoHoHO").unwrap_err(),
        Error::InvalidTriplet("ABCDEF".to_string())
    );
    assert_eq!(
        Program::parse("HOHoHoABCDEF").unwrap_err(),
        Error::InvalidTriplet("ABCDEF".to_string())
    );
}

#[test]
fn whitespace_inside_a_word() {
    assert_eq!(commands_of("HOH\nOHO"), commands_of("HOHOHO"));
    assert_eq!(commands_of(" H O H O H O "), vec![Command::IncrementCell]);
    assert_eq!(commands_of("HOHo\tHo\r\nHoHoHO"), commands_of("HOHoHoHoHoHO"));
    assert_eq!(commands_of("HOH\u{3000}OH\u{a0}O"), vec![Command::IncrementCell]);
}

#[test]
fn trailing_partial_word_is_ignored() {
    assert_eq!(commands_of("HOHOHOHOH"), vec![Command::IncrementCell]);
    assert_eq!(commands_of("HOHOH"), vec![]);
    assert_eq!(
        Program::parse("HOHoHoHoHoH").unwrap_err(),
        Error::MissingHoHoHO(1)
    );
}

#[test]
fn empty_source() {
    assert_eq!(commands_of(""), vec![]);
    assert_eq!(commands_of(" \n\t "), vec![]);
    assert_eq!(Program::parse("").unwrap().brainfuck_text(), "");
}

#[test]
fn parse_twice_gives_equal_programs() {
    let src = "HOHOHO HOHoHo HoHoHo HoHoHO HoHOHo";
    assert_eq!(Program::parse(src).unwrap(), Program::parse(src).unwrap());
    assert_eq!(Program::parse("HoHoHO").unwrap_err(), Program::parse("HoHoHO").unwrap_err());
}

#[test]
fn well_nested_program_round_trip() {
    let cmds = vec![
        Command::IncrementCell,
        Command::JumpForward,
        Command::MoveRight,
        Command::JumpForward,
        Command::DecrementCell,
        Command::JumpBackward,
        Command::MoveLeft,
        Command::OutputFromCell,
        Command::InputToCell,
        Command::JumpBackward,
    ];
    let src: String = cmds.iter().map(|c| c.triplet()).collect();
    let p = Program::parse(&src).unwrap();
    assert_eq!(p.commands(), cmds.as_slice());
    let text = p.brainfuck_text();
    assert_eq!(text, "+[>[-]<.,]");
    assert_eq!(text.chars().count(), cmds.len());
    let bf = p.to_brainfuck().unwrap();
    assert_eq!(format!("{}", bf), "+[>[-]<.,]");
}

#[test]
fn iterator_yields_commands_then_ends() {
    let mut it = TripletParseIter::new("HOHoHo HOHOHO HoHoHO");
    assert_eq!(it.next(), Some(Ok(Command::JumpForward)));
    assert_eq!(it.next(), Some(Ok(Command::IncrementCell)));
    assert_eq!(it.next(), Some(Ok(Command::JumpBackward)));
    assert_eq!(it.next(), None);
    assert_eq!(it.next(), None);
}

#[test]
fn iterator_stops_after_a_fault() {
    let mut it = TripletParseIter::new("HOHoHo");
    assert_eq!(it.next(), Some(Ok(Command::JumpForward)));
    assert_eq!(it.next(), Some(Err(Error::MissingHoHoHO(1))));
    assert_eq!(it.next(), None);
    let mut it = TripletParseIter::new("xxxxxxHOHOHO");
    assert_eq!(it.next(), Some(Err(Error::InvalidTriplet("xxxxxx".to_string()))));
    assert_eq!(it.next(), None);
}
