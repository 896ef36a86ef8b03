use vstd::prelude::*;

use brainfuck::program::{Error as BfError, Program as BfProgram};

use crate::command::{brainfuck_of, lemma_triplet_round_trip, triplet_of, Command};
use crate::parser::{
    decode_tokens, is_white_space, lemma_significant_concat, parse_source, significant, token, Error, Fault,
    TripletParseIter,
};

verus! {

#[verifier::external_type_specification]
#[verifier::external_body]
pub struct ExBrainfuckProgram(BfProgram);

#[verifier::external_type_specification]
#[verifier::external_body]
pub struct ExBrainfuckError(BfError);

/// How many loops are open after `cmds`: each loop-forward opens one, each
/// loop-backward closes one.
pub open spec fn loop_depth(cmds: Seq<Command>) -> int
    decreases cmds.len(),
{
    if cmds.len() == 0 {
        0
    } else {
        let d = loop_depth(cmds.drop_last());
        match cmds.last() {
            Command::JumpForward => d + 1,
            Command::JumpBackward => d - 1,
            _ => d,
        }
    }
}

/// Every loop-backward closes an earlier loop-forward, and every loop-forward
/// is closed.
pub open spec fn well_nested(cmds: Seq<Command>) -> bool {
    &&& loop_depth(cmds) == 0
    &&& forall|i: int| 0 <= i <= cmds.len() ==> loop_depth(#[trigger] cmds.take(i)) >= 0
}

/// How many `[` are open after the Brainfuck text `s`.
pub open spec fn bracket_depth(s: Seq<char>) -> int
    decreases s.len(),
{
    if s.len() == 0 {
        0
    } else {
        let d = bracket_depth(s.drop_last());
        if s.last() == '[' {
            d + 1
        } else if s.last() == ']' {
            d - 1
        } else {
            d
        }
    }
}

/// Every `]` closes an earlier `[`, and every `[` is closed.
pub open spec fn brackets_balanced(s: Seq<char>) -> bool {
    &&& bracket_depth(s) == 0
    &&& forall|i: int| 0 <= i <= s.len() ==> bracket_depth(#[trigger] s.take(i)) >= 0
}

/// The Brainfuck text of a command sequence, one character per command.
pub open spec fn transpile(cmds: Seq<Command>) -> Seq<char> {
    cmds.map_values(|c: Command| brainfuck_of(c))
}

/// What Brainfuck's parser makes of a text: it depends on the text alone.
pub uninterp spec fn bf_parse_of(s: Seq<char>) -> Result<BfProgram, BfError>;

/// Relies on `brainfuck::program::Program::parse`: its result is a function
/// of the text, and it fails exactly when a `]` has no open `[` before it or
/// a `[` is left open at the end.
pub assume_specification[ BfProgram::parse ](source: &str) -> (r: Result<
    BfProgram,
    BfError,
>)
    ensures
        r == bf_parse_of(source@),
        r is Ok <==> brackets_balanced(source@),
;

/// A parsed **HOHOHO!** program: its commands, with loops well nested.
#[derive(Debug, PartialEq, Eq)]
pub struct Program {
    commands: Vec<Command>,
}

impl View for Program {
    type V = Seq<Command>;

    closed spec fn view(&self) -> Seq<Command> {
        self.commands@
    }
}

/// The commands read from the first `k` words are well nested up to the
/// loops still open.
proof fn lemma_decoded_nesting(sig: Seq<char>, k: nat)
    ensures
        decode_tokens(sig, k) is Ok ==> {
            let (cmds, d) = decode_tokens(sig, k)->Ok_0;
            &&& loop_depth(cmds) == d
            &&& forall|i: int| 0 <= i <= cmds.len() ==> loop_depth(#[trigger] cmds.take(i)) >= 0
        },
    decreases k,
{
    if k > 0 && decode_tokens(sig, k) is Ok {
        lemma_decoded_nesting(sig, (k - 1) as nat);
        let (prev, _) = decode_tokens(sig, (k - 1) as nat)->Ok_0;
        let (cmds, _) = decode_tokens(sig, k)->Ok_0;
        assert(cmds.drop_last() =~= prev);
        assert forall|i: int| 0 <= i <= cmds.len() implies loop_depth(#[trigger] cmds.take(i))
            >= 0 by {
            if i < cmds.len() {
                assert(cmds.take(i) =~= prev.take(i));
            } else {
                assert(cmds.take(i) =~= cmds);
            }
        }
    }
}

/// Once a word faults, reading further words reports the same fault.
proof fn lemma_fault_persists(sig: Seq<char>, k: nat, m: nat)
    requires
        k <= m,
        decode_tokens(sig, k) is Err,
    ensures
        decode_tokens(sig, m) == decode_tokens(sig, k),
    decreases m - k,
{
    if k < m {
        lemma_fault_persists(sig, k, (m - 1) as nat);
    }
}

/// The Brainfuck text of commands opens and closes brackets exactly where the
/// commands open and close loops.
proof fn lemma_transpile_depth(cmds: Seq<Command>)
    ensures
        bracket_depth(transpile(cmds)) == loop_depth(cmds),
        forall|i: int|
            0 <= i <= cmds.len() ==> #[trigger] transpile(cmds).take(i) == transpile(cmds.take(i)),
    decreases cmds.len(),
{
    assert forall|i: int| 0 <= i <= cmds.len() implies #[trigger] transpile(cmds).take(i)
        == transpile(cmds.take(i)) by {
        assert(transpile(cmds).take(i) =~= transpile(cmds.take(i)));
    }
    if cmds.len() > 0 {
        lemma_transpile_depth(cmds.drop_last());
        assert(transpile(cmds).drop_last() =~= transpile(cmds.drop_last()));
    }
}

/// Well-nested commands give balanced Brainfuck text.
proof fn lemma_transpile_balanced(cmds: Seq<Command>)
    requires
        well_nested(cmds),
    ensures
        brackets_balanced(transpile(cmds)),
{
    lemma_transpile_depth(cmds);
    let t = transpile(cmds);
    assert forall|i: int| 0 <= i <= t.len() implies bracket_depth(#[trigger] t.take(i)) >= 0 by {
        lemma_transpile_depth(cmds.take(i));
        assert(cmds.take(i).len() == i);
        assert(transpile(cmds.take(i)).take(i) =~= transpile(cmds.take(i)));
    }
}

/// The source text that spells `cmds`, one word per command, with no
/// whitespace.
pub open spec fn encode(cmds: Seq<Command>) -> Seq<char>
    decreases cmds.len(),
{
    if cmds.len() == 0 {
        seq![]
    } else {
        encode(cmds.drop_last()) + triplet_of(cmds.last())
    }
}

/// `r` is what parsing the source text `source` gives.
pub open spec fn parsed_as(source: Seq<char>, r: Result<Program, Error>) -> bool {
    match r {
        Ok(p) => parse_source(source) == Ok::<Seq<Command>, Fault>(p@),
        Err(e) => parse_source(source) == Err::<Seq<Command>, Fault>(e@),
    }
}

/// Parsing the same text twice gives equal outcomes: the same commands, or
/// the same fault.
pub proof fn lemma_parse_idempotent(source: Seq<char>, r1: Result<Program, Error>, r2: Result<Program, Error>)
    requires
        parsed_as(source, r1),
        parsed_as(source, r2),
    ensures
        r1 is Ok <==> r2 is Ok,
        r1 is Ok ==> r1->Ok_0@ == r2->Ok_0@,
        r1 is Err ==> r1->Err_0@ == r2->Err_0@,
{
}

proof fn lemma_encode_concat(a: Seq<Command>, b: Seq<Command>)
    ensures
        encode(a + b) == encode(a) + encode(b),
    decreases b.len(),
{
    if b.len() == 0 {
        assert(a + b =~= a);
        assert(encode(a) + encode(b) =~= encode(a));
    } else {
        lemma_encode_concat(a, b.drop_last());
        assert((a + b).drop_last() =~= a + b.drop_last());
        assert(encode(a) + (encode(b.drop_last()) + triplet_of(b.last())) =~= (encode(a) + encode(
            b.drop_last(),
        )) + triplet_of(b.last()));
    }
}

proof fn lemma_significant_solid(s: Seq<char>)
    requires
        forall|j: int| 0 <= j < s.len() ==> !is_white_space(#[trigger] s[j]),
    ensures
        significant(s) == s,
    decreases s.len(),
{
    if s.len() > 0 {
        lemma_significant_solid(s.drop_last());
        assert(s.drop_last().push(s.last()) =~= s);
    }
}

proof fn lemma_encode_shape(cmds: Seq<Command>)
    ensures
        encode(cmds).len() == 6 * cmds.len(),
        significant(encode(cmds)) == encode(cmds),
    decreases cmds.len(),
{
    if cmds.len() > 0 {
        let prev = cmds.drop_last();
        let t = triplet_of(cmds.last());
        lemma_encode_shape(prev);
        lemma_significant_concat(encode(prev), t);
        lemma_significant_solid(t);
    }
}

proof fn lemma_encode_token(cmds: Seq<Command>, k: int)
    requires
        0 <= k < cmds.len(),
    ensures
        token(encode(cmds), k) == triplet_of(cmds[k]),
{
    let a = cmds.take(k);
    let b = cmds.skip(k);
    assert(a + b =~= cmds);
    lemma_encode_concat(a, b);
    lemma_encode_shape(a);
    let c = seq![cmds[k]];
    assert(c + b.skip(1) =~= b);
    lemma_encode_concat(c, b.skip(1));
    assert(c.drop_last() =~= Seq::<Command>::empty());
    assert(encode(c) == encode(c.drop_last()) + triplet_of(c.last()));
    assert(encode(c) =~= triplet_of(cmds[k]));
    assert(token(encode(cmds), k) =~= triplet_of(cmds[k]));
}

proof fn lemma_decode_encoded(cmds: Seq<Command>, k: nat)
    requires
        k <= cmds.len(),
        forall|i: int| 0 <= i <= cmds.len() ==> loop_depth(#[trigger] cmds.take(i)) >= 0,
    ensures
        decode_tokens(encode(cmds), k) == Ok::<(Seq<Command>, nat), Fault>(
            (cmds.take(k as int), loop_depth(cmds.take(k as int)) as nat),
        ),
    decreases k,
{
    if k == 0 {
        assert(cmds.take(0) =~= Seq::<Command>::empty());
    } else {
        let j = k - 1;
        lemma_decode_encoded(cmds, j as nat);
        lemma_encode_token(cmds, j);
        lemma_triplet_round_trip(cmds[j], token(encode(cmds), j));
        assert(cmds.take(k as int).drop_last() =~= cmds.take(j));
        assert(cmds.take(j).push(cmds[j]) =~= cmds.take(k as int));
        assert(loop_depth(cmds.take(k as int)) >= 0);
    }
}

/// Well-nested commands, spelled as source text, parse back to the same
/// commands; their Brainfuck text has one character per command, the one the
/// table gives, and its brackets balance.
pub proof fn lemma_well_nested_round_trip(cmds: Seq<Command>)
    requires
        well_nested(cmds),
    ensures
        parse_source(encode(cmds)) == Ok::<Seq<Command>, Fault>(cmds),
        transpile(cmds).len() == cmds.len(),
        forall|i: int| 0 <= i < cmds.len() ==> #[trigger] transpile(cmds)[i] == brainfuck_of(cmds[i]),
        brackets_balanced(transpile(cmds)),
{
    lemma_encode_shape(cmds);
    assert(encode(cmds).len() / 6 == cmds.len());
    lemma_decode_encoded(cmds, cmds.len());
    assert(cmds.take(cmds.len() as int) =~= cmds);
    lemma_transpile_balanced(cmds);
}

impl Program {
    #[verifier::type_invariant]
    spec fn inv(&self) -> bool {
        well_nested(self.commands@)
    }

    /// Parses source text into a program, or reports the first fault.
    pub fn parse(source: &str) -> (r: Result<Self, Error>)
        ensures
            parsed_as(source@, r),
    {
        let ghost sig = significant(source@);
        let mut iter = TripletParseIter::new(source);
        let mut commands: Vec<Command> = Vec::new();
        loop
            invariant
                iter.wf(),
                iter.source_chars() == source@,
                sig == significant(source@),
                !iter.is_done(),
                6 * iter.words_read() <= sig.len(),
                decode_tokens(sig, iter.words_read()) == Ok::<(Seq<Command>, nat), Fault>(
                    (commands@, iter.depth()),
                ),
            decreases sig.len() - 6 * iter.words_read(),
        {
            let ghost k = iter.words_read();
            match iter.next() {
                None => {
                    assert(sig.len() / 6 == k);
                    proof {
                        lemma_decoded_nesting(sig, k);
                    }
                    return Ok(Program { commands });
                },
                Some(Ok(c)) => {
                    commands.push(c);
                },
                Some(Err(e)) => {
                    proof {
                        if 6 * k + 6 <= sig.len() {
                            lemma_fault_persists(sig, (k + 1) as nat, sig.len() / 6);
                        }
                    }
                    return Err(e);
                },
            }
        }
    }

    /// The commands, in order.
    pub fn commands(&self) -> (r: &[Command])
        ensures
            r@ == self@,
    {
        self.commands.as_slice()
    }

    /// The Brainfuck text of the program: each command's instruction
    /// character, in order.
    pub fn brainfuck_text(&self) -> (r: String)
        ensures
            r@ == transpile(self@),
    {
        let mut text = String::new();
        let mut i: usize = 0;
        while i < self.commands.len()
            invariant
                i <= self.commands@.len(),
                text@ == transpile(self.commands@.take(i as int)),
            decreases self.commands@.len() - i,
        {
            text.push(*self.commands[i].as_brainfuck());
            proof {
                assert(transpile(self.commands@.take(i + 1)) =~= transpile(
                    self.commands@.take(i as int),
                ).push(brainfuck_of(self.commands@[i as int])));
            }
            i = i + 1;
        }
        assert(self.commands@.take(i as int) =~= self.commands@);
        text
    }

    /// Converts the program into the Brainfuck program that Brainfuck's
    /// parser makes of its text. Loops are well nested, so the parser always
    /// accepts that text.
    pub fn to_brainfuck(self) -> (r: Result<BfProgram, BfError>)
        ensures
            r == bf_parse_of(transpile(self@)),
            r is Ok,
    {
        proof {
            use_type_invariant(&self);
            lemma_transpile_balanced(self@);
        }
        let text = self.brainfuck_text();
        BfProgram::parse(text.as_str())
    }
}

} // verus!
