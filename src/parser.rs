use vstd::prelude::*;

use crate::command::{decode, lemma_triplet_round_trip, Command};

verus! {

/// Whether a character has Unicode's White_Space property.
pub open spec fn is_white_space(c: char) -> bool {
    let n = c as u32;
    ||| 0x09 <= n <= 0x0D
    ||| n == 0x20
    ||| n == 0x85
    ||| n == 0xA0
    ||| n == 0x1680
    ||| 0x2000 <= n <= 0x200A
    ||| n == 0x2028
    ||| n == 0x2029
    ||| n == 0x202F
    ||| n == 0x205F
    ||| n == 0x3000
}

/// Relies on `char::is_whitespace`: true exactly for the characters with
/// Unicode's White_Space property.
pub assume_specification[ char::is_whitespace ](c: char) -> (r: bool)
    ensures
        r == is_white_space(c),
;

/// Relies on `String::push`: the character is appended at the end.
pub assume_specification[ String::push ](s: &mut String, ch: char)
    ensures
        final(s)@ == old(s)@.push(ch),
;

/// The characters of `s` that are not whitespace, in order.
pub open spec fn significant(s: Seq<char>) -> Seq<char>
    decreases s.len(),
{
    if s.len() == 0 {
        seq![]
    } else if is_white_space(s.last()) {
        significant(s.drop_last())
    } else {
        significant(s.drop_last()).push(s.last())
    }
}

/// The `k`-th six-letter word of the significant characters `sig`.
pub open spec fn token(sig: Seq<char>, k: int) -> Seq<char> {
    sig.subrange(6 * k, 6 * k + 6)
}

/// What a failed parse reports.
pub enum Fault {
    /// A word that spells no command.
    InvalidTriplet(Seq<char>),
    /// Loops left open at the end of the text.
    MissingHoHoHO(nat),
    /// A loop closed with none open.
    MissingHOHoHo,
}

/// Reading one word with `depth` loops open: the command and the new depth.
pub open spec fn step(depth: nat, tok: Seq<char>) -> Result<(Command, nat), Fault> {
    match decode(tok) {
        None => Err(Fault::InvalidTriplet(tok)),
        Some(Command::JumpForward) => Ok((Command::JumpForward, depth + 1)),
        Some(Command::JumpBackward) => if depth == 0 {
            Err(Fault::MissingHOHoHo)
        } else {
            Ok((Command::JumpBackward, (depth - 1) as nat))
        },
        Some(c) => Ok((c, depth)),
    }
}

/// The commands of the first `k` words of `sig`, and the loops left open
/// after them; or the first fault among them.
pub open spec fn decode_tokens(sig: Seq<char>, k: nat) -> Result<(Seq<Command>, nat), Fault>
    decreases k,
{
    if k == 0 {
        Ok((seq![], 0))
    } else {
        match decode_tokens(sig, (k - 1) as nat) {
            Err(e) => Err(e),
            Ok((cmds, depth)) => match step(depth, token(sig, k - 1)) {
                Err(e) => Err(e),
                Ok((c, d)) => Ok((cmds.push(c), d)),
            },
        }
    }
}

/// The outcome of parsing source text `s`: whitespace is dropped, the rest is
/// read six letters at a time (a shorter rest at the end is ignored), and
/// every loop opened must be closed.
pub open spec fn parse_source(s: Seq<char>) -> Result<Seq<Command>, Fault> {
    let sig = significant(s);
    match decode_tokens(sig, sig.len() / 6) {
        Err(e) => Err(e),
        Ok((cmds, depth)) => if depth == 0 {
            Ok(cmds)
        } else {
            Err(Fault::MissingHoHoHO(depth))
        },
    }
}

/// Splitting text in two splits its significant characters likewise.
pub proof fn lemma_significant_concat(a: Seq<char>, b: Seq<char>)
    ensures
        significant(a + b) == significant(a) + significant(b),
    decreases b.len(),
{
    if b.len() == 0 {
        assert(a + b =~= a);
        assert(significant(b) =~= seq![]);
        assert(significant(a) + significant(b) =~= significant(a));
    } else {
        let b0 = b.drop_last();
        lemma_significant_concat(a, b0);
        assert((a + b).drop_last() =~= a + b0);
        assert((a + b).last() == b.last());
        if is_white_space(b.last()) {
        } else {
            assert(significant(a) + significant(b0).push(b.last()) =~= (significant(a)
                + significant(b0)).push(b.last()));
        }
    }
}

/// Text made only of whitespace has no significant characters.
pub proof fn lemma_significant_blank(w: Seq<char>)
    requires
        forall|j: int| 0 <= j < w.len() ==> is_white_space(#[trigger] w[j]),
    ensures
        significant(w) == Seq::<char>::empty(),
    decreases w.len(),
{
    if w.len() > 0 {
        lemma_significant_blank(w.drop_last());
    }
}

/// Inserting whitespace anywhere in source text leaves the outcome of
/// parsing unchanged.
pub proof fn lemma_whitespace_insertion(s: Seq<char>, i: int, w: Seq<char>)
    requires
        0 <= i <= s.len(),
        forall|j: int| 0 <= j < w.len() ==> is_white_space(#[trigger] w[j]),
    ensures
        parse_source(s.take(i) + w + s.skip(i)) == parse_source(s),
{
    lemma_significant_blank(w);
    lemma_significant_concat(s.take(i), w);
    lemma_significant_concat(s.take(i) + w, s.skip(i));
    lemma_significant_concat(s.take(i), s.skip(i));
    assert(s.take(i) + s.skip(i) =~= s);
    assert(significant(s.take(i)) + significant(w) =~= significant(s.take(i)));
}

/// Dropping whitespace never lengthens text.
pub proof fn lemma_significant_len(s: Seq<char>)
    ensures
        significant(s).len() <= s.len(),
    decreases s.len(),
{
    if s.len() > 0 {
        lemma_significant_len(s.drop_last());
    }
}

/// After `k` words no more than `k` loops can be open.
proof fn lemma_decode_depth(sig: Seq<char>, k: nat)
    ensures
        decode_tokens(sig, k) is Ok ==> decode_tokens(sig, k)->Ok_0.1 <= k,
    decreases k,
{
    if k > 0 {
        lemma_decode_depth(sig, (k - 1) as nat);
    }
}

/// Why source text could not be parsed.
#[allow(non_snake_case)]
#[derive(Clone, Debug, PartialEq, Eq)]
pub enum Error {
    /// A six-letter word that spells no command; it is carried along.
    InvalidTriplet(String),
    /// Loops still open when the text ends, and how many.
    MissingHoHoHO(usize),
    /// A loop closed that was never opened.
    MissingHOHoHo,
}

impl View for Error {
    type V = Fault;

    open spec fn view(&self) -> Fault {
        match self {
            Error::InvalidTriplet(s) => Fault::InvalidTriplet(s@),
            Error::MissingHoHoHO(n) => Fault::MissingHoHoHO(*n as nat),
            Error::MissingHOHoHo => Fault::MissingHOHoHo,
        }
    }
}

/// Reads source text word by word and yields the commands, checking that
/// loops are opened before they are closed and that none stays open.
pub struct TripletParseIter {
    source: Vec<char>,
    pos: usize,
    command_buf: String,
    jump_depth: usize,
    done: bool,
    read: Ghost<nat>,
}

impl TripletParseIter {
    /// The whole source text.
    pub closed spec fn source_chars(&self) -> Seq<char> {
        self.source@
    }

    /// How many words have been read.
    pub closed spec fn words_read(&self) -> nat {
        self.read@
    }

    /// How many loops are open after the words read.
    pub closed spec fn depth(&self) -> nat {
        self.jump_depth as nat
    }

    /// Whether the iterator has ended, after a fault or at the end of text.
    pub closed spec fn is_done(&self) -> bool {
        self.done
    }

    /// The position lies in the text; until the end, the words read so far
    /// decode without a fault and leave `depth` loops open.
    pub closed spec fn wf(&self) -> bool {
        let sig = significant(self.source@);
        &&& self.pos <= self.source@.len()
        &&& !self.done ==> {
            &&& significant(self.source@.take(self.pos as int)).len() == 6 * self.read@
            &&& 6 * self.read@ <= sig.len()
            &&& decode_tokens(sig, self.read@) is Ok
            &&& decode_tokens(sig, self.read@)->Ok_0.1 == self.jump_depth
        }
    }

    /// Starts reading `source` from its beginning.
    pub fn new(source: &str) -> (r: Self)
        ensures
            r.wf(),
            r.source_chars() == source@,
            r.words_read() == 0,
            r.depth() == 0,
            !r.is_done(),
    {
        broadcast use vstd::string::axiom_spec_iter;
        let mut chars: Vec<char> = Vec::new();
        for c in it: source.chars()
            invariant
                chars@ == it.history(),
        {
            chars.push(c);
        }
        assert(chars@ =~= source@);
        assert(chars@.take(0) =~= seq![]);
        Self {
            source: chars,
            pos: 0,
            command_buf: String::new(),
            jump_depth: 0,
            done: false,
            read: Ghost(0),
        }
    }

    fn try_match_triplet(&mut self) -> (r: Result<Command, Error>)
        requires
            old(self).jump_depth < usize::MAX,
        ensures
            final(self).source == old(self).source,
            final(self).pos == old(self).pos,
            final(self).command_buf == old(self).command_buf,
            final(self).done == old(self).done,
            final(self).read == old(self).read,
            match step(old(self).jump_depth as nat, old(self).command_buf@) {
                Ok((c, d)) => r == Ok::<Command, Error>(c) && final(self).jump_depth == d,
                Err(e) => r is Err && r->Err_0@ == e && final(self).jump_depth == old(self).jump_depth,
            },
    {
        if let Some(cmd) = Command::from_str(self.command_buf.as_str()) {
            match cmd {
                Command::JumpForward => {
                    self.jump_depth = self.jump_depth + 1;
                },
                Command::JumpBackward => {
                    if self.jump_depth == 0 {
                        return Err(Error::MissingHOHoHo);
                    }
                    self.jump_depth = self.jump_depth - 1;
                },
                _ => {},
            }
            Ok(cmd)
        } else {
            Err(Error::InvalidTriplet(self.command_buf.clone()))
        }
    }

    /// Reads the next word. Yields its command, or the first fault, after
    /// which the iterator has ended; at the end of the text it reports the
    /// loops left open, if any.
    pub fn next(&mut self) -> (r: Option<Result<Command, Error>>)
        requires
            old(self).wf(),
        ensures
            final(self).wf(),
            final(self).source_chars() == old(self).source_chars(),
            old(self).is_done() ==> {
                &&& r is None
                &&& final(self).is_done()
                &&& final(self).words_read() == old(self).words_read()
                &&& final(self).depth() == old(self).depth()
            },
            ({
                let sig = significant(old(self).source_chars());
                let k = old(self).words_read();
                !old(self).is_done() && 6 * k + 6 <= sig.len() ==> match step(
                    old(self).depth(),
                    token(sig, k as int),
                ) {
                    Ok((c, d)) => {
                        &&& r == Some(Ok::<Command, Error>(c))
                        &&& !final(self).is_done()
                        &&& final(self).words_read() == k + 1
                        &&& final(self).depth() == d
                    },
                    Err(e) => r is Some && r->Some_0 is Err && r->Some_0->Err_0@ == e
                        && final(self).is_done(),
                }
            }),
            ({
                let sig = significant(old(self).source_chars());
                let k = old(self).words_read();
                !old(self).is_done() && sig.len() < 6 * k + 6 ==> {
                    &&& final(self).is_done()
                    &&& old(self).depth() == 0 ==> r is None
                    &&& old(self).depth() > 0 ==> r is Some && r->Some_0 is Err
                        && r->Some_0->Err_0@ == Fault::MissingHoHoHO(old(self).depth())
                }
            }),
    {
        if self.done {
            return None;
        }
        let ghost sig = significant(self.source@);
        let ghost before = significant(self.source@.take(self.pos as int));
        proof {
            lemma_significant_len(self.source@);
            lemma_decode_depth(sig, self.read@);
        }
        self.command_buf = String::new();
        let mut n: usize = 0;
        while self.pos < self.source.len()
            invariant
                self.pos <= self.source@.len(),
                self.source == old(self).source,
                self.jump_depth == old(self).jump_depth,
                self.read == old(self).read,
                !self.done,
                !old(self).done,
                old(self).wf(),
                sig == significant(self.source@),
                before.len() == 6 * self.read@,
                significant(self.source@.take(self.pos as int)) == before + self.command_buf@,
                n == self.command_buf@.len(),
                n < 6,
                self.jump_depth <= self.read@,
                sig.len() <= self.source@.len(),
            decreases self.source@.len() - self.pos,
        {
            let c = self.source[self.pos];
            proof {
                assert(self.source@.take(self.pos + 1).drop_last() =~= self.source@.take(
                    self.pos as int,
                ));
            }
            self.pos = self.pos + 1;
            if !c.is_whitespace() {
                self.command_buf.push(c);
                n = n + 1;
                if n == 6 {
                    proof {
                        let s = self.source@;
                        let i = self.pos as int;
                        lemma_significant_concat(s.take(i), s.skip(i));
                        assert(s.take(i) + s.skip(i) =~= s);
                        assert(token(sig, self.read@ as int) =~= self.command_buf@);
                    }
                    let res = self.try_match_triplet();
                    if res.is_err() {
                        self.done = true;
                    } else {
                        let ghost k = self.read@;
                        self.read = Ghost((k + 1) as nat);
                        proof {
                            assert(decode_tokens(sig, (k + 1) as nat) == Ok::<_, Fault>((
                                decode_tokens(sig, k)->Ok_0.0.push(res->Ok_0),
                                self.jump_depth as nat,
                            )));
                        }
                    }
                    return Some(res);
                }
            }
        }
        proof {
            assert(self.source@.take(self.pos as int) =~= self.source@);
        }
        self.done = true;
        if self.jump_depth > 0 {
            return Some(Err(Error::MissingHoHoHO(self.jump_depth)));
        }
        None
    }

}

} // verus!
