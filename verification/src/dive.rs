//! Dive commands: steering the submarine by `forward`, `down` and `up`
//! instructions, under two readings of what the commands mean.

use vstd::prelude::*;

verus! {

use crate::parse;
use crate::parse::spec_split;
use crate::parse::spec_parse_u64;
use crate::parse::lower;
use crate::parse::lower_byte;

/// Why a command line failed to parse.
#[derive(Debug, Clone, Copy, PartialEq, Eq, Structural)]
pub enum ParseCommandError {
    /// The command word is not `forward`, `down` or `up`.
    Unknown,
    /// The line has no argument after the command word.
    MissingArgument,
    /// The argument is not a number that fits in 64 bits.
    ArgumentParseError,
}

/// One steering command with its distance argument.
#[derive(Debug, Clone, Copy, PartialEq, Eq, Structural)]
pub enum Command {
    Forward(u64),
    Down(u64),
    Up(u64),
}

/// The bytes of the word `forward`.
pub open spec fn forward_word() -> Seq<u8> {
    seq![0x66u8, 0x6f, 0x72, 0x77, 0x61, 0x72, 0x64]
}

/// The bytes of the word `down`.
pub open spec fn down_word() -> Seq<u8> {
    seq![0x64u8, 0x6f, 0x77, 0x6e]
}

/// The bytes of the word `up`.
pub open spec fn up_word() -> Seq<u8> {
    seq![0x75u8, 0x70]
}

/// What parsing one command line yields: the word before the first space,
/// case-insensitively, and its numeric argument after it.
pub open spec fn spec_parse_command(s: Seq<u8>) -> Result<Command, ParseCommandError> {
    let parts = spec_split(s, 0x20);
    if parts.len() < 2 {
        Err(ParseCommandError::MissingArgument)
    } else {
        let word = lower(parts[0]);
        if word != forward_word() && word != down_word() && word != up_word() {
            Err(ParseCommandError::Unknown)
        } else {
            match spec_parse_u64(parts[1]) {
                None => Err(ParseCommandError::ArgumentParseError),
                Some(x) => if word == forward_word() {
                    Ok(Command::Forward(x as u64))
                } else if word == down_word() {
                    Ok(Command::Down(x as u64))
                } else {
                    Ok(Command::Up(x as u64))
                },
            }
        }
    }
}

/// Lower-case every byte of `s`.
fn lower_bytes(s: &Vec<u8>) -> (r: Vec<u8>)
    ensures
        r@ == lower(s@),
{
    let mut out: Vec<u8> = Vec::new();
    let mut i: usize = 0;
    while i < s.len()
        invariant
            0 <= i <= s@.len(),
            out@.len() == i,
            forall|j: int| 0 <= j < i ==> out@[j] == lower_byte(#[trigger] s@[j]),
        decreases s@.len() - i,
    {
        let b = s[i];
        if 0x41 <= b && b <= 0x5a {
            out.push(b + 0x20);
        } else {
            out.push(b);
        }
        i = i + 1;
    }
    proof {
        assert(out@ =~= lower(s@));
    }
    out
}

/// Parse one command line.
pub fn parse_command(s: &[u8]) -> (r: Result<Command, ParseCommandError>)
    ensures
        r == spec_parse_command(s@),
{
    let parts = parse::split_bytes(s, 0x20);
    let ghost pm = spec_split(s@, 0x20);
    if parts.len() < 2 {
        return Err(ParseCommandError::MissingArgument);
    }
    assert(pm[0] == parts@.map_values(|v: Vec<u8>| v@)[0]);
    assert(pm[1] == parts@.map_values(|v: Vec<u8>| v@)[1]);
    let word = lower_bytes(&parts[0]);
    let is_forward = word.len() == 7 && *word.get(0).unwrap() == 0x66 && *word.get(1).unwrap()
        == 0x6f && *word.get(2).unwrap() == 0x72 && *word.get(3).unwrap() == 0x77 && *word.get(
        4,
    ).unwrap() == 0x61 && *word.get(5).unwrap() == 0x72 && *word.get(6).unwrap() == 0x64;
    let is_down = word.len() == 4 && *word.get(0).unwrap() == 0x64 && *word.get(1).unwrap() == 0x6f
        && *word.get(2).unwrap() == 0x77 && *word.get(3).unwrap() == 0x6e;
    let is_up = word.len() == 2 && *word.get(0).unwrap() == 0x75 && *word.get(1).unwrap() == 0x70;
    proof {
        assert(is_forward == (word@ =~= forward_word()));
        assert(is_down == (word@ =~= down_word()));
        assert(is_up == (word@ =~= up_word()));
    }
    if !is_forward && !is_down && !is_up {
        return Err(ParseCommandError::Unknown);
    }
    let x = match parse::parse_u64(parts[1].as_slice()) {
        None => {
            return Err(ParseCommandError::ArgumentParseError);
        },
        Some(x) => x,
    };
    if is_forward {
        Ok(Command::Forward(x))
    } else if is_down {
        Ok(Command::Down(x))
    } else {
        Ok(Command::Up(x))
    }
}

/// The commands read from each line, if every line parses.
pub open spec fn spec_commands(lines: Seq<Seq<char>>) -> Option<Seq<Command>> {
    if forall|i: int|
        0 <= i < lines.len() ==> spec_parse_command(
            vstd::utf8::encode_utf8(#[trigger] lines[i]),
        ) is Ok {
        Some(
            Seq::new(
                lines.len(),
                |i: int| spec_parse_command(vstd::utf8::encode_utf8(lines[i]))->Ok_0,
            ),
        )
    } else {
        None
    }
}

/// Parse one command per line.
pub fn parse_commands(lines: &Vec<String>) -> (r: Option<Vec<Command>>)
    ensures
        match r {
            Some(v) => spec_commands(lines@.map_values(|l: String| l@)) == Some(v@),
            None => spec_commands(lines@.map_values(|l: String| l@)) is None,
        },
{
    let ghost lm = lines@.map_values(|l: String| l@);
    let mut out: Vec<Command> = Vec::new();
    let mut i: usize = 0;
    while i < lines.len()
        invariant
            0 <= i <= lines@.len(),
            lm == lines@.map_values(|l: String| l@),
            out@.len() == i,
            forall|j: int|
                0 <= j < i ==> spec_parse_command(vstd::utf8::encode_utf8(#[trigger] lm[j]))
                    == Ok::<Command, ParseCommandError>(out@[j]),
        decreases lines@.len() - i,
    {
        match parse_command(lines[i].as_str().as_bytes()) {
            Err(e) => {
                proof {
                    assert(spec_parse_command(vstd::utf8::encode_utf8(lm[i as int])) is Err);
                }
                return None;
            },
            Ok(c) => {
                out.push(c);
            },
        }
        i = i + 1;
    }
    proof {
        assert(Seq::new(
            lm.len(),
            |j: int| spec_parse_command(vstd::utf8::encode_utf8(lm[j]))->Ok_0,
        ) =~= out@);
    }
    Some(out)
}

/// Position under the plain reading: `forward` moves, `down` and `up` change
/// the depth directly.
#[derive(Debug, Clone, Copy, PartialEq, Eq, Structural)]
pub struct BasicState {
    pub horizontal: u64,
    pub depth: u64,
}

/// One command applied to a basic state; `None` where the arithmetic leaves
/// 64 bits or the depth would go negative.
pub open spec fn basic_step(st: BasicState, cmd: Command) -> Option<BasicState> {
    match cmd {
        Command::Forward(x) => if st.horizontal + x <= u64::MAX {
            Some(BasicState { horizontal: (st.horizontal + x) as u64, ..st })
        } else {
            None
        },
        Command::Down(x) => if st.depth + x <= u64::MAX {
            Some(BasicState { depth: (st.depth + x) as u64, ..st })
        } else {
            None
        },
        Command::Up(x) => if x <= st.depth {
            Some(BasicState { depth: (st.depth - x) as u64, ..st })
        } else {
            None
        },
    }
}

/// A command sequence applied in order to a basic state.
pub open spec fn basic_run(st: BasicState, cmds: Seq<Command>) -> Option<BasicState>
    decreases cmds.len(),
{
    if cmds.len() == 0 {
        Some(st)
    } else {
        match basic_step(st, cmds[0]) {
            None => None,
            Some(st2) => basic_run(st2, cmds.drop_first()),
        }
    }
}

impl BasicState {
    /// Apply one command.
    pub fn mutate(&mut self, cmd: &Command)
        requires
            basic_step(*old(self), *cmd) is Some,
        ensures
            Some(*final(self)) == basic_step(*old(self), *cmd),
    {
        match cmd {
            Command::Forward(x) => {
                self.horizontal = self.horizontal + *x;
            },
            Command::Down(x) => {
                self.depth = self.depth + *x;
            },
            Command::Up(x) => {
                self.depth = self.depth - *x;
            },
        }
    }

    /// The `(horizontal position, depth)` pair.
    pub fn get(&self) -> (r: (u64, u64))
        ensures
            r.0 == self.horizontal,
            r.1 == self.depth,
    {
        (self.horizontal, self.depth)
    }
}

/// Position under the aiming reading: `down` and `up` steer the aim, and
/// `forward` moves and dives along it.
#[derive(Debug, Clone, Copy, PartialEq, Eq, Structural)]
pub struct AimingState {
    pub aim: u64,
    pub horizontal: u64,
    pub depth: u64,
}

/// One command applied to an aiming state; `None` where the arithmetic
/// leaves 64 bits or the aim would go negative.
pub open spec fn aiming_step(st: AimingState, cmd: Command) -> Option<AimingState> {
    match cmd {
        Command::Down(x) => if st.aim + x <= u64::MAX {
            Some(AimingState { aim: (st.aim + x) as u64, ..st })
        } else {
            None
        },
        Command::Up(x) => if x <= st.aim {
            Some(AimingState { aim: (st.aim - x) as u64, ..st })
        } else {
            None
        },
        Command::Forward(x) => if st.horizontal + x <= u64::MAX && st.aim * x <= u64::MAX
            && st.depth + st.aim * x <= u64::MAX {
            Some(
                AimingState {
                    horizontal: (st.horizontal + x) as u64,
                    depth: (st.depth + st.aim * x) as u64,
                    ..st
                },
            )
        } else {
            None
        },
    }
}

/// A command sequence applied in order to an aiming state.
pub open spec fn aiming_run(st: AimingState, cmds: Seq<Command>) -> Option<AimingState>
    decreases cmds.len(),
{
    if cmds.len() == 0 {
        Some(st)
    } else {
        match aiming_step(st, cmds[0]) {
            None => None,
            Some(st2) => aiming_run(st2, cmds.drop_first()),
        }
    }
}

impl AimingState {
    /// Apply one command.
    pub fn mutate(&mut self, cmd: &Command)
        requires
            aiming_step(*old(self), *cmd) is Some,
        ensures
            Some(*final(self)) == aiming_step(*old(self), *cmd),
    {
        match cmd {
            Command::Down(x) => {
                self.aim = self.aim + *x;
            },
            Command::Up(x) => {
                self.aim = self.aim - *x;
            },
            Command::Forward(x) => {
                self.horizontal = self.horizontal + *x;
                self.depth = self.depth + self.aim * *x;
            },
        }
    }

    /// The `(horizontal position, depth)` pair.
    pub fn get(&self) -> (r: (u64, u64))
        ensures
            r.0 == self.horizontal,
            r.1 == self.depth,
    {
        (self.horizontal, self.depth)
    }
}

/// Run every command from the origin under the plain reading and multiply
/// the final position and depth; `None` where the run leaves 64 bits.
pub fn solve_basic(cmds: &Vec<Command>) -> (r: Option<u64>)
    requires
        basic_run(BasicState { horizontal: 0, depth: 0 }, cmds@) is Some,
    ensures
        ({
            let fin = basic_run(BasicState { horizontal: 0, depth: 0 }, cmds@)->0;
            match r {
                Some(v) => v as int == fin.horizontal * fin.depth,
                None => fin.horizontal * fin.depth > u64::MAX,
            }
        }),
{
    let ghost start = BasicState { horizontal: 0, depth: 0 };
    let mut st = BasicState { horizontal: 0, depth: 0 };
    let mut i: usize = 0;
    proof {
        assert(cmds@.skip(0) =~= cmds@);
    }
    while i < cmds.len()
        invariant
            0 <= i <= cmds@.len(),
            basic_run(start, cmds@) is Some,
            basic_run(st, cmds@.skip(i as int)) == basic_run(start, cmds@),
        decreases cmds@.len() - i,
    {
        proof {
            lemma_basic_run_step(st, cmds@.skip(i as int));
            assert(cmds@.skip(i as int).drop_first() =~= cmds@.skip(i as int + 1));
        }
        st.mutate(&cmds[i]);
        i = i + 1;
    }
    proof {
        assert(cmds@.skip(cmds@.len() as int) =~= Seq::<Command>::empty());
    }
    st.horizontal.checked_mul(st.depth)
}

/// Unfolding helper: a nonempty run takes its first step.
proof fn lemma_basic_run_step(st: BasicState, cmds: Seq<Command>)
    requires
        cmds.len() > 0,
        basic_run(st, cmds) is Some,
    ensures
        basic_step(st, cmds[0]) is Some,
        basic_run(basic_step(st, cmds[0])->0, cmds.drop_first()) == basic_run(st, cmds),
{
}

/// Run every command from the origin under the aiming reading and multiply
/// the final position and depth; `None` where the run leaves 64 bits.
pub fn solve_aiming(cmds: &Vec<Command>) -> (r: Option<u64>)
    requires
        aiming_run(AimingState { aim: 0, horizontal: 0, depth: 0 }, cmds@) is Some,
    ensures
        ({
            let fin = aiming_run(AimingState { aim: 0, horizontal: 0, depth: 0 }, cmds@)->0;
            match r {
                Some(v) => v as int == fin.horizontal * fin.depth,
                None => fin.horizontal * fin.depth > u64::MAX,
            }
        }),
{
    let ghost start = AimingState { aim: 0, horizontal: 0, depth: 0 };
    let mut st = AimingState { aim: 0, horizontal: 0, depth: 0 };
    let mut i: usize = 0;
    proof {
        assert(cmds@.skip(0) =~= cmds@);
    }
    while i < cmds.len()
        invariant
            0 <= i <= cmds@.len(),
            aiming_run(start, cmds@) is Some,
            aiming_run(st, cmds@.skip(i as int)) == aiming_run(start, cmds@),
        decreases cmds@.len() - i,
    {
        proof {
            lemma_aiming_run_step(st, cmds@.skip(i as int));
            assert(cmds@.skip(i as int).drop_first() =~= cmds@.skip(i as int + 1));
        }
        st.mutate(&cmds[i]);
        i = i + 1;
    }
    proof {
        assert(cmds@.skip(cmds@.len() as int) =~= Seq::<Command>::empty());
    }
    st.horizontal.checked_mul(st.depth)
}

/// Unfolding helper: a nonempty run takes its first step.
proof fn lemma_aiming_run_step(st: AimingState, cmds: Seq<Command>)
    requires
        cmds.len() > 0,
        aiming_run(st, cmds) is Some,
    ensures
        aiming_step(st, cmds[0]) is Some,
        aiming_run(aiming_step(st, cmds[0])->0, cmds.drop_first()) == aiming_run(st, cmds),
{
}

} // verus!
