//! Command-line target paths: `day16/1`-style fragments that select a
//! puzzle, matched against input file names.

use vstd::prelude::*;

verus! {

use crate::parse;
use crate::parse::is_digit;
use crate::parse::lower;
use crate::parse::spec_split;
use crate::parse::spec_parse_u64;

/// Why a path failed to parse.
#[derive(Debug, Clone, PartialEq, Eq)]
pub enum ParsePathError {
    /// A fragment, or the whole path, is empty.
    Empty,
    /// The digits of a fragment's index do not form a number that fits.
    InvalidIndex,
}

/// One fragment of a path: a word and an optional number glued to it.
#[derive(Debug, Clone, PartialEq, Eq)]
pub struct ArgPathFragment {
    pub prefix: Vec<u8>,
    pub index: Option<u64>,
}

/// The position of the first decimal digit of `s`, or a negative value.
pub open spec fn first_digit(s: Seq<u8>) -> int
    decreases s.len(),
{
    if s.len() == 0 {
        -1
    } else if is_digit(s[0]) {
        0
    } else {
        let r = first_digit(s.drop_first());
        if r < 0 {
            -1
        } else {
            r + 1
        }
    }
}

proof fn lemma_first_digit(s: Seq<u8>)
    ensures
        first_digit(s) < 0 ==> forall|j: int| 0 <= j < s.len() ==> !is_digit(#[trigger] s[j]),
        first_digit(s) >= 0 ==> 0 <= first_digit(s) < s.len() && is_digit(s[first_digit(s)])
            && forall|j: int| 0 <= j < first_digit(s) ==> !is_digit(#[trigger] s[j]),
    decreases s.len(),
{
    if s.len() > 0 && !is_digit(s[0]) {
        lemma_first_digit(s.drop_first());
        let r = first_digit(s.drop_first());
        if r >= 0 {
            assert(s[r + 1] == s.drop_first()[r]);
        }
        assert forall|j: int|
            0 <= j < (if first_digit(s) < 0 {
                s.len() as int
            } else {
                first_digit(s)
            }) implies !is_digit(#[trigger] s[j]) by {
            if j > 0 {
                assert(s.drop_first()[j - 1] == s[j]);
            }
        }
    }
}

proof fn lemma_first_digit_at(s: Seq<u8>, k: int)
    requires
        0 <= k < s.len(),
        is_digit(s[k]),
        forall|j: int| 0 <= j < k ==> !is_digit(#[trigger] s[j]),
    ensures
        first_digit(s) == k,
    decreases s.len(),
{
    if k > 0 {
        assert forall|j: int| 0 <= j < k - 1 implies !is_digit(#[trigger] s.drop_first()[j]) by {
            assert(s.drop_first()[j] == s[j + 1]);
        }
        lemma_first_digit_at(s.drop_first(), k - 1);
    }
}

/// What one fragment denotes: the text before its first digit, and the
/// digits onward read as a number.
pub open spec fn spec_parse_fragment(s: Seq<u8>) -> Result<(Seq<u8>, Option<int>), ParsePathError> {
    if s.len() == 0 {
        Err(ParsePathError::Empty)
    } else {
        let d = first_digit(s);
        if d < 0 {
            Ok((s, None))
        } else {
            match spec_parse_u64(s.skip(d)) {
                None => Err(ParsePathError::InvalidIndex),
                Some(v) => Ok((s.take(d), Some(v))),
            }
        }
    }
}

impl ArgPathFragment {
    /// Parse one fragment.
    pub fn parse(s: &[u8]) -> (r: Result<ArgPathFragment, ParsePathError>)
        ensures
            match r {
                Ok(f) => spec_parse_fragment(s@) == Ok::<_, ParsePathError>(
                    (f.prefix@, f.index_model()),
                ),
                Err(e) => spec_parse_fragment(s@) == Err::<(Seq<u8>, Option<int>), _>(e),
            },
    {
        if s.len() == 0 {
            return Err(ParsePathError::Empty);
        }
        proof {
            lemma_first_digit(s@);
        }
        let mut i: usize = 0;
        let mut prefix: Vec<u8> = Vec::new();
        while i < s.len()
            invariant
                0 <= i <= s@.len(),
                prefix@ == s@.take(i as int),
                forall|j: int| 0 <= j < i ==> !is_digit(#[trigger] s@[j]),
            decreases s@.len() - i,
        {
            let b = s[i];
            if 0x30 <= b && b <= 0x39 {
                proof {
                    lemma_first_digit_at(s@, i as int);
                }
                let mut rest: Vec<u8> = Vec::new();
                let mut k: usize = i;
                while k < s.len()
                    invariant
                        0 <= i <= k <= s@.len(),
                        rest@ == s@.subrange(i as int, k as int),
                    decreases s@.len() - k,
                {
                    proof {
                        assert(s@.subrange(i as int, k as int + 1) =~= s@.subrange(
                            i as int,
                            k as int,
                        ).push(s@[k as int]));
                    }
                    rest.push(s[k]);
                    k = k + 1;
                }
                proof {
                    assert(rest@ =~= s@.skip(i as int));
                }
                let index = match parse::parse_u64(rest.as_slice()) {
                    None => {
                        return Err(ParsePathError::InvalidIndex);
                    },
                    Some(v) => v,
                };
                return Ok(ArgPathFragment { prefix, index: Some(index) });
            }
            proof {
                assert(s@.take(i as int + 1) =~= s@.take(i as int).push(s@[i as int]));
            }
            prefix.push(b);
            i = i + 1;
        }
        proof {
            assert(s@.take(s@.len() as int) =~= s@);
        }
        Ok(ArgPathFragment { prefix, index: None })
    }

    /// The fragment's index as a number.
    pub closed spec fn index_model(&self) -> Option<int> {
        match self.index {
            Some(v) => Some(v as int),
            None => None,
        }
    }

    /// The fragment's model: its prefix and index.
    pub open spec fn model(&self) -> (Seq<u8>, Option<int>) {
        (self.prefix@, self.index_model())
    }
}

/// A parsed path: fragments separated by `/`.
#[derive(Debug)]
pub struct ArgPath {
    pub fragments: Vec<ArgPathFragment>,
}

/// What a whole path denotes: each `/`-separated piece as a fragment.
pub open spec fn spec_parse_path(s: Seq<u8>) -> Result<Seq<(Seq<u8>, Option<int>)>, ParsePathError> {
    if s.len() == 0 {
        Err(ParsePathError::Empty)
    } else {
        let parts = spec_split(s, 0x2f);
        if forall|i: int| 0 <= i < parts.len() ==> spec_parse_fragment(#[trigger] parts[i]) is Ok {
            Ok(Seq::new(parts.len(), |i: int| spec_parse_fragment(parts[i])->Ok_0))
        } else {
            Err(
                if exists|i: int|
                    0 <= i < parts.len() && spec_parse_fragment(#[trigger] parts[i]) == Err::<
                        (Seq<u8>, Option<int>),
                        _,
                    >(ParsePathError::InvalidIndex) {
                    ParsePathError::InvalidIndex
                } else {
                    ParsePathError::Empty
                },
            )
        }
    }
}

impl ArgPath {
    /// Parse a `/`-separated path.
    pub fn parse(s: &[u8]) -> (r: Result<ArgPath, ParsePathError>)
        ensures
            r is Ok ==> spec_parse_path(s@) == Ok::<_, ParsePathError>(
                r->Ok_0.fragments@.map_values(|f: ArgPathFragment| f.model()),
            ),
            r is Err ==> spec_parse_path(s@) is Err,
    {
        if s.len() == 0 {
            return Err(ParsePathError::Empty);
        }
        let parts = parse::split_bytes(s, 0x2f);
        let ghost pm = spec_split(s@, 0x2f);
        let mut fragments: Vec<ArgPathFragment> = Vec::new();
        let mut i: usize = 0;
        while i < parts.len()
            invariant
                s@.len() > 0,
                pm == spec_split(s@, 0x2f),
                pm == parts@.map_values(|v: Vec<u8>| v@),
                pm.len() == parts@.len(),
                0 <= i <= parts@.len(),
                fragments@.len() == i,
                forall|j: int|
                    0 <= j < i ==> spec_parse_fragment(#[trigger] pm[j]) == Ok::<
                        _,
                        ParsePathError,
                    >(fragments@.map_values(|f: ArgPathFragment| f.model())[j]),
            decreases parts@.len() - i,
        {
            proof {
                assert(pm[i as int] == parts@.map_values(|v: Vec<u8>| v@)[i as int]);
            }
            match ArgPathFragment::parse(parts[i].as_slice()) {
                Err(e) => {
                    return Err(e);
                },
                Ok(f) => {
                    let ghost pre = fragments@;
                    fragments.push(f);
                    proof {
                        assert(fragments@.map_values(|g: ArgPathFragment| g.model())
                            =~= pre.map_values(|g: ArgPathFragment| g.model()).push(f.model()));
                    }
                },
            }
            i = i + 1;
        }
        proof {
            assert(Seq::new(pm.len(), |j: int| spec_parse_fragment(pm[j])->Ok_0)
                =~= fragments@.map_values(|f: ArgPathFragment| f.model()));
        }
        Ok(ArgPath { fragments })
    }

    /// The first of this path's fragments that the other path does not
    /// match: either past the other's end, or differing from its
    /// counterpart.
    pub fn disjoint(&self, other: &ArgPath) -> (r: Option<usize>)
        ensures
            match r {
                Some(i) => {
                    &&& i < self.fragments@.len()
                    &&& i <= other.fragments@.len()
                    &&& (i == other.fragments@.len() || self.fragments@[i as int].model()
                        != other.fragments@[i as int].model())
                    &&& forall|j: int|
                        0 <= j < i ==> (#[trigger] self.fragments@[j]).model()
                            == other.fragments@[j].model()
                },
                None => self.fragments@.len() <= other.fragments@.len() && forall|j: int|
                    0 <= j < self.fragments@.len() ==> (#[trigger] self.fragments@[j]).model()
                        == other.fragments@[j].model(),
            },
    {
        let mut i: usize = 0;
        while i < self.fragments.len()
            invariant
                0 <= i <= self.fragments@.len(),
                i <= other.fragments@.len(),
                forall|j: int|
                    0 <= j < i ==> (#[trigger] self.fragments@[j]).model()
                        == other.fragments@[j].model(),
            decreases self.fragments@.len() - i,
        {
            if i >= other.fragments.len() {
                return Some(i);
            }
            if !fragment_eq(&self.fragments[i], &other.fragments[i]) {
                return Some(i);
            }
            i = i + 1;
        }
        None
    }
}

/// Are the two fragments the same?
fn fragment_eq(a: &ArgPathFragment, b: &ArgPathFragment) -> (r: bool)
    ensures
        r == (a.model() == b.model()),
{
    if a.prefix.len() != b.prefix.len() {
        return false;
    }
    let mut i: usize = 0;
    while i < a.prefix.len()
        invariant
            a.prefix@.len() == b.prefix@.len(),
            0 <= i <= a.prefix@.len(),
            forall|j: int| 0 <= j < i ==> a.prefix@[j] == b.prefix@[j],
        decreases a.prefix@.len() - i,
    {
        if a.prefix[i] != b.prefix[i] {
            return false;
        }
        i = i + 1;
    }
    proof {
        assert(a.prefix@ =~= b.prefix@);
    }
    match (&a.index, &b.index) {
        (None, None) => true,
        (Some(x), Some(y)) => *x == *y,
        _ => false,
    }
}

/// Which command was asked for.
#[derive(Debug, Clone, Copy, PartialEq, Eq, Structural)]
pub enum CommandKind {
    Solve,
    Test,
}

/// Why the command line failed to parse.
#[derive(Debug, Clone, PartialEq, Eq)]
pub enum CommandError {
    MissingCommand,
    MissingPath,
    InvalidCommand,
    InvalidPath(ParsePathError),
}

/// The bytes of the word `solve`.
pub open spec fn solve_word() -> Seq<u8> {
    seq![0x73u8, 0x6f, 0x6c, 0x76, 0x65]
}

/// The bytes of the word `test`.
pub open spec fn test_word() -> Seq<u8> {
    seq![0x74u8, 0x65, 0x73, 0x74]
}

/// Parse the command word and the target path from the argument list.
pub fn parse_command(args: &Vec<Vec<u8>>) -> (r: Result<(CommandKind, ArgPath), CommandError>)
    ensures
        args@.len() == 0 ==> r == Err::<(CommandKind, ArgPath), _>(CommandError::MissingCommand),
        args@.len() >= 1 && lower(args@[0]@) != solve_word() && lower(args@[0]@) != test_word()
            ==> r == Err::<(CommandKind, ArgPath), _>(CommandError::InvalidCommand),
        r matches Ok((kind, path)) ==> {
            &&& args@.len() >= 2
            &&& (kind == CommandKind::Solve <==> lower(args@[0]@) == solve_word())
            &&& spec_parse_path(args@[1]@) == Ok::<_, ParsePathError>(
                path.fragments@.map_values(|f: ArgPathFragment| f.model()),
            )
        },
{
    if args.len() == 0 {
        return Err(CommandError::MissingCommand);
    }
    let word = lower_vec(&args[0]);
    let is_solve = word.len() == 5 && *word.get(0).unwrap() == 0x73 && *word.get(1).unwrap()
        == 0x6f && *word.get(2).unwrap() == 0x6c && *word.get(3).unwrap() == 0x76 && *word.get(
        4,
    ).unwrap() == 0x65;
    let is_test = word.len() == 4 && *word.get(0).unwrap() == 0x74 && *word.get(1).unwrap() == 0x65
        && *word.get(2).unwrap() == 0x73 && *word.get(3).unwrap() == 0x74;
    proof {
        assert(is_solve == (lower(args@[0 as int]@) =~= solve_word()));
        assert(is_test == (lower(args@[0 as int]@) =~= test_word()));
    }
    if !is_solve && !is_test {
        return Err(CommandError::InvalidCommand);
    }
    if args.len() < 2 {
        return Err(CommandError::MissingPath);
    }
    let path = match ArgPath::parse(args[1].as_slice()) {
        Err(e) => {
            return Err(CommandError::InvalidPath(e));
        },
        Ok(p) => p,
    };
    if is_solve {
        Ok((CommandKind::Solve, path))
    } else {
        Ok((CommandKind::Test, path))
    }
}

/// Lower-case every byte.
fn lower_vec(s: &Vec<u8>) -> (r: Vec<u8>)
    ensures
        r@ == lower(s@),
{
    let mut out: Vec<u8> = Vec::new();
    let mut i: usize = 0;
    while i < s.len()
        invariant
            0 <= i <= s@.len(),
            out@.len() == i,
            forall|j: int| 0 <= j < i ==> out@[j] == crate::parse::lower_byte(#[trigger] s@[j]),
        decreases s@.len() - i,
    {
        let b = s[i];
        if 0x41 <= b && b <= 0x5a {
            out.push(b + 0x20);
        } else {
            out.push(b);
        }
        i = i + 1;
    }
    proof {
        assert(out@ =~= lower(s@));
    }
    out
}

} // verus!
