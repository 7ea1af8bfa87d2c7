//! Chunk syntax scoring: matching four bracket pairs, scoring the first
//! wrong closing token of corrupted lines and the completion of incomplete
//! ones.

use vstd::prelude::*;

verus! {

use crate::sorting::leq_u64;
use crate::sorting::sort_u64;

/// One bracket token.
#[derive(Debug, Clone, Copy, PartialEq, Eq, Structural)]
pub enum Token {
    OpeningParenthesis,
    ClosingParenthesis,
    OpeningSquareBracket,
    ClosingSquareBracket,
    OpeningBracket,
    ClosingBracket,
    OpeningAngleBracket,
    ClosingAngleBracket,
}

/// Why a line is not a well-formed chunk sequence.
#[derive(Debug, Clone, Copy, PartialEq, Eq, Structural)]
pub enum SyntaxError {
    /// A byte that is none of the eight bracket characters.
    InvalidToken(u8),
    /// A closing token where a different one was expected.
    InvalidClosing { got: Token, expected: Token },
}

/// The token denoted by one byte, if any.
pub open spec fn spec_token_of(b: u8) -> Option<Token> {
    if b == 0x28 {
        Some(Token::OpeningParenthesis)
    } else if b == 0x29 {
        Some(Token::ClosingParenthesis)
    } else if b == 0x5b {
        Some(Token::OpeningSquareBracket)
    } else if b == 0x5d {
        Some(Token::ClosingSquareBracket)
    } else if b == 0x7b {
        Some(Token::OpeningBracket)
    } else if b == 0x7d {
        Some(Token::ClosingBracket)
    } else if b == 0x3c {
        Some(Token::OpeningAngleBracket)
    } else if b == 0x3e {
        Some(Token::ClosingAngleBracket)
    } else {
        None
    }
}

/// Is this an opening token?
pub open spec fn spec_is_opening(t: Token) -> bool {
    t == Token::OpeningParenthesis || t == Token::OpeningSquareBracket || t == Token::OpeningBracket
        || t == Token::OpeningAngleBracket
}

/// The closing token matching an opening one; a closing token is its own
/// match.
pub open spec fn spec_closing(t: Token) -> Token {
    match t {
        Token::OpeningParenthesis => Token::ClosingParenthesis,
        Token::OpeningSquareBracket => Token::ClosingSquareBracket,
        Token::OpeningBracket => Token::ClosingBracket,
        Token::OpeningAngleBracket => Token::ClosingAngleBracket,
        other => other,
    }
}

/// Walk the bytes of a line with a stack of open chunks.  The result is the
/// stack of still-open tokens, or the first syntax error.
pub open spec fn spec_walk(s: Seq<u8>, stack: Seq<Token>) -> Result<Seq<Token>, SyntaxError>
    decreases s.len(),
{
    if s.len() == 0 {
        Ok(stack)
    } else {
        match spec_token_of(s[0]) {
            None => Err(SyntaxError::InvalidToken(s[0])),
            Some(t) => if spec_is_opening(t) {
                spec_walk(s.drop_first(), stack.push(t))
            } else if stack.len() == 0 {
                spec_walk(s.drop_first(), stack)
            } else if spec_closing(stack.last()) == t {
                spec_walk(s.drop_first(), stack.drop_last())
            } else {
                Err(SyntaxError::InvalidClosing { got: t, expected: spec_closing(stack.last()) })
            },
        }
    }
}

impl Token {
    /// The closing token that matches this one.
    pub fn closing(&self) -> (r: Token)
        ensures
            r == spec_closing(*self),
    {
        match self {
            Token::OpeningParenthesis => Token::ClosingParenthesis,
            Token::OpeningSquareBracket => Token::ClosingSquareBracket,
            Token::OpeningBracket => Token::ClosingBracket,
            Token::OpeningAngleBracket => Token::ClosingAngleBracket,
            token => *token,
        }
    }

    /// Is this an opening token?
    pub fn kind_is_opening(&self) -> (r: bool)
        ensures
            r == spec_is_opening(*self),
    {
        match self {
            Token::OpeningParenthesis
            | Token::OpeningSquareBracket
            | Token::OpeningBracket
            | Token::OpeningAngleBracket => true,
            _ => false,
        }
    }

    /// The token denoted by a byte.
    pub fn of_byte(b: u8) -> (r: Option<Token>)
        ensures
            r == spec_token_of(b),
    {
        match b {
            0x28 => Some(Token::OpeningParenthesis),
            0x29 => Some(Token::ClosingParenthesis),
            0x5b => Some(Token::OpeningSquareBracket),
            0x5d => Some(Token::ClosingSquareBracket),
            0x7b => Some(Token::OpeningBracket),
            0x7d => Some(Token::ClosingBracket),
            0x3c => Some(Token::OpeningAngleBracket),
            0x3e => Some(Token::ClosingAngleBracket),
            _ => None,
        }
    }
}

/// Walk one line and return its stack of unclosed opening tokens, or its
/// first syntax error.
pub fn walk_line(s: &[u8]) -> (r: Result<Vec<Token>, SyntaxError>)
    ensures
        match r {
            Ok(v) => spec_walk(s@, Seq::empty()) == Ok::<Seq<Token>, SyntaxError>(v@),
            Err(e) => spec_walk(s@, Seq::empty()) == Err::<Seq<Token>, SyntaxError>(e),
        },
{
    let mut stack: Vec<Token> = Vec::new();
    let mut i: usize = 0;
    proof {
        assert(s@.skip(0) =~= s@);
    }
    while i < s.len()
        invariant
            0 <= i <= s@.len(),
            spec_walk(s@, Seq::empty()) == spec_walk(s@.skip(i as int), stack@),
        decreases s@.len() - i,
    {
        proof {
            assert(s@.skip(i as int).drop_first() =~= s@.skip(i as int + 1));
            assert(s@.skip(i as int)[0] == s@[i as int]);
        }
        let t = match Token::of_byte(s[i]) {
            None => {
                return Err(SyntaxError::InvalidToken(s[i]));
            },
            Some(t) => t,
        };
        if t.kind_is_opening() {
            stack.push(t);
        } else if stack.len() > 0 {
            let top = stack[stack.len() - 1];
            let expected = top.closing();
            if expected != t {
                return Err(SyntaxError::InvalidClosing { got: t, expected });
            }
            proof {
                assert(stack@.drop_last() =~= stack@.take(stack@.len() - 1));
            }
            stack.pop();
        }
        i = i + 1;
    }
    proof {
        assert(s@.skip(s@.len() as int) =~= Seq::<u8>::empty());
    }
    Ok(stack)
}

/// The points a corrupted line scores for its first wrong closing token.
pub open spec fn corruption_points(t: Token) -> int {
    match t {
        Token::ClosingParenthesis => 3,
        Token::ClosingSquareBracket => 57,
        Token::ClosingBracket => 1197,
        Token::ClosingAngleBracket => 25137,
        _ => 0,
    }
}

/// The total corruption score of the lines, or `None` if a line holds a
/// byte that is no bracket at all.
pub open spec fn spec_corruption_score(lines: Seq<Seq<u8>>) -> Option<int>
    decreases lines.len(),
{
    if lines.len() == 0 {
        Some(0)
    } else {
        match spec_corruption_score(lines.drop_last()) {
            None => None,
            Some(acc) => match spec_walk(lines.last(), Seq::empty()) {
                Ok(stack) => Some(acc),
                Err(SyntaxError::InvalidClosing { got, expected }) => Some(
                    acc + corruption_points(got),
                ),
                Err(SyntaxError::InvalidToken(b)) => None,
            },
        }
    }
}

proof fn lemma_corruption_score_nonneg(lines: Seq<Seq<u8>>)
    ensures
        spec_corruption_score(lines) matches Some(v) ==> v >= 0,
    decreases lines.len(),
{
    if lines.len() > 0 {
        lemma_corruption_score_nonneg(lines.drop_last());
    }
}

/// Score every corrupted line by its first wrong closing token and add the
/// scores up.
pub fn corruption_score(lines: &Vec<Vec<u8>>) -> (r: Option<u64>)
    requires
        spec_corruption_score(lines@.map_values(|l: Vec<u8>| l@)) matches Some(v) ==> v
            <= u64::MAX,
    ensures
        match r {
            Some(v) => spec_corruption_score(lines@.map_values(|l: Vec<u8>| l@)) == Some(v as int),
            None => spec_corruption_score(lines@.map_values(|l: Vec<u8>| l@)) is None,
        },
{
    let ghost lm = lines@.map_values(|l: Vec<u8>| l@);
    let mut score: u64 = 0;
    let mut i: usize = 0;
    proof {
        assert(lm.take(0) =~= Seq::<Seq<u8>>::empty());
    }
    while i < lines.len()
        invariant
            0 <= i <= lines@.len(),
            lm == lines@.map_values(|l: Vec<u8>| l@),
            spec_corruption_score(lm) matches Some(v) ==> v <= u64::MAX,
            spec_corruption_score(lm.take(i as int)) == Some(score as int),
        decreases lines@.len() - i,
    {
        proof {
            assert(lm.take(i as int + 1).drop_last() =~= lm.take(i as int));
            assert(lm.take(i as int + 1).last() == lm[i as int]);
        }
        match walk_line(lines[i].as_slice()) {
            Ok(_) => {},
            Err(SyntaxError::InvalidClosing { got, expected }) => {
                let pts: u64 = match got {
                    Token::ClosingParenthesis => 3,
                    Token::ClosingSquareBracket => 57,
                    Token::ClosingBracket => 1197,
                    Token::ClosingAngleBracket => 25137,
                    _ => 0,
                };
                score = match score.checked_add(pts) {
                    None => {
                        // The running score outgrew 64 bits, so some later
                        // line must fail to tokenize: a fitting total would
                        // bound every prefix.
                        proof {
                            if spec_corruption_score(lm) is Some {
                                lemma_score_prefix(lm, i as int + 1);
                            }
                        }
                        return None;
                    },
                    Some(s) => s,
                };
            },
            Err(SyntaxError::InvalidToken(b)) => {
                proof {
                    lemma_score_none(lm, i as int + 1);
                }
                return None;
            },
        }
        i = i + 1;
    }
    proof {
        assert(lm.take(lm.len() as int) =~= lm);
    }
    Some(score)
}

/// If a prefix of the lines already fails, the whole sequence fails.
proof fn lemma_score_none(lines: Seq<Seq<u8>>, k: int)
    requires
        0 <= k <= lines.len(),
        spec_corruption_score(lines.take(k)) is None,
    ensures
        spec_corruption_score(lines) is None,
    decreases lines.len(),
{
    if k < lines.len() {
        assert(lines.drop_last().take(k) =~= lines.take(k));
        lemma_score_none(lines.drop_last(), k);
    } else {
        assert(lines.take(k) =~= lines);
    }
}

/// A prefix of the corruption score is at most the whole.
proof fn lemma_score_prefix(lines: Seq<Seq<u8>>, k: int)
    requires
        0 <= k <= lines.len(),
        spec_corruption_score(lines) is Some,
    ensures
        spec_corruption_score(lines.take(k)) matches Some(v) && v <= spec_corruption_score(
            lines,
        )->0,
    decreases lines.len(),
{
    if k == lines.len() {
        assert(lines.take(k) =~= lines);
    } else {
        assert(lines.drop_last().take(k) =~= lines.take(k));
        if spec_corruption_score(lines.drop_last()) is Some {
            lemma_score_prefix(lines.drop_last(), k);
        }
    }
}

/// The completion score of a stack of unclosed tokens, closed from the top
/// down: five times the score so far plus 1, 2, 3 or 4 per closing token.
pub open spec fn completion_score(stack: Seq<Token>) -> int
    decreases stack.len(),
{
    if stack.len() == 0 {
        0
    } else {
        completion_score(stack.drop_first()) * 5 + completion_points(spec_closing(stack.first()))
    }
}

/// The points one closing token adds to a completion score.
pub open spec fn completion_points(t: Token) -> int {
    match t {
        Token::ClosingParenthesis => 1,
        Token::ClosingSquareBracket => 2,
        Token::ClosingBracket => 3,
        Token::ClosingAngleBracket => 4,
        _ => 0,
    }
}

/// Score the completion of one incomplete line's stack, closing tokens from
/// the innermost outward.
pub fn score_completion(stack: &Vec<Token>) -> (r: u64)
    requires
        completion_score(stack@) <= u64::MAX,
    ensures
        r as int == completion_score(stack@),
{
    let ghost sm = stack@;
    let mut score: u64 = 0;
    let mut i: usize = stack.len();
    proof {
        assert(sm.skip(sm.len() as int) =~= Seq::<Token>::empty());
        lemma_completion_nonneg(sm);
    }
    while i > 0
        invariant
            sm == stack@,
            0 <= i <= sm.len(),
            completion_score(sm) <= u64::MAX,
            score as int == completion_score(sm.skip(i as int)),
        decreases i,
    {
        proof {
            assert(sm.skip(i as int - 1).drop_first() =~= sm.skip(i as int));
            assert(sm.skip(i as int - 1).first() == sm[i as int - 1]);
            lemma_completion_suffix(sm, i as int - 1);
            lemma_completion_nonneg(sm.skip(i as int - 1));
            lemma_completion_nonneg(sm.skip(i as int));
        }
        i = i - 1;
        let t = stack[i].closing();
        let pts: u64 = match t {
            Token::ClosingParenthesis => 1,
            Token::ClosingSquareBracket => 2,
            Token::ClosingBracket => 3,
            Token::ClosingAngleBracket => 4,
            _ => 0,
        };
        score = score * 5 + pts;
    }
    proof {
        assert(sm.skip(0) =~= sm);
    }
    score
}

proof fn lemma_completion_nonneg(stack: Seq<Token>)
    ensures
        completion_score(stack) >= 0,
    decreases stack.len(),
{
    if stack.len() > 0 {
        lemma_completion_nonneg(stack.drop_first());
    }
}

/// The score of a suffix never exceeds the score of the suffix one longer.
proof fn lemma_completion_suffix(stack: Seq<Token>, k: int)
    requires
        0 <= k < stack.len(),
    ensures
        completion_score(stack.skip(k)) <= completion_score(stack),
    decreases k,
{
    if k > 0 {
        lemma_completion_suffix(stack, k - 1);
        assert(stack.skip(k - 1).drop_first() =~= stack.skip(k));
        lemma_completion_nonneg(stack.skip(k - 1));
        lemma_completion_nonneg(stack.skip(k));
    } else {
        assert(stack.skip(0) =~= stack);
    }
}

/// Does no line hold a byte that is no bracket at all?
pub open spec fn spec_lines_tokenize(lines: Seq<Seq<u8>>) -> bool {
    forall|i: int|
        0 <= i < lines.len() ==> !(spec_walk(#[trigger] lines[i], Seq::empty()) matches Err(
            SyntaxError::InvalidToken(b),
        ))
}

/// The completion scores of the incomplete lines, in order of appearance.
/// Corrupted and already complete lines contribute nothing.
pub open spec fn spec_completion_scores(lines: Seq<Seq<u8>>) -> Seq<u64>
    decreases lines.len(),
{
    if lines.len() == 0 {
        Seq::empty()
    } else {
        spec_completion_scores(lines.drop_last()) + (match spec_walk(lines.last(), Seq::empty()) {
            Ok(stack) => if stack.len() > 0 {
                seq![completion_score(stack) as u64]
            } else {
                Seq::empty()
            },
            Err(e) => Seq::empty(),
        })
    }
}

/// Collect the completion score of every incomplete line, or `None` when a
/// line fails to tokenize at all.
pub fn completion_scores(lines: &Vec<Vec<u8>>) -> (r: Option<Vec<u64>>)
    requires
        forall|i: int|
            0 <= i < lines@.len() ==> (spec_walk(#[trigger] lines@[i]@, Seq::empty()) matches Ok(
                stack,
            ) ==> completion_score(stack) <= u64::MAX),
    ensures
        match r {
            Some(v) => spec_lines_tokenize(lines@.map_values(|l: Vec<u8>| l@)) && v@
                == spec_completion_scores(lines@.map_values(|l: Vec<u8>| l@)),
            None => !spec_lines_tokenize(lines@.map_values(|l: Vec<u8>| l@)),
        },
{
    let ghost lm = lines@.map_values(|l: Vec<u8>| l@);
    let mut scores: Vec<u64> = Vec::new();
    let mut i: usize = 0;
    proof {
        assert(lm.take(0) =~= Seq::<Seq<u8>>::empty());
        assert(scores@ =~= spec_completion_scores(lm.take(0)));
    }
    while i < lines.len()
        invariant
            0 <= i <= lines@.len(),
            lm == lines@.map_values(|l: Vec<u8>| l@),
            forall|j: int|
                0 <= j < lines@.len() ==> (spec_walk(#[trigger] lines@[j]@, Seq::empty())
                    matches Ok(stack) ==> completion_score(stack) <= u64::MAX),
            forall|j: int|
                0 <= j < i ==> !(spec_walk(#[trigger] lm[j], Seq::empty()) matches Err(
                    SyntaxError::InvalidToken(b),
                )),
            scores@ == spec_completion_scores(lm.take(i as int)),
        decreases lines@.len() - i,
    {
        proof {
            assert(lm.take(i as int + 1).drop_last() =~= lm.take(i as int));
            assert(lm.take(i as int + 1).last() == lm[i as int]);
        }
        match walk_line(lines[i].as_slice()) {
            Ok(stack) => {
                if stack.len() > 0 {
                    let s = score_completion(&stack);
                    scores.push(s);
                    proof {
                        assert(scores@ =~= spec_completion_scores(lm.take(i as int + 1)));
                    }
                } else {
                    proof {
                        assert(scores@ =~= spec_completion_scores(lm.take(i as int + 1)));
                    }
                }
            },
            Err(SyntaxError::InvalidClosing { got, expected }) => {
                proof {
                    assert(scores@ =~= spec_completion_scores(lm.take(i as int + 1)));
                }
            },
            Err(SyntaxError::InvalidToken(b)) => {
                return None;
            },
        }
        i = i + 1;
    }
    proof {
        assert(lm.take(lm.len() as int) =~= lm);
    }
    Some(scores)
}

/// The middle completion score: sort the incomplete lines' scores and take
/// the one in the middle.
///
/// `None` when a line fails to tokenize or no line is incomplete.
pub fn middle_completion_score(lines: &Vec<Vec<u8>>) -> (r: Option<u64>)
    requires
        forall|i: int|
            0 <= i < lines@.len() ==> (spec_walk(#[trigger] lines@[i]@, Seq::empty()) matches Ok(
                stack,
            ) ==> completion_score(stack) <= u64::MAX),
    ensures
        ({
            let lm = lines@.map_values(|l: Vec<u8>| l@);
            let scores = spec_completion_scores(lm);
            match r {
                Some(v) => spec_lines_tokenize(lm) && scores.len() > 0 && v == scores.sort_by(
                    leq_u64(),
                )[scores.len() as int / 2],
                None => !spec_lines_tokenize(lm) || scores.len() == 0,
            }
        }),
{
    let mut scores = match completion_scores(lines) {
        None => {
            return None;
        },
        Some(s) => s,
    };
    if scores.len() == 0 {
        return None;
    }
    sort_u64(&mut scores);
    let mid = scores.len() / 2;
    Some(scores[mid])
}

} // verus!
