use crate::types::{
    Boundary, Character, SpecCharacter, character_view, characters_view, lemma_character_view,
    lemma_characters_view_push,
};
use crate::text::{
    lemma_members_printable, lemma_tokens_printable_index, lemma_tokens_printable_push, printable,
    token_printable, tokens_printable,
};
use crate::utils::{is_special, spec_digit_value, spec_is_digit, spec_is_special, to_digit};
use vstd::prelude::*;

verus! {

broadcast use vstd::std_specs::vec::group_vec_axioms;

/// A parsed regular expression.
#[derive(Debug)]
pub enum Token {
    /// `$`, `^`, `\b`, `\B`
    Special(Boundary),
    /// `.`, `\w`, `a`, `b`, `[a-z]`, ...
    Matcher(Character),
    /// `abc[a-z]+`
    Branch(Vec<Token>),
    /// `abc|def`
    Alternative(Vec<Token>),
    /// `a+`, `a?`, `a*`, `a{n}`, `a{n,}`, `a{n,m}`: the token, the least count and the
    /// greatest count, if any
    Repeat(Box<Token>, usize, Option<usize>),
}

/// The mathematical value of a [`Token`].
pub enum SpecToken {
    Special(Boundary),
    Matcher(SpecCharacter),
    Branch(Seq<SpecToken>),
    Alternative(Seq<SpecToken>),
    Repeat(Box<SpecToken>, usize, Option<usize>),
}

/// The values of a sequence of tokens.
pub open spec fn tokens_view(s: Seq<Token>) -> Seq<SpecToken>
    decreases s,
{
    if s.len() == 0 {
        Seq::empty()
    } else {
        tokens_view(s.drop_last()).push(token_view(s.last()))
    }
}

/// The value of a token.
pub open spec fn token_view(t: Token) -> SpecToken
    decreases t,
{
    match t {
        Token::Special(b) => SpecToken::Special(b),
        Token::Matcher(c) => SpecToken::Matcher(c@),
        Token::Branch(v) => SpecToken::Branch(tokens_view(v@)),
        Token::Alternative(v) => SpecToken::Alternative(tokens_view(v@)),
        Token::Repeat(b, n, m) => SpecToken::Repeat(Box::new(token_view(*b)), n, m),
    }
}

impl View for Token {
    type V = SpecToken;

    open spec fn view(&self) -> SpecToken {
        token_view(*self)
    }
}

pub proof fn lemma_tokens_view_push(ts: Seq<Token>, tk: Token)
    ensures
        tokens_view(ts.push(tk)) == tokens_view(ts).push(token_view(tk)),
        tokens_view(ts).len() == ts.len(),
    decreases ts.len(),
{
    assert(ts.push(tk).drop_last() =~= ts);
    if ts.len() > 0 {
        lemma_tokens_view_push(ts.drop_last(), ts.last());
        assert(ts.drop_last().push(ts.last()) =~= ts);
    }
}

pub proof fn lemma_tokens_view_index(ts: Seq<Token>, k: int)
    requires
        0 <= k < ts.len(),
    ensures
        tokens_view(ts).len() == ts.len(),
        tokens_view(ts)[k] == token_view(ts[k]),
    decreases ts.len(),
{
    lemma_tokens_view_push(ts.drop_last(), ts.last());
    assert(ts.drop_last().push(ts.last()) =~= ts);
    if k < ts.len() - 1 {
        lemma_tokens_view_index(ts.drop_last(), k);
    }
}

/// Why a regular expression could not be parsed.
#[derive(Debug)]
pub enum ParsingError {
    EndOfInput,
    Unexpected(char),
    Missing(char),
    InvalidRange(char, char),
    InvalidRepetitions,
    NotANumber(String),
    BadEscape(char),
}

/// The mathematical value of a [`ParsingError`].
pub enum SpecParsingError {
    EndOfInput,
    Unexpected(char),
    Missing(char),
    InvalidRange(char, char),
    InvalidRepetitions,
    NotANumber(Seq<char>),
    BadEscape(char),
}

impl View for ParsingError {
    type V = SpecParsingError;

    open spec fn view(&self) -> SpecParsingError {
        match self {
            ParsingError::EndOfInput => SpecParsingError::EndOfInput,
            ParsingError::Unexpected(c) => SpecParsingError::Unexpected(*c),
            ParsingError::Missing(c) => SpecParsingError::Missing(*c),
            ParsingError::InvalidRange(a, b) => SpecParsingError::InvalidRange(*a, *b),
            ParsingError::InvalidRepetitions => SpecParsingError::InvalidRepetitions,
            ParsingError::NotANumber(s) => SpecParsingError::NotANumber(s@),
            ParsingError::BadEscape(c) => SpecParsingError::BadEscape(*c),
        }
    }
}

/// What a step of the parser gives: a value, a parsing error, or `Abort` for an input
/// that the parser has no answer for.
pub enum SpecResult<T> {
    Value(T),
    Failure(SpecParsingError),
    Abort,
}

/// Why a step of the parser stops: a parsing error, or an input it has no answer for.
pub enum Fault {
    Abort,
    Error(ParsingError),
}

/// Whether an executable step's result and position agree with its specification.
pub open spec fn agrees<T, U>(
    r: Result<T, Fault>,
    pos: usize,
    spec: (SpecResult<U>, int),
    f: spec_fn(T) -> U,
) -> bool {
    match r {
        Ok(v) => spec.0 == SpecResult::Value(f(v)) && spec.1 == pos,
        Err(Fault::Abort) => spec.0 is Abort,
        Err(Fault::Error(e)) => spec.0 == SpecResult::<U>::Failure(e@),
    }
}

/// The character at `p`, if there is one.
pub open spec fn peek(s: Seq<char>, p: int) -> Option<char> {
    if 0 <= p < s.len() {
        Some(s[p])
    } else {
        None
    }
}

// ---------------------------------------------------------------------------
// numbers

/// The rest of a decimal number whose digits so far make `n`.
pub open spec fn sp_number_loop(s: Seq<char>, p: int, n: int) -> (SpecResult<Option<usize>>, int)
    decreases s.len() - p,
{
    if 0 <= p < s.len() && spec_is_digit(s[p]) {
        let n2 = n * 10 + spec_digit_value(s[p]);
        if n2 > u32::MAX {
            (SpecResult::Abort, p + 1)
        } else {
            sp_number_loop(s, p + 1, n2)
        }
    } else {
        (SpecResult::Value(Some(n as usize)), p)
    }
}

/// A decimal number: its first character is consumed even when it is no digit,
/// and a number that does not fit in 32 bits has no answer.
pub open spec fn sp_number(s: Seq<char>, p: int) -> (SpecResult<Option<usize>>, int) {
    if 0 <= p < s.len() {
        if spec_is_digit(s[p]) {
            sp_number_loop(s, p + 1, spec_digit_value(s[p]) as int)
        } else {
            (SpecResult::Value(None), p + 1)
        }
    } else {
        (SpecResult::Value(None), p)
    }
}

// ---------------------------------------------------------------------------
// repetitions

/// The greatest repetition count that is accepted.
pub const MAX_REPETITIONS: usize = 100_000;

/// Accepts the counts `n` and `m` read up to the closing brace at `q`.
pub open spec fn sp_check_counts(n: usize, m: Option<usize>, q: int) -> (
    SpecResult<Option<(usize, Option<usize>)>>,
    int,
) {
    if m is Some && (n > m->0 || m->0 > MAX_REPETITIONS) {
        (SpecResult::Failure(SpecParsingError::InvalidRepetitions), q)
    } else {
        (SpecResult::Value(Some((n, m))), q + 1)
    }
}

/// The repetition suffix after an atom: `?`, `*`, `+`, `{n}`, `{n,}` or `{n,m}`.
pub open spec fn sp_reps(s: Seq<char>, p: int) -> (
    SpecResult<Option<(usize, Option<usize>)>>,
    int,
) {
    if !(0 <= p < s.len()) {
        (SpecResult::Value(None), p)
    } else if s[p] == '?' {
        (SpecResult::Value(Some((0, Some(1usize)))), p + 1)
    } else if s[p] == '*' {
        (SpecResult::Value(Some((0, None))), p + 1)
    } else if s[p] == '+' {
        (SpecResult::Value(Some((1, None))), p + 1)
    } else if s[p] == '{' {
        let (rn, p1) = sp_number(s, p + 1);
        match rn {
            SpecResult::Value(Some(n)) => {
                if !(0 <= p1 < s.len()) {
                    (SpecResult::Failure(SpecParsingError::EndOfInput), p1)
                } else if s[p1] == ',' {
                    if peek(s, p1 + 1) == Some('}') {
                        sp_check_counts(n, None, p1 + 1)
                    } else {
                        let (rm, p2) = sp_number(s, p1 + 1);
                        match rm {
                            SpecResult::Value(m) => {
                                if peek(s, p2) == Some('}') {
                                    sp_check_counts(n, m, p2)
                                } else {
                                    (SpecResult::Failure(SpecParsingError::Missing('}')), p2)
                                }
                            },
                            SpecResult::Failure(e) => (SpecResult::Failure(e), p2),
                            SpecResult::Abort => (SpecResult::Abort, p2),
                        }
                    }
                } else if s[p1] == '}' {
                    sp_check_counts(n, Some(n), p1)
                } else {
                    (SpecResult::Failure(SpecParsingError::InvalidRepetitions), p1)
                }
            },
            SpecResult::Value(None) => (SpecResult::Failure(SpecParsingError::InvalidRepetitions), p1),
            SpecResult::Failure(e) => (SpecResult::Failure(e), p1),
            SpecResult::Abort => (SpecResult::Abort, p1),
        }
    } else {
        (SpecResult::Value(None), p)
    }
}

// ---------------------------------------------------------------------------
// escapes

/// A hexadecimal digit.
pub open spec fn spec_is_hex_digit(c: char) -> bool {
    ('0' <= c && c <= '9') || ('a' <= c && c <= 'f') || ('A' <= c && c <= 'F')
}

/// The value of a hexadecimal digit.
pub open spec fn spec_hex_digit_value(c: char) -> int {
    if '0' <= c && c <= '9' {
        c as int - '0' as int
    } else if 'a' <= c && c <= 'f' {
        c as int - 'a' as int + 10
    } else {
        c as int - 'A' as int + 10
    }
}

/// Whether every character is a hexadecimal digit.
pub open spec fn spec_all_hex(d: Seq<char>) -> bool {
    forall|i: int| 0 <= i < d.len() ==> spec_is_hex_digit(#[trigger] d[i])
}

/// The value of a string of hexadecimal digits.
pub open spec fn spec_hex_digits_value(d: Seq<char>) -> int
    decreases d.len(),
{
    if d.len() == 0 {
        0
    } else {
        spec_hex_digits_value(d.drop_last()) * 16 + spec_hex_digit_value(d.last())
    }
}

/// What `u32::from_str_radix(s, 16)` gives, as its documentation describes it: an
/// optional `+` followed by at least one hexadecimal digit, whose value fits in 32 bits.
pub open spec fn spec_from_hex(s: Seq<char>) -> Option<u32> {
    let d = if s.len() > 0 && s[0] == '+' {
        s.skip(1)
    } else {
        s
    };
    if d.len() > 0 && spec_all_hex(d) && spec_hex_digits_value(d) <= u32::MAX {
        Some(spec_hex_digits_value(d) as u32)
    } else {
        None
    }
}

/// Whether `u` is the code of a `char`: a Unicode scalar value.
pub open spec fn spec_is_scalar(u: u32) -> bool {
    u < 0xD800 || (0xE000 <= u && u <= 0x10FFFF)
}

proof fn lemma_hex_value_nonneg(d: Seq<char>)
    requires
        spec_all_hex(d),
    ensures
        spec_hex_digits_value(d) >= 0,
    decreases d.len(),
{
    if d.len() > 0 {
        assert(spec_all_hex(d.drop_last()));
        lemma_hex_value_nonneg(d.drop_last());
        assert(spec_is_hex_digit(d[d.len() - 1]));
    }
}

/// More digits never make a smaller value.
proof fn lemma_hex_value_grows(d: Seq<char>, m: int)
    requires
        spec_all_hex(d),
        0 <= m <= d.len(),
    ensures
        spec_hex_digits_value(d.take(m)) <= spec_hex_digits_value(d),
    decreases d.len() - m,
{
    if m < d.len() {
        lemma_hex_value_grows(d, m + 1);
        let t = d.take(m + 1);
        assert(t.drop_last() =~= d.take(m));
        assert(spec_all_hex(d.take(m)));
        lemma_hex_value_nonneg(d.take(m));
        assert(spec_is_hex_digit(t.last()));
    } else {
        assert(d.take(m) =~= d);
    }
}

/// Reads `s` as `u32::from_str_radix(s, 16)` does: an optional `+` sign followed by
/// hexadecimal digits in either case, whose value must fit in 32 bits.
fn from_hex(s: &Vec<char>) -> (r: Option<u32>)
    ensures
        r == spec_from_hex(s@),
{
    let k0: usize = if s.len() > 0 && s[0] == '+' {
        1
    } else {
        0
    };
    let ghost d = if s@.len() > 0 && s@[0] == '+' {
        s@.skip(1)
    } else {
        s@
    };
    assert(d =~= s@.skip(k0 as int));
    if k0 >= s.len() {
        return None;
    }
    let mut k = k0;
    let mut v: u64 = 0;
    assert(d.take(0) =~= Seq::<char>::empty());
    while k < s.len()
        invariant
            k0 <= k <= s.len(),
            d == s@.skip(k0 as int),
            d == (if s@.len() > 0 && s@[0] == '+' {
                s@.skip(1)
            } else {
                s@
            }),
            v == spec_hex_digits_value(d.take(k - k0)),
            v <= u32::MAX,
            spec_all_hex(d.take(k - k0)),
        decreases s.len() - k,
    {
        let c = s[k];
        let ghost i = k - k0;
        assert(d[i] == c);
        let digit: u64 = if '0' <= c && c <= '9' {
            (c as u32 - '0' as u32) as u64
        } else if 'a' <= c && c <= 'f' {
            (c as u32 - 'a' as u32 + 10) as u64
        } else if 'A' <= c && c <= 'F' {
            (c as u32 - 'A' as u32 + 10) as u64
        } else {
            assert(!spec_is_hex_digit(d[i]));
            assert(!spec_all_hex(d));
            assert(spec_from_hex(s@) is None);
            return None;
        };
        let ghost t = d.take(i + 1);
        assert(t.drop_last() =~= d.take(i));
        assert(t.last() == c);
        assert(spec_all_hex(t)) by {
            assert forall|x: int| 0 <= x < t.len() implies spec_is_hex_digit(#[trigger] t[x]) by {
                if x < i {
                    assert(t[x] == d.take(i)[x]);
                }
            }
        }
        assert(digit == spec_hex_digit_value(c));
        assert(spec_hex_digits_value(t) == spec_hex_digits_value(d.take(i)) * 16 + spec_hex_digit_value(c));
        v = v * 16 + digit;
        if v > 0xFFFF_FFFF {
            proof {
                if spec_all_hex(d) {
                    lemma_hex_value_grows(d, i + 1);
                }
            }
            assert(spec_from_hex(s@) is None);
            return None;
        }
        k = k + 1;
    }
    assert(d.take(d.len() as int) =~= d);
    Some(v as u32)
}

/// Calls `char::from_u32`, which gives the character with code `u` when `u` is a
/// Unicode scalar value and `None` otherwise, as its documentation says.
#[verifier::external_body]
fn char_from_u32(u: u32) -> (r: Option<char>)
    ensures
        r is Some <==> spec_is_scalar(u),
        r matches Some(c) ==> c == u as char,
{
    char::from_u32(u)
}

/// Collects characters into a `String`.
#[verifier::external_body]
pub(crate) fn string_from_chars(s: &Vec<char>) -> (r: String)
    ensures
        r@ == s@,
{
    s.iter().collect()
}

/// `\xNN` or `\uNNNN`: `k` hexadecimal characters from `p` on.
pub open spec fn sp_hex(s: Seq<char>, p: int, k: int) -> (SpecResult<SpecCharacter>, int) {
    if p + k > s.len() {
        (SpecResult::Failure(SpecParsingError::EndOfInput), s.len() as int)
    } else {
        let t = s.subrange(p, p + k);
        match spec_from_hex(t) {
            Some(u) => if spec_is_scalar(u) {
                (SpecResult::Value(SpecCharacter::Literal(u as char)), p + k)
            } else {
                (SpecResult::Failure(SpecParsingError::NotANumber(t)), p + k)
            },
            None => (SpecResult::Failure(SpecParsingError::NotANumber(t)), p + k),
        }
    }
}

/// The character after a backslash.
pub open spec fn sp_escaped(s: Seq<char>, p: int) -> (SpecResult<SpecCharacter>, int) {
    if !(0 <= p < s.len()) {
        (SpecResult::Failure(SpecParsingError::EndOfInput), p)
    } else {
        let c = s[p];
        let q = p + 1;
        if c == 'w' {
            (SpecResult::Value(SpecCharacter::Word), q)
        } else if c == 'W' {
            (SpecResult::Value(SpecCharacter::Not(Box::new(SpecCharacter::Word))), q)
        } else if c == 'd' {
            (SpecResult::Value(SpecCharacter::Digit), q)
        } else if c == 'D' {
            (SpecResult::Value(SpecCharacter::Not(Box::new(SpecCharacter::Digit))), q)
        } else if c == 's' {
            (SpecResult::Value(SpecCharacter::Space), q)
        } else if c == 'S' {
            (SpecResult::Value(SpecCharacter::Not(Box::new(SpecCharacter::Space))), q)
        } else if c == 'n' {
            (SpecResult::Value(SpecCharacter::Literal('\n')), q)
        } else if c == 'r' {
            (SpecResult::Value(SpecCharacter::Literal('\r')), q)
        } else if c == 't' {
            (SpecResult::Value(SpecCharacter::Literal('\t')), q)
        } else if c == '0' {
            (SpecResult::Value(SpecCharacter::Literal('\0')), q)
        } else if c == 'b' {
            (SpecResult::Value(SpecCharacter::Literal('\u{000C}')), q)
        } else if c == 'x' {
            sp_hex(s, q, 2)
        } else if c == 'u' {
            sp_hex(s, q, 4)
        } else if c == '\'' || c == '"' || spec_is_special(c) {
            (SpecResult::Value(SpecCharacter::Literal(c)), q)
        } else {
            (SpecResult::Failure(SpecParsingError::BadEscape(c)), q)
        }
    }
}


// ---------------------------------------------------------------------------
// sets

/// The rest of a bracket expression, with the members `acc` read so far. A range
/// whose start is no literal character has no answer.
pub open spec fn sp_set_loop(s: Seq<char>, p: int, acc: Seq<SpecCharacter>) -> (
    SpecResult<Seq<SpecCharacter>>,
    int,
)
    decreases s.len() - p,
{
    if !(0 <= p < s.len()) {
        (SpecResult::Failure(SpecParsingError::EndOfInput), p)
    } else {
        let c = s[p];
        let q = p + 1;
        if c == '\\' {
            let (r, q2) = sp_escaped(s, q);
            match r {
                SpecResult::Value(e) => if p < q2 <= s.len() {
                    sp_set_loop(s, q2, acc.push(e))
                } else {
                    (SpecResult::Abort, q2)
                },
                SpecResult::Failure(e) => (SpecResult::Failure(e), q2),
                SpecResult::Abort => (SpecResult::Abort, q2),
            }
        } else if c == ']' {
            (SpecResult::Value(acc), q)
        } else if c == '-' {
            if !(q < s.len()) {
                (SpecResult::Failure(SpecParsingError::EndOfInput), q)
            } else if s[q] == ']' {
                (SpecResult::Value(acc.push(SpecCharacter::Literal('-'))), q + 1)
            } else if acc.len() > 0 {
                match acc.last() {
                    SpecCharacter::Literal(start) => if start >= s[q] {
                        (SpecResult::Failure(SpecParsingError::InvalidRange(start, s[q])), q + 1)
                    } else {
                        sp_set_loop(
                            s,
                            q + 1,
                            acc.drop_last().push(SpecCharacter::Range(start, s[q])),
                        )
                    },
                    _ => (SpecResult::Abort, q + 1),
                }
            } else {
                sp_set_loop(
                    s,
                    q + 1,
                    acc.push(SpecCharacter::Literal('-')).push(SpecCharacter::Literal('-')),
                )
            }
        } else {
            sp_set_loop(s, q, acc.push(SpecCharacter::Literal(c)))
        }
    }
}

/// A bracket expression after its `[`.
pub open spec fn sp_set(s: Seq<char>, p: int) -> (SpecResult<SpecCharacter>, int) {
    let negate = peek(s, p) == Some('^');
    let p1 = if negate {
        p + 1
    } else {
        p
    };
    let first = peek(s, p1);
    let (acc, p2) = if first == Some('-') || first == Some(']') {
        (seq![SpecCharacter::Literal(first->0)], p1 + 1)
    } else {
        (Seq::empty(), p1)
    };
    sp_set_finish(negate, sp_set_loop(s, p2, acc))
}

/// The class that the members of a bracket expression make.
pub open spec fn sp_set_finish(negate: bool, r: (SpecResult<Seq<SpecCharacter>>, int)) -> (
    SpecResult<SpecCharacter>,
    int,
) {
    match r.0 {
        SpecResult::Value(members) => if negate {
            (
                SpecResult::Value(SpecCharacter::Not(Box::new(SpecCharacter::Bracket(members)))),
                r.1,
            )
        } else {
            (SpecResult::Value(SpecCharacter::Bracket(members)), r.1)
        },
        SpecResult::Failure(e) => (SpecResult::Failure(e), r.1),
        SpecResult::Abort => (SpecResult::Abort, r.1),
    }
}

// ---------------------------------------------------------------------------
// the grammar

/// An alternative: branches separated by `|`, up to the end or a `)`.
pub open spec fn sp_alternative(s: Seq<char>, p: int) -> (SpecResult<SpecToken>, int)
    decreases s.len() - p, 4int,
{
    sp_alt_loop(s, p, Seq::empty())
}

/// The token made of the branches of an alternative.
pub open spec fn sp_alt_token(acc: Seq<SpecToken>) -> SpecToken {
    if acc.len() == 0 {
        SpecToken::Branch(acc)
    } else if acc.len() == 1 {
        acc[0]
    } else {
        SpecToken::Alternative(acc)
    }
}

/// The rest of an alternative, with the branches `acc` read so far.
pub open spec fn sp_alt_loop(s: Seq<char>, p: int, acc: Seq<SpecToken>) -> (
    SpecResult<SpecToken>,
    int,
)
    decreases s.len() - p, 3int,
{
    if !(0 <= p < s.len()) {
        (SpecResult::Value(sp_alt_token(acc)), p)
    } else {
        let (r, p2) = sp_branch(s, p);
        match r {
            SpecResult::Value(b) => if peek(s, p2) == Some('|') {
                if p <= p2 {
                    sp_alt_loop(s, p2 + 1, acc.push(b))
                } else {
                    (SpecResult::Abort, p2)
                }
            } else {
                (SpecResult::Value(sp_alt_token(acc.push(b))), p2)
            },
            SpecResult::Failure(e) => (SpecResult::Failure(e), p2),
            SpecResult::Abort => (SpecResult::Abort, p2),
        }
    }
}

/// A branch: atoms up to the end, a `|` or a `)`.
pub open spec fn sp_branch(s: Seq<char>, p: int) -> (SpecResult<SpecToken>, int)
    decreases s.len() - p, 2int,
{
    sp_branch_loop(s, p, Seq::empty())
}

/// The rest of a branch, with the atoms `acc` read so far.
pub open spec fn sp_branch_loop(s: Seq<char>, p: int, acc: Seq<SpecToken>) -> (
    SpecResult<SpecToken>,
    int,
)
    decreases s.len() - p, 1int,
{
    if !(0 <= p < s.len()) || s[p] == '|' || s[p] == ')' {
        (
            SpecResult::Value(
                if acc.len() == 1 {
                    acc[0]
                } else {
                    SpecToken::Branch(acc)
                },
            ),
            p,
        )
    } else {
        let (r, p2) = sp_atom(s, p);
        match r {
            SpecResult::Value(a) => if p < p2 <= s.len() {
                sp_branch_loop(
                    s,
                    p2,
                    match a {
                        Some(t) => acc.push(t),
                        None => acc,
                    },
                )
            } else {
                (SpecResult::Abort, p2)
            },
            SpecResult::Failure(e) => (SpecResult::Failure(e), p2),
            SpecResult::Abort => (SpecResult::Abort, p2),
        }
    }
}

/// The token that the part before a repetition suffix makes, when it is not a group.
pub open spec fn sp_simple_atom(s: Seq<char>, p: int) -> (SpecResult<SpecToken>, int) {
    let c = s[p];
    let q = p + 1;
    if c == '.' {
        (SpecResult::Value(SpecToken::Matcher(SpecCharacter::Anything)), q)
    } else if c == '^' {
        (SpecResult::Value(SpecToken::Special(Boundary::Start)), q)
    } else if c == '$' {
        (SpecResult::Value(SpecToken::Special(Boundary::End)), q)
    } else if c == '\\' {
        if !(q < s.len()) {
            (SpecResult::Failure(SpecParsingError::EndOfInput), q)
        } else if s[q] == 'b' {
            (SpecResult::Value(SpecToken::Special(Boundary::Word(true))), q + 1)
        } else if s[q] == 'B' {
            (SpecResult::Value(SpecToken::Special(Boundary::Word(false))), q + 1)
        } else {
            let (r, q2) = sp_escaped(s, q);
            match r {
                SpecResult::Value(ch) => (SpecResult::Value(SpecToken::Matcher(ch)), q2),
                SpecResult::Failure(e) => (SpecResult::Failure(e), q2),
                SpecResult::Abort => (SpecResult::Abort, q2),
            }
        }
    } else if c == '[' {
        let (r, q2) = sp_set(s, q);
        match r {
            SpecResult::Value(ch) => (SpecResult::Value(SpecToken::Matcher(ch)), q2),
            SpecResult::Failure(e) => (SpecResult::Failure(e), q2),
            SpecResult::Abort => (SpecResult::Abort, q2),
        }
    } else if c == '|' || c == '?' || c == '*' || c == '+' || c == '{' {
        (SpecResult::Failure(SpecParsingError::Unexpected(c)), q)
    } else {
        (SpecResult::Value(SpecToken::Matcher(SpecCharacter::Literal(c))), q)
    }
}

/// A group after its `(`: an optional `?:` marker, an alternative and the closing `)`.
pub open spec fn sp_group(s: Seq<char>, q: int) -> (SpecResult<SpecToken>, int)
    decreases s.len() - q, 5int,
{
    if peek(s, q) == Some('?') && peek(s, q + 1) != Some(':') {
        (SpecResult::Failure(SpecParsingError::Unexpected('?')), q + 2)
    } else {
        let q1 = if peek(s, q) == Some('?') {
            q + 2
        } else {
            q
        };
        if q1 <= s.len() {
            let (r, q3) = sp_alternative(s, q1);
            match r {
                SpecResult::Value(t) => if peek(s, q3) == Some(')') {
                    (SpecResult::Value(t), q3 + 1)
                } else {
                    (SpecResult::Failure(SpecParsingError::Missing(')')), q3 + 1)
                },
                SpecResult::Failure(e) => (SpecResult::Failure(e), q3),
                SpecResult::Abort => (SpecResult::Abort, q3),
            }
        } else {
            (SpecResult::Abort, q1)
        }
    }
}

/// An atom whose base part gave `base` up to `q`, with its repetition suffix, if any.
pub open spec fn sp_with_reps(s: Seq<char>, base: SpecResult<SpecToken>, q: int) -> (
    SpecResult<Option<SpecToken>>,
    int,
) {
    match base {
        SpecResult::Value(t) => {
            let (rr, q4) = sp_reps(s, q);
            match rr {
                SpecResult::Value(None) => (SpecResult::Value(Some(t)), q),
                SpecResult::Value(Some((n, m))) => if m == Some(0usize) {
                    (SpecResult::Value(None), q4)
                } else {
                    (SpecResult::Value(Some(SpecToken::Repeat(Box::new(t), n, m))), q4)
                },
                SpecResult::Failure(e) => (SpecResult::Failure(e), q4),
                SpecResult::Abort => (SpecResult::Abort, q4),
            }
        },
        SpecResult::Failure(e) => (SpecResult::Failure(e), q),
        SpecResult::Abort => (SpecResult::Abort, q),
    }
}

/// An atom and its repetition suffix, if any; `None` when there is nothing left or
/// the atom is repeated zero times.
pub open spec fn sp_atom(s: Seq<char>, p: int) -> (SpecResult<Option<SpecToken>>, int)
    decreases s.len() - p, 0int,
{
    if !(0 <= p < s.len()) {
        (SpecResult::Value(None), p)
    } else {
        let (base, q2) = if s[p] == '(' {
            sp_group(s, p + 1)
        } else {
            sp_simple_atom(s, p)
        };
        sp_with_reps(s, base, q2)
    }
}

/// The whole regular expression `s`. Parsing stops at a `)` that closes no group.
pub open spec fn spec_parse(s: Seq<char>) -> SpecResult<SpecToken> {
    sp_alternative(s, 0).0
}

/// Whether the parser has no answer for `s`: a range in a bracket expression whose
/// start is a class such as `\w` or another range, or a repetition count that does not
/// fit in 32 bits.
pub open spec fn spec_parse_aborts(s: Seq<char>) -> bool {
    spec_parse(s) is Abort
}


// ---------------------------------------------------------------------------
// the executable parser

/// A cursor over the characters of a regular expression.
pub struct Parser {
    pub chars: Vec<char>,
    pub pos: usize,
}

pub open spec fn id_view<T>(x: T) -> T {
    x
}

pub open spec fn character_of(c: Character) -> SpecCharacter {
    c@
}

pub open spec fn token_of(t: Token) -> SpecToken {
    t@
}

pub open spec fn opt_token_of(t: Option<Token>) -> Option<SpecToken> {
    match t {
        Some(t) => Some(t@),
        None => None,
    }
}

proof fn lemma_set_range_step(s: Seq<char>, p: int, acc: Seq<Character>, lo: char, hi: char)
    requires
        0 <= p,
        p + 1 < s.len(),
        s[p] == '-',
        s[p + 1] == hi,
        hi != ']',
        lo < hi,
    ensures
        sp_set_loop(s, p, characters_view(acc.push(Character::Literal(lo)))) == sp_set_loop(
            s,
            p + 2,
            characters_view(acc.push(Character::Range(lo, hi))),
        ),
{
    lemma_characters_view_push(acc, Character::Literal(lo));
    lemma_characters_view_push(acc, Character::Range(lo, hi));
    lemma_character_view(Character::Literal(lo));
    lemma_character_view(Character::Range(lo, hi));
    let v = characters_view(acc.push(Character::Literal(lo)));
    assert(v.drop_last() == characters_view(acc));
}

proof fn lemma_set_literal_step(s: Seq<char>, p: int, acc: Seq<Character>, c: char)
    requires
        0 <= p < s.len(),
        s[p] == c,
        c != '\\' && c != ']' && c != '-',
    ensures
        sp_set_loop(s, p, characters_view(acc)) == sp_set_loop(
            s,
            p + 1,
            characters_view(acc.push(Character::Literal(c))),
        ),
{
    lemma_characters_view_push(acc, Character::Literal(c));
    lemma_character_view(Character::Literal(c));
}

proof fn lemma_set_dashes_step(s: Seq<char>, p: int, acc: Seq<Character>)
    requires
        0 <= p,
        p + 1 < s.len(),
        s[p] == '-',
        s[p + 1] != ']',
        acc.len() == 0,
    ensures
        sp_set_loop(s, p, characters_view(acc)) == sp_set_loop(
            s,
            p + 2,
            characters_view(acc.push(Character::Literal('-')).push(Character::Literal('-'))),
        ),
{
    lemma_characters_view_push(acc, Character::Literal('-'));
    lemma_characters_view_push(acc.push(Character::Literal('-')), Character::Literal('-'));
    lemma_character_view(Character::Literal('-'));
}

proof fn lemma_set_escape_step(s: Seq<char>, p: int, q: int, acc: Seq<Character>, e: Character)
    requires
        0 <= p < s.len(),
        s[p] == '\\',
        p < q <= s.len(),
        sp_escaped(s, p + 1) == (SpecResult::Value(character_view(e)), q),
    ensures
        sp_set_loop(s, p, characters_view(acc)) == sp_set_loop(
            s,
            q,
            characters_view(acc.push(e)),
        ),
{
    lemma_characters_view_push(acc, e);
}

/// The value of a token, one level deep.
pub proof fn lemma_token_view(tk: Token)
    ensures
        token_view(tk) == match tk {
            Token::Special(b) => SpecToken::Special(b),
            Token::Matcher(c) => SpecToken::Matcher(c@),
            Token::Branch(v) => SpecToken::Branch(tokens_view(v@)),
            Token::Alternative(v) => SpecToken::Alternative(tokens_view(v@)),
            Token::Repeat(b, n, m) => SpecToken::Repeat(Box::new(token_view(*b)), n, m),
        },
{
}

/// The token made of the branches of an alternative.
fn alt_token(acc: Vec<Token>) -> (r: Token)
    ensures
        r@ == sp_alt_token(tokens_view(acc@)),
{
    let mut acc = acc;
    proof {
        lemma_tokens_view_push(acc@, Token::Special(Boundary::Start));
    }
    if acc.len() == 0 {
        proof {
            lemma_token_view(Token::Branch(acc));
        }
        Token::Branch(acc)
    } else if acc.len() == 1 {
        proof {
            lemma_tokens_view_index(acc@, 0);
        }
        match acc.pop() {
            Some(t) => t,
            None => Token::Branch(acc),
        }
    } else {
        proof {
            lemma_token_view(Token::Alternative(acc));
        }
        Token::Alternative(acc)
    }
}

/// The token made of the atoms of a branch.
fn branch_token(acc: Vec<Token>) -> (r: Token)
    ensures
        tokens_view(acc@).len() == acc@.len(),
        r@ == (if acc@.len() == 1 {
            tokens_view(acc@)[0]
        } else {
            SpecToken::Branch(tokens_view(acc@))
        }),
{
    let mut acc = acc;
    proof {
        lemma_tokens_view_push(acc@, Token::Special(Boundary::Start));
    }
    if acc.len() == 1 {
        proof {
            lemma_tokens_view_index(acc@, 0);
        }
        match acc.pop() {
            Some(t) => t,
            None => Token::Branch(acc),
        }
    } else {
        proof {
            lemma_token_view(Token::Branch(acc));
        }
        Token::Branch(acc)
    }
}

/// The class that the members of a bracket expression make.
fn finish_set(negate: bool, acc: Vec<Character>) -> (r: Character)
    ensures
        sp_set_finish(negate, (SpecResult::Value(characters_view(acc@)), 0)).0 == SpecResult::Value(
            r@,
        ),
{
    proof {
        reveal_with_fuel(character_view, 2);
    }
    let members = Character::Bracket(acc);
    if negate {
        Character::Not(Box::new(members))
    } else {
        members
    }
}

impl Parser {
    pub open spec fn wf(&self) -> bool {
        self.pos <= self.chars.len()
    }

    pub(crate) fn peek(&self) -> (r: Option<char>)
        ensures
            r == peek(self.chars@, self.pos as int),
    {
        if self.pos < self.chars.len() {
            Some(self.chars[self.pos])
        } else {
            None
        }
    }

    pub(crate) fn next(&mut self) -> (r: Option<char>)
        requires
            old(self).wf(),
        ensures
            final(self).wf(),
            final(self).chars == old(self).chars,
            r == peek(old(self).chars@, old(self).pos as int),
            final(self).pos == (if r is Some {
                old(self).pos + 1
            } else {
                old(self).pos as int
            }),
    {
        if self.pos < self.chars.len() {
            let c = self.chars[self.pos];
            self.pos = self.pos + 1;
            Some(c)
        } else {
            None
        }
    }

    pub(crate) fn number(&mut self) -> (r: Result<Option<usize>, Fault>)
        requires
            old(self).wf(),
        ensures
            final(self).wf(),
            final(self).chars == old(self).chars,
            old(self).pos <= final(self).pos,
            r matches Ok(Some(_)) ==> old(self).pos < final(self).pos,
            agrees(r, final(self).pos, sp_number(old(self).chars@, old(self).pos as int), |x| id_view(x)),
    {
        let c = match self.next() {
            Some(c) => c,
            None => return Ok(None),
        };
        let mut n: u32 = match to_digit(c) {
            Some(d) => d,
            None => return Ok(None),
        };
        let ghost s = self.chars@;
        loop
            invariant
                self.wf(),
                self.chars == old(self).chars,
                self.chars@ == s,
                old(self).pos < self.pos,
                sp_number(s, old(self).pos as int) == sp_number_loop(s, self.pos as int, n as int),
            ensures
                !(self.pos < s.len() && spec_is_digit(s[self.pos as int])),
            decreases self.chars.len() - self.pos,
        {
            let c = match self.peek() {
                Some(c) => c,
                None => break,
            };
            let d = match to_digit(c) {
                Some(d) => d,
                None => break,
            };
            self.pos = self.pos + 1;
            let n2: u64 = n as u64 * 10 + d as u64;
            if n2 > u32::MAX as u64 {
                return Err(Fault::Abort);
            }
            n = n2 as u32;
        }
        Ok(Some(n as usize))
    }

    fn reps(&mut self) -> (r: Result<Option<(usize, Option<usize>)>, Fault>)
        requires
            old(self).wf(),
        ensures
            final(self).wf(),
            final(self).chars == old(self).chars,
            old(self).pos <= final(self).pos,
            agrees(r, final(self).pos, sp_reps(old(self).chars@, old(self).pos as int), |x| id_view(x)),
    {
        let c = match self.peek() {
            Some(c) => c,
            None => return Ok(None),
        };
        let reps: (usize, Option<usize>);
        if c == '?' {
            reps = (0, Some(1));
        } else if c == '*' {
            reps = (0, None);
        } else if c == '+' {
            reps = (1, None);
        } else if c == '{' {
            self.pos = self.pos + 1;
            let n = match self.number() {
                Ok(Some(n)) => n,
                Ok(None) => return Err(Fault::Error(ParsingError::InvalidRepetitions)),
                Err(f) => return Err(f),
            };
            let c2 = match self.peek() {
                Some(c2) => c2,
                None => return Err(Fault::Error(ParsingError::EndOfInput)),
            };
            let m: Option<usize>;
            if c2 == ',' {
                self.pos = self.pos + 1;
                match self.peek() {
                    Some('}') => {
                        m = None;
                    },
                    _ => {
                        let mm = match self.number() {
                            Ok(x) => x,
                            Err(f) => return Err(f),
                        };
                        match self.peek() {
                            Some('}') => {},
                            _ => return Err(Fault::Error(ParsingError::Missing('}'))),
                        }
                        m = mm;
                    },
                }
            } else if c2 == '}' {
                m = Some(n);
            } else {
                return Err(Fault::Error(ParsingError::InvalidRepetitions));
            }
            match m {
                Some(mv) => {
                    if n > mv || mv > MAX_REPETITIONS {
                        return Err(Fault::Error(ParsingError::InvalidRepetitions));
                    }
                },
                None => {},
            }
            reps = (n, m);
        } else {
            return Ok(None);
        }
        self.pos = self.pos + 1;
        Ok(Some(reps))
    }

    pub(crate) fn hex(&mut self, k: usize) -> (r: Result<Character, Fault>)
        requires
            old(self).wf(),
            k == 2 || k == 4,
        ensures
            final(self).wf(),
            final(self).chars == old(self).chars,
            old(self).pos <= final(self).pos,
            r is Ok ==> old(self).pos < final(self).pos,
            agrees(
                r,
                final(self).pos,
                sp_hex(old(self).chars@, old(self).pos as int, k as int),
                |x| character_of(x),
            ),
    {
        let ghost p0 = self.pos as int;
        let mut t: Vec<char> = Vec::new();
        let mut i: usize = 0;
        while i < k
            invariant
                self.wf(),
                self.chars == old(self).chars,
                self.pos == p0 + i,
                i <= k,
                p0 == old(self).pos,
                t@ == self.chars@.subrange(p0, self.pos as int),
            decreases k - i,
        {
            match self.next() {
                Some(c) => t.push(c),
                None => return Err(Fault::Error(ParsingError::EndOfInput)),
            }
            assert(t@ =~= self.chars@.subrange(p0, self.pos as int));
            i = i + 1;
        }
        match from_hex(&t) {
            Some(u) => match char_from_u32(u) {
                Some(ch) => {
                    Ok(Character::Literal(ch))
                },
                None => Err(Fault::Error(ParsingError::NotANumber(string_from_chars(&t)))),
            },
            None => Err(Fault::Error(ParsingError::NotANumber(string_from_chars(&t)))),
        }
    }

    fn escaped_character(&mut self) -> (r: Result<Character, Fault>)
        requires
            old(self).wf(),
        ensures
            final(self).wf(),
            final(self).chars == old(self).chars,
            old(self).pos <= final(self).pos,
            r is Ok ==> old(self).pos < final(self).pos,
            agrees(
                r,
                final(self).pos,
                sp_escaped(old(self).chars@, old(self).pos as int),
                |x| character_of(x),
            ),
    {
        let c = match self.next() {
            Some(c) => c,
            None => return Err(Fault::Error(ParsingError::EndOfInput)),
        };
        proof {
            reveal_with_fuel(character_view, 2);
        }
        if c == 'w' {
            Ok(Character::Word)
        } else if c == 'W' {
            Ok(Character::Not(Box::new(Character::Word)))
        } else if c == 'd' {
            Ok(Character::Digit)
        } else if c == 'D' {
            Ok(Character::Not(Box::new(Character::Digit)))
        } else if c == 's' {
            Ok(Character::Space)
        } else if c == 'S' {
            Ok(Character::Not(Box::new(Character::Space)))
        } else if c == 'n' {
            Ok(Character::Literal('\n'))
        } else if c == 'r' {
            Ok(Character::Literal('\r'))
        } else if c == 't' {
            Ok(Character::Literal('\t'))
        } else if c == '0' {
            Ok(Character::Literal('\0'))
        } else if c == 'b' {
            Ok(Character::Literal('\u{000C}'))
        } else if c == 'x' {
            self.hex(2)
        } else if c == 'u' {
            self.hex(4)
        } else if c == '\'' || c == '"' || is_special(c) {
            Ok(Character::Literal(c))
        } else {
            Err(Fault::Error(ParsingError::BadEscape(c)))
        }
    }

    fn set(&mut self) -> (r: Result<Character, Fault>)
        requires
            old(self).wf(),
        ensures
            final(self).wf(),
            final(self).chars == old(self).chars,
            old(self).pos <= final(self).pos,
            agrees(r, final(self).pos, sp_set(old(self).chars@, old(self).pos as int), |x| character_of(x)),
    {
        let ghost s = self.chars@;
        let ghost p0 = self.pos as int;
        let negate = match self.peek() {
            Some('^') => {
                self.pos = self.pos + 1;
                true
            },
            _ => false,
        };
        let mut acc: Vec<Character> = Vec::new();
        match self.peek() {
            Some(c) => {
                if c == '-' || c == ']' {
                    proof {
                        lemma_characters_view_push(acc@, Character::Literal(c));
                        lemma_character_view(Character::Literal(c));
                    }
                    acc.push(Character::Literal(c));
                    self.pos = self.pos + 1;
                }
            },
            None => {},
        }
        loop
            invariant
                self.wf(),
                self.chars == old(self).chars,
                self.chars@ == s,
                p0 == old(self).pos,
                p0 <= self.pos,
                sp_set(s, p0) == sp_set_finish(negate, sp_set_loop(s, self.pos as int, characters_view(acc@))),
            decreases self.chars.len() - self.pos,
        {
            let ghost p = self.pos as int;
            let ghost acc0 = acc@;
            let c = match self.next() {
                Some(c) => c,
                None => return Err(Fault::Error(ParsingError::EndOfInput)),
            };
            if c == '\\' {
                let e = match self.escaped_character() {
                    Ok(e) => e,
                    Err(f) => return Err(f),
                };
                proof {
                    lemma_set_escape_step(s, p, self.pos as int, acc@, e);
                }
                acc.push(e);
            } else if c == ']' {
                return Ok(finish_set(negate, acc));
            } else if c == '-' {
                let hi = match self.next() {
                    Some(hi) => hi,
                    None => return Err(Fault::Error(ParsingError::EndOfInput)),
                };
                if hi == ']' {
                    proof {
                        lemma_characters_view_push(acc@, Character::Literal(c));
                        lemma_character_view(Character::Literal(c));
                    }
                    acc.push(Character::Literal(c));
                    return Ok(finish_set(negate, acc));
                }
                match acc.pop() {
                    Some(t) => {
                        proof {
                            lemma_characters_view_push(acc@, t);
                            lemma_character_view(t);
                            assert(acc0 =~= acc@.push(t));
                        }
                        match t {
                            Character::Literal(lo) => {
                                if lo >= hi {
                                    return Err(
                                        Fault::Error(ParsingError::InvalidRange(lo, hi)),
                                    );
                                }
                                proof {
                                    assert(acc0 =~= acc@.push(Character::Literal(lo)));
                                    lemma_set_range_step(s, p, acc@, lo, hi);
                                }
                                acc.push(Character::Range(lo, hi));
                            },
                            _ => return Err(Fault::Abort),
                        }
                    },
                    None => {
                        proof {
                            lemma_set_dashes_step(s, p, acc@);
                        }
                        acc.push(Character::Literal('-'));
                        acc.push(Character::Literal(c));
                    },
                }
            } else {
                proof {
                    lemma_set_literal_step(s, p, acc@, c);
                }
                acc.push(Character::Literal(c));
            }
        }
    }

    fn simple_atom(&mut self) -> (r: Result<Token, Fault>)
        requires
            old(self).wf(),
            old(self).pos < old(self).chars.len(),
        ensures
            final(self).wf(),
            final(self).chars == old(self).chars,
            old(self).pos < final(self).pos,
            agrees(
                r,
                final(self).pos,
                sp_simple_atom(old(self).chars@, old(self).pos as int),
                |x| token_of(x),
            ),
    {
        let c = self.chars[self.pos];
        self.pos = self.pos + 1;
        if c == '.' {
            proof {
                lemma_token_view(Token::Matcher(Character::Anything));
                lemma_character_view(Character::Anything);
            }
            Ok(Token::Matcher(Character::Anything))
        } else if c == '^' {
            Ok(Token::Special(Boundary::Start))
        } else if c == '$' {
            Ok(Token::Special(Boundary::End))
        } else if c == '\\' {
            match self.peek() {
                Some(d) => {
                    if d == 'b' {
                        self.pos = self.pos + 1;
                        Ok(Token::Special(Boundary::Word(true)))
                    } else if d == 'B' {
                        self.pos = self.pos + 1;
                        Ok(Token::Special(Boundary::Word(false)))
                    } else {
                        match self.escaped_character() {
                            Ok(ch) => {
                                proof {
                                    lemma_token_view(Token::Matcher(ch));
                                }
                                Ok(Token::Matcher(ch))
                            },
                            Err(f) => Err(f),
                        }
                    }
                },
                None => Err(Fault::Error(ParsingError::EndOfInput)),
            }
        } else if c == '[' {
            match self.set() {
                Ok(ch) => {
                    proof {
                        lemma_token_view(Token::Matcher(ch));
                    }
                    Ok(Token::Matcher(ch))
                },
                Err(f) => Err(f),
            }
        } else if c == '|' || c == '?' || c == '*' || c == '+' || c == '{' {
            Err(Fault::Error(ParsingError::Unexpected(c)))
        } else {
            proof {
                lemma_token_view(Token::Matcher(Character::Literal(c)));
                lemma_character_view(Character::Literal(c));
            }
            Ok(Token::Matcher(Character::Literal(c)))
        }
    }

    fn group(&mut self) -> (r: Result<Token, Fault>)
        requires
            old(self).wf(),
        ensures
            final(self).wf(),
            final(self).chars == old(self).chars,
            old(self).pos <= final(self).pos,
            agrees(
                r,
                final(self).pos,
                sp_group(old(self).chars@, old(self).pos as int),
                |x| token_of(x),
            ),
        decreases old(self).chars.len() - old(self).pos, 5int,
    {
        match self.peek() {
            Some('?') => {
                self.pos = self.pos + 1;
                match self.next() {
                    Some(':') => {},
                    _ => return Err(Fault::Error(ParsingError::Unexpected('?'))),
                }
            },
            _ => {},
        }
        let t = match self.alternative() {
            Ok(t) => t,
            Err(f) => return Err(f),
        };
        match self.next() {
            Some(')') => Ok(t),
            _ => Err(Fault::Error(ParsingError::Missing(')'))),
        }
    }

    fn with_reps(&mut self, base: Token) -> (r: Result<Option<Token>, Fault>)
        requires
            old(self).wf(),
        ensures
            final(self).wf(),
            final(self).chars == old(self).chars,
            old(self).pos <= final(self).pos,
            agrees(
                r,
                final(self).pos,
                sp_with_reps(old(self).chars@, SpecResult::Value(base@), old(self).pos as int),
                |x| opt_token_of(x),
            ),
    {
        match self.reps() {
            Ok(None) => Ok(Some(base)),
            Ok(Some((n, m))) => match m {
                Some(0) => Ok(None),
                _ => {
                    proof {
                        lemma_token_view(Token::Repeat(Box::new(base), n, m));
                    }
                    Ok(Some(Token::Repeat(Box::new(base), n, m)))
                },
            },
            Err(f) => Err(f),
        }
    }

    fn atom(&mut self) -> (r: Result<Option<Token>, Fault>)
        requires
            old(self).wf(),
        ensures
            final(self).wf(),
            final(self).chars == old(self).chars,
            old(self).pos <= final(self).pos,
            r is Ok && old(self).pos < old(self).chars.len() ==> old(self).pos < final(self).pos,
            agrees(
                r,
                final(self).pos,
                sp_atom(old(self).chars@, old(self).pos as int),
                |x| opt_token_of(x),
            ),
        decreases old(self).chars.len() - old(self).pos, 0int,
    {
        if self.pos >= self.chars.len() {
            return Ok(None);
        }
        let c = self.chars[self.pos];
        let base: Token;
        if c == '(' {
            self.pos = self.pos + 1;
            base = match self.group() {
                Ok(t) => t,
                Err(f) => return Err(f),
            };
        } else {
            base = match self.simple_atom() {
                Ok(t) => t,
                Err(f) => return Err(f),
            };
        }
        self.with_reps(base)
    }

    fn branch(&mut self) -> (r: Result<Token, Fault>)
        requires
            old(self).wf(),
        ensures
            final(self).wf(),
            final(self).chars == old(self).chars,
            old(self).pos <= final(self).pos,
            agrees(
                r,
                final(self).pos,
                sp_branch(old(self).chars@, old(self).pos as int),
                |x| token_of(x),
            ),
        decreases old(self).chars.len() - old(self).pos, 2int,
    {
        let ghost s = self.chars@;
        let ghost p0 = self.pos as int;
        let mut acc: Vec<Token> = Vec::new();
        loop
            invariant
                self.wf(),
                self.chars == old(self).chars,
                self.chars@ == s,
                p0 == old(self).pos,
                p0 <= self.pos,
                sp_branch(s, p0) == sp_branch_loop(s, self.pos as int, tokens_view(acc@)),
            decreases self.chars.len() - self.pos,
        {
            let c = match self.peek() {
                Some(c) => c,
                None => return Ok(branch_token(acc)),
            };
            if c == '|' || c == ')' {
                return Ok(branch_token(acc));
            }
            match self.atom() {
                Ok(Some(t)) => {
                    proof {
                        lemma_tokens_view_push(acc@, t);
                    }
                    acc.push(t);
                },
                Ok(None) => {},
                Err(f) => return Err(f),
            }
        }
    }

    fn alternative(&mut self) -> (r: Result<Token, Fault>)
        requires
            old(self).wf(),
        ensures
            final(self).wf(),
            final(self).chars == old(self).chars,
            old(self).pos <= final(self).pos,
            agrees(
                r,
                final(self).pos,
                sp_alternative(old(self).chars@, old(self).pos as int),
                |x| token_of(x),
            ),
        decreases old(self).chars.len() - old(self).pos, 4int,
    {
        let ghost s = self.chars@;
        let ghost p0 = self.pos as int;
        let mut acc: Vec<Token> = Vec::new();
        loop
            invariant
                self.wf(),
                self.chars == old(self).chars,
                self.chars@ == s,
                p0 == old(self).pos,
                p0 <= self.pos,
                sp_alternative(s, p0) == sp_alt_loop(s, self.pos as int, tokens_view(acc@)),
            decreases self.chars.len() - self.pos,
        {
            if self.pos >= self.chars.len() {
                return Ok(alt_token(acc));
            }
            let b = match self.branch() {
                Ok(b) => b,
                Err(f) => return Err(f),
            };
            proof {
                lemma_tokens_view_push(acc@, b);
            }
            acc.push(b);
            match self.peek() {
                Some('|') => {
                    self.pos = self.pos + 1;
                },
                _ => return Ok(alt_token(acc)),
            }
        }
    }
}


/// Parses the characters of a regular expression; `Err(Fault::Abort)` where the parser
/// has no answer.
pub fn parse_chars(chars: Vec<char>) -> (r: Result<Token, Fault>)
    ensures
        agrees(r, 0, (spec_parse(chars@), 0), |x| token_of(x)),
{
    let mut parser = Parser { chars, pos: 0 };
    parser.alternative()
}

/// Parses a regular expression.
pub fn parse(regex: &str) -> (r: Result<Token, ParsingError>)
    requires
        !spec_parse_aborts(regex@),
    ensures
        r matches Ok(t) ==> spec_parse(regex@) == SpecResult::Value(t@),
        r matches Err(e) ==> spec_parse(regex@) == SpecResult::<SpecToken>::Failure(e@),
{
    match parse_chars(crate::utils::str_chars(regex)) {
        Ok(t) => Ok(t),
        Err(Fault::Error(e)) => Err(e),
        Err(Fault::Abort) => Err(ParsingError::EndOfInput),
    }
}


// ---------------------------------------------------------------------------
// every class that the parser builds can be written

/// Whether the token that `r` gives, if any, can be written.
pub open spec fn parsed_printable(r: SpecResult<SpecToken>) -> bool {
    match r {
        SpecResult::Value(t) => token_printable(t),
        _ => true,
    }
}

/// Whether each class of `m` can be written.
#[verifier::opaque]
pub open spec fn each_printable(m: Seq<SpecCharacter>) -> bool {
    forall|i: int| 0 <= i < m.len() ==> printable(#[trigger] m[i])
}

proof fn lemma_escaped_printable(s: Seq<char>, p: int)
    ensures
        sp_escaped(s, p).0 matches SpecResult::Value(c) ==> printable(c),
{
}

proof fn lemma_plain_printable(x: char, y: char)
    ensures
        printable(SpecCharacter::Literal(x)),
        printable(SpecCharacter::Range(x, y)),
{
}

proof fn lemma_each_push(m: Seq<SpecCharacter>, c: SpecCharacter)
    requires
        each_printable(m),
        printable(c),
    ensures
        each_printable(m.push(c)),
{
    reveal(each_printable);
    assert forall|i: int| 0 <= i < m.push(c).len() implies printable(#[trigger] m.push(c)[i]) by {
        if i < m.len() {
            assert(m.push(c)[i] == m[i]);
        }
    }
}

proof fn lemma_set_loop_printable(s: Seq<char>, p: int, acc: Seq<SpecCharacter>)
    requires
        each_printable(acc),
    ensures
        sp_set_loop(s, p, acc).0 matches SpecResult::Value(m) ==> each_printable(m),
    decreases s.len() - p, 1int,
{
    if 0 <= p < s.len() {
        let c = s[p];
        let q = p + 1;
        if c == '\\' {
            lemma_escaped_printable(s, q);
            let (r, q2) = sp_escaped(s, q);
            if r is Value && p < q2 <= s.len() {
                lemma_each_push(acc, r->Value_0);
                lemma_set_loop_printable(s, q2, acc.push(r->Value_0));
            }
        } else if c == ']' {
        } else if c == '-' {
            if q < s.len() && s[q] != ']' {
                lemma_set_dash_printable(s, p, acc, s[q]);
            } else if q < s.len() {
                lemma_each_push(acc, SpecCharacter::Literal('-'));
            }
        } else {
            lemma_set_literal_printable(s, p, acc, c);
        }
    }
}

proof fn lemma_set_literal_printable(s: Seq<char>, p: int, acc: Seq<SpecCharacter>, c: char)
    requires
        0 <= p < s.len(),
        s[p] == c,
        c != '\\' && c != ']' && c != '-',
        each_printable(acc),
    ensures
        sp_set_loop(s, p, acc).0 matches SpecResult::Value(m) ==> each_printable(m),
    decreases s.len() - p, 0int,
{
    lemma_plain_printable(c, c);
    lemma_each_push(acc, SpecCharacter::Literal(c));
    lemma_set_loop_printable(s, p + 1, acc.push(SpecCharacter::Literal(c)));
}

proof fn lemma_set_dash_printable(s: Seq<char>, p: int, acc: Seq<SpecCharacter>, hi: char)
    requires
        0 <= p,
        p + 1 < s.len(),
        s[p] == '-',
        s[p + 1] == hi,
        hi != ']',
        each_printable(acc),
    ensures
        sp_set_loop(s, p, acc).0 matches SpecResult::Value(m) ==> each_printable(m),
    decreases s.len() - p, 0int,
{
    if acc.len() > 0 {
        if acc.last() is Literal {
            let lo = acc.last()->Literal_0;
            assert(each_printable(acc.drop_last())) by {
                reveal(each_printable);
            }
            lemma_plain_printable(lo, hi);
            lemma_each_push(acc.drop_last(), SpecCharacter::Range(lo, hi));
            lemma_set_loop_printable(s, p + 2, acc.drop_last().push(SpecCharacter::Range(lo, hi)));
        }
    } else {
        lemma_plain_printable('-', '-');
        lemma_each_push(acc, SpecCharacter::Literal('-'));
        lemma_each_push(acc.push(SpecCharacter::Literal('-')), SpecCharacter::Literal('-'));
        lemma_set_loop_printable(
            s,
            p + 2,
            acc.push(SpecCharacter::Literal('-')).push(SpecCharacter::Literal('-')),
        );
    }
}

proof fn lemma_set_printable(s: Seq<char>, p: int)
    ensures
        sp_set(s, p).0 matches SpecResult::Value(c) ==> printable(c),
{
    let negate = peek(s, p) == Some('^');
    let p1 = if negate {
        p + 1
    } else {
        p
    };
    let first = peek(s, p1);
    let (acc, p2) = if first == Some('-') || first == Some(']') {
        (seq![SpecCharacter::Literal(first->0)], p1 + 1)
    } else {
        (Seq::empty(), p1)
    };
    assert(each_printable(acc)) by {
        reveal(each_printable);
    }
    lemma_set_loop_printable(s, p2, acc);
    let r = sp_set_loop(s, p2, acc);
    if r.0 is Value {
        reveal(each_printable);
        lemma_members_printable(r.0->Value_0);
        let b = SpecCharacter::Bracket(r.0->Value_0);
        assert(printable(b));
        let n = SpecCharacter::Not(Box::new(b));
        assert(printable(n));
    }
}

proof fn lemma_simple_atom_printable(s: Seq<char>, p: int)
    requires
        0 <= p < s.len(),
    ensures
        parsed_printable(sp_simple_atom(s, p).0),
{
    lemma_escaped_printable(s, p + 1);
    lemma_set_printable(s, p + 1);
}

proof fn lemma_alt_token_printable(acc: Seq<SpecToken>)
    requires
        tokens_printable(acc),
    ensures
        token_printable(sp_alt_token(acc)),
{
    if acc.len() == 1 {
        lemma_tokens_printable_index(acc, 0);
    }
}

proof fn lemma_alternative_printable(s: Seq<char>, p: int)
    ensures
        parsed_printable(sp_alternative(s, p).0),
    decreases s.len() - p, 4int,
{
    lemma_alt_loop_printable(s, p, Seq::empty());
}

proof fn lemma_alt_loop_printable(s: Seq<char>, p: int, acc: Seq<SpecToken>)
    requires
        tokens_printable(acc),
    ensures
        parsed_printable(sp_alt_loop(s, p, acc).0),
    decreases s.len() - p, 3int,
{
    if !(0 <= p < s.len()) {
        lemma_alt_token_printable(acc);
    } else {
        lemma_branch_printable(s, p);
        let (r, p2) = sp_branch(s, p);
        if r is Value {
            let b = r->Value_0;
            lemma_tokens_printable_push(acc, b);
            if peek(s, p2) == Some('|') {
                if p <= p2 {
                    lemma_alt_loop_printable(s, p2 + 1, acc.push(b));
                }
            } else {
                lemma_alt_token_printable(acc.push(b));
            }
        }
    }
}

proof fn lemma_branch_printable(s: Seq<char>, p: int)
    ensures
        parsed_printable(sp_branch(s, p).0),
    decreases s.len() - p, 2int,
{
    lemma_branch_loop_printable(s, p, Seq::empty());
}

proof fn lemma_branch_loop_printable(s: Seq<char>, p: int, acc: Seq<SpecToken>)
    requires
        tokens_printable(acc),
    ensures
        parsed_printable(sp_branch_loop(s, p, acc).0),
    decreases s.len() - p, 1int,
{
    if !(0 <= p < s.len()) || s[p] == '|' || s[p] == ')' {
        if acc.len() == 1 {
            lemma_tokens_printable_index(acc, 0);
        }
    } else {
        lemma_atom_printable(s, p);
        let (r, p2) = sp_atom(s, p);
        if r is Value && p < p2 <= s.len() {
            match r->Value_0 {
                Some(t) => {
                    lemma_tokens_printable_push(acc, t);
                    lemma_branch_loop_printable(s, p2, acc.push(t));
                },
                None => {
                    lemma_branch_loop_printable(s, p2, acc);
                },
            }
        }
    }
}

proof fn lemma_group_printable(s: Seq<char>, q: int)
    ensures
        parsed_printable(sp_group(s, q).0),
    decreases s.len() - q, 5int,
{
    let q1 = if peek(s, q) == Some('?') {
        q + 2
    } else {
        q
    };
    if q1 <= s.len() {
        lemma_alternative_printable(s, q1);
    }
}

proof fn lemma_atom_printable(s: Seq<char>, p: int)
    ensures
        sp_atom(s, p).0 matches SpecResult::Value(Some(t)) ==> token_printable(t),
    decreases s.len() - p, 0int,
{
    if 0 <= p < s.len() {
        if s[p] == '(' {
            lemma_group_printable(s, p + 1);
        } else {
            lemma_simple_atom_printable(s, p);
        }
    }
}

/// Every token that the parser gives can be written: each negated class in it is that
/// of `\s`, `\d`, `\w` or a bracket.
pub proof fn lemma_parse_printable(s: Seq<char>)
    ensures
        parsed_printable(spec_parse(s)),
{
    lemma_alternative_printable(s, 0);
}

} // verus!
