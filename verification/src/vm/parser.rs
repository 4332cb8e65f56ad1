use crate::parser::{peek, sp_hex, sp_number, SpecResult};
use crate::types::{lemma_character_view as lemma_class_view, Character as Class, SpecCharacter as ClassValue};
use crate::vm::types::{
    Character, Instruction, Regex, SpecCharacter, SpecInstruction, character_view, characters_view,
    instructions_view, lemma_character_view, lemma_characters_view_push,
};
use vstd::prelude::*;

verus! {

/// What a step of the parser gives: a value, a failure, or `Abort` for an input that
/// the parser has no answer for.
pub enum Parsed<T> {
    Value(T),
    Failure,
    Abort,
}

// ---------------------------------------------------------------------------
// repetitions

/// The repetition suffix after an atom: `?`, `*`, `+`, `{n}`, `{n,}` or `{n,m}`, as
/// the least and the greatest count, `usize::MAX` standing for no bound. A `{` that
/// is not followed by a digit is no suffix, though it and the character after it are
/// consumed.
pub open spec fn sp_reps(s: Seq<char>, p: int) -> (Parsed<Option<(usize, usize)>>, int) {
    if !(0 <= p < s.len()) {
        (Parsed::Value(None), p)
    } else if s[p] == '?' {
        (Parsed::Value(Some((0usize, 1usize))), p + 1)
    } else if s[p] == '*' {
        (Parsed::Value(Some((0usize, usize::MAX))), p + 1)
    } else if s[p] == '+' {
        (Parsed::Value(Some((1usize, usize::MAX))), p + 1)
    } else if s[p] == '{' {
        let (rn, p1) = sp_number(s, p + 1);
        match rn {
            SpecResult::Value(Some(n)) => {
                if !(0 <= p1 < s.len()) {
                    (Parsed::Failure, p1)
                } else if s[p1] == ',' {
                    if peek(s, p1 + 1) == Some('}') {
                        sp_counts(n, usize::MAX, p1 + 1)
                    } else {
                        let (rm, p2) = sp_number(s, p1 + 1);
                        match rm {
                            SpecResult::Value(m) => if peek(s, p2) == Some('}') {
                                sp_counts(
                                    n,
                                    match m {
                                        Some(m) => m,
                                        None => usize::MAX,
                                    },
                                    p2,
                                )
                            } else {
                                (Parsed::Failure, p2)
                            },
                            _ => (Parsed::Abort, p2),
                        }
                    }
                } else if s[p1] == '}' {
                    sp_counts(n, n, p1)
                } else {
                    (Parsed::Failure, p1)
                }
            },
            SpecResult::Value(None) => (Parsed::Value(None), p1),
            _ => (Parsed::Abort, p1),
        }
    } else {
        (Parsed::Value(None), p)
    }
}

/// Accepts the counts `n` and `m` read up to the closing brace at `q`.
pub open spec fn sp_counts(n: usize, m: usize, q: int) -> (Parsed<Option<(usize, usize)>>, int) {
    if n > m {
        (Parsed::Failure, q)
    } else {
        (Parsed::Value(Some((n, m))), q + 1)
    }
}

/// `atom` written `k` times in a row.
pub open spec fn rep_seq(atom: Seq<SpecInstruction>, k: nat) -> Seq<SpecInstruction>
    decreases k,
{
    if k == 0 {
        Seq::empty()
    } else {
        rep_seq(atom, (k - 1) as nat) + atom
    }
}

/// The optional copies `j..total` of `atom` of a bounded repetition: each stands behind
/// a split whose other branch jumps just past the last of them.
pub open spec fn optional_copies(atom: Seq<SpecInstruction>, total: nat, j: nat) -> Seq<
    SpecInstruction,
>
    decreases total - j,
{
    if j < total {
        seq![SpecInstruction::Split(((total - j) * (atom.len() + 1)) as usize)] + atom
            + optional_copies(atom, total, j + 1)
    } else {
        Seq::empty()
    }
}

/// The instructions `acc` repeated from `n` to `m` times (`m == usize::MAX` for no
/// upper bound): `n` copies, then either a loop or `m - n` optional copies.
pub open spec fn spec_repeat(acc: Seq<SpecInstruction>, n: usize, m: usize) -> Parsed<Seq<SpecInstruction>> {
    let l = acc.len();
    if l + 2 > usize::MAX {
        Parsed::Abort
    } else if n == m {
        Parsed::Value(rep_seq(acc, n as nat))
    } else if n == 0 && m == 1 {
        Parsed::Value(seq![SpecInstruction::Split((l + 1) as usize)] + acc)
    } else if n == 0 && m == usize::MAX {
        Parsed::Value(
            seq![SpecInstruction::Split((l + 2) as usize)] + acc + seq![SpecInstruction::Repeat((l + 1) as usize)],
        )
    } else if m == usize::MAX {
        Parsed::Value(
            rep_seq(acc, n as nat) + seq![SpecInstruction::Split((l + 2) as usize)] + acc + seq![
                SpecInstruction::Repeat((l + 1) as usize),
            ],
        )
    } else if n > m || (m - n) * (l + 1) > usize::MAX {
        Parsed::Abort
    } else {
        Parsed::Value(rep_seq(acc, n as nat) + optional_copies(acc, (m - n) as nat, 0))
    }
}

// ---------------------------------------------------------------------------
// escapes and brackets

/// The character after a backslash that is no class: `\n`, `\r`, `\t`, `\0`, `\b`
/// (form feed), `\xNN`, `\uNNNN`, or the character itself.
pub open spec fn sp_escaped(s: Seq<char>, p: int) -> (Parsed<char>, int) {
    if !(0 <= p < s.len()) {
        (Parsed::Failure, p)
    } else {
        let c = s[p];
        let q = p + 1;
        if c == 'n' {
            (Parsed::Value('\n'), q)
        } else if c == 'r' {
            (Parsed::Value('\r'), q)
        } else if c == 't' {
            (Parsed::Value('\t'), q)
        } else if c == '0' {
            (Parsed::Value('\0'), q)
        } else if c == 'b' {
            (Parsed::Value('\u{000C}'), q)
        } else if c == 'x' || c == 'u' {
            let (r, q2) = sp_hex(s, q, if c == 'x' { 2 } else { 4 });
            match r {
                SpecResult::Value(ClassValue::Literal(ch)) => (Parsed::Value(ch), q2),
                SpecResult::Value(_) => (Parsed::Abort, q2),
                SpecResult::Failure(_) => (Parsed::Failure, q2),
                SpecResult::Abort => (Parsed::Abort, q2),
            }
        } else {
            (Parsed::Value(c), q)
        }
    }
}

/// The rest of a bracket expression, with the members `acc` read so far. A range
/// whose start is itself a range has no answer.
pub open spec fn sp_set_loop(s: Seq<char>, p: int, acc: Seq<SpecCharacter>) -> (
    Parsed<Seq<SpecCharacter>>,
    int,
)
    decreases s.len() - p,
{
    if !(0 <= p < s.len()) {
        (Parsed::Failure, p)
    } else {
        let c = s[p];
        let q = p + 1;
        if c == '\\' {
            let (r, q2) = sp_escaped(s, q);
            match r {
                Parsed::Value(ch) => if q < q2 {
                    sp_set_loop(s, q2, acc.push(SpecCharacter::Literal(ch)))
                } else {
                    (Parsed::Abort, q2)
                },
                Parsed::Failure => (Parsed::Failure, q2),
                Parsed::Abort => (Parsed::Abort, q2),
            }
        } else if c == ']' {
            (Parsed::Value(acc), q)
        } else if c == '-' {
            if !(q < s.len()) {
                (Parsed::Failure, q)
            } else if s[q] == ']' {
                (Parsed::Value(acc.push(SpecCharacter::Literal('-'))), q + 1)
            } else if acc.len() == 0 {
                sp_set_loop(
                    s,
                    q + 1,
                    acc.push(SpecCharacter::Literal('-')).push(SpecCharacter::Literal('-')),
                )
            } else {
                match acc.last() {
                    SpecCharacter::Literal(lo) => if lo >= s[q] {
                        (Parsed::Failure, q + 1)
                    } else {
                        sp_set_loop(s, q + 1, acc.drop_last().push(SpecCharacter::Range(lo, s[q])))
                    },
                    _ => (Parsed::Abort, q + 1),
                }
            }
        } else {
            sp_set_loop(s, q, acc.push(SpecCharacter::Literal(c)))
        }
    }
}

/// The class of a bracket expression whose members gave `r`.
pub open spec fn sp_set_finish(negate: bool, r: (Parsed<Seq<SpecCharacter>>, int)) -> (
    Parsed<SpecCharacter>,
    int,
) {
    match r.0 {
        Parsed::Value(acc) => (Parsed::Value(SpecCharacter::Bracket(acc, !negate)), r.1),
        Parsed::Failure => (Parsed::Failure, r.1),
        Parsed::Abort => (Parsed::Abort, r.1),
    }
}

/// A bracket expression after its `[`: an optional `^`, a `-` or `]` taken as a
/// literal first member, then members up to the closing `]`.
pub open spec fn sp_set(s: Seq<char>, p: int) -> (Parsed<SpecCharacter>, int) {
    let negate = peek(s, p) == Some('^');
    let p1 = if negate {
        p + 1
    } else {
        p
    };
    let first = peek(s, p1) == Some('-') || peek(s, p1) == Some(']');
    sp_set_finish(
        negate,
        if first {
            sp_set_loop(s, p1 + 1, seq![SpecCharacter::Literal(s[p1])])
        } else {
            sp_set_loop(s, p1, Seq::empty())
        },
    )
}

// ---------------------------------------------------------------------------
// the grammar

/// A branch: atoms up to the end, or up to a `)` inside a group; a `|` makes the rest
/// an alternative to what was read.
pub open spec fn sp_branch(s: Seq<char>, p: int, inside: bool) -> (Parsed<Seq<SpecInstruction>>, int)
    decreases s.len() - p, 2int,
{
    sp_branch_loop(s, p, inside, Seq::empty())
}

/// The rest of a branch, with the instructions `acc` of the atoms read so far.
pub open spec fn sp_branch_loop(
    s: Seq<char>,
    p: int,
    inside: bool,
    acc: Seq<SpecInstruction>,
) -> (Parsed<Seq<SpecInstruction>>, int)
    decreases s.len() - p, 1int,
{
    let (ra, q) = sp_atom(s, p);
    match ra {
        Parsed::Value(a) => {
            let acc2 = acc + a;
            if !(0 <= q < s.len()) {
                (Parsed::Value(acc2), q)
            } else if s[q] == '|' {
                if p <= q {
                    let (rt, q2) = sp_branch(s, q + 1, inside);
                    match rt {
                        Parsed::Value(tail) => if acc2.len() + 2 > usize::MAX || tail.len() + 1
                            > usize::MAX {
                            (Parsed::Abort, q2)
                        } else {
                            (Parsed::Value(alternative_program(acc2, tail)), q2)
                        },
                        Parsed::Failure => (Parsed::Failure, q2),
                        Parsed::Abort => (Parsed::Abort, q2),
                    }
                } else {
                    (Parsed::Abort, q)
                }
            } else if s[q] == ')' && inside {
                (Parsed::Value(acc2), q)
            } else if p < q {
                sp_branch_loop(s, q, inside, acc2)
            } else {
                (Parsed::Abort, q)
            }
        },
        Parsed::Failure => (Parsed::Failure, q),
        Parsed::Abort => (Parsed::Abort, q),
    }
}

/// The instructions `base` of an atom read up to `q`, with its repetition suffix.
pub open spec fn sp_with_reps(s: Seq<char>, base: Seq<SpecInstruction>, q: int) -> (
    Parsed<Seq<SpecInstruction>>,
    int,
) {
    let (rr, q2) = sp_reps(s, q);
    match rr {
        Parsed::Value(None) => (Parsed::Value(base), q2),
        Parsed::Value(Some((n, m))) => (spec_repeat(base, n, m), q2),
        Parsed::Failure => (Parsed::Failure, q2),
        Parsed::Abort => (Parsed::Abort, q2),
    }
}

/// The one instruction of an escape that is no character: `\b`, `\B` and the classes.
pub open spec fn escape_instruction(c: char) -> Option<SpecInstruction> {
    if c == 'b' {
        Some(SpecInstruction::Boundary(true))
    } else if c == 'B' {
        Some(SpecInstruction::Boundary(false))
    } else if c == 's' {
        Some(SpecInstruction::Is(SpecCharacter::Space(true)))
    } else if c == 'S' {
        Some(SpecInstruction::Is(SpecCharacter::Space(false)))
    } else if c == 'd' {
        Some(SpecInstruction::Is(SpecCharacter::Digit(true)))
    } else if c == 'D' {
        Some(SpecInstruction::Is(SpecCharacter::Digit(false)))
    } else if c == 'w' {
        Some(SpecInstruction::Is(SpecCharacter::Word(true)))
    } else if c == 'W' {
        Some(SpecInstruction::Is(SpecCharacter::Word(false)))
    } else {
        None
    }
}

/// An atom after a backslash at `p - 1`. A back reference `\1` to `\8` or an escaped
/// character takes no repetition suffix.
pub open spec fn sp_escape_atom(s: Seq<char>, q: int) -> (Parsed<Seq<SpecInstruction>>, int) {
    if !(0 <= q < s.len()) {
        (Parsed::Failure, q)
    } else {
        let d = s[q];
        match escape_instruction(d) {
            Some(i) => sp_with_reps(s, seq![i], q + 1),
            None => if '1' <= d && d <= '8' {
                group_atom(sp_number(s, q))
            } else {
                char_atom(sp_escaped(s, q))
            },
        }
    }
}

/// The program of a back reference whose number gave `r`.
pub open spec fn group_atom(r: (SpecResult<Option<usize>>, int)) -> (Parsed<Seq<SpecInstruction>>, int) {
    match r.0 {
        SpecResult::Value(Some(n)) => (Parsed::Value(seq![SpecInstruction::Group(n)]), r.1),
        _ => (Parsed::Abort, r.1),
    }
}

/// The program of a group that captures what `b` matches.
pub open spec fn group_program(b: Seq<SpecInstruction>) -> Seq<SpecInstruction> {
    seq![SpecInstruction::GroupStart] + b + seq![SpecInstruction::GroupEnd]
}

/// The program that runs `a`, and `t` where `a` fails.
pub open spec fn alternative_program(a: Seq<SpecInstruction>, t: Seq<SpecInstruction>) -> Seq<
    SpecInstruction,
> {
    seq![SpecInstruction::Split((a.len() + 2) as usize)] + a + seq![
        SpecInstruction::Skip((t.len() + 1) as usize),
    ] + t
}

/// The program of one instruction that matches the character `ch`.
pub open spec fn literal_atom(ch: char) -> Seq<SpecInstruction> {
    seq![SpecInstruction::Is(SpecCharacter::Literal(ch))]
}

/// The program of one instruction that matches the class `c`.
pub open spec fn class_atom(c: SpecCharacter) -> Seq<SpecInstruction> {
    seq![SpecInstruction::Is(c)]
}

/// The program of an escaped character that gave `r`.
pub open spec fn char_atom(r: (Parsed<char>, int)) -> (Parsed<Seq<SpecInstruction>>, int) {
    match r.0 {
        Parsed::Value(ch) => (Parsed::Value(literal_atom(ch)), r.1),
        Parsed::Failure => (Parsed::Failure, r.1),
        Parsed::Abort => (Parsed::Abort, r.1),
    }
}

/// A group after its `(`: `(?R)` recurses into the whole expression, `(?:` is read
/// like `(`, any other `(?` fails; a group captures what its branch matches.
pub open spec fn sp_group(s: Seq<char>, q: int) -> (Parsed<Seq<SpecInstruction>>, int)
    decreases s.len() - q, 4int,
{
    if peek(s, q) == Some('?') {
        let k = peek(s, q + 1);
        if k == Some(':') {
            sp_group_body(s, q + 2)
        } else if k == Some('R') {
            if peek(s, q + 2) == Some(')') {
                sp_with_reps(s, seq![SpecInstruction::Recurse], q + 3)
            } else if q + 2 < s.len() {
                (Parsed::Failure, q + 3)
            } else {
                (Parsed::Failure, q + 2)
            }
        } else if k is Some {
            (Parsed::Failure, q + 2)
        } else {
            (Parsed::Failure, q + 1)
        }
    } else {
        sp_group_body(s, q)
    }
}

/// The branch of a group up to its `)`, with the repetition suffix after it.
pub open spec fn sp_group_body(s: Seq<char>, q: int) -> (Parsed<Seq<SpecInstruction>>, int)
    decreases s.len() - q, 3int,
{
    if 0 < q <= s.len() {
        let (rb, q2) = sp_branch(s, q, true);
        match rb {
            Parsed::Value(b) => if peek(s, q2) == Some(')') {
                sp_with_reps(s, group_program(b), q2 + 1)
            } else if q2 < s.len() {
                (Parsed::Failure, q2 + 1)
            } else {
                (Parsed::Failure, q2)
            },
            Parsed::Failure => (Parsed::Failure, q2),
            Parsed::Abort => (Parsed::Abort, q2),
        }
    } else {
        (Parsed::Abort, q)
    }
}

/// An atom with its repetition suffix; nothing at the end of the input.
pub open spec fn sp_atom(s: Seq<char>, p: int) -> (Parsed<Seq<SpecInstruction>>, int)
    decreases s.len() - p, 0int,
{
    if !(0 <= p < s.len()) {
        (Parsed::Value(Seq::empty()), p)
    } else {
        let c = s[p];
        let q = p + 1;
        if c == '.' {
            sp_with_reps(s, class_atom(SpecCharacter::Anything), q)
        } else if c == '^' {
            sp_with_reps(s, seq![SpecInstruction::Start], q)
        } else if c == '$' {
            sp_with_reps(s, seq![SpecInstruction::End], q)
        } else if c == '\\' {
            sp_escape_atom(s, q)
        } else if c == '(' {
            sp_group(s, q)
        } else if c == '[' {
            let (r, q2) = sp_set(s, q);
            match r {
                Parsed::Value(ch) => sp_with_reps(s, class_atom(ch), q2),
                Parsed::Failure => (Parsed::Failure, q2),
                Parsed::Abort => (Parsed::Abort, q2),
            }
        } else if c == '|' || c == '?' || c == '*' || c == '+' || c == '{' {
            (Parsed::Abort, q)
        } else {
            sp_with_reps(s, literal_atom(c), q)
        }
    }
}

/// The program for the regular expression `s`, read as one branch; a `)` outside a
/// group is a literal character.
pub open spec fn spec_parse(s: Seq<char>) -> Parsed<Seq<SpecInstruction>> {
    sp_branch(s, 0, false).0
}



proof fn lemma_set_literal_step(s: Seq<char>, p: int, acc: Seq<SpecCharacter>, c: char)
    requires
        0 <= p < s.len(),
        s[p] == c,
        c != '\\' && c != ']' && c != '-',
    ensures
        sp_set_loop(s, p, acc) == sp_set_loop(s, p + 1, acc.push(SpecCharacter::Literal(c))),
{
}

proof fn lemma_set_escape_step(s: Seq<char>, p: int, q: int, acc: Seq<SpecCharacter>, ch: char)
    requires
        0 <= p < s.len(),
        s[p] == '\\',
        p + 1 < q,
        sp_escaped(s, p + 1) == (Parsed::Value(ch), q),
    ensures
        sp_set_loop(s, p, acc) == sp_set_loop(s, q, acc.push(SpecCharacter::Literal(ch))),
{
}

proof fn lemma_set_range_step(s: Seq<char>, p: int, acc: Seq<SpecCharacter>, lo: char, hi: char)
    requires
        0 <= p,
        p + 1 < s.len(),
        s[p] == '-',
        s[p + 1] == hi,
        hi != ']',
        acc.len() > 0,
        acc.last() == SpecCharacter::Literal(lo),
        lo < hi,
    ensures
        sp_set_loop(s, p, acc) == sp_set_loop(s, p + 2, acc.drop_last().push(SpecCharacter::Range(lo, hi))),
{
}

proof fn lemma_set_dashes_step(s: Seq<char>, p: int, acc: Seq<SpecCharacter>)
    requires
        0 <= p,
        p + 1 < s.len(),
        s[p] == '-',
        s[p + 1] != ']',
        acc.len() == 0,
    ensures
        sp_set_loop(s, p, acc) == sp_set_loop(
            s,
            p + 2,
            acc.push(SpecCharacter::Literal('-')).push(SpecCharacter::Literal('-')),
        ),
{
}


proof fn lemma_push_literal(s: Seq<char>, p: int, acc: Seq<Character>, c: char)
    requires
        0 <= p < s.len(),
        s[p] == c,
        c != '\\' && c != ']' && c != '-',
    ensures
        sp_set_loop(s, p, characters_view(acc)) == sp_set_loop(
            s,
            p + 1,
            characters_view(acc.push(Character::Literal(c))),
        ),
{
    lemma_characters_view_push(acc, Character::Literal(c));
    lemma_character_view(Character::Literal(c));
    lemma_set_literal_step(s, p, characters_view(acc), c);
}

proof fn lemma_push_escape(s: Seq<char>, p: int, q: int, acc: Seq<Character>, ch: char)
    requires
        0 <= p < s.len(),
        s[p] == '\\',
        p + 1 < q,
        sp_escaped(s, p + 1) == (Parsed::Value(ch), q),
    ensures
        sp_set_loop(s, p, characters_view(acc)) == sp_set_loop(
            s,
            q,
            characters_view(acc.push(Character::Literal(ch))),
        ),
{
    lemma_characters_view_push(acc, Character::Literal(ch));
    lemma_character_view(Character::Literal(ch));
    lemma_set_escape_step(s, p, q, characters_view(acc), ch);
}

proof fn lemma_push_range(s: Seq<char>, p: int, acc: Seq<Character>, lo: char, hi: char)
    requires
        0 <= p,
        p + 1 < s.len(),
        s[p] == '-',
        s[p + 1] == hi,
        hi != ']',
        lo < hi,
    ensures
        sp_set_loop(s, p, characters_view(acc.push(Character::Literal(lo)))) == sp_set_loop(
            s,
            p + 2,
            characters_view(acc.push(Character::Range(lo, hi))),
        ),
{
    lemma_characters_view_push(acc, Character::Literal(lo));
    lemma_characters_view_push(acc, Character::Range(lo, hi));
    lemma_character_view(Character::Literal(lo));
    lemma_character_view(Character::Range(lo, hi));
    let v = characters_view(acc.push(Character::Literal(lo)));
    assert(v.drop_last() =~= characters_view(acc));
    lemma_set_range_step(s, p, v, lo, hi);
}

proof fn lemma_push_dashes(s: Seq<char>, p: int, acc: Seq<Character>)
    requires
        0 <= p,
        p + 1 < s.len(),
        s[p] == '-',
        s[p + 1] != ']',
        acc.len() == 0,
    ensures
        sp_set_loop(s, p, characters_view(acc)) == sp_set_loop(
            s,
            p + 2,
            characters_view(acc.push(Character::Literal('-')).push(Character::Literal('-'))),
        ),
{
    lemma_characters_view_push(acc, Character::Literal('-'));
    lemma_characters_view_push(acc.push(Character::Literal('-')), Character::Literal('-'));
    lemma_character_view(Character::Literal('-'));
    lemma_set_dashes_step(s, p, characters_view(acc));
}

// ---------------------------------------------------------------------------
// the executable parser

/// Why a step of the parser stops: it fails, or it has no answer.
pub enum Fault {
    Abort,
    Error,
}

/// Whether an executable step's result and position agree with its specification.
pub open spec fn agrees<T, U>(
    r: Result<T, Fault>,
    pos: usize,
    spec: (Parsed<U>, int),
    f: spec_fn(T) -> U,
) -> bool {
    match r {
        Ok(v) => spec.0 == Parsed::Value(f(v)) && spec.1 == pos,
        Err(Fault::Abort) => spec.0 is Abort,
        Err(Fault::Error) => spec.0 is Failure,
    }
}

pub open spec fn program_of(v: Vec<Instruction>) -> Seq<SpecInstruction> {
    instructions_view(v@)
}

pub open spec fn class_of(c: Character) -> SpecCharacter {
    c@
}

pub open spec fn same<T>(x: T) -> T {
    x
}

proof fn lemma_program_append(a: Seq<Instruction>, b: Seq<Instruction>)
    ensures
        instructions_view(a + b) == instructions_view(a) + instructions_view(b),
{
    assert(instructions_view(a + b) =~= instructions_view(a) + instructions_view(b));
}

proof fn lemma_program_push(a: Seq<Instruction>, i: Instruction)
    ensures
        instructions_view(a.push(i)) == instructions_view(a).push(i@),
{
    assert(instructions_view(a.push(i)) =~= instructions_view(a).push(i@));
}

/// Appends a copy of each instruction of `atom` to `acc`.
fn push_all(acc: &mut Vec<Instruction>, atom: &Vec<Instruction>)
    ensures
        instructions_view(final(acc)@) == instructions_view(old(acc)@) + instructions_view(atom@),
{
    let ghost a0 = instructions_view(acc@);
    let mut i: usize = 0;
    while i < atom.len()
        invariant
            i <= atom.len(),
            instructions_view(acc@) == a0 + instructions_view(atom@.take(i as int)),
        decreases atom.len() - i,
    {
        let c = atom[i].clone();
        proof {
            lemma_program_push(acc@, c);
            assert(atom@.take(i + 1) =~= atom@.take(i as int).push(atom@[i as int]));
            lemma_program_push(atom@.take(i as int), atom@[i as int]);
        }
        acc.push(c);
        i = i + 1;
    }
    assert(atom@.take(atom.len() as int) =~= atom@);
}

/// The instructions `acc` repeated from `n` to `m` times, as [`spec_repeat`] says;
/// `false`, with `acc` in no state in particular, where a jump would not fit.
fn repeat(acc: &mut Vec<Instruction>, n: usize, m: usize) -> (ok: bool)
    ensures
        match spec_repeat(instructions_view(old(acc)@), n, m) {
            Parsed::Value(v) => ok && instructions_view(final(acc)@) == v,
            _ => !ok,
        },
{
    let ghost a = instructions_view(acc@);
    let l = acc.len();
    if l > usize::MAX - 2 {
        return false;
    }
    let mut atom: Vec<Instruction> = Vec::new();
    push_all(&mut atom, acc);
    assert(instructions_view(atom@) =~= a);
    if n == m {
        if n == 0 {
            acc.clear();
            assert(instructions_view(acc@) =~= Seq::<SpecInstruction>::empty());
            return true;
        }
        let mut i: usize = 1;
        assert(rep_seq(a, 1) =~= a) by {
            assert(rep_seq(a, 0) =~= Seq::<SpecInstruction>::empty());
        }
        while i < n
            invariant
                1 <= i <= n,
                instructions_view(atom@) == a,
                instructions_view(acc@) == rep_seq(a, i as nat),
            decreases n - i,
        {
            push_all(acc, &atom);
            i = i + 1;
        }
        return true;
    }
    if n == 0 && m == 1 {
        acc.insert(0, Instruction::Split(l + 1));
        assert(instructions_view(acc@) =~= seq![SpecInstruction::Split((l + 1) as usize)] + a);
        return true;
    }
    if n == 0 && m == usize::MAX {
        acc.insert(0, Instruction::Split(l + 2));
        acc.push(Instruction::Repeat(l + 1));
        assert(instructions_view(acc@) =~= seq![SpecInstruction::Split((l + 2) as usize)] + a + seq![
            SpecInstruction::Repeat((l + 1) as usize),
        ]);
        return true;
    }
    // the mandatory copies
    if n == 0 {
        acc.clear();
        assert(instructions_view(acc@) =~= rep_seq(a, 0));
    } else {
        let mut i: usize = 1;
        assert(rep_seq(a, 1) =~= a) by {
            assert(rep_seq(a, 0) =~= Seq::<SpecInstruction>::empty());
        }
        while i < n
            invariant
                1 <= i <= n,
                instructions_view(atom@) == a,
                instructions_view(acc@) == rep_seq(a, i as nat),
            decreases n - i,
        {
            push_all(acc, &atom);
            i = i + 1;
        }
    }
    let ghost base = instructions_view(acc@);
    assert(base == rep_seq(a, n as nat));
    if m == usize::MAX {
        let split = Instruction::Split(l + 2);
        proof {
            lemma_program_push(acc@, split);
        }
        acc.push(split);
        push_all(acc, &atom);
        let back = Instruction::Repeat(l + 1);
        proof {
            lemma_program_push(acc@, back);
        }
        acc.push(back);
        assert(instructions_view(acc@) =~= base + seq![SpecInstruction::Split((l + 2) as usize)] + a
            + seq![SpecInstruction::Repeat((l + 1) as usize)]);
        return true;
    }
    if n > m {
        return false;
    }
    let total = m - n;
    let stride = l + 1;
    if total > usize::MAX / stride {
        proof {
            assert(total * stride > usize::MAX) by (nonlinear_arith)
                requires
                    total > usize::MAX / stride,
                    stride > 0,
            ;
        }
        return false;
    }
    proof {
        assert(total * stride <= usize::MAX) by (nonlinear_arith)
            requires
                total <= usize::MAX / stride,
                stride > 0,
        ;
    }
    let mut j: usize = 0;
    assert(base + optional_copies(a, total as nat, 0) =~= instructions_view(acc@)
        + optional_copies(a, total as nat, 0));
    while j < total
        invariant
            j <= total,
            total == m - n,
            stride == a.len() + 1,
            total * stride <= usize::MAX,
            instructions_view(atom@) == a,
            instructions_view(acc@) + optional_copies(a, total as nat, j as nat) == base
                + optional_copies(a, total as nat, 0),
        decreases total - j,
    {
        let left = total - j;
        proof {
            assert(left * stride <= total * stride) by (nonlinear_arith)
                requires
                    left <= total,
                    stride > 0,
            ;
        }
        let split = Instruction::Split(left * stride);
        let ghost before = instructions_view(acc@);
        proof {
            lemma_program_push(acc@, split);
        }
        acc.push(split);
        push_all(acc, &atom);
        assert(instructions_view(acc@) =~= before + seq![SpecInstruction::Split((left * stride) as usize)] + a);
        assert(optional_copies(a, total as nat, j as nat) == seq![SpecInstruction::Split(
            ((total - j) * (a.len() + 1)) as usize,
        )] + a + optional_copies(a, total as nat, (j + 1) as nat));
        assert(instructions_view(acc@) + optional_copies(a, total as nat, (j + 1) as nat) =~= before
            + optional_copies(a, total as nat, j as nat));
        j = j + 1;
    }
    assert(instructions_view(acc@) + optional_copies(a, total as nat, total as nat) =~= instructions_view(acc@));
    true
}

/// A parser of the machine's regular expressions, over a cursor of characters.
pub struct Parser {
    pub cursor: crate::parser::Parser,
}

impl Parser {
    pub open spec fn wf(&self) -> bool {
        self.cursor.wf()
    }

    pub open spec fn chars(&self) -> Seq<char> {
        self.cursor.chars@
    }

    pub open spec fn pos(&self) -> int {
        self.cursor.pos as int
    }

    fn reps(&mut self) -> (r: Result<Option<(usize, usize)>, Fault>)
        requires
            old(self).wf(),
        ensures
            final(self).wf(),
            final(self).chars() == old(self).chars(),
            old(self).pos() <= final(self).pos(),
            agrees(r, final(self).cursor.pos, sp_reps(old(self).chars(), old(self).pos()), |x| same(x)),
    {
        let c = match self.cursor.peek() {
            Some(c) => c,
            None => return Ok(None),
        };
        let reps: (usize, usize);
        if c == '?' {
            reps = (0, 1);
        } else if c == '*' {
            reps = (0, usize::MAX);
        } else if c == '+' {
            reps = (1, usize::MAX);
        } else if c == '{' {
            self.cursor.pos = self.cursor.pos + 1;
            let n = match self.cursor.number() {
                Ok(Some(n)) => n,
                Ok(None) => return Ok(None),
                Err(_) => return Err(Fault::Abort),
            };
            let c2 = match self.cursor.peek() {
                Some(c2) => c2,
                None => return Err(Fault::Error),
            };
            let m: usize;
            if c2 == ',' {
                self.cursor.pos = self.cursor.pos + 1;
                match self.cursor.peek() {
                    Some('}') => {
                        m = usize::MAX;
                    },
                    _ => {
                        let mm = match self.cursor.number() {
                            Ok(x) => x,
                            Err(_) => return Err(Fault::Abort),
                        };
                        match self.cursor.peek() {
                            Some('}') => {},
                            _ => return Err(Fault::Error),
                        }
                        m = match mm {
                            Some(x) => x,
                            None => usize::MAX,
                        };
                    },
                }
            } else if c2 == '}' {
                m = n;
            } else {
                return Err(Fault::Error);
            }
            if n > m {
                return Err(Fault::Error);
            }
            reps = (n, m);
        } else {
            return Ok(None);
        }
        self.cursor.pos = self.cursor.pos + 1;
        Ok(Some(reps))
    }

    fn hex(&mut self, k: usize) -> (r: Result<char, Fault>)
        requires
            old(self).wf(),
            k == 2 || k == 4,
        ensures
            final(self).wf(),
            final(self).chars() == old(self).chars(),
            old(self).pos() <= final(self).pos(),
            r is Ok ==> old(self).pos() < final(self).pos(),
            match sp_hex(old(self).chars(), old(self).pos(), k as int).0 {
                SpecResult::Value(ClassValue::Literal(ch)) => r == Ok::<char, Fault>(ch)
                    && final(self).pos() == sp_hex(old(self).chars(), old(self).pos(), k as int).1,
                SpecResult::Failure(_) => r matches Err(Fault::Error),
                _ => r matches Err(Fault::Abort),
            },
    {
        match self.cursor.hex(k) {
            Ok(t) => {
                proof {
                    lemma_class_view(t);
                }
                match t {
                    Class::Literal(ch) => Ok(ch),
                    _ => Err(Fault::Abort),
                }
            },
            Err(crate::parser::Fault::Error(_)) => Err(Fault::Error),
            Err(crate::parser::Fault::Abort) => Err(Fault::Abort),
        }
    }

    fn escaped_character(&mut self) -> (r: Result<char, Fault>)
        requires
            old(self).wf(),
        ensures
            final(self).wf(),
            final(self).chars() == old(self).chars(),
            old(self).pos() <= final(self).pos(),
            r is Ok ==> old(self).pos() < final(self).pos(),
            agrees(r, final(self).cursor.pos, sp_escaped(old(self).chars(), old(self).pos()), |x| same(x)),
    {
        let c = match self.cursor.next() {
            Some(c) => c,
            None => return Err(Fault::Error),
        };
        if c == 'n' {
            Ok('\n')
        } else if c == 'r' {
            Ok('\r')
        } else if c == 't' {
            Ok('\t')
        } else if c == '0' {
            Ok('\0')
        } else if c == 'b' {
            Ok('\u{000C}')
        } else if c == 'x' {
            self.hex(2)
        } else if c == 'u' {
            self.hex(4)
        } else {
            Ok(c)
        }
    }

    fn set(&mut self) -> (r: Result<Character, Fault>)
        requires
            old(self).wf(),
        ensures
            final(self).wf(),
            final(self).chars() == old(self).chars(),
            old(self).pos() <= final(self).pos(),
            agrees(r, final(self).cursor.pos, sp_set(old(self).chars(), old(self).pos()), |x| class_of(x)),
    {
        let ghost s = self.chars();
        let ghost p0 = self.pos();
        let negate = match self.cursor.peek() {
            Some('^') => {
                self.cursor.pos = self.cursor.pos + 1;
                true
            },
            _ => false,
        };
        let mut acc: Vec<Character> = Vec::new();
        match self.cursor.peek() {
            Some(c) => {
                if c == '-' || c == ']' {
                    proof {
                        lemma_characters_view_push(acc@, Character::Literal(c));
                        lemma_character_view(Character::Literal(c));
                        assert(characters_view(acc@.push(Character::Literal(c))) =~= seq![
                            SpecCharacter::Literal(c),
                        ]);
                    }
                    acc.push(Character::Literal(c));
                    self.cursor.pos = self.cursor.pos + 1;
                }
            },
            None => {},
        }
        loop
            invariant
                self.wf(),
                self.chars() == s,
                s == old(self).chars(),
                p0 == old(self).pos(),
                p0 <= self.pos(),
                sp_set(s, p0) == sp_set_finish(negate, sp_set_loop(s, self.pos(), characters_view(acc@))),
            decreases s.len() - self.pos(),
        {
            let ghost acc0 = acc@;
            let ghost p = self.pos();
            let c = match self.cursor.next() {
                Some(c) => c,
                None => return Err(Fault::Error),
            };
            if c == '\\' {
                let ch = match self.escaped_character() {
                    Ok(ch) => ch,
                    Err(f) => return Err(f),
                };
                proof {
                    lemma_push_escape(s, p, self.pos(), acc@, ch);
                }
                acc.push(Character::Literal(ch));
            } else if c == ']' {
                proof {
                    lemma_character_view(Character::Bracket(acc, !negate));
                }
                return Ok(Character::Bracket(acc, !negate));
            } else if c == '-' {
                let hi = match self.cursor.next() {
                    Some(hi) => hi,
                    None => return Err(Fault::Error),
                };
                if hi == ']' {
                    proof {
                        lemma_characters_view_push(acc@, Character::Literal('-'));
                        lemma_character_view(Character::Literal('-'));
                    }
                    acc.push(Character::Literal('-'));
                    proof {
                        lemma_character_view(Character::Bracket(acc, !negate));
                    }
                    return Ok(Character::Bracket(acc, !negate));
                }
                match acc.pop() {
                    Some(t) => {
                        proof {
                            lemma_characters_view_push(acc@, t);
                            lemma_character_view(t);
                            assert(acc0 =~= acc@.push(t));
                        }
                        match t {
                            Character::Literal(lo) => {
                                if lo >= hi {
                                    return Err(Fault::Error);
                                }
                                proof {
                                    assert(acc0 =~= acc@.push(Character::Literal(lo)));
                                    lemma_push_range(s, p, acc@, lo, hi);
                                }
                                acc.push(Character::Range(lo, hi));
                            },
                            _ => return Err(Fault::Abort),
                        }
                    },
                    None => {
                        proof {
                            lemma_push_dashes(s, p, acc@);
                        }
                        acc.push(Character::Literal('-'));
                        acc.push(Character::Literal('-'));
                    },
                }
            } else {
                proof {
                    lemma_push_literal(s, p, acc@, c);
                }
                acc.push(Character::Literal(c));
            }
        }
    }

    fn with_reps(&mut self, base: Vec<Instruction>) -> (r: Result<Vec<Instruction>, Fault>)
        requires
            old(self).wf(),
        ensures
            final(self).wf(),
            final(self).chars() == old(self).chars(),
            old(self).pos() <= final(self).pos(),
            agrees(
                r,
                final(self).cursor.pos,
                sp_with_reps(old(self).chars(), program_of(base), old(self).pos()),
                |x| program_of(x),
            ),
    {
        let mut acc = base;
        match self.reps() {
            Ok(None) => Ok(acc),
            Ok(Some((n, m))) => {
                if repeat(&mut acc, n, m) {
                    Ok(acc)
                } else {
                    Err(Fault::Abort)
                }
            },
            Err(f) => Err(f),
        }
    }

    #[verifier::spinoff_prover]
    fn escape_atom(&mut self) -> (r: Result<Vec<Instruction>, Fault>)
        requires
            old(self).wf(),
        ensures
            final(self).wf(),
            final(self).chars() == old(self).chars(),
            old(self).pos() <= final(self).pos(),
            r is Ok ==> old(self).pos() < final(self).pos(),
            agrees(
                r,
                final(self).cursor.pos,
                sp_escape_atom(old(self).chars(), old(self).pos()),
                |x| program_of(x),
            ),
    {
        let ghost s = self.chars();
        let ghost q = self.pos();
        let d = match self.cursor.peek() {
            Some(d) => d,
            None => return Err(Fault::Error),
        };
        assert(s[q] == d);
        match escape_instruction_exec(d) {
            Some(i) => {
                self.cursor.pos = self.cursor.pos + 1;
                let v = single(i);
                assert(sp_escape_atom(s, q) == sp_with_reps(s, program_of(v), q + 1));
                return self.with_reps(v);
            },
            None => {},
        }
        if '1' <= d && d <= '8' {
            let ghost rn = sp_number(s, q);
            assert(sp_escape_atom(s, q) == group_atom(rn));
            match self.cursor.number() {
                Ok(Some(n)) => {
                    let v = single(Instruction::Group(n));
                    assert(program_of(v) == seq![SpecInstruction::Group(n)]);
                    Ok(v)
                },
                _ => Err(Fault::Abort),
            }
        } else {
            let ghost re = sp_escaped(s, q);
            assert(sp_escape_atom(s, q) == char_atom(re));
            match self.escaped_character() {
                Ok(ch) => {
                    let v = literal_program(ch);
                    Ok(v)
                },
                Err(f) => Err(f),
            }
        }
    }

    #[verifier::spinoff_prover]
    fn group(&mut self) -> (r: Result<Vec<Instruction>, Fault>)
        requires
            old(self).wf(),
            old(self).pos() > 0,
        ensures
            final(self).wf(),
            final(self).chars() == old(self).chars(),
            old(self).pos() <= final(self).pos(),
            agrees(
                r,
                final(self).cursor.pos,
                sp_group(old(self).chars(), old(self).pos()),
                |x| program_of(x),
            ),
        decreases old(self).cursor.chars.len() - old(self).cursor.pos, 4int,
    {
        match self.cursor.peek() {
            Some('?') => {
                self.cursor.pos = self.cursor.pos + 1;
                match self.cursor.next() {
                    Some(':') => self.group_body(),
                    Some('R') => match self.cursor.next() {
                        Some(')') => self.with_reps(single(Instruction::Recurse)),
                        _ => Err(Fault::Error),
                    },
                    _ => Err(Fault::Error),
                }
            },
            _ => self.group_body(),
        }
    }

    #[verifier::spinoff_prover]
    fn group_body(&mut self) -> (r: Result<Vec<Instruction>, Fault>)
        requires
            old(self).wf(),
            old(self).pos() > 0,
        ensures
            final(self).wf(),
            final(self).chars() == old(self).chars(),
            old(self).pos() <= final(self).pos(),
            agrees(
                r,
                final(self).cursor.pos,
                sp_group_body(old(self).chars(), old(self).pos()),
                |x| program_of(x),
            ),
        decreases old(self).cursor.chars.len() - old(self).cursor.pos, 3int,
    {
        let b = match self.branch(true) {
            Ok(b) => b,
            Err(f) => return Err(f),
        };
        match self.cursor.next() {
            Some(')') => self.with_reps(wrap_group(b)),
            _ => Err(Fault::Error),
        }
    }

    #[verifier::spinoff_prover]
    fn atom(&mut self) -> (r: Result<Vec<Instruction>, Fault>)
        requires
            old(self).wf(),
        ensures
            final(self).wf(),
            final(self).chars() == old(self).chars(),
            old(self).pos() <= final(self).pos(),
            r is Ok && old(self).pos() < old(self).chars().len() ==> old(self).pos() < final(self).pos(),
            agrees(r, final(self).cursor.pos, sp_atom(old(self).chars(), old(self).pos()), |x| program_of(x)),
        decreases old(self).cursor.chars.len() - old(self).cursor.pos, 0int,
    {
        if self.cursor.pos >= self.cursor.chars.len() {
            let v: Vec<Instruction> = Vec::new();
            assert(instructions_view(v@) =~= Seq::<SpecInstruction>::empty());
            return Ok(v);
        }
        let ghost s = self.chars();
        let ghost p = self.pos();
        let c = self.cursor.chars[self.cursor.pos];
        self.cursor.pos = self.cursor.pos + 1;
        assert(s[p] == c);
        if c == '.' {
            self.with_reps(anything_program())
        } else if c == '^' {
            self.with_reps(single(Instruction::Start))
        } else if c == '$' {
            self.with_reps(single(Instruction::End))
        } else if c == '\\' {
            self.escape_atom()
        } else if c == '(' {
            self.group()
        } else if c == '[' {
            match self.set() {
                Ok(ch) => self.with_reps(class_program(ch)),
                Err(f) => Err(f),
            }
        } else if c == '|' || c == '?' || c == '*' || c == '+' || c == '{' {
            Err(Fault::Abort)
        } else {
            self.with_reps(literal_program(c))
        }
    }

    #[verifier::spinoff_prover]
    fn branch(&mut self, inside_brackets: bool) -> (r: Result<Vec<Instruction>, Fault>)
        requires
            old(self).wf(),
        ensures
            final(self).wf(),
            final(self).chars() == old(self).chars(),
            old(self).pos() <= final(self).pos(),
            agrees(
                r,
                final(self).cursor.pos,
                sp_branch(old(self).chars(), old(self).pos(), inside_brackets),
                |x| program_of(x),
            ),
        decreases old(self).cursor.chars.len() - old(self).cursor.pos, 2int,
    {
        let ghost s = self.chars();
        let ghost p0 = self.pos();
        let mut acc: Vec<Instruction> = Vec::new();
        assert(instructions_view(acc@) =~= Seq::<SpecInstruction>::empty());
        loop
            invariant
                self.wf(),
                self.chars() == s,
                s == old(self).chars(),
                p0 == old(self).pos(),
                p0 <= self.pos(),
                sp_branch(s, p0, inside_brackets) == sp_branch_loop(
                    s,
                    self.pos(),
                    inside_brackets,
                    instructions_view(acc@),
                ),
            decreases s.len() - self.pos(),
        {
            let ghost p = self.pos();
            let mut atom = match self.atom() {
                Ok(a) => a,
                Err(f) => return Err(f),
            };
            let ghost a0 = acc@;
            let ghost av = atom@;
            acc.append(&mut atom);
            proof {
                lemma_program_append(a0, av);
            }
            match self.cursor.peek() {
                None => return Ok(acc),
                Some('|') => {
                    self.cursor.pos = self.cursor.pos + 1;
                    let tail = match self.branch(inside_brackets) {
                        Ok(t) => t,
                        Err(f) => return Err(f),
                    };
                    if acc.len() > usize::MAX - 2 || tail.len() > usize::MAX - 1 {
                        return Err(Fault::Abort);
                    }
                    return Ok(join_alternative(acc, tail));
                },
                Some(')') => {
                    if inside_brackets {
                        return Ok(acc);
                    }
                },
                _ => {},
            }
        }
    }
}

/// The one instruction of an escape that is no character, as [`escape_instruction`]
/// gives it.
fn escape_instruction_exec(c: char) -> (r: Option<Instruction>)
    ensures
        r matches Some(i) ==> escape_instruction(c) == Some(i@),
        r is None ==> escape_instruction(c) is None,
{
    proof {
        reveal_with_fuel(character_view, 1);
    }
    if c == 'b' {
        Some(Instruction::Boundary(true))
    } else if c == 'B' {
        Some(Instruction::Boundary(false))
    } else if c == 's' {
        Some(Instruction::Is(Character::Space(true)))
    } else if c == 'S' {
        Some(Instruction::Is(Character::Space(false)))
    } else if c == 'd' {
        Some(Instruction::Is(Character::Digit(true)))
    } else if c == 'D' {
        Some(Instruction::Is(Character::Digit(false)))
    } else if c == 'w' {
        Some(Instruction::Is(Character::Word(true)))
    } else if c == 'W' {
        Some(Instruction::Is(Character::Word(false)))
    } else {
        None
    }
}

/// A program of one instruction that matches the class `c`.
fn class_program(c: Character) -> (v: Vec<Instruction>)
    ensures
        program_of(v) == class_atom(c@),
{
    let ins = Instruction::Is(c);
    assert(ins@ == SpecInstruction::Is(c@));
    single(ins)
}

/// A program of one instruction that matches the character `ch`.
fn literal_program(ch: char) -> (v: Vec<Instruction>)
    ensures
        program_of(v) == literal_atom(ch),
{
    let lit = Character::Literal(ch);
    proof {
        lemma_character_view(lit);
    }
    class_program(lit)
}

/// A program of one instruction that matches any character.
fn anything_program() -> (v: Vec<Instruction>)
    ensures
        program_of(v) == class_atom(SpecCharacter::Anything),
{
    let any = Character::Anything;
    proof {
        lemma_character_view(any);
    }
    class_program(any)
}

/// The program of a group that captures what `b` matches.
fn wrap_group(b: Vec<Instruction>) -> (v: Vec<Instruction>)
    ensures
        program_of(v) == group_program(program_of(b)),
{
    let mut b = b;
    let mut acc: Vec<Instruction> = Vec::new();
    acc.push(Instruction::GroupStart);
    let ghost a1 = acc@;
    let ghost bv = b@;
    acc.append(&mut b);
    let ghost a2 = acc@;
    acc.push(Instruction::GroupEnd);
    proof {
        lemma_program_append(a1, bv);
        lemma_program_push(a2, Instruction::GroupEnd);
        assert(instructions_view(a1) =~= seq![SpecInstruction::GroupStart]);
    }
    acc
}

/// The program that runs `a`, and `t` where `a` fails.
fn join_alternative(a: Vec<Instruction>, t: Vec<Instruction>) -> (v: Vec<Instruction>)
    requires
        a@.len() + 2 <= usize::MAX,
        t@.len() + 1 <= usize::MAX,
    ensures
        program_of(v) == alternative_program(program_of(a), program_of(t)),
{
    let mut acc = a;
    let mut tail = t;
    let ghost a1 = acc@;
    let ghost tv = tail@;
    let split = Instruction::Split(acc.len() + 2);
    let skip = Instruction::Skip(tail.len() + 1);
    acc.insert(0, split);
    let ghost a2 = acc@;
    acc.push(skip);
    let ghost a3 = acc@;
    acc.append(&mut tail);
    proof {
        assert(a2 =~= seq![split] + a1);
        lemma_program_append(seq![split], a1);
        lemma_program_push(a2, skip);
        lemma_program_append(a3, tv);
        assert(instructions_view(seq![split]) =~= seq![split@]);
        assert(instructions_view(a1).len() == a1.len());
        assert(instructions_view(tv).len() == tv.len());
    }
    acc
}

/// A program of one instruction.
fn single(i: Instruction) -> (v: Vec<Instruction>)
    ensures
        program_of(v) == seq![i@],
{
    let mut v: Vec<Instruction> = Vec::new();
    v.push(i);
    assert(instructions_view(v@) =~= seq![i@]);
    v
}

/// Parses the characters of a regular expression; `Err(Fault::Abort)` where the parser
/// has no answer.
pub fn parse_chars(chars: Vec<char>) -> (r: Result<Regex, Fault>)
    ensures
        agrees(r, 0, (spec_parse(chars@), 0), |x: Regex| x@),
{
    let mut parser = Parser { cursor: crate::parser::Parser { chars, pos: 0 } };
    match parser.branch(false) {
        Ok(instructions) => Ok(Regex { instructions }),
        Err(f) => Err(f),
    }
}

/// Parses a regular expression into a program of the machine, or fails.
pub fn parse(regex: &str) -> (r: Result<Regex, ()>)
    requires
        !(spec_parse(regex@) is Abort),
    ensures
        r matches Ok(rx) ==> spec_parse(regex@) == Parsed::Value(rx@) && jumps_fit(rx@),
        r is Err ==> spec_parse(regex@) is Failure,
{
    proof {
        lemma_parse_jumps_fit(regex@);
    }
    match parse_chars(crate::utils::str_chars(regex)) {
        Ok(rx) => Ok(rx),
        Err(_) => Err(()),
    }
}

/// As [`parse`], with `None` for the expressions the parser has no answer for: a `|`, `?`,
/// `*`, `+` or `{` where an atom is expected, a range in brackets that starts with a
/// range, a count that does not fit in 32 bits, or a program too large to address.
pub fn checked_parse(regex: &str) -> (r: Option<Result<Regex, ()>>)
    ensures
        r is None <==> spec_parse(regex@) is Abort,
        r matches Some(Ok(rx)) ==> spec_parse(regex@) == Parsed::Value(rx@) && jumps_fit(rx@),
        r matches Some(Err(_)) ==> spec_parse(regex@) is Failure,
{
    proof {
        lemma_parse_jumps_fit(regex@);
    }
    match parse_chars(crate::utils::str_chars(regex)) {
        Ok(rx) => Some(Ok(rx)),
        Err(Fault::Error) => Some(Err(())),
        Err(Fault::Abort) => None,
    }
}

impl Regex {
    /// Parses a regular expression, as [`parse`] does, with the message
    /// `failed to parse` for an expression that is refused.
    pub fn from_str(s: &str) -> (r: Result<Regex, String>)
        requires
            !(spec_parse(s@) is Abort),
        ensures
            r matches Ok(rx) ==> spec_parse(s@) == Parsed::Value(rx@),
            r matches Err(e) ==> spec_parse(s@) is Failure && e@ == "failed to parse"@,
    {
        match parse(s) {
            Ok(rx) => Ok(rx),
            Err(_) => Err(crate::parser::string_from_chars(&crate::utils::str_chars("failed to parse"))),
        }
    }
}

/// The empty regular expression is the empty program.
pub proof fn lemma_parse_empty()
    ensures
        spec_parse(Seq::empty()) == Parsed::Value(Seq::<SpecInstruction>::empty()),
{
    let e = Seq::<char>::empty();
    assert(sp_atom(e, 0) == (Parsed::Value(Seq::<SpecInstruction>::empty()), 0int));
    assert(Seq::<SpecInstruction>::empty() + Seq::<SpecInstruction>::empty() =~= Seq::<SpecInstruction>::empty());
}

// ---------------------------------------------------------------------------
// every backward jump of a parsed program stays within the program

/// Whether the instruction `i` at position `k` of a program of `len` instructions jumps
/// within the program: a `Repeat` back to an instruction at or after the first, a `Split`
/// or a `Skip` forward at most to the end.
pub open spec fn jump_fits(i: SpecInstruction, k: int, len: int) -> bool {
    match i {
        SpecInstruction::Repeat(n) => n <= k,
        SpecInstruction::Split(j) => k + j <= len,
        SpecInstruction::Skip(j) => k + j <= len,
        _ => true,
    }
}

/// Whether every jump of `p` lands within `p`.
pub open spec fn jumps_fit(p: Seq<SpecInstruction>) -> bool {
    forall|k: int| 0 <= k < p.len() ==> #[trigger] jump_fits(p[k], k, p.len() as int)
}

/// Whether the program that `r` gives, if any, jumps only within itself.
pub open spec fn parsed_jumps_fit(r: Parsed<Seq<SpecInstruction>>) -> bool {
    match r {
        Parsed::Value(p) => jumps_fit(p),
        _ => true,
    }
}

pub(crate) proof fn lemma_jumps_concat(a: Seq<SpecInstruction>, b: Seq<SpecInstruction>)
    requires
        jumps_fit(a),
        jumps_fit(b),
    ensures
        jumps_fit(a + b),
{
    assert forall|k: int| 0 <= k < (a + b).len() implies #[trigger] jump_fits(
        (a + b)[k],
        k,
        (a + b).len() as int,
    ) by {
        if k < a.len() {
            assert((a + b)[k] == a[k]);
            assert(jump_fits(a[k], k, a.len() as int));
        } else {
            assert((a + b)[k] == b[k - a.len()]);
            assert(jump_fits(b[k - a.len()], k - a.len(), b.len() as int));
        }
    }
}

/// An instruction put before `rest` that jumps within the whole.
pub(crate) proof fn lemma_jumps_prefix(i: SpecInstruction, rest: Seq<SpecInstruction>)
    requires
        jump_fits(i, 0, rest.len() + 1int),
        jumps_fit(rest),
    ensures
        jumps_fit(seq![i] + rest),
{
    let p = seq![i] + rest;
    assert forall|k: int| 0 <= k < p.len() implies #[trigger] jump_fits(p[k], k, p.len() as int) by {
        if k > 0 {
            assert(p[k] == rest[k - 1]);
            assert(jump_fits(rest[k - 1], k - 1, rest.len() as int));
        }
    }
}

pub(crate) proof fn lemma_jumps_single(i: SpecInstruction)
    requires
        !(i is Repeat),
        !(i is Split),
        !(i is Skip),
    ensures
        jumps_fit(seq![i]),
{
    assert(jump_fits(seq![i][0], 0, 1));
}

proof fn lemma_literal_jumps(x: char)
    ensures
        jumps_fit(literal_atom(x)),
{
    assert(jump_fits(literal_atom(x)[0], 0, 1));
}

/// The loop of `*` and `+` around `acc`: a split past the end, `acc`, and a jump back to
/// the split.
pub(crate) proof fn lemma_loop_jumps(acc: Seq<SpecInstruction>)
    requires
        jumps_fit(acc),
        acc.len() + 2 <= usize::MAX,
    ensures
        jumps_fit(
            seq![SpecInstruction::Split((acc.len() + 2) as usize)] + acc + seq![
                SpecInstruction::Repeat((acc.len() + 1) as usize),
            ],
        ),
{
    let l = acc.len();
    let p = seq![SpecInstruction::Split((l + 2) as usize)] + acc + seq![SpecInstruction::Repeat((l + 1) as usize)];
    assert forall|k: int| 0 <= k < p.len() implies #[trigger] jump_fits(p[k], k, p.len() as int) by {
        if 0 < k <= l {
            assert(p[k] == acc[k - 1]);
            assert(jump_fits(acc[k - 1], k - 1, l as int));
        }
    }
}

pub(crate) proof fn lemma_jumps_rep(a: Seq<SpecInstruction>, k: nat)
    requires
        jumps_fit(a),
    ensures
        jumps_fit(rep_seq(a, k)),
    decreases k,
{
    if k > 0 {
        lemma_jumps_rep(a, (k - 1) as nat);
        lemma_jumps_concat(rep_seq(a, (k - 1) as nat), a);
    }
}

pub(crate) proof fn lemma_repeat_jumps(acc: Seq<SpecInstruction>, n: usize, m: usize)
    requires
        jumps_fit(acc),
    ensures
        parsed_jumps_fit(spec_repeat(acc, n, m)),
{
    let l = acc.len();
    if l + 2 > usize::MAX {
    } else if n == m {
        lemma_jumps_rep(acc, n as nat);
    } else if n == 0 && m == 1 {
        lemma_jumps_prefix(SpecInstruction::Split((l + 1) as usize), acc);
    } else if n == 0 && m == usize::MAX {
        lemma_loop_jumps(acc);
    } else if m == usize::MAX {
        lemma_jumps_rep(acc, n as nat);
        lemma_loop_jumps(acc);
        let lp = seq![SpecInstruction::Split((l + 2) as usize)] + acc + seq![SpecInstruction::Repeat((l + 1) as usize)];
        lemma_jumps_concat(rep_seq(acc, n as nat), lp);
        assert(rep_seq(acc, n as nat) + lp =~= rep_seq(acc, n as nat) + seq![SpecInstruction::Split((l + 2) as usize)]
            + acc + seq![SpecInstruction::Repeat((l + 1) as usize)]);
    } else if n > m || (m - n) * (l + 1) > usize::MAX {
    } else {
        lemma_jumps_rep(acc, n as nat);
        lemma_optional_jumps(acc, (m - n) as nat, 0);
        lemma_jumps_concat(rep_seq(acc, n as nat), optional_copies(acc, (m - n) as nat, 0));
    }
}

pub(crate) proof fn lemma_optional_len(a: Seq<SpecInstruction>, total: nat, j: nat)
    requires
        j <= total,
    ensures
        optional_copies(a, total, j).len() == (total - j) * (a.len() + 1),
    decreases total - j,
{
    let l = a.len() as int;
    if j < total {
        lemma_optional_len(a, total, j + 1);
        let sp = SpecInstruction::Split(((total - j) * (a.len() + 1)) as usize);
        assert(optional_copies(a, total, j) == seq![sp] + a + optional_copies(a, total, j + 1));
        assert((total - j) * (l + 1) == (l + 1) + (total - (j + 1)) * (l + 1)) by (nonlinear_arith);
    } else {
        assert((total - j) * (l + 1) == 0) by (nonlinear_arith)
            requires
                j == total,
        ;
    }
}

pub(crate) proof fn lemma_optional_jumps(a: Seq<SpecInstruction>, total: nat, j: nat)
    requires
        jumps_fit(a),
        j <= total,
        total * (a.len() + 1) <= usize::MAX,
    ensures
        jumps_fit(optional_copies(a, total, j)),
    decreases total - j,
{
    if j < total {
        let x = (total - j) * (a.len() + 1);
        assert(x <= total * (a.len() + 1)) by (nonlinear_arith)
            requires
                j <= total,
                x == (total - j) * (a.len() + 1),
        ;
        let sp = SpecInstruction::Split(x as usize);
        lemma_optional_jumps(a, total, j + 1);
        lemma_optional_len(a, total, j + 1);
        lemma_jumps_concat(a, optional_copies(a, total, j + 1));
        assert(x == (a + optional_copies(a, total, j + 1)).len() + 1) by (nonlinear_arith)
            requires
                (a + optional_copies(a, total, j + 1)).len() == a.len() + (total - (j + 1)) * (a.len() + 1),
                x == (total - j) * (a.len() + 1),
                j < total,
        ;
        lemma_jumps_prefix(sp, a + optional_copies(a, total, j + 1));
        assert(seq![sp] + (a + optional_copies(a, total, j + 1)) =~= seq![sp] + a + optional_copies(a, total, j + 1));
    }
}

proof fn lemma_with_reps_jumps(s: Seq<char>, base: Seq<SpecInstruction>, q: int)
    requires
        jumps_fit(base),
    ensures
        parsed_jumps_fit(sp_with_reps(s, base, q).0),
{
    let (rr, q2) = sp_reps(s, q);
    if rr is Value && rr->Value_0 is Some {
        let (n, m) = rr->Value_0->Some_0;
        lemma_repeat_jumps(base, n, m);
    }
}

proof fn lemma_escape_atom_jumps(s: Seq<char>, q: int)
    ensures
        parsed_jumps_fit(sp_escape_atom(s, q).0),
{
    if 0 <= q < s.len() {
        let d = s[q];
        match escape_instruction(d) {
            Some(i) => {
                lemma_jumps_single(i);
                lemma_with_reps_jumps(s, seq![i], q + 1);
            },
            None => {
                let rn = sp_number(s, q);
                if rn.0 is Value && rn.0->Value_0 is Some {
                    lemma_jumps_single(SpecInstruction::Group(rn.0->Value_0->Some_0));
                }
                let re = sp_escaped(s, q);
                if re.0 is Value {
                    lemma_literal_jumps(re.0->Value_0);
                }
                if '1' <= d && d <= '8' {
                    assert(sp_escape_atom(s, q) == group_atom(rn));
                } else {
                    assert(sp_escape_atom(s, q) == char_atom(re));
                }
            },
        }
    }
}

proof fn lemma_group_jumps(s: Seq<char>, q: int)
    ensures
        parsed_jumps_fit(sp_group(s, q).0),
    decreases s.len() - q, 4int,
{
    if peek(s, q) == Some('?') {
        let k = peek(s, q + 1);
        if k == Some(':') {
            lemma_group_body_jumps(s, q + 2);
        } else if k == Some('R') {
            lemma_jumps_single(SpecInstruction::Recurse);
            lemma_with_reps_jumps(s, seq![SpecInstruction::Recurse], q + 3);
        }
    } else {
        lemma_group_body_jumps(s, q);
    }
}

proof fn lemma_group_body_jumps(s: Seq<char>, q: int)
    ensures
        parsed_jumps_fit(sp_group_body(s, q).0),
    decreases s.len() - q, 3int,
{
    if 0 < q <= s.len() {
        lemma_branch_jumps(s, q, true);
        let (rb, q2) = sp_branch(s, q, true);
        if rb is Value {
            let b = rb->Value_0;
            lemma_jumps_single(SpecInstruction::GroupStart);
            lemma_jumps_single(SpecInstruction::GroupEnd);
            lemma_jumps_concat(seq![SpecInstruction::GroupStart], b);
            lemma_jumps_concat(seq![SpecInstruction::GroupStart] + b, seq![SpecInstruction::GroupEnd]);
            lemma_with_reps_jumps(s, group_program(b), q2 + 1);
        }
    }
}

proof fn lemma_atom_jumps(s: Seq<char>, p: int)
    ensures
        parsed_jumps_fit(sp_atom(s, p).0),
    decreases s.len() - p, 0int,
{
    if 0 <= p < s.len() {
        let c = s[p];
        let q = p + 1;
        if c == '\\' {
            lemma_escape_atom_jumps(s, q);
        } else if c == '(' {
            lemma_group_jumps(s, q);
        } else if c == '[' {
            let (r, q2) = sp_set(s, q);
            if r is Value {
                lemma_jumps_single(SpecInstruction::Is(r->Value_0));
                lemma_with_reps_jumps(s, class_atom(r->Value_0), q2);
            }
        } else {
            lemma_jumps_single(SpecInstruction::Is(SpecCharacter::Anything));
            lemma_literal_jumps(c);
            lemma_jumps_single(SpecInstruction::Start);
            lemma_jumps_single(SpecInstruction::End);
            lemma_with_reps_jumps(s, class_atom(SpecCharacter::Anything), q);
            lemma_with_reps_jumps(s, literal_atom(c), q);
            lemma_with_reps_jumps(s, seq![SpecInstruction::Start], q);
            lemma_with_reps_jumps(s, seq![SpecInstruction::End], q);
        }
    }
}

proof fn lemma_branch_jumps(s: Seq<char>, p: int, inside: bool)
    ensures
        parsed_jumps_fit(sp_branch(s, p, inside).0),
    decreases s.len() - p, 2int,
{
    lemma_branch_loop_jumps(s, p, inside, Seq::empty());
}

proof fn lemma_branch_loop_jumps(s: Seq<char>, p: int, inside: bool, acc: Seq<SpecInstruction>)
    requires
        jumps_fit(acc),
    ensures
        parsed_jumps_fit(sp_branch_loop(s, p, inside, acc).0),
    decreases s.len() - p, 1int,
{
    lemma_atom_jumps(s, p);
    let (ra, q) = sp_atom(s, p);
    if ra is Value {
        let acc2 = acc + ra->Value_0;
        lemma_jumps_concat(acc, ra->Value_0);
        if 0 <= q < s.len() {
            if s[q] == '|' {
                if p <= q {
                    lemma_branch_jumps(s, q + 1, inside);
                    let (rt, q2) = sp_branch(s, q + 1, inside);
                    if rt is Value {
                        let tail = rt->Value_0;
                        if acc2.len() + 2 <= usize::MAX && tail.len() + 1 <= usize::MAX {
                            let sp = SpecInstruction::Split((acc2.len() + 2) as usize);
                            let sk = SpecInstruction::Skip((tail.len() + 1) as usize);
                            lemma_jumps_prefix(sk, tail);
                            lemma_jumps_concat(acc2, seq![sk] + tail);
                            lemma_jumps_prefix(sp, acc2 + (seq![sk] + tail));
                            assert(seq![sp] + (acc2 + (seq![sk] + tail)) =~= alternative_program(acc2, tail));
                        }
                    }
                }
            } else if s[q] == ')' && inside {
            } else if p < q {
                lemma_branch_loop_jumps(s, q, inside, acc2);
            }
        }
    }
}

/// Every program that the parser builds jumps only within itself: a `Repeat` back to
/// one of its instructions, a `Split` or a `Skip` forward at most to its end.
pub proof fn lemma_parse_jumps_fit(s: Seq<char>)
    ensures
        parsed_jumps_fit(spec_parse(s)),
{
    lemma_branch_jumps(s, 0, false);
}

} // verus!
