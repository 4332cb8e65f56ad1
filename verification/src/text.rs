use crate::parser::{ParsingError, SpecParsingError, string_from_chars};
use crate::parser::{
    SpecResult, SpecToken, sp_alt_loop, sp_alt_token, sp_atom, sp_branch, sp_branch_loop,
    sp_simple_atom, spec_parse,
};
use crate::types::{
    Boundary, Character, SpecArrow, SpecCharacter, SpecNode, characters_view, lemma_character_view,
    lemma_characters_view_index, lemma_characters_view_push,
};
use crate::utils::{is_special, spec_is_special, str_chars};
use vstd::prelude::*;

verus! {

broadcast use vstd::std_specs::vec::group_vec_axioms;

// ---------------------------------------------------------------------------
// numbers

/// The decimal digit `d`.
pub open spec fn digit_char(d: int) -> char {
    (d + 48) as char
}

/// The decimal digits of `n`, without leading zeros.
pub open spec fn decimal(n: nat) -> Seq<char>
    decreases n,
{
    if n < 10 {
        seq![digit_char(n as int)]
    } else {
        decimal(n / 10).push(digit_char((n % 10) as int))
    }
}

/// The decimal digit `d`.
fn digit(d: usize) -> (r: char)
    requires
        d < 10,
    ensures
        r == digit_char(d as int),
{
    if d == 0 {
        '0'
    } else if d == 1 {
        '1'
    } else if d == 2 {
        '2'
    } else if d == 3 {
        '3'
    } else if d == 4 {
        '4'
    } else if d == 5 {
        '5'
    } else if d == 6 {
        '6'
    } else if d == 7 {
        '7'
    } else if d == 8 {
        '8'
    } else {
        '9'
    }
}

/// The decimal digits of `n`.
pub fn decimal_chars(n: usize) -> (r: Vec<char>)
    ensures
        r@ == decimal(n as nat),
{
    let mut m = n;
    let mut acc: Vec<char> = Vec::new();
    assert(decimal(n as nat) =~= decimal(m as nat) + acc@);
    while m >= 10
        invariant
            decimal(n as nat) == decimal(m as nat) + acc@,
        decreases m,
    {
        let d = digit(m % 10);
        let ghost before = acc@;
        acc.insert(0, d);
        assert(decimal(m as nat) == decimal((m / 10) as nat).push(d));
        assert(decimal((m / 10) as nat).push(d) + before =~= decimal((m / 10) as nat) + acc@);
        m = m / 10;
    }
    let d = digit(m);
    let ghost before = acc@;
    acc.insert(0, d);
    assert(decimal(m as nat) + before =~= acc@);
    acc
}

// ---------------------------------------------------------------------------
// classes and boundaries

/// How a literal character is written in a class: the white space, the line feed,
/// the tab and the null character by their escapes, the special characters after a
/// backslash.
pub open spec fn literal_text(x: char) -> Seq<char> {
    if x == ' ' {
        seq!['\\', 's']
    } else if x == '\n' {
        seq!['\\', 'n']
    } else if x == '\t' {
        seq!['\\', 't']
    } else if x == '\0' {
        seq!['\\', '0']
    } else if spec_is_special(x) {
        seq!['\\', x]
    } else {
        seq![x]
    }
}

/// How a class is written. A negation is written only for `\s`, `\d`, `\w` and
/// brackets: [`printable`] says which classes can be written.
pub open spec fn class_text(c: SpecCharacter) -> Seq<char>
    decreases c,
{
    match c {
        SpecCharacter::Anything => seq!['.'],
        SpecCharacter::Literal(x) => literal_text(x),
        SpecCharacter::Space => seq!['\\', 's'],
        SpecCharacter::Digit => seq!['\\', 'd'],
        SpecCharacter::Word => seq!['\\', 'w'],
        SpecCharacter::Range(l, u) => seq![l, '-', u],
        SpecCharacter::Bracket(m) => seq!['['] + members_text(m) + seq![']'],
        SpecCharacter::Not(b) => match *b {
            SpecCharacter::Space => seq!['\\', 'S'],
            SpecCharacter::Digit => seq!['\\', 'D'],
            SpecCharacter::Word => seq!['\\', 'W'],
            SpecCharacter::Bracket(_) => seq!['[', '^'] + class_text(*b).skip(1),
            _ => Seq::empty(),
        },
    }
}

/// The members of a bracket written one after the other.
pub open spec fn members_text(m: Seq<SpecCharacter>) -> Seq<char>
    decreases m,
{
    if m.len() == 0 {
        Seq::empty()
    } else {
        members_text(m.drop_last()) + class_text(m.last())
    }
}

/// Whether a class can be written: every negation in it is that of `\s`, `\d`, `\w`
/// or a bracket.
pub open spec fn printable(c: SpecCharacter) -> bool
    decreases c,
{
    match c {
        SpecCharacter::Bracket(m) => members_printable(m),
        SpecCharacter::Not(b) => match *b {
            SpecCharacter::Space => true,
            SpecCharacter::Digit => true,
            SpecCharacter::Word => true,
            SpecCharacter::Bracket(_) => printable(*b),
            _ => false,
        },
        _ => true,
    }
}

/// Whether every member of a bracket can be written.
pub open spec fn members_printable(m: Seq<SpecCharacter>) -> bool
    decreases m,
{
    m.len() == 0 || (members_printable(m.drop_last()) && printable(m.last()))
}

/// How a boundary is written.
pub open spec fn boundary_text(b: Boundary) -> Seq<char> {
    match b {
        Boundary::Start => seq!['^'],
        Boundary::End => seq!['$'],
        Boundary::Word(true) => seq!['\\', 'b'],
        Boundary::Word(false) => seq!['\\', 'B'],
    }
}

/// A pattern that is one atom, read whole, parses to the token of that atom.
proof fn lemma_parse_one_atom(s: Seq<char>, t: SpecToken)
    requires
        0 < s.len(),
        s[0] != '|' && s[0] != ')',
        sp_atom(s, 0) == (SpecResult::Value(Some(t)), s.len() as int),
    ensures
        spec_parse(s) == SpecResult::Value(t),
{
    let e: Seq<SpecToken> = Seq::empty();
    let n = s.len() as int;
    assert(e.push(t).len() == 1 && e.push(t)[0] == t);
    assert(sp_branch_loop(s, n, e.push(t)) == (SpecResult::Value(t), n));
    assert(sp_branch_loop(s, 0, e) == (SpecResult::Value(t), n));
    assert(sp_branch(s, 0) == (SpecResult::Value(t), n));
    assert(sp_alt_token(e.push(t)) == t);
    assert(sp_alt_loop(s, 0, e) == (SpecResult::Value(t), n));
}

/// The text of a boundary, read back as a pattern, gives that boundary: the label of a
/// guard arrow is the boundary as the pattern writes it, `^` for the start, `$` for the
/// end, `\b` and `\B` for a word boundary and its opposite.
pub proof fn lemma_boundary_text_parses(b: Boundary)
    ensures
        spec_parse(boundary_text(b)) == SpecResult::Value(SpecToken::Special(b)),
{
    let s = boundary_text(b);
    let t = SpecToken::Special(b);
    assert(sp_simple_atom(s, 0) == (SpecResult::Value(t), s.len() as int));
    assert(sp_atom(s, 0) == (SpecResult::Value(Some(t)), s.len() as int));
    lemma_parse_one_atom(s, t);
}

/// How a literal character is written.
fn literal_chars(x: char) -> (r: Vec<char>)
    ensures
        r@ == literal_text(x),
{
    let mut r: Vec<char> = Vec::new();
    if x == ' ' {
        r.push('\\');
        r.push('s');
    } else if x == '\n' {
        r.push('\\');
        r.push('n');
    } else if x == '\t' {
        r.push('\\');
        r.push('t');
    } else if x == '\0' {
        r.push('\\');
        r.push('0');
    } else if is_special(x) {
        r.push('\\');
        r.push(x);
    } else {
        r.push(x);
    }
    assert(r@ =~= literal_text(x));
    r
}

/// Two characters.
fn pair(a: char, b: char) -> (r: Vec<char>)
    ensures
        r@ == seq![a, b],
{
    let mut r: Vec<char> = Vec::new();
    r.push(a);
    r.push(b);
    assert(r@ =~= seq![a, b]);
    r
}

proof fn lemma_members_text_push(cs: Seq<Character>, ch: Character)
    ensures
        members_text(characters_view(cs.push(ch))) == members_text(characters_view(cs)) + class_text(
            ch@,
        ),
        members_printable(characters_view(cs.push(ch))) == (members_printable(characters_view(cs))
            && printable(ch@)),
{
    lemma_characters_view_push(cs, ch);
    let v = characters_view(cs.push(ch));
    assert(v.drop_last() =~= characters_view(cs));
}

impl Character {
    /// Whether the class can be written.
    pub fn is_printable(&self) -> (r: bool)
        ensures
            r == printable(self@),
        decreases self,
    {
        proof {
            lemma_character_view(*self);
        }
        match self {
            Character::Bracket(v) => {
                let mut i: usize = 0;
                proof {
                    assert(v@.take(0) =~= Seq::<Character>::empty());
                }
                while i < v.len()
                    invariant
                        i <= v.len(),
                        *self == Character::Bracket(*v),
                        self@ == SpecCharacter::Bracket(characters_view(v@)),
                        members_printable(characters_view(v@.take(i as int))),
                    decreases v.len() - i,
                {
                    proof {
                        assert(v@.take(i + 1) =~= v@.take(i as int).push(v@[i as int]));
                        lemma_members_text_push(v@.take(i as int), v@[i as int]);
                    }
                    assert(decreases_to!(*self => (*self)->Bracket_0));
                    assert(decreases_to!(*v => v[i as int]));
                    if !v[i].is_printable() {
                        proof {
                            lemma_members_not_printable(v@, i as int);
                        }
                        return false;
                    }
                    i = i + 1;
                }
                assert(v@.take(v.len() as int) =~= v@);
                true
            },
            Character::Not(b) => {
                assert(decreases_to!(*self => (*self)->Not_0));
                proof {
                    lemma_character_view(**b);
                }
                match &**b {
                    Character::Space => true,
                    Character::Digit => true,
                    Character::Word => true,
                    Character::Bracket(_) => (**b).is_printable(),
                    _ => false,
                }
            },
            _ => true,
        }
    }

    /// How the class is written.
    pub fn text(&self) -> (r: Vec<char>)
        requires
            printable(self@),
        ensures
            r@ == class_text(self@),
        decreases self,
    {
        proof {
            lemma_character_view(*self);
        }
        match self {
            Character::Anything => {
                let mut r: Vec<char> = Vec::new();
                r.push('.');
                assert(r@ =~= seq!['.']);
                r
            },
            Character::Literal(x) => literal_chars(*x),
            Character::Space => pair('\\', 's'),
            Character::Digit => pair('\\', 'd'),
            Character::Word => pair('\\', 'w'),
            Character::Range(l, u) => {
                let mut r: Vec<char> = Vec::new();
                r.push(*l);
                r.push('-');
                r.push(*u);
                assert(r@ =~= seq![*l, '-', *u]);
                r
            },
            Character::Bracket(v) => {
                let mut r: Vec<char> = Vec::new();
                r.push('[');
                let mut i: usize = 0;
                proof {
                    assert(v@.take(0) =~= Seq::<Character>::empty());
                    assert(members_text(characters_view(Seq::<Character>::empty())) =~= Seq::<char>::empty());
                    assert(r@ =~= seq!['['] + members_text(characters_view(v@.take(0))));
                    lemma_members_prefix_printable(v@, 0);
                }
                while i < v.len()
                    invariant
                        i <= v.len(),
                        *self == Character::Bracket(*v),
                        self@ == SpecCharacter::Bracket(characters_view(v@)),
                        members_printable(characters_view(v@)),
                        r@ == seq!['['] + members_text(characters_view(v@.take(i as int))),
                    decreases v.len() - i,
                {
                    proof {
                        lemma_members_prefix_printable(v@, i as int + 1);
                        assert(v@.take(i + 1) =~= v@.take(i as int).push(v@[i as int]));
                        lemma_members_text_push(v@.take(i as int), v@[i as int]);
                    }
                    assert(decreases_to!(*self => (*self)->Bracket_0));
                    assert(decreases_to!(*v => v[i as int]));
                    let mut t = v[i].text();
                    let ghost before = r@;
                    r.append(&mut t);
                    assert(r@ =~= seq!['['] + members_text(characters_view(v@.take(i + 1))));
                    i = i + 1;
                }
                r.push(']');
                assert(v@.take(v.len() as int) =~= v@);
                assert(r@ =~= seq!['['] + members_text(characters_view(v@)) + seq![']']);
                r
            },
            Character::Not(b) => {
                assert(decreases_to!(*self => (*self)->Not_0));
                proof {
                    lemma_character_view(**b);
                }
                match &**b {
                    Character::Space => pair('\\', 'S'),
                    Character::Digit => pair('\\', 'D'),
                    Character::Word => pair('\\', 'W'),
                    Character::Bracket(_) => {
                        let inner = (**b).text();
                        let mut r = pair('[', '^');
                        let mut k: usize = 1;
                        while k < inner.len()
                            invariant
                                1 <= k <= inner@.len(),
                                r@ == seq!['[', '^'] + inner@.subrange(1, k as int),
                            decreases inner@.len() - k,
                        {
                            r.push(inner[k]);
                            assert(r@ =~= seq!['[', '^'] + inner@.subrange(1, k + 1));
                            k = k + 1;
                        }
                        assert(inner@.subrange(1, inner@.len() as int) =~= inner@.skip(1));
                        r
                    },
                    _ => Vec::new(),
                }
            },
        }
    }
}

/// A bracket with a member that cannot be written cannot be written.
proof fn lemma_members_not_printable(cs: Seq<Character>, k: int)
    requires
        0 <= k < cs.len(),
        !printable(cs[k]@),
    ensures
        !members_printable(characters_view(cs)),
{
    if members_printable(characters_view(cs)) {
        lemma_members_prefix_printable(cs, k + 1);
    }
}

/// A prefix of printable members is printable.
proof fn lemma_members_prefix_printable(cs: Seq<Character>, k: int)
    requires
        0 <= k <= cs.len(),
        members_printable(characters_view(cs)),
    ensures
        members_printable(characters_view(cs.take(k))),
        k > 0 ==> printable(cs[k - 1]@),
    decreases cs.len(),
{
    if cs.len() > 0 {
        lemma_members_text_push(cs.drop_last(), cs.last());
        assert(cs.drop_last().push(cs.last()) =~= cs);
        if k < cs.len() {
            assert(cs.take(k) =~= cs.drop_last().take(k));
            lemma_members_prefix_printable(cs.drop_last(), k);
            if k > 0 {
                assert(cs[k - 1] == cs.drop_last()[k - 1]);
            }
        } else {
            assert(cs.take(k) =~= cs);
        }
    } else {
        assert(cs.take(k) =~= cs);
    }
}

/// How a boundary is written.
pub fn boundary_chars(b: Boundary) -> (r: Vec<char>)
    ensures
        r@ == boundary_text(b),
{
    match b {
        Boundary::Start => {
            let mut r: Vec<char> = Vec::new();
            r.push('^');
            assert(r@ =~= seq!['^']);
            r
        },
        Boundary::End => {
            let mut r: Vec<char> = Vec::new();
            r.push('$');
            assert(r@ =~= seq!['$']);
            r
        },
        Boundary::Word(true) => pair('\\', 'b'),
        Boundary::Word(false) => pair('\\', 'B'),
    }
}

// ---------------------------------------------------------------------------
// automata whose classes can all be written

/// Whether the class of an arrow, if it has one, can be written.
pub open spec fn arrow_printable(a: SpecArrow) -> bool {
    match a {
        SpecArrow::Match(c, _) => printable(c),
        _ => true,
    }
}

/// Whether the class of every arrow of the automaton can be written.
pub open spec fn arrows_printable(g: Seq<SpecNode>) -> bool {
    forall|i: int, k: int|
        0 <= i < g.len() && 0 <= k < g[i].arrows.len() ==> arrow_printable(#[trigger] g[i].arrows[k])
}

/// Whether every class in the token can be written.
pub open spec fn token_printable(t: SpecToken) -> bool
    decreases t,
{
    match t {
        SpecToken::Special(_) => true,
        SpecToken::Matcher(c) => printable(c),
        SpecToken::Branch(ts) => tokens_printable(ts),
        SpecToken::Alternative(ts) => tokens_printable(ts),
        SpecToken::Repeat(b, _, _) => token_printable(*b),
    }
}

/// Whether every class in the tokens can be written.
pub open spec fn tokens_printable(ts: Seq<SpecToken>) -> bool
    decreases ts,
{
    ts.len() == 0 || (tokens_printable(ts.drop_last()) && token_printable(ts.last()))
}

pub proof fn lemma_tokens_printable_push(ts: Seq<SpecToken>, t: SpecToken)
    ensures
        tokens_printable(ts.push(t)) == (tokens_printable(ts) && token_printable(t)),
{
    assert(ts.push(t).drop_last() =~= ts);
}

pub proof fn lemma_tokens_printable_index(ts: Seq<SpecToken>, i: int)
    requires
        tokens_printable(ts),
        0 <= i < ts.len(),
    ensures
        token_printable(ts[i]),
    decreases ts.len(),
{
    if i < ts.len() - 1 {
        lemma_tokens_printable_index(ts.drop_last(), i);
    }
}

/// Members that can each be written can be written together.
pub proof fn lemma_members_printable(m: Seq<SpecCharacter>)
    requires
        forall|i: int| 0 <= i < m.len() ==> printable(#[trigger] m[i]),
    ensures
        members_printable(m),
    decreases m.len(),
{
    if m.len() > 0 {
        lemma_members_printable(m.drop_last());
    }
}

// ---------------------------------------------------------------------------
// parsing errors

/// The message of a parsing error.
pub open spec fn error_text(e: SpecParsingError) -> Seq<char> {
    match e {
        SpecParsingError::EndOfInput => "unexpected end of input"@,
        SpecParsingError::Unexpected(c) => "unexpected character "@.push(c),
        SpecParsingError::Missing(c) => "missing "@.push(c),
        SpecParsingError::InvalidRange(a, b) => seq![a, '-', b] + " is not a valid range"@,
        SpecParsingError::InvalidRepetitions => "invalid repetitions counts"@,
        SpecParsingError::NotANumber(s) => s + " is not a number"@,
        SpecParsingError::BadEscape(c) => "unsupported escape character \\"@.push(c),
    }
}

impl ParsingError {
    /// The message of the error.
    pub fn to_string(&self) -> (r: String)
        ensures
            r@ == error_text(self@),
    {
        let mut v: Vec<char>;
        match self {
            ParsingError::EndOfInput => {
                v = str_chars("unexpected end of input");
            },
            ParsingError::Unexpected(c) => {
                v = str_chars("unexpected character ");
                v.push(*c);
            },
            ParsingError::Missing(c) => {
                v = str_chars("missing ");
                v.push(*c);
            },
            ParsingError::InvalidRange(a, b) => {
                v = Vec::new();
                v.push(*a);
                v.push('-');
                v.push(*b);
                let mut rest = str_chars(" is not a valid range");
                let ghost first = v@;
                let ghost tail = rest@;
                v.append(&mut rest);
                assert(first =~= seq![*a, '-', *b]);
            },
            ParsingError::InvalidRepetitions => {
                v = str_chars("invalid repetitions counts");
            },
            ParsingError::NotANumber(s) => {
                v = str_chars(s.as_str());
                let mut rest = str_chars(" is not a number");
                v.append(&mut rest);
            },
            ParsingError::BadEscape(c) => {
                v = str_chars("unsupported escape character \\");
                v.push(*c);
            },
        }
        string_from_chars(&v)
    }
}

} // verus!
