use crate::parser::string_from_chars;
use crate::utils::str_chars;
use vstd::prelude::*;

verus! {

broadcast use vstd::std_specs::vec::group_vec_axioms;

/// A class of characters matched by one instruction.
#[derive(Debug)]
pub enum Character {
    /// `.`
    Anything,
    /// a literal character: a, b, 8, \n, \r, etc
    Literal(char),
    /// `\s` (true) and `\S` (false)
    Space(bool),
    /// `\w` (true) and `\W` (false)
    Word(bool),
    /// `\d` (true) and `\D` (false)
    Digit(bool),
    /// `a-z`
    Range(char, char),
    /// `[ab-z-]` (true) and `[^ab-z-]` (false)
    Bracket(Vec<Character>, bool),
}

/// The mathematical value of a [`Character`].
pub enum SpecCharacter {
    Anything,
    Literal(char),
    Space(bool),
    Word(bool),
    Digit(bool),
    Range(char, char),
    Bracket(Seq<SpecCharacter>, bool),
}

/// The values of a sequence of character classes.
pub open spec fn characters_view(s: Seq<Character>) -> Seq<SpecCharacter>
    decreases s,
{
    if s.len() == 0 {
        Seq::empty()
    } else {
        characters_view(s.drop_last()).push(character_view(s.last()))
    }
}

/// The value of a character class.
pub open spec fn character_view(c: Character) -> SpecCharacter
    decreases c,
{
    match c {
        Character::Anything => SpecCharacter::Anything,
        Character::Literal(x) => SpecCharacter::Literal(x),
        Character::Space(b) => SpecCharacter::Space(b),
        Character::Word(b) => SpecCharacter::Word(b),
        Character::Digit(b) => SpecCharacter::Digit(b),
        Character::Range(a, b) => SpecCharacter::Range(a, b),
        Character::Bracket(v, b) => SpecCharacter::Bracket(characters_view(v@), b),
    }
}

impl View for Character {
    type V = SpecCharacter;

    open spec fn view(&self) -> SpecCharacter {
        character_view(*self)
    }
}

pub proof fn lemma_characters_view_push(cs: Seq<Character>, ch: Character)
    ensures
        characters_view(cs.push(ch)) == characters_view(cs).push(character_view(ch)),
        characters_view(cs).len() == cs.len(),
    decreases cs.len(),
{
    assert(cs.push(ch).drop_last() =~= cs);
    if cs.len() > 0 {
        lemma_characters_view_push(cs.drop_last(), cs.last());
        assert(cs.drop_last().push(cs.last()) =~= cs);
    }
}

pub proof fn lemma_characters_view_index(cs: Seq<Character>, k: int)
    requires
        0 <= k < cs.len(),
    ensures
        characters_view(cs).len() == cs.len(),
        characters_view(cs)[k] == character_view(cs[k]),
    decreases cs.len(),
{
    lemma_characters_view_push(cs.drop_last(), cs.last());
    assert(cs.drop_last().push(cs.last()) =~= cs);
    if k < cs.len() - 1 {
        lemma_characters_view_index(cs.drop_last(), k);
    }
}

/// The value of a character class, one level deep.
pub proof fn lemma_character_view(ch: Character)
    ensures
        character_view(ch) == match ch {
            Character::Anything => SpecCharacter::Anything,
            Character::Literal(x) => SpecCharacter::Literal(x),
            Character::Space(b) => SpecCharacter::Space(b),
            Character::Word(b) => SpecCharacter::Word(b),
            Character::Digit(b) => SpecCharacter::Digit(b),
            Character::Range(a, b) => SpecCharacter::Range(a, b),
            Character::Bracket(v, b) => SpecCharacter::Bracket(characters_view(v@), b),
        },
{
}

impl Clone for Character {
    fn clone(&self) -> (r: Self)
        ensures
            r@ == self@,
        decreases self,
    {
        match self {
            Character::Anything => Character::Anything,
            Character::Literal(c) => Character::Literal(*c),
            Character::Space(b) => Character::Space(*b),
            Character::Word(b) => Character::Word(*b),
            Character::Digit(b) => Character::Digit(*b),
            Character::Range(a, b) => Character::Range(*a, *b),
            Character::Bracket(v, b) => {
                let mut w: Vec<Character> = Vec::new();
                let mut i: usize = 0;
                while i < v.len()
                    invariant
                        i <= v.len(),
                        *self == Character::Bracket(*v, *b),
                        characters_view(w@) == characters_view(v@.take(i as int)),
                    decreases v.len() - i,
                {
                    assert(decreases_to!(*self => (*self)->Bracket_0));
                    assert(decreases_to!(*v => v[i as int]));
                    let c = v[i].clone();
                    proof {
                        lemma_characters_view_push(w@, c);
                        lemma_characters_view_push(v@.take(i as int), v@[i as int]);
                        assert(v@.take(i as int).push(v@[i as int]) =~= v@.take(i + 1));
                    }
                    w.push(c);
                    i = i + 1;
                }
                assert(v@.take(v.len() as int) =~= v@);
                Character::Bracket(w, *b)
            },
        }
    }
}

/// One instruction of the machine. Jumps are relative to the instruction's position.
#[derive(Debug)]
pub enum Instruction {
    /// match the beginning of the input
    Start,
    /// match the end of the input
    End,
    /// match a word boundary (true) or its absence (false)
    Boundary(bool),
    /// match a character of the class
    Is(Character),
    /// go on with the next instruction, and come back to the one this far ahead
    /// when that fails
    Split(usize),
    /// jump this far back
    Repeat(usize),
    /// jump this far ahead
    Skip(usize),
    /// match what the group with this number (from 1) matched; a group that does
    /// not exist matches the empty string
    Group(usize),
    /// open a group
    GroupStart,
    /// close the group opened last
    GroupEnd,
    /// match the whole program at this point
    Recurse,
}

/// The mathematical value of an [`Instruction`].
pub enum SpecInstruction {
    Start,
    End,
    Boundary(bool),
    Is(SpecCharacter),
    Split(usize),
    Repeat(usize),
    Skip(usize),
    Group(usize),
    GroupStart,
    GroupEnd,
    Recurse,
}

/// The value of an instruction.
pub open spec fn instruction_view(i: Instruction) -> SpecInstruction {
    match i {
        Instruction::Start => SpecInstruction::Start,
        Instruction::End => SpecInstruction::End,
        Instruction::Boundary(b) => SpecInstruction::Boundary(b),
        Instruction::Is(c) => SpecInstruction::Is(c@),
        Instruction::Split(n) => SpecInstruction::Split(n),
        Instruction::Repeat(n) => SpecInstruction::Repeat(n),
        Instruction::Skip(n) => SpecInstruction::Skip(n),
        Instruction::Group(n) => SpecInstruction::Group(n),
        Instruction::GroupStart => SpecInstruction::GroupStart,
        Instruction::GroupEnd => SpecInstruction::GroupEnd,
        Instruction::Recurse => SpecInstruction::Recurse,
    }
}

/// The values of a sequence of instructions.
pub open spec fn instructions_view(s: Seq<Instruction>) -> Seq<SpecInstruction> {
    s.map_values(|i: Instruction| instruction_view(i))
}

impl View for Instruction {
    type V = SpecInstruction;

    open spec fn view(&self) -> SpecInstruction {
        instruction_view(*self)
    }
}

impl Clone for Instruction {
    fn clone(&self) -> (r: Self)
        ensures
            r@ == self@,
    {
        match self {
            Instruction::Start => Instruction::Start,
            Instruction::End => Instruction::End,
            Instruction::Boundary(b) => Instruction::Boundary(*b),
            Instruction::Is(c) => Instruction::Is(c.clone()),
            Instruction::Split(n) => Instruction::Split(*n),
            Instruction::Repeat(n) => Instruction::Repeat(*n),
            Instruction::Skip(n) => Instruction::Skip(*n),
            Instruction::Group(n) => Instruction::Group(*n),
            Instruction::GroupStart => Instruction::GroupStart,
            Instruction::GroupEnd => Instruction::GroupEnd,
            Instruction::Recurse => Instruction::Recurse,
        }
    }
}

/// A compiled regular expression: the instructions that are executed.
#[derive(Debug)]
pub struct Regex {
    pub instructions: Vec<Instruction>,
}

impl View for Regex {
    type V = Seq<SpecInstruction>;

    open spec fn view(&self) -> Seq<SpecInstruction> {
        instructions_view(self.instructions@)
    }
}

/// The characters of an input string.
pub struct Input {
    chars: Vec<char>,
}

impl View for Input {
    type V = Seq<char>;

    closed spec fn view(&self) -> Seq<char> {
        self.chars@
    }
}

impl Input {
    /// The characters of `value`.
    pub fn new(value: &str) -> (r: Input)
        ensures
            r@ == value@,
    {
        Input { chars: str_chars(value) }
    }

    /// The character at `index`, if there is one.
    pub fn get(&self, index: usize) -> (r: Option<char>)
        ensures
            r == (if index < self@.len() {
                Some(self@[index as int])
            } else {
                None
            }),
    {
        if index < self.chars.len() {
            Some(self.chars[index])
        } else {
            None
        }
    }

    /// The number of characters.
    pub fn len(&self) -> (r: usize)
        ensures
            r == self@.len(),
    {
        self.chars.len()
    }

    /// The characters from `a` up to `b`, as a string.
    pub fn string_slice(&self, a: usize, b: usize) -> (r: String)
        requires
            a <= b <= self@.len(),
        ensures
            r@ == self@.subrange(a as int, b as int),
    {
        let v = self.char_slice(a, b);
        string_from_chars(&v)
    }

    /// The characters from `a` up to `b`.
    pub fn char_slice(&self, a: usize, b: usize) -> (r: Vec<char>)
        requires
            a <= b <= self@.len(),
        ensures
            r@ == self@.subrange(a as int, b as int),
    {
        let mut r: Vec<char> = Vec::new();
        let mut i: usize = a;
        while i < b
            invariant
                a <= i <= b,
                b <= self.chars@.len(),
                r@ == self.chars@.subrange(a as int, i as int),
            decreases b - i,
        {
            r.push(self.chars[i]);
            assert(r@ =~= self.chars@.subrange(a as int, i + 1));
            i = i + 1;
        }
        r
    }

    /// Whether the characters from `index` on begin with `pattern`.
    pub fn contains_at(&self, index: usize, pattern: &[char]) -> (r: bool)
        requires
            index <= self@.len(),
        ensures
            r == (index + pattern@.len() <= self@.len() && self@.subrange(
                index as int,
                index + pattern@.len(),
            ) == pattern@),
    {
        if pattern.len() > self.chars.len() - index {
            return false;
        }
        let mut k: usize = 0;
        while k < pattern.len()
            invariant
                k <= pattern@.len(),
                index + pattern@.len() <= self.chars.len(),
                forall|m: int| 0 <= m < k ==> self.chars@[index + m] == pattern@[m],
            decreases pattern@.len() - k,
        {
            if self.chars[index + k] != pattern[k] {
                assert(self.chars@.subrange(index as int, index + pattern@.len())[k as int] != pattern@[k as int]);
                return false;
            }
            k = k + 1;
        }
        assert(self.chars@.subrange(index as int, index + pattern@.len()) =~= pattern@);
        true
    }

    /// The input as a string.
    pub fn to_string(&self) -> (r: String)
        ensures
            r@ == self@,
    {
        string_from_chars(&self.chars)
    }
}

} // verus!
