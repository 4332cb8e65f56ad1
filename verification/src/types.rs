use vstd::prelude::*;

verus! {

broadcast use vstd::std_specs::vec::group_vec_axioms;

/// A zero-width assertion about the position in the input.
#[derive(Debug, Clone, Copy, PartialEq, Eq)]
pub enum Boundary {
    /// `^`
    Start,
    /// `$`
    End,
    /// `\b` (true) and `\B` (false)
    Word(bool),
}

/// A class of characters matched by one step of the automaton.
#[derive(Debug)]
pub enum Character {
    /// `.`
    Anything,
    /// a literal character: a, b, 8, \n, \r, etc
    Literal(char),
    /// `\s`
    Space,
    /// `\w`
    Word,
    /// `\d`
    Digit,
    /// `a-z`
    Range(char, char),
    /// `[ab-z-]`
    Bracket(Vec<Character>),
    /// negates the match, e.g. `Not(\s)` is `\S`, `Not([abc])` is `[^abc]`
    Not(Box<Character>),
}

/// The mathematical value of a [`Character`].
pub enum SpecCharacter {
    Anything,
    Literal(char),
    Space,
    Word,
    Digit,
    Range(char, char),
    Bracket(Seq<SpecCharacter>),
    Not(Box<SpecCharacter>),
}

/// The values of a sequence of characters classes.
pub open spec fn characters_view(s: Seq<Character>) -> Seq<SpecCharacter>
    decreases s,
{
    if s.len() == 0 {
        Seq::empty()
    } else {
        characters_view(s.drop_last()).push(character_view(s.last()))
    }
}

/// The value of a character class.
pub open spec fn character_view(c: Character) -> SpecCharacter
    decreases c,
{
    match c {
        Character::Anything => SpecCharacter::Anything,
        Character::Literal(x) => SpecCharacter::Literal(x),
        Character::Space => SpecCharacter::Space,
        Character::Word => SpecCharacter::Word,
        Character::Digit => SpecCharacter::Digit,
        Character::Range(a, b) => SpecCharacter::Range(a, b),
        Character::Bracket(v) => SpecCharacter::Bracket(characters_view(v@)),
        Character::Not(b) => SpecCharacter::Not(Box::new(character_view(*b))),
    }
}

impl View for Character {
    type V = SpecCharacter;

    open spec fn view(&self) -> SpecCharacter {
        character_view(*self)
    }
}


pub proof fn lemma_characters_view_push(cs: Seq<Character>, ch: Character)
    ensures
        characters_view(cs.push(ch)) == characters_view(cs).push(character_view(ch)),
        characters_view(cs).len() == cs.len(),
    decreases cs.len(),
{
    assert(cs.push(ch).drop_last() =~= cs);
    if cs.len() > 0 {
        lemma_characters_view_push(cs.drop_last(), cs.last());
        assert(cs.drop_last().push(cs.last()) =~= cs);
    }
}

pub proof fn lemma_characters_view_index(cs: Seq<Character>, k: int)
    requires
        0 <= k < cs.len(),
    ensures
        characters_view(cs).len() == cs.len(),
        characters_view(cs)[k] == character_view(cs[k]),
    decreases cs.len(),
{
    lemma_characters_view_push(cs.drop_last(), cs.last());
    assert(cs.drop_last().push(cs.last()) =~= cs);
    if k < cs.len() - 1 {
        lemma_characters_view_index(cs.drop_last(), k);
    }
}

/// The value of a character class, one level deep.
pub proof fn lemma_character_view(ch: Character)
    ensures
        character_view(ch) == match ch {
            Character::Anything => SpecCharacter::Anything,
            Character::Literal(x) => SpecCharacter::Literal(x),
            Character::Space => SpecCharacter::Space,
            Character::Word => SpecCharacter::Word,
            Character::Digit => SpecCharacter::Digit,
            Character::Range(a, b) => SpecCharacter::Range(a, b),
            Character::Bracket(v) => SpecCharacter::Bracket(characters_view(v@)),
            Character::Not(b) => SpecCharacter::Not(Box::new(character_view(*b))),
        },
{
}

impl Clone for Character {
    fn clone(&self) -> (r: Self)
        ensures
            r@ == self@,
        decreases self,
    {
        match self {
            Character::Anything => Character::Anything,
            Character::Literal(c) => Character::Literal(*c),
            Character::Space => Character::Space,
            Character::Word => Character::Word,
            Character::Digit => Character::Digit,
            Character::Range(a, b) => Character::Range(*a, *b),
            Character::Bracket(v) => {
                let mut w: Vec<Character> = Vec::new();
                let mut i: usize = 0;
                while i < v.len()
                    invariant
                        i <= v.len(),
                        *self == Character::Bracket(*v),
                        characters_view(w@) == characters_view(v@.take(i as int)),
                    decreases v.len() - i,
                {
                    assert(decreases_to!(*self => (*self)->Bracket_0));
                    assert(decreases_to!(*v => v[i as int]));
                    let c = v[i].clone();
                    proof {
                        lemma_characters_view_push(w@, c);
                        lemma_characters_view_push(v@.take(i as int), v@[i as int]);
                        assert(v@.take(i as int).push(v@[i as int]) =~= v@.take(i + 1));
                    }
                    w.push(c);
                    i = i + 1;
                }
                assert(v@.take(v.len() as int) =~= v@);
                Character::Bracket(w)
            },
            Character::Not(b) => {
                let c = (**b).clone();
                Character::Not(Box::new(c))
            },
        }
    }
}


/// An arrow out of a state of the automaton; the number is the state it points to.
#[derive(Debug)]
pub enum Arrow {
    /// moves on without reading anything
    Epsilon(usize),
    /// moves on by reading a character of the class
    Match(Character, usize),
    /// moves on without reading anything where the boundary holds
    Guard(Boundary, usize),
}

/// The mathematical value of an [`Arrow`].
pub enum SpecArrow {
    Epsilon(int),
    Match(SpecCharacter, int),
    Guard(Boundary, int),
}

impl SpecArrow {
    /// The state the arrow points to.
    pub open spec fn target(self) -> int {
        match self {
            SpecArrow::Epsilon(t) => t,
            SpecArrow::Match(_, t) => t,
            SpecArrow::Guard(_, t) => t,
        }
    }
}

/// The value of an arrow.
pub open spec fn arrow_view(a: Arrow) -> SpecArrow {
    match a {
        Arrow::Epsilon(t) => SpecArrow::Epsilon(t as int),
        Arrow::Match(c, t) => SpecArrow::Match(c@, t as int),
        Arrow::Guard(b, t) => SpecArrow::Guard(b, t as int),
    }
}

/// A state of the automaton: its arrows, in the order they were added, and whether
/// it is the final state.
#[derive(Debug)]
pub struct Node {
    pub arrows: Vec<Arrow>,
    pub end: bool,
}

/// The mathematical value of a [`Node`].
pub struct SpecNode {
    pub arrows: Seq<SpecArrow>,
    pub end: bool,
}

/// The value of a state.
pub open spec fn node_view(n: Node) -> SpecNode {
    SpecNode { arrows: n.arrows@.map_values(|a: Arrow| arrow_view(a)), end: n.end }
}

/// The value of an automaton: its states, numbered by their position.
pub open spec fn graph_view(g: Seq<Node>) -> Seq<SpecNode> {
    g.map_values(|n: Node| node_view(n))
}

/// Every arrow points to a state of the automaton.
pub open spec fn graph_wf(g: Seq<SpecNode>) -> bool {
    forall|i: int, k: int|
        0 <= i < g.len() && 0 <= k < g[i].arrows.len() ==> 0 <= #[trigger] g[i].arrows[k].target()
            < g.len()
}

/// A compiled regular expression: an automaton, its start state, and whether it
/// ignores the case of ASCII letters.
#[derive(Debug)]
pub struct Regex {
    pub nodes: Vec<Node>,
    pub start: usize,
    pub ignore_case: bool,
}

impl Regex {
    /// The states of the automaton.
    pub open spec fn automaton(&self) -> Seq<SpecNode> {
        graph_view(self.nodes@)
    }

    /// The automaton is well formed and the start state is one of its states.
    pub open spec fn wf(&self) -> bool {
        graph_wf(self.automaton()) && self.start < self.nodes@.len()
    }
}

} // verus!
