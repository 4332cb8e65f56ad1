use crate::parser::string_from_chars;
use crate::text::{decimal, decimal_chars};
use crate::utils::{is_special, spec_is_special, str_chars};
use crate::vm::types::{
    Character, Instruction, Regex, SpecCharacter, SpecInstruction, characters_view,
    lemma_character_view, lemma_characters_view_push,
};
use vstd::prelude::*;

verus! {

broadcast use vstd::std_specs::vec::group_vec_axioms;

/// How a class is written.
pub open spec fn class_text(c: SpecCharacter) -> Seq<char>
    decreases c,
{
    match c {
        SpecCharacter::Anything => seq!['.'],
        SpecCharacter::Literal(x) => if spec_is_special(x) {
            seq!['\\', x]
        } else {
            seq![x]
        },
        SpecCharacter::Space(b) => seq!['\\', if b { 's' } else { 'S' }],
        SpecCharacter::Digit(b) => seq!['\\', if b { 'd' } else { 'D' }],
        SpecCharacter::Word(b) => seq!['\\', if b { 'w' } else { 'W' }],
        SpecCharacter::Range(l, u) => seq![l, '-', u],
        SpecCharacter::Bracket(m, b) => (if b {
            seq!['[']
        } else {
            seq!['[', '^']
        }) + members_text(m) + seq![']'],
    }
}

/// The members of a bracket written one after the other.
pub open spec fn members_text(m: Seq<SpecCharacter>) -> Seq<char>
    decreases m,
{
    if m.len() == 0 {
        Seq::empty()
    } else {
        members_text(m.drop_last()) + class_text(m.last())
    }
}

/// How an instruction is written.
pub open spec fn instruction_text(i: SpecInstruction) -> Seq<char> {
    match i {
        SpecInstruction::Start => "match ^"@,
        SpecInstruction::End => "match $"@,
        SpecInstruction::Boundary(true) => "match \\b"@,
        SpecInstruction::Boundary(false) => "match \\B"@,
        SpecInstruction::Is(c) => "match "@ + class_text(c),
        SpecInstruction::Split(n) => "split "@ + decimal(n as nat),
        SpecInstruction::Repeat(n) => "repeat "@ + decimal(n as nat),
        SpecInstruction::Skip(n) => "skip "@ + decimal(n as nat),
        SpecInstruction::Group(id) => "starts with \\"@ + decimal(id as nat),
        SpecInstruction::GroupStart => "group start"@,
        SpecInstruction::GroupEnd => "group end"@,
        SpecInstruction::Recurse => "recurse"@,
    }
}

proof fn lemma_members_text_push(cs: Seq<Character>, ch: Character)
    ensures
        members_text(characters_view(cs.push(ch))) == members_text(characters_view(cs)) + class_text(
            ch@,
        ),
{
    lemma_characters_view_push(cs, ch);
    let v = characters_view(cs.push(ch));
    assert(v.drop_last() =~= characters_view(cs));
}

impl Character {
    /// How the class is written.
    pub fn to_string(&self) -> (r: String)
        ensures
            r@ == class_text(self@),
    {
        let v = self.text();
        string_from_chars(&v)
    }

    /// How the class is written.
    pub fn text(&self) -> (r: Vec<char>)
        ensures
            r@ == class_text(self@),
        decreases self,
    {
        proof {
            lemma_character_view(*self);
        }
        let mut r: Vec<char> = Vec::new();
        match self {
            Character::Anything => {
                r.push('.');
            },
            Character::Literal(x) => {
                if is_special(*x) {
                    r.push('\\');
                }
                r.push(*x);
            },
            Character::Space(b) => {
                r.push('\\');
                r.push(if *b { 's' } else { 'S' });
            },
            Character::Digit(b) => {
                r.push('\\');
                r.push(if *b { 'd' } else { 'D' });
            },
            Character::Word(b) => {
                r.push('\\');
                r.push(if *b { 'w' } else { 'W' });
            },
            Character::Range(l, u) => {
                r.push(*l);
                r.push('-');
                r.push(*u);
            },
            Character::Bracket(v, b) => {
                r.push('[');
                if !*b {
                    r.push('^');
                }
                let ghost open = r@;
                let mut i: usize = 0;
                proof {
                    assert(v@.take(0) =~= Seq::<Character>::empty());
                    assert(members_text(characters_view(Seq::<Character>::empty())) =~= Seq::<char>::empty());
                    assert(r@ =~= open + members_text(characters_view(v@.take(0))));
                }
                while i < v.len()
                    invariant
                        i <= v.len(),
                        *self == Character::Bracket(*v, *b),
                        r@ == open + members_text(characters_view(v@.take(i as int))),
                    decreases v.len() - i,
                {
                    proof {
                        assert(v@.take(i + 1) =~= v@.take(i as int).push(v@[i as int]));
                        lemma_members_text_push(v@.take(i as int), v@[i as int]);
                    }
                    assert(decreases_to!(*self => (*self)->Bracket_0));
                    assert(decreases_to!(*v => v[i as int]));
                    let mut t = v[i].text();
                    r.append(&mut t);
                    assert(r@ =~= open + members_text(characters_view(v@.take(i + 1))));
                    i = i + 1;
                }
                r.push(']');
                assert(v@.take(v.len() as int) =~= v@);
            },
        }
        assert(r@ =~= class_text(self@));
        r
    }
}

/// Appends `b` to `a`.
fn concat(a: Vec<char>, b: Vec<char>) -> (r: Vec<char>)
    ensures
        r@ == a@ + b@,
{
    let mut a = a;
    let mut b = b;
    a.append(&mut b);
    a
}

impl Instruction {
    /// How the instruction is written.
    pub fn to_string(&self) -> (r: String)
        ensures
            r@ == instruction_text(self@),
    {
        let v = self.text();
        string_from_chars(&v)
    }

    /// How the instruction is written.
    pub fn text(&self) -> (r: Vec<char>)
        ensures
            r@ == instruction_text(self@),
    {
        match self {
            Instruction::Start => str_chars("match ^"),
            Instruction::End => str_chars("match $"),
            Instruction::Boundary(b) => if *b {
                str_chars("match \\b")
            } else {
                str_chars("match \\B")
            },
            Instruction::Is(c) => concat(str_chars("match "), c.text()),
            Instruction::Split(n) => concat(str_chars("split "), decimal_chars(*n)),
            Instruction::Repeat(n) => concat(str_chars("repeat "), decimal_chars(*n)),
            Instruction::Skip(n) => concat(str_chars("skip "), decimal_chars(*n)),
            Instruction::Group(id) => concat(str_chars("starts with \\"), decimal_chars(*id)),
            Instruction::GroupStart => str_chars("group start"),
            Instruction::GroupEnd => str_chars("group end"),
            Instruction::Recurse => str_chars("recurse"),
        }
    }
}

/// `k` spaces.
pub open spec fn spaces(k: nat) -> Seq<char> {
    Seq::new(k, |i: int| ' ')
}

/// `t` padded with spaces on the left to `width` characters.
pub open spec fn right_aligned(t: Seq<char>, width: nat) -> Seq<char> {
    if t.len() < width {
        spaces((width - t.len()) as nat) + t
    } else {
        t
    }
}

/// The note after an instruction at `pos` that jumps: where it goes.
pub open spec fn jump_note(i: SpecInstruction, pos: int) -> Seq<char> {
    match i {
        SpecInstruction::Split(n) => " (else backtrack to "@ + decimal((pos + n) as nat) + ")"@,
        SpecInstruction::Repeat(n) => " (else jump to "@ + decimal((pos - n) as nat) + ")"@,
        SpecInstruction::Skip(n) => " (jump to "@ + decimal((pos + n) as nat) + ")"@,
        _ => Seq::empty(),
    }
}

/// Whether the jumps of the program can be written: no jump ahead passes the
/// greatest `usize` and no jump back goes before the first instruction.
pub open spec fn jumps_fit(p: Seq<SpecInstruction>) -> bool {
    forall|k: int|
        0 <= k < p.len() ==> match #[trigger] p[k] {
            SpecInstruction::Split(n) => k + n <= usize::MAX,
            SpecInstruction::Repeat(n) => n <= k,
            SpecInstruction::Skip(n) => k + n <= usize::MAX,
            _ => true,
        }
}

/// The line of the listing for the instruction at `pos`.
pub open spec fn listing_line(p: Seq<SpecInstruction>, pos: int) -> Seq<char> {
    right_aligned(decimal(pos as nat), decimal(p.len()).len()) + "  "@ + instruction_text(p[pos])
        + jump_note(p[pos], pos) + seq!['\n']
}

/// The lines of the listing for the first `k` instructions.
pub open spec fn listing_upto(p: Seq<SpecInstruction>, k: int) -> Seq<char>
    decreases k,
{
    if k <= 0 {
        Seq::empty()
    } else {
        listing_upto(p, k - 1) + listing_line(p, k - 1)
    }
}

/// `k` spaces.
fn space_chars(k: usize) -> (r: Vec<char>)
    ensures
        r@ == spaces(k as nat),
{
    let mut r: Vec<char> = Vec::new();
    let mut i: usize = 0;
    while i < k
        invariant
            i <= k,
            r@ == spaces(i as nat),
        decreases k - i,
    {
        r.push(' ');
        assert(r@ =~= spaces((i + 1) as nat));
        i = i + 1;
    }
    r
}

impl Regex {
    /// The listing of the program: a line for each instruction with its position,
    /// right-aligned to the width of the program's length, and for a jump where it
    /// goes.
    pub fn show_code(&self) -> (r: String)
        requires
            jumps_fit(self@),
        ensures
            r@ == (if self@.len() == 0 {
                Seq::empty()
            } else {
                listing_upto(self@, self@.len() as int)
            }),
    {
        let ghost p = self@;
        let mut out: Vec<char> = Vec::new();
        if self.instructions.len() == 0 {
            return string_from_chars(&out);
        }
        let width = decimal_chars(self.instructions.len()).len();
        let mut pos: usize = 0;
        assert(out@ =~= listing_upto(p, 0));
        while pos < self.instructions.len()
            invariant
                p == self@,
                jumps_fit(p),
                width == decimal(p.len()).len(),
                pos <= p.len(),
                out@ == listing_upto(p, pos as int),
            decreases p.len() - pos,
        {
            let ins = &self.instructions[pos];
            assert(p[pos as int] == ins@);
            let number = decimal_chars(pos);
            let mut line: Vec<char> = if number.len() < width {
                concat(space_chars(width - number.len()), number)
            } else {
                number
            };
            line = concat(line, str_chars("  "));
            line = concat(line, ins.text());
            match ins {
                Instruction::Split(n) => {
                    line = concat(line, str_chars(" (else backtrack to "));
                    line = concat(line, decimal_chars(pos + *n));
                    line = concat(line, str_chars(")"));
                },
                Instruction::Repeat(n) => {
                    line = concat(line, str_chars(" (else jump to "));
                    line = concat(line, decimal_chars(pos - *n));
                    line = concat(line, str_chars(")"));
                },
                Instruction::Skip(n) => {
                    line = concat(line, str_chars(" (jump to "));
                    line = concat(line, decimal_chars(pos + *n));
                    line = concat(line, str_chars(")"));
                },
                _ => {},
            }
            line.push('\n');
            assert(line@ =~= listing_line(p, pos as int));
            out = concat(out, line);
            pos = pos + 1;
        }
        string_from_chars(&out)
    }
}

} // verus!
