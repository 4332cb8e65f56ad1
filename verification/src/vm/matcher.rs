use crate::matcher::at_boundary;
use crate::utils::{
    is_alphanumeric, is_ascii_digit, is_whitespace, spec_is_alphanumeric, spec_is_digit,
    spec_is_whitespace,
};
use crate::vm::types::{
    Character, Input, Instruction, Regex, SpecCharacter, SpecInstruction, characters_view,
    instructions_view, lemma_character_view, lemma_characters_view_index,
    lemma_characters_view_push,
};
use vstd::prelude::*;

verus! {

broadcast use vstd::std_specs::vec::group_vec_axioms;

// ---------------------------------------------------------------------------
// characters

/// Whether the class `ch` matches the character `c`.
pub open spec fn class_matches(ch: SpecCharacter, c: char) -> bool
    decreases ch,
{
    match ch {
        SpecCharacter::Anything => true,
        SpecCharacter::Literal(v) => v == c,
        SpecCharacter::Space(b) => spec_is_whitespace(c) == b,
        SpecCharacter::Digit(b) => spec_is_digit(c) == b,
        SpecCharacter::Word(b) => (spec_is_alphanumeric(c) || c == '_') == b,
        SpecCharacter::Range(l, u) => l <= c && c <= u,
        SpecCharacter::Bracket(set, b) => (exists|i: int|
            0 <= i < set.len() && class_matches(#[trigger] set[i], c)) == b,
    }
}

// ---------------------------------------------------------------------------
// states of the machine

/// The state of the machine.
#[derive(Debug)]
pub struct MatchState {
    /// the instruction to execute
    pub pc: usize,
    /// the position in the input
    pub sp: usize,
    /// where the current attempt began in the input
    pub start: usize,
    /// the groups opened so far: where each began and ended
    pub groups: Vec<(usize, usize)>,
    /// the groups still open, the last opened last
    pub active_group: Vec<usize>,
}

/// The mathematical value of a [`MatchState`].
pub struct SpecState {
    pub pc: usize,
    pub sp: usize,
    pub start: usize,
    pub groups: Seq<(usize, usize)>,
    pub active: Seq<usize>,
}

impl View for MatchState {
    type V = SpecState;

    open spec fn view(&self) -> SpecState {
        SpecState {
            pc: self.pc,
            sp: self.sp,
            start: self.start,
            groups: self.groups@,
            active: self.active_group@,
        }
    }
}

/// The values of a stack of states.
pub open spec fn states_view(c: Seq<MatchState>) -> Seq<SpecState> {
    c.map_values(|m: MatchState| m@)
}

/// A state at the first instruction, with no group.
pub open spec fn fresh(sp: usize, start: usize) -> SpecState {
    SpecState { pc: 0, sp, start, groups: Seq::empty(), active: Seq::empty() }
}

/// The state `st` moved to instruction `pc` and position `sp`.
pub open spec fn moved(st: SpecState, pc: int, sp: int) -> SpecState {
    SpecState { pc: pc as usize, sp: sp as usize, start: st.start, groups: st.groups, active: st.active }
}

/// The state `st` with a group opened at its position.
pub open spec fn opened(st: SpecState) -> SpecState {
    SpecState {
        pc: (st.pc + 1) as usize,
        sp: st.sp,
        start: st.start,
        groups: st.groups.push((st.sp, st.sp)),
        active: st.active.push(st.groups.len() as usize),
    }
}

/// The state `st` with the group opened last closed at its position.
pub open spec fn closed(st: SpecState) -> SpecState {
    let k = st.active.last() as int;
    SpecState {
        pc: (st.pc + 1) as usize,
        sp: st.sp,
        start: st.start,
        groups: st.groups.update(k, (st.groups[k].0, st.sp)),
        active: st.active.drop_last(),
    }
}

/// What a run of the machine gives: a match and the state it ends in, no match, a step
/// the machine cannot take (a jump out of range, a group that does not exist), or no
/// answer within the steps allowed.
pub enum Outcome {
    Matched(SpecState),
    Failed,
    Abort,
    OutOfFuel,
}

/// Whether the input `s` holds at `sp` what the group `g` holds.
pub open spec fn repeats_group(s: Seq<char>, sp: int, g: (usize, usize)) -> bool {
    sp + (g.1 - g.0) <= s.len() && s.subrange(sp, sp + (g.1 - g.0)) == s.subrange(
        g.0 as int,
        g.1 as int,
    )
}

/// The run of program `re` on input `s` from state `st` with the stack `cache` of
/// states to come back to, for at most `fuel` steps; a run inside `(?R)` gets the
/// steps that are left at that point.
pub open spec fn run(
    re: Seq<SpecInstruction>,
    s: Seq<char>,
    st: SpecState,
    cache: Seq<SpecState>,
    fuel: nat,
) -> Outcome
    decreases fuel, 0int,
{
    if st.pc >= re.len() {
        Outcome::Matched(st)
    } else if fuel == 0 {
        Outcome::OutOfFuel
    } else {
        let f = (fuel - 1) as nat;
        let pc = st.pc as int;
        let sp = st.sp as int;
        match re[pc] {
            SpecInstruction::Start => if sp == 0 {
                run(re, s, moved(st, pc + 1, sp), cache, f)
            } else {
                run_fail(re, s, st, cache, f)
            },
            SpecInstruction::End => if sp >= s.len() {
                run(re, s, moved(st, pc + 1, sp), cache, f)
            } else {
                run_fail(re, s, st, cache, f)
            },
            SpecInstruction::Boundary(b) => if at_boundary(s, sp) == b {
                run(re, s, moved(st, pc + 1, sp), cache, f)
            } else {
                run_fail(re, s, st, cache, f)
            },
            SpecInstruction::Is(c) => if sp < s.len() && class_matches(c, s[sp]) {
                run(re, s, moved(st, pc + 1, sp + 1), cache, f)
            } else {
                run_fail(re, s, st, cache, f)
            },
            SpecInstruction::Split(j) => if pc + j > usize::MAX {
                Outcome::Abort
            } else {
                run(re, s, moved(st, pc + 1, sp), cache.push(moved(st, pc + j, sp)), f)
            },
            SpecInstruction::Repeat(n) => if n > pc {
                Outcome::Abort
            } else {
                run(re, s, moved(st, pc - n, sp), cache, f)
            },
            SpecInstruction::Skip(n) => if pc + n > usize::MAX {
                Outcome::Abort
            } else {
                run(re, s, moved(st, pc + n, sp), cache, f)
            },
            SpecInstruction::Group(id) => if id == 0 {
                Outcome::Abort
            } else if id - 1 >= st.groups.len() {
                run(re, s, moved(st, pc + 1, sp), cache, f)
            } else {
                let g = st.groups[id - 1];
                if !(g.0 <= g.1 && g.1 <= s.len()) || sp > s.len() {
                    Outcome::Abort
                } else if repeats_group(s, sp, g) {
                    run(re, s, moved(st, pc + 1, sp + (g.1 - g.0)), cache, f)
                } else {
                    run_fail(re, s, st, cache, f)
                }
            },
            SpecInstruction::GroupStart => run(re, s, opened(st), cache, f),
            SpecInstruction::GroupEnd => if st.active.len() == 0 || st.active.last() >= st.groups.len() {
                Outcome::Abort
            } else {
                run(re, s, closed(st), cache, f)
            },
            SpecInstruction::Recurse => match run(re, s, fresh(st.sp, st.start), Seq::empty(), f) {
                Outcome::Matched(st2) => run(re, s, moved(st, pc + 1, st2.sp as int), cache, f),
                Outcome::Failed => run_fail(re, s, st, cache, f),
                Outcome::Abort => Outcome::Abort,
                Outcome::OutOfFuel => Outcome::OutOfFuel,
            },
        }
    }
}

/// After an instruction failed: go back to the state saved last, else start afresh from
/// the position after the attempt's start while that position is within the input (its
/// end included), else the run fails.
pub open spec fn run_fail(
    re: Seq<SpecInstruction>,
    s: Seq<char>,
    st: SpecState,
    cache: Seq<SpecState>,
    fuel: nat,
) -> Outcome
    decreases fuel, 1int,
{
    if cache.len() > 0 {
        run(re, s, cache.last(), cache.drop_last(), fuel)
    } else if st.start + 1 <= s.len() {
        run(re, s, fresh((st.start + 1) as usize, (st.start + 1) as usize), cache, fuel)
    } else {
        Outcome::Failed
    }
}

/// A back reference `\k` to a group that has been closed over `(a, b)` reads, at position
/// `p`, exactly the characters `s[a..b]` that the group captured: where the input from
/// `p` holds them one by one, the machine goes on with the next instruction at
/// `p + (b - a)`; where it does not (a character differs, or the input ends first), the
/// instruction fails and the machine backtracks.
pub proof fn lemma_back_reference_step(
    re: Seq<SpecInstruction>,
    s: Seq<char>,
    st: SpecState,
    cache: Seq<SpecState>,
    fuel: nat,
    id: usize,
)
    requires
        st.pc < re.len(),
        fuel > 0,
        re[st.pc as int] == SpecInstruction::Group(id),
        1 <= id <= st.groups.len(),
        st.groups[id - 1].0 <= st.groups[id - 1].1 <= s.len(),
        st.sp <= s.len(),
    ensures
        ({
            let a = st.groups[id - 1].0 as int;
            let n = st.groups[id - 1].1 - a;
            let p = st.sp as int;
            run(re, s, st, cache, fuel) == if p + n <= s.len() && forall|k: int|
                0 <= k < n ==> #[trigger] s[p + k] == s[a + k] {
                run(re, s, moved(st, st.pc + 1, p + n), cache, (fuel - 1) as nat)
            } else {
                run_fail(re, s, st, cache, (fuel - 1) as nat)
            }
        }),
{
    let g = st.groups[id - 1];
    let a = g.0 as int;
    let n = g.1 - a;
    let p = st.sp as int;
    let same = p + n <= s.len() && forall|k: int| 0 <= k < n ==> #[trigger] s[p + k] == s[a + k];
    if same {
        assert forall|k: int| 0 <= k < n implies s.subrange(p, p + n)[k] == s.subrange(
            a,
            g.1 as int,
        )[k] by {
            assert(s[p + k] == s[a + k]);
        }
        assert(s.subrange(p, p + n) =~= s.subrange(a, g.1 as int));
    }
    if repeats_group(s, p, g) {
        assert forall|k: int| 0 <= k < n implies #[trigger] s[p + k] == s[a + k] by {
            assert(s.subrange(p, p + n)[k] == s.subrange(a, g.1 as int)[k]);
        }
    }
    assert(repeats_group(s, p, g) == same);
}

/// The greatest number of steps that [`Regex::is_match`] takes at each level.
pub open spec fn max_fuel() -> nat {
    u64::MAX as nat
}

/// The run of the program of `rx` on `string` from its start.
pub open spec fn outcome(rx: Seq<SpecInstruction>, string: Seq<char>) -> Outcome {
    run(rx, string, fresh(0, 0), Seq::empty(), max_fuel())
}

// ---------------------------------------------------------------------------
// executing the machine

proof fn lemma_class_in_set(set: Seq<SpecCharacter>, k: int, c: char)
    requires
        0 <= k < set.len(),
        class_matches(set[k], c),
    ensures
        exists|i: int| 0 <= i < set.len() && class_matches(#[trigger] set[i], c),
{
}

proof fn lemma_bracket_class(set: Seq<SpecCharacter>, b: bool, c: char)
    ensures
        class_matches(SpecCharacter::Bracket(set, b), c) == ((exists|i: int|
            0 <= i < set.len() && class_matches(#[trigger] set[i], c)) == b),
{
    let x = SpecCharacter::Bracket(set, b);
    assert(x->Bracket_0 == set && x->Bracket_1 == b);
}

impl Character {
    /// Whether the class matches the character `c`.
    pub fn is_match(&self, c: char) -> (r: bool)
        ensures
            r == class_matches(self@, c),
        decreases self,
    {
        proof {
            lemma_character_view(*self);
        }
        match self {
            Character::Anything => true,
            Character::Literal(v) => *v == c,
            Character::Space(b) => is_whitespace(c) == *b,
            Character::Digit(b) => is_ascii_digit(c) == *b,
            Character::Word(b) => (is_alphanumeric(c) || c == '_') == *b,
            Character::Range(l, u) => *l <= c && c <= *u,
            Character::Bracket(set, b) => {
                let ghost members = characters_view(set@);
                let mut found = false;
                let mut i: usize = 0;
                proof {
                    lemma_characters_view_push(set@, Character::Anything);
                }
                while i < set.len()
                    invariant_except_break
                        !found,
                    invariant
                        i <= set.len(),
                        members.len() == set@.len(),
                        *self == Character::Bracket(*set, *b),
                        members == characters_view(set@),
                        self@ == SpecCharacter::Bracket(members, *b),
                        forall|k: int| 0 <= k < i ==> !class_matches(#[trigger] members[k], c),
                    ensures
                        found ==> exists|k: int| 0 <= k < members.len() && class_matches(#[trigger] members[k], c),
                        !found ==> forall|k: int| 0 <= k < members.len() ==> !class_matches(#[trigger] members[k], c),
                    decreases set.len() - i,
                {
                    proof {
                        lemma_characters_view_index(set@, i as int);
                    }
                    assert(decreases_to!(*self => (*self)->Bracket_0));
                    if set[i].is_match(c) {
                        proof {
                            lemma_class_in_set(members, i as int, c);
                        }
                        found = true;
                        break;
                    }
                    i = i + 1;
                }
                let r = found == *b;
                assert(self@ == SpecCharacter::Bracket(members, *b));
                assert(found == (exists|k: int| 0 <= k < members.len() && class_matches(#[trigger] members[k], c)));
                proof {
                    lemma_bracket_class(members, *b, c);
                }
                r
            },
        }
    }
}

/// What the executable machine gives: a match (the state is then the one the run
/// ended in), no match, a step it cannot take, or no answer within the steps allowed.
#[derive(Debug, Clone, Copy, PartialEq, Eq, Structural)]
pub enum Verdict {
    Matched,
    Failed,
    Abort,
    OutOfFuel,
}

/// Whether `v`, with the state `st` it left, is what `o` says.
pub open spec fn verdict_is(v: Verdict, st: SpecState, o: Outcome) -> bool {
    match o {
        Outcome::Matched(end) => v == Verdict::Matched && st == end,
        Outcome::Failed => v == Verdict::Failed,
        Outcome::Abort => v == Verdict::Abort,
        Outcome::OutOfFuel => v == Verdict::OutOfFuel,
    }
}

/// A copy of the pairs in `v`.
fn copy_pairs(v: &Vec<(usize, usize)>) -> (r: Vec<(usize, usize)>)
    ensures
        r@ == v@,
{
    let mut r: Vec<(usize, usize)> = Vec::new();
    let mut i: usize = 0;
    while i < v.len()
        invariant
            i <= v.len(),
            r@ == v@.take(i as int),
        decreases v.len() - i,
    {
        r.push(v[i]);
        assert(r@ =~= v@.take(i + 1));
        i = i + 1;
    }
    assert(v@.take(v.len() as int) =~= v@);
    r
}

/// A copy of the numbers in `v`.
fn copy_numbers(v: &Vec<usize>) -> (r: Vec<usize>)
    ensures
        r@ == v@,
{
    let mut r: Vec<usize> = Vec::new();
    let mut i: usize = 0;
    while i < v.len()
        invariant
            i <= v.len(),
            r@ == v@.take(i as int),
        decreases v.len() - i,
    {
        r.push(v[i]);
        assert(r@ =~= v@.take(i + 1));
        i = i + 1;
    }
    assert(v@.take(v.len() as int) =~= v@);
    r
}

impl MatchState {
    /// A state at the first instruction, at position `sp` of an attempt that began at
    /// `start`, with no group.
    pub fn new(sp: usize, start: usize) -> (r: MatchState)
        ensures
            r@ == fresh(sp, start),
    {
        MatchState { pc: 0, sp, start, groups: Vec::new(), active_group: Vec::new() }
    }

    /// A copy of the state.
    fn snapshot(&self) -> (r: MatchState)
        ensures
            r@ == self@,
    {
        MatchState {
            pc: self.pc,
            sp: self.sp,
            start: self.start,
            groups: copy_pairs(&self.groups),
            active_group: copy_numbers(&self.active_group),
        }
    }

    /// Whether the position is at a word boundary of `string`.
    pub fn is_boundary(&self, string: &Input) -> (r: bool)
        ensures
            r == at_boundary(string@, self.sp as int),
    {
        if self.sp > 0 {
            match (string.get(self.sp - 1), string.get(self.sp)) {
                (Some(a), Some(b)) => return is_whitespace(a) != is_whitespace(b),
                _ => {},
            }
        }
        match string.get(self.sp) {
            Some(c) => !is_whitespace(c),
            None => true,
        }
    }

    /// After an instruction failed: takes the state saved last, else starts afresh from
    /// the position after the attempt's start while that position is within the input
    /// (its end included); `false` when neither is possible.
    fn backtrack(&mut self, cache: &mut Vec<MatchState>, string_length: usize) -> (r: bool)
        ensures
            old(cache)@.len() > 0 ==> r && final(self)@ == old(cache)@.last()@
                && final(cache)@ == old(cache)@.drop_last(),
            old(cache)@.len() == 0 ==> final(cache)@ == old(cache)@ && if old(self).start + 1 <= string_length {
                r && final(self)@ == fresh(
                    (old(self).start + 1) as usize,
                    (old(self).start + 1) as usize,
                )
            } else {
                !r
            },
    {
        match cache.pop() {
            Some(snapshot) => {
                *self = snapshot;
                true
            },
            None => {
                if self.start < string_length {
                    self.pc = 0;
                    self.groups.clear();
                    self.active_group.clear();
                    self.start = self.start + 1;
                    self.sp = self.start;
                    true
                } else {
                    false
                }
            },
        }
    }
}

impl MatchState {
    /// Runs `regex` on `string` from this state with no state saved, for at most `fuel`
    /// steps, and as many again inside each `(?R)`; on a match the state is the one
    /// the run ended in.
    #[verifier::spinoff_prover]
    pub fn is_match(&mut self, regex: &Vec<Instruction>, string: &Input, fuel: u64) -> (r: Verdict)
        ensures
            verdict_is(
                r,
                final(self)@,
                run(instructions_view(regex@), string@, old(self)@, Seq::empty(), fuel as nat),
            ),
        decreases fuel,
    {
        let ghost re = instructions_view(regex@);
        let ghost s = string@;
        let ghost target = run(re, s, self@, Seq::empty(), fuel as nat);
        let mut cache: Vec<MatchState> = Vec::new();
        let mut left = fuel;
        assert(states_view(cache@) =~= Seq::<SpecState>::empty());
        loop
            invariant
                left <= fuel,
                re == instructions_view(regex@),
                s == string@,
                run(re, s, self@, states_view(cache@), left as nat) == target,
                target == run(instructions_view(regex@), string@, old(self)@, Seq::empty(), fuel as nat),
            decreases left,
        {
            if self.pc >= regex.len() {
                return Verdict::Matched;
            }
            if left == 0 {
                return Verdict::OutOfFuel;
            }
            left = left - 1;
            let _n = string.len();
            let ghost st = self@;
            let ghost cv = states_view(cache@);
            let ghost pc = self.pc as int;
            let ghost sp = self.sp as int;
            assert(re[pc] == regex@[pc]@);
            let failed: bool;
            match &regex[self.pc] {
                Instruction::Start => {
                    if self.sp == 0 {
                        self.pc = self.pc + 1;
                        failed = false;
                    } else {
                        failed = true;
                    }
                },
                Instruction::End => {
                    if self.sp >= string.len() {
                        self.pc = self.pc + 1;
                        failed = false;
                    } else {
                        failed = true;
                    }
                },
                Instruction::Boundary(b) => {
                    if self.is_boundary(string) == *b {
                        self.pc = self.pc + 1;
                        failed = false;
                    } else {
                        failed = true;
                    }
                },
                Instruction::Is(pattern) => {
                    match string.get(self.sp) {
                        Some(c) => {
                            if pattern.is_match(c) {
                                self.pc = self.pc + 1;
                                self.sp = self.sp + 1;
                                failed = false;
                            } else {
                                failed = true;
                            }
                        },
                        None => {
                            failed = true;
                        },
                    }
                },
                Instruction::Split(jump) => {
                    if *jump > usize::MAX - self.pc {
                        return Verdict::Abort;
                    }
                    let mut snapshot = self.snapshot();
                    snapshot.pc = self.pc + *jump;
                    proof {
                        assert(states_view(cache@.push(snapshot)) =~= cv.push(snapshot@));
                    }
                    cache.push(snapshot);
                    self.pc = self.pc + 1;
                    failed = false;
                },
                Instruction::Repeat(num) => {
                    if *num > self.pc {
                        return Verdict::Abort;
                    }
                    self.pc = self.pc - *num;
                    failed = false;
                },
                Instruction::Skip(num) => {
                    if *num > usize::MAX - self.pc {
                        return Verdict::Abort;
                    }
                    self.pc = self.pc + *num;
                    failed = false;
                },
                Instruction::Group(id) => {
                    if *id == 0 {
                        return Verdict::Abort;
                    }
                    if *id - 1 < self.groups.len() {
                        let (a, b) = self.groups[*id - 1];
                        if !(a <= b && b <= string.len()) || self.sp > string.len() {
                            return Verdict::Abort;
                        }
                        let slice = string.char_slice(a, b);
                        if string.contains_at(self.sp, slice.as_slice()) {
                            self.pc = self.pc + 1;
                            self.sp = self.sp + (b - a);
                            failed = false;
                        } else {
                            failed = true;
                        }
                    } else {
                        self.pc = self.pc + 1;
                        failed = false;
                    }
                },
                Instruction::GroupStart => {
                    let sp = self.sp;
                    self.groups.push((sp, sp));
                    self.active_group.push(self.groups.len() - 1);
                    self.pc = self.pc + 1;
                    failed = false;
                },
                Instruction::GroupEnd => {
                    match self.active_group.pop() {
                        Some(pos) => {
                            if pos >= self.groups.len() {
                                return Verdict::Abort;
                            }
                            let (a, _) = self.groups[pos];
                            self.groups.set(pos, (a, self.sp));
                            self.pc = self.pc + 1;
                            failed = false;
                        },
                        None => return Verdict::Abort,
                    }
                },
                Instruction::Recurse => {
                    let mut state = MatchState::new(self.sp, self.start);
                    match state.is_match(regex, string, left) {
                        Verdict::Matched => {
                            self.sp = state.sp;
                            self.pc = self.pc + 1;
                            failed = false;
                        },
                        Verdict::Failed => {
                            failed = true;
                        },
                        Verdict::Abort => return Verdict::Abort,
                        Verdict::OutOfFuel => return Verdict::OutOfFuel,
                    }
                },
            }
            if failed {
                assert(self@ == st);
                assert(run(re, s, st, cv, (left + 1) as nat) == run_fail(re, s, st, cv, left as nat));
                let ghost old_cache = cache@;
                match self.backtrack(&mut cache, string.len()) {
                    true => {
                        proof {
                            if cv.len() > 0 {
                                assert(states_view(cache@) =~= cv.drop_last());
                                assert(cv.last() == old_cache.last()@);
                            }
                        }
                        assert(run_fail(re, s, st, cv, left as nat) == run(re, s, self@, states_view(cache@), left as nat));
                    },
                    false => return Verdict::Failed,
                }
            } else {
                assert(run(re, s, st, cv, (left + 1) as nat) == run(re, s, self@, states_view(cache@), left as nat));
            }
        }
    }
}

/// What [`Regex::captures`] gives for the outcome `o` of a run on `s`: on a match, the
/// part of `s` from the attempt's start to the position reached, then each group's
/// part in the order the groups were opened; nothing otherwise.
pub open spec fn spec_captures(o: Outcome, s: Seq<char>) -> Seq<Seq<char>> {
    match o {
        Outcome::Matched(st) => seq![s.subrange(st.start as int, st.sp as int)] + st.groups.map_values(
            |g: (usize, usize)| s.subrange(g.0 as int, g.1 as int),
        ),
        _ => Seq::empty(),
    }
}

/// Whether the run of `rx` on `string` finishes, with a match or without, within the
/// steps that [`Regex::is_match`] allows.
pub open spec fn finishes(rx: Seq<SpecInstruction>, string: Seq<char>) -> bool {
    outcome(rx, string) is Matched || outcome(rx, string) is Failed
}

impl Regex {
    /// Whether the program matches part of `string`: it runs from the first position,
    /// saving a state at each split to come back to when an instruction fails, and
    /// starting afresh one position further on when no state is left.
    pub fn is_match(&self, string: &str) -> (r: bool)
        requires
            finishes(self@, string@),
        ensures
            r == outcome(self@, string@) is Matched,
    {
        let mut state = MatchState::new(0, 0);
        let input = Input::new(string);
        let v = state.is_match(&self.instructions, &input, u64::MAX);
        match v {
            Verdict::Matched => true,
            _ => false,
        }
    }

    /// As [`Regex::is_match`], for at most `fuel` steps at each level of recursion:
    /// `None` where the machine meets a step it cannot take or needs more steps.
    pub fn is_match_within(&self, string: &str, fuel: u64) -> (r: Option<bool>)
        ensures
            r == (match run(self@, string@, fresh(0, 0), Seq::empty(), fuel as nat) {
                Outcome::Matched(_) => Some(true),
                Outcome::Failed => Some(false),
                _ => None,
            }),
    {
        let mut state = MatchState::new(0, 0);
        let input = Input::new(string);
        match state.is_match(&self.instructions, &input, fuel) {
            Verdict::Matched => Some(true),
            Verdict::Failed => Some(false),
            _ => None,
        }
    }

    /// On a match, the part of `string` that matched and then the part each group
    /// matched, in the order the groups were opened; nothing without a match. A match
    /// always lies within `string` ([`lemma_outcome_within`]), and in a program without
    /// `(?R)` each group ends at or after its start ([`lemma_outcome_ordered`]); a group
    /// that a `(?R)` closed before the position it opened at cannot be cut out, and such
    /// a match is left out by the precondition.
    pub fn captures(&mut self, string: &str) -> (r: Vec<String>)
        requires
            finishes(old(self)@, string@),
            outcome(old(self)@, string@) matches Outcome::Matched(st) ==> groups_ordered(st),
        ensures
            final(self)@ == old(self)@,
            r@.len() == spec_captures(outcome(old(self)@, string@), string@).len(),
            forall|i: int|
                0 <= i < r@.len() ==> #[trigger] r@[i]@ == spec_captures(
                    outcome(old(self)@, string@),
                    string@,
                )[i],
    {
        let ghost o = outcome(self@, string@);
        let ghost sp = spec_captures(o, string@);
        let mut state = MatchState::new(0, 0);
        let input = Input::new(string);
        let mut acc: Vec<String> = Vec::new();
        let _n = input.len();
        proof {
            lemma_outcome_within(self@, string@);
        }
        if state.is_match(&self.instructions, &input, u64::MAX) == Verdict::Matched {
            let first = input.string_slice(state.start, state.sp);
            acc.push(first);
            let mut i: usize = 0;
            while i < state.groups.len()
                invariant
                    o == Outcome::Matched(state@),
                    sp == spec_captures(o, string@),
                    input@ == string@,
                    within(state@, string@),
                    groups_ordered(state@),
                    i <= state.groups@.len(),
                    acc@.len() == i + 1,
                    forall|k: int| 0 <= k < acc@.len() ==> #[trigger] acc@[k]@ == sp[k],
                decreases state.groups@.len() - i,
            {
                let (a, b) = state.groups[i];
                assert(state.groups@[i as int].0 <= state.groups@[i as int].1 <= string@.len());
                let part = input.string_slice(a, b);
                acc.push(part);
                i = i + 1;
            }
        }
        acc
    }
}

// ---------------------------------------------------------------------------
// laws

/// More steps never change a run that finished: a run that gives an answer within
/// `fuel` steps gives the same answer with any more.
pub proof fn lemma_more_fuel(
    re: Seq<SpecInstruction>,
    s: Seq<char>,
    st: SpecState,
    cache: Seq<SpecState>,
    fuel: nat,
    more: nat,
)
    requires
        !(run(re, s, st, cache, fuel) is OutOfFuel),
        fuel <= more,
    ensures
        run(re, s, st, cache, more) == run(re, s, st, cache, fuel),
    decreases fuel, 0int,
{
    if st.pc >= re.len() || fuel == 0 {
    } else {
        let f = (fuel - 1) as nat;
        let g = (more - 1) as nat;
        let pc = st.pc as int;
        let sp = st.sp as int;
        match re[pc] {
            SpecInstruction::Start => if sp == 0 {
                lemma_more_fuel(re, s, moved(st, pc + 1, sp), cache, f, g);
            } else {
                lemma_more_fuel_fail(re, s, st, cache, f, g);
            },
            SpecInstruction::End => if sp >= s.len() {
                lemma_more_fuel(re, s, moved(st, pc + 1, sp), cache, f, g);
            } else {
                lemma_more_fuel_fail(re, s, st, cache, f, g);
            },
            SpecInstruction::Boundary(b) => if at_boundary(s, sp) == b {
                lemma_more_fuel(re, s, moved(st, pc + 1, sp), cache, f, g);
            } else {
                lemma_more_fuel_fail(re, s, st, cache, f, g);
            },
            SpecInstruction::Is(c) => if sp < s.len() && class_matches(c, s[sp]) {
                lemma_more_fuel(re, s, moved(st, pc + 1, sp + 1), cache, f, g);
            } else {
                lemma_more_fuel_fail(re, s, st, cache, f, g);
            },
            SpecInstruction::Split(j) => if pc + j <= usize::MAX {
                lemma_more_fuel(re, s, moved(st, pc + 1, sp), cache.push(moved(st, pc + j, sp)), f, g);
            },
            SpecInstruction::Repeat(n) => if n <= pc {
                lemma_more_fuel(re, s, moved(st, pc - n, sp), cache, f, g);
            },
            SpecInstruction::Skip(n) => if pc + n <= usize::MAX {
                lemma_more_fuel(re, s, moved(st, pc + n, sp), cache, f, g);
            },
            SpecInstruction::Group(id) => if id == 0 {
            } else if id - 1 >= st.groups.len() {
                lemma_more_fuel(re, s, moved(st, pc + 1, sp), cache, f, g);
            } else {
                let gr = st.groups[id - 1];
                if !(gr.0 <= gr.1 && gr.1 <= s.len()) || sp > s.len() {
                } else if repeats_group(s, sp, gr) {
                    lemma_more_fuel(re, s, moved(st, pc + 1, sp + (gr.1 - gr.0)), cache, f, g);
                } else {
                    lemma_more_fuel_fail(re, s, st, cache, f, g);
                }
            },
            SpecInstruction::GroupStart => {
                lemma_more_fuel(re, s, opened(st), cache, f, g);
            },
            SpecInstruction::GroupEnd => if st.active.len() == 0 || st.active.last() >= st.groups.len() {
            } else {
                lemma_more_fuel(re, s, closed(st), cache, f, g);
            },
            SpecInstruction::Recurse => {
                let inner = run(re, s, fresh(st.sp, st.start), Seq::empty(), f);
                if !(inner is OutOfFuel) {
                    lemma_more_fuel(re, s, fresh(st.sp, st.start), Seq::empty(), f, g);
                    match inner {
                        Outcome::Matched(st2) => {
                            lemma_more_fuel(re, s, moved(st, pc + 1, st2.sp as int), cache, f, g);
                        },
                        Outcome::Failed => {
                            lemma_more_fuel_fail(re, s, st, cache, f, g);
                        },
                        _ => {},
                    }
                }
            },
        }
    }
}

/// [`lemma_more_fuel`] after an instruction failed.
pub proof fn lemma_more_fuel_fail(
    re: Seq<SpecInstruction>,
    s: Seq<char>,
    st: SpecState,
    cache: Seq<SpecState>,
    fuel: nat,
    more: nat,
)
    requires
        !(run_fail(re, s, st, cache, fuel) is OutOfFuel),
        fuel <= more,
    ensures
        run_fail(re, s, st, cache, more) == run_fail(re, s, st, cache, fuel),
    decreases fuel, 1int,
{
    if cache.len() > 0 {
        lemma_more_fuel(re, s, cache.last(), cache.drop_last(), fuel, more);
    } else if st.start + 1 <= s.len() {
        lemma_more_fuel(
            re,
            s,
            fresh((st.start + 1) as usize, (st.start + 1) as usize),
            cache,
            fuel,
            more,
        );
    }
}

/// Whether the state `st` lies within the input `s`: its attempt's start, its position
/// and the bounds of each group are positions of `s` (its end included), and no group
/// opens before the attempt's start.
pub open spec fn within(st: SpecState, s: Seq<char>) -> bool {
    &&& st.start <= st.sp <= s.len()
    &&& forall|i: int|
        0 <= i < st.groups.len() ==> st.start <= (#[trigger] st.groups[i]).0 <= s.len()
            && st.groups[i].1 <= s.len()
}

/// Whether each group of `st` ends where it starts or further on.
pub open spec fn groups_ordered(st: SpecState) -> bool {
    forall|i: int| 0 <= i < st.groups.len() ==> (#[trigger] st.groups[i]).0 <= st.groups[i].1
}

/// A run from a state within the input, with saved states within it, that matches ends
/// in a state within the input, in an attempt that starts no earlier than `low` when
/// all those states do.
pub proof fn lemma_run_within(
    re: Seq<SpecInstruction>,
    s: Seq<char>,
    st: SpecState,
    cache: Seq<SpecState>,
    fuel: nat,
    low: int,
)
    requires
        s.len() <= usize::MAX,
        within(st, s),
        low <= st.start,
        forall|i: int| 0 <= i < cache.len() ==> within(#[trigger] cache[i], s) && low <= cache[i].start,
    ensures
        run(re, s, st, cache, fuel) matches Outcome::Matched(end) ==> within(end, s) && low <= end.start,
    decreases fuel, 0int,
{
    if st.pc >= re.len() || fuel == 0 {
    } else {
        let f = (fuel - 1) as nat;
        let pc = st.pc as int;
        let sp = st.sp as int;
        match re[pc] {
            SpecInstruction::Start => if sp == 0 {
                lemma_run_within(re, s, moved(st, pc + 1, sp), cache, f, low);
            } else {
                lemma_run_fail_within(re, s, st, cache, f, low);
            },
            SpecInstruction::End => if sp >= s.len() {
                lemma_run_within(re, s, moved(st, pc + 1, sp), cache, f, low);
            } else {
                lemma_run_fail_within(re, s, st, cache, f, low);
            },
            SpecInstruction::Boundary(b) => if at_boundary(s, sp) == b {
                lemma_run_within(re, s, moved(st, pc + 1, sp), cache, f, low);
            } else {
                lemma_run_fail_within(re, s, st, cache, f, low);
            },
            SpecInstruction::Is(c) => if sp < s.len() && class_matches(c, s[sp]) {
                lemma_run_within(re, s, moved(st, pc + 1, sp + 1), cache, f, low);
            } else {
                lemma_run_fail_within(re, s, st, cache, f, low);
            },
            SpecInstruction::Split(j) => if pc + j <= usize::MAX {
                let c2 = cache.push(moved(st, pc + j, sp));
                assert forall|i: int| 0 <= i < c2.len() implies within(#[trigger] c2[i], s)
                    && low <= c2[i].start by {
                    if i < cache.len() {
                        assert(c2[i] == cache[i]);
                    }
                }
                lemma_run_within(re, s, moved(st, pc + 1, sp), c2, f, low);
            },
            SpecInstruction::Repeat(n) => if n <= pc {
                lemma_run_within(re, s, moved(st, pc - n, sp), cache, f, low);
            },
            SpecInstruction::Skip(n) => if pc + n <= usize::MAX {
                lemma_run_within(re, s, moved(st, pc + n, sp), cache, f, low);
            },
            SpecInstruction::Group(id) => if id != 0 {
                if id - 1 >= st.groups.len() {
                    lemma_run_within(re, s, moved(st, pc + 1, sp), cache, f, low);
                } else {
                    let g = st.groups[id - 1];
                    if !(g.0 <= g.1 && g.1 <= s.len()) || sp > s.len() {
                    } else if repeats_group(s, sp, g) {
                        lemma_run_within(re, s, moved(st, pc + 1, sp + (g.1 - g.0)), cache, f, low);
                    } else {
                        lemma_run_fail_within(re, s, st, cache, f, low);
                    }
                }
            },
            SpecInstruction::GroupStart => {
                let o = opened(st);
                assert forall|i: int| 0 <= i < o.groups.len() implies o.start <= (
                #[trigger] o.groups[i]).0 <= s.len() && o.groups[i].1 <= s.len() by {
                    if i < st.groups.len() {
                        assert(o.groups[i] == st.groups[i]);
                    }
                }
                lemma_run_within(re, s, o, cache, f, low);
            },
            SpecInstruction::GroupEnd => if !(st.active.len() == 0 || st.active.last() >= st.groups.len()) {
                let c = closed(st);
                assert forall|i: int| 0 <= i < c.groups.len() implies c.start <= (
                #[trigger] c.groups[i]).0 <= s.len() && c.groups[i].1 <= s.len() by {
                    assert(st.start <= st.groups[i].0);
                }
                lemma_run_within(re, s, c, cache, f, low);
            },
            SpecInstruction::Recurse => {
                let inner = fresh(st.sp, st.start);
                lemma_run_within(re, s, inner, Seq::empty(), f, st.start as int);
                match run(re, s, inner, Seq::empty(), f) {
                    Outcome::Matched(st2) => {
                        lemma_run_within(re, s, moved(st, pc + 1, st2.sp as int), cache, f, low);
                    },
                    Outcome::Failed => {
                        lemma_run_fail_within(re, s, st, cache, f, low);
                    },
                    _ => {},
                }
            },
        }
    }
}

/// [`lemma_run_within`] after an instruction failed.
pub proof fn lemma_run_fail_within(
    re: Seq<SpecInstruction>,
    s: Seq<char>,
    st: SpecState,
    cache: Seq<SpecState>,
    fuel: nat,
    low: int,
)
    requires
        s.len() <= usize::MAX,
        within(st, s),
        low <= st.start,
        forall|i: int| 0 <= i < cache.len() ==> within(#[trigger] cache[i], s) && low <= cache[i].start,
    ensures
        run_fail(re, s, st, cache, fuel) matches Outcome::Matched(end) ==> within(end, s) && low
            <= end.start,
    decreases fuel, 1int,
{
    if cache.len() > 0 {
        let c2 = cache.drop_last();
        assert(within(cache[cache.len() - 1], s));
        assert forall|i: int| 0 <= i < c2.len() implies within(#[trigger] c2[i], s) && low
            <= c2[i].start by {
            assert(c2[i] == cache[i]);
        }
        lemma_run_within(re, s, cache.last(), c2, fuel, low);
    } else if st.start + 1 <= s.len() {
        lemma_run_within(
            re,
            s,
            fresh((st.start + 1) as usize, (st.start + 1) as usize),
            cache,
            fuel,
            low,
        );
    }
}

/// Whether `re` holds no `(?R)`.
pub open spec fn no_recurse(re: Seq<SpecInstruction>) -> bool {
    forall|k: int| 0 <= k < re.len() ==> !(#[trigger] re[k] is Recurse)
}

/// Whether each group of `st` ends at or after its start, and no later than its position.
pub open spec fn ends_ordered(st: SpecState) -> bool {
    forall|i: int| 0 <= i < st.groups.len() ==> (#[trigger] st.groups[i]).0 <= st.groups[i].1 <= st.sp
}

/// Without `(?R)`, a run from a state whose groups end in order, with saved states whose
/// groups do too, that matches ends in such a state.
pub proof fn lemma_run_ordered(
    re: Seq<SpecInstruction>,
    s: Seq<char>,
    st: SpecState,
    cache: Seq<SpecState>,
    fuel: nat,
    low: int,
)
    requires
        s.len() <= usize::MAX,
        within(st, s),
        low <= st.start,
        forall|i: int| 0 <= i < cache.len() ==> within(#[trigger] cache[i], s) && low <= cache[i].start,
        no_recurse(re),
        ends_ordered(st),
        forall|i: int| 0 <= i < cache.len() ==> ends_ordered(#[trigger] cache[i]),
    ensures
        run(re, s, st, cache, fuel) matches Outcome::Matched(end) ==> within(end, s) && low <= end.start
            && ends_ordered(end),
    decreases fuel, 0int,
{
    if st.pc >= re.len() || fuel == 0 {
    } else {
        let f = (fuel - 1) as nat;
        let pc = st.pc as int;
        let sp = st.sp as int;
        match re[pc] {
            SpecInstruction::Start => if sp == 0 {
                lemma_run_ordered(re, s, moved(st, pc + 1, sp), cache, f, low);
            } else {
                lemma_run_fail_ordered(re, s, st, cache, f, low);
            },
            SpecInstruction::End => if sp >= s.len() {
                lemma_run_ordered(re, s, moved(st, pc + 1, sp), cache, f, low);
            } else {
                lemma_run_fail_ordered(re, s, st, cache, f, low);
            },
            SpecInstruction::Boundary(b) => if at_boundary(s, sp) == b {
                lemma_run_ordered(re, s, moved(st, pc + 1, sp), cache, f, low);
            } else {
                lemma_run_fail_ordered(re, s, st, cache, f, low);
            },
            SpecInstruction::Is(c) => if sp < s.len() && class_matches(c, s[sp]) {
                lemma_run_ordered(re, s, moved(st, pc + 1, sp + 1), cache, f, low);
            } else {
                lemma_run_fail_ordered(re, s, st, cache, f, low);
            },
            SpecInstruction::Split(j) => if pc + j <= usize::MAX {
                let c2 = cache.push(moved(st, pc + j, sp));
                assert forall|i: int| 0 <= i < c2.len() implies within(#[trigger] c2[i], s)
                    && low <= c2[i].start by {
                    if i < cache.len() {
                        assert(c2[i] == cache[i]);
                    }
                }
                assert forall|i: int| 0 <= i < c2.len() implies ends_ordered(#[trigger] c2[i]) by {
                    if i < cache.len() {
                        assert(c2[i] == cache[i]);
                    }
                }
                lemma_run_ordered(re, s, moved(st, pc + 1, sp), c2, f, low);
            },
            SpecInstruction::Repeat(n) => if n <= pc {
                lemma_run_ordered(re, s, moved(st, pc - n, sp), cache, f, low);
            },
            SpecInstruction::Skip(n) => if pc + n <= usize::MAX {
                lemma_run_ordered(re, s, moved(st, pc + n, sp), cache, f, low);
            },
            SpecInstruction::Group(id) => if id != 0 {
                if id - 1 >= st.groups.len() {
                    lemma_run_ordered(re, s, moved(st, pc + 1, sp), cache, f, low);
                } else {
                    let g = st.groups[id - 1];
                    if !(g.0 <= g.1 && g.1 <= s.len()) || sp > s.len() {
                    } else if repeats_group(s, sp, g) {
                        lemma_run_ordered(re, s, moved(st, pc + 1, sp + (g.1 - g.0)), cache, f, low);
                    } else {
                        lemma_run_fail_ordered(re, s, st, cache, f, low);
                    }
                }
            },
            SpecInstruction::GroupStart => {
                let o = opened(st);
                assert forall|i: int| 0 <= i < o.groups.len() implies o.start <= (
                #[trigger] o.groups[i]).0 <= s.len() && o.groups[i].1 <= s.len() by {
                    if i < st.groups.len() {
                        assert(o.groups[i] == st.groups[i]);
                    }
                }
                assert forall|i: int| 0 <= i < o.groups.len() implies (#[trigger] o.groups[i]).0
                    <= o.groups[i].1 <= o.sp by {
                    if i < st.groups.len() {
                        assert(o.groups[i] == st.groups[i]);
                    }
                }
                lemma_run_ordered(re, s, o, cache, f, low);
            },
            SpecInstruction::GroupEnd => if !(st.active.len() == 0 || st.active.last() >= st.groups.len()) {
                let c = closed(st);
                assert forall|i: int| 0 <= i < c.groups.len() implies c.start <= (
                #[trigger] c.groups[i]).0 <= s.len() && c.groups[i].1 <= s.len() by {
                    assert(st.start <= st.groups[i].0);
                }
                assert forall|i: int| 0 <= i < c.groups.len() implies (#[trigger] c.groups[i]).0
                    <= c.groups[i].1 <= c.sp by {
                    assert(st.groups[i].0 <= st.groups[i].1 <= st.sp);
                }
                lemma_run_ordered(re, s, c, cache, f, low);
            },
            SpecInstruction::Recurse => {
                assert(!(re[pc] is Recurse));
            },
        }
    }
}

/// [`lemma_run_ordered`] after an instruction failed.
pub proof fn lemma_run_fail_ordered(
    re: Seq<SpecInstruction>,
    s: Seq<char>,
    st: SpecState,
    cache: Seq<SpecState>,
    fuel: nat,
    low: int,
)
    requires
        s.len() <= usize::MAX,
        within(st, s),
        low <= st.start,
        forall|i: int| 0 <= i < cache.len() ==> within(#[trigger] cache[i], s) && low <= cache[i].start,
        no_recurse(re),
        ends_ordered(st),
        forall|i: int| 0 <= i < cache.len() ==> ends_ordered(#[trigger] cache[i]),
    ensures
        run_fail(re, s, st, cache, fuel) matches Outcome::Matched(end) ==> within(end, s) && low
            <= end.start && ends_ordered(end),
    decreases fuel, 1int,
{
    if cache.len() > 0 {
        let c2 = cache.drop_last();
        assert(within(cache[cache.len() - 1], s));
        assert forall|i: int| 0 <= i < c2.len() implies within(#[trigger] c2[i], s) && low
            <= c2[i].start by {
            assert(c2[i] == cache[i]);
        }
        assert(ends_ordered(cache[cache.len() - 1]));
        assert forall|i: int| 0 <= i < c2.len() implies ends_ordered(#[trigger] c2[i]) by {
            assert(c2[i] == cache[i]);
        }
        lemma_run_ordered(re, s, cache.last(), c2, fuel, low);
    } else if st.start + 1 <= s.len() {
        lemma_run_ordered(
            re,
            s,
            fresh((st.start + 1) as usize, (st.start + 1) as usize),
            cache,
            fuel,
            low,
        );
    }
}

/// In a program without `(?R)`, a run that matches ends with each group starting no
/// earlier than the attempt's start, ending at or after its start, and ending no later
/// than the end of the match.
pub proof fn lemma_outcome_ordered(rx: Seq<SpecInstruction>, string: Seq<char>)
    requires
        no_recurse(rx),
        string.len() <= usize::MAX,
    ensures
        outcome(rx, string) matches Outcome::Matched(end) ==> within(end, string) && ends_ordered(end)
            && groups_ordered(end),
{
    lemma_run_ordered(rx, string, fresh(0, 0), Seq::empty(), max_fuel(), 0);
}

/// A run of the program of `rx` on `string` that matches ends within `string`.
pub proof fn lemma_outcome_within(rx: Seq<SpecInstruction>, string: Seq<char>)
    requires
        string.len() <= usize::MAX,
    ensures
        outcome(rx, string) matches Outcome::Matched(end) ==> within(end, string),
{
    lemma_run_within(rx, string, fresh(0, 0), Seq::empty(), max_fuel(), 0);
}

/// The machine and the automaton agree on word boundaries: a `\b` (or `\B`)
/// instruction lets a run go on at a position exactly where the automaton's guard for
/// it holds.
pub proof fn lemma_boundary_agrees(s: Seq<char>, sp: int, b: bool)
    ensures
        (at_boundary(s, sp) == b) == crate::matcher::guard_holds(crate::types::Boundary::Word(b), s, sp),
{
}

/// The program of `rx` matches `string` exactly where it yields captures.
pub proof fn lemma_captures_iff_match(rx: Seq<SpecInstruction>, string: Seq<char>)
    ensures
        spec_captures(outcome(rx, string), string).len() > 0 <==> outcome(rx, string) is Matched,
{
}

/// The empty program matches every input, with an empty part at its start.
pub proof fn lemma_empty_program_matches(string: Seq<char>)
    ensures
        outcome(Seq::empty(), string) == Outcome::Matched(fresh(0, 0)),
        spec_captures(outcome(Seq::empty(), string), string) == seq![Seq::<char>::empty()],
{
    let st = fresh(0, 0);
    assert(string.subrange(0, 0) =~= Seq::<char>::empty());
    assert(st.groups.map_values(|g: (usize, usize)| string.subrange(g.0 as int, g.1 as int))
        =~= Seq::<Seq<char>>::empty());
    assert(spec_captures(outcome(Seq::empty(), string), string) =~= seq![Seq::<char>::empty()]);
}

// ---------------------------------------------------------------------------
// the search, one start position after the other

/// How one attempt of the machine ends: a match, a failure with the steps it left
/// unused, a step it cannot take, or no answer within the steps allowed.
pub enum Attempt {
    Matched(SpecState),
    Failed(nat),
    Abort,
    OutOfFuel,
}

/// One attempt: the run of [`run`] from `st`, except that when an instruction fails and
/// no saved state is left, the attempt fails instead of starting afresh further on.
pub open spec fn attempt(
    re: Seq<SpecInstruction>,
    s: Seq<char>,
    st: SpecState,
    cache: Seq<SpecState>,
    fuel: nat,
) -> Attempt
    decreases fuel, 0int,
{
    if st.pc >= re.len() {
        Attempt::Matched(st)
    } else if fuel == 0 {
        Attempt::OutOfFuel
    } else {
        let f = (fuel - 1) as nat;
        let pc = st.pc as int;
        let sp = st.sp as int;
        match re[pc] {
            SpecInstruction::Start => if sp == 0 {
                attempt(re, s, moved(st, pc + 1, sp), cache, f)
            } else {
                attempt_fail(re, s, st, cache, f)
            },
            SpecInstruction::End => if sp >= s.len() {
                attempt(re, s, moved(st, pc + 1, sp), cache, f)
            } else {
                attempt_fail(re, s, st, cache, f)
            },
            SpecInstruction::Boundary(b) => if at_boundary(s, sp) == b {
                attempt(re, s, moved(st, pc + 1, sp), cache, f)
            } else {
                attempt_fail(re, s, st, cache, f)
            },
            SpecInstruction::Is(c) => if sp < s.len() && class_matches(c, s[sp]) {
                attempt(re, s, moved(st, pc + 1, sp + 1), cache, f)
            } else {
                attempt_fail(re, s, st, cache, f)
            },
            SpecInstruction::Split(j) => if pc + j > usize::MAX {
                Attempt::Abort
            } else {
                attempt(re, s, moved(st, pc + 1, sp), cache.push(moved(st, pc + j, sp)), f)
            },
            SpecInstruction::Repeat(n) => if n > pc {
                Attempt::Abort
            } else {
                attempt(re, s, moved(st, pc - n, sp), cache, f)
            },
            SpecInstruction::Skip(n) => if pc + n > usize::MAX {
                Attempt::Abort
            } else {
                attempt(re, s, moved(st, pc + n, sp), cache, f)
            },
            SpecInstruction::Group(id) => if id == 0 {
                Attempt::Abort
            } else if id - 1 >= st.groups.len() {
                attempt(re, s, moved(st, pc + 1, sp), cache, f)
            } else {
                let g = st.groups[id - 1];
                if !(g.0 <= g.1 && g.1 <= s.len()) || sp > s.len() {
                    Attempt::Abort
                } else if repeats_group(s, sp, g) {
                    attempt(re, s, moved(st, pc + 1, sp + (g.1 - g.0)), cache, f)
                } else {
                    attempt_fail(re, s, st, cache, f)
                }
            },
            SpecInstruction::GroupStart => attempt(re, s, opened(st), cache, f),
            SpecInstruction::GroupEnd => if st.active.len() == 0 || st.active.last() >= st.groups.len() {
                Attempt::Abort
            } else {
                attempt(re, s, closed(st), cache, f)
            },
            SpecInstruction::Recurse => match run(re, s, fresh(st.sp, st.start), Seq::empty(), f) {
                Outcome::Matched(st2) => attempt(re, s, moved(st, pc + 1, st2.sp as int), cache, f),
                Outcome::Failed => attempt_fail(re, s, st, cache, f),
                Outcome::Abort => Attempt::Abort,
                Outcome::OutOfFuel => Attempt::OutOfFuel,
            },
        }
    }
}

/// After an instruction of an attempt failed: go back to the state saved last, else the
/// attempt fails with the steps that are left.
pub open spec fn attempt_fail(
    re: Seq<SpecInstruction>,
    s: Seq<char>,
    st: SpecState,
    cache: Seq<SpecState>,
    fuel: nat,
) -> Attempt
    decreases fuel, 1int,
{
    if cache.len() > 0 {
        attempt(re, s, cache.last(), cache.drop_last(), fuel)
    } else {
        Attempt::Failed(fuel)
    }
}

/// What the run makes of an attempt from a position `start`: after a failure, the run
/// from the next position with the steps the attempt left.
pub open spec fn after_attempt(re: Seq<SpecInstruction>, s: Seq<char>, start: int, a: Attempt) -> Outcome {
    match a {
        Attempt::Matched(end) => Outcome::Matched(end),
        Attempt::Failed(left) => if start + 1 <= s.len() {
            run(re, s, fresh((start + 1) as usize, (start + 1) as usize), Seq::empty(), left)
        } else {
            Outcome::Failed
        },
        Attempt::Abort => Outcome::Abort,
        Attempt::OutOfFuel => Outcome::OutOfFuel,
    }
}

/// Whether every saved state belongs to the attempt that starts at `start`.
pub open spec fn same_start(cache: Seq<SpecState>, start: usize) -> bool {
    forall|k: int| 0 <= k < cache.len() ==> (#[trigger] cache[k]).start == start
}

/// The run of the machine is its attempts, one after the other: an attempt that fails
/// hands the steps it left to the run from the next position.
pub proof fn lemma_run_attempts(
    re: Seq<SpecInstruction>,
    s: Seq<char>,
    st: SpecState,
    cache: Seq<SpecState>,
    fuel: nat,
)
    requires
        same_start(cache, st.start),
    ensures
        run(re, s, st, cache, fuel) == after_attempt(re, s, st.start as int, attempt(re, s, st, cache, fuel)),
    decreases fuel, 0int,
{
    if st.pc >= re.len() || fuel == 0 {
    } else {
        let f = (fuel - 1) as nat;
        let pc = st.pc as int;
        let sp = st.sp as int;
        match re[pc] {
            SpecInstruction::Start => if sp == 0 {
                lemma_run_attempts(re, s, moved(st, pc + 1, sp), cache, f);
            } else {
                lemma_run_attempts_fail(re, s, st, cache, f);
            },
            SpecInstruction::End => if sp >= s.len() {
                lemma_run_attempts(re, s, moved(st, pc + 1, sp), cache, f);
            } else {
                lemma_run_attempts_fail(re, s, st, cache, f);
            },
            SpecInstruction::Boundary(b) => if at_boundary(s, sp) == b {
                lemma_run_attempts(re, s, moved(st, pc + 1, sp), cache, f);
            } else {
                lemma_run_attempts_fail(re, s, st, cache, f);
            },
            SpecInstruction::Is(c) => if sp < s.len() && class_matches(c, s[sp]) {
                lemma_run_attempts(re, s, moved(st, pc + 1, sp + 1), cache, f);
            } else {
                lemma_run_attempts_fail(re, s, st, cache, f);
            },
            SpecInstruction::Split(j) => if pc + j <= usize::MAX {
                let c2 = cache.push(moved(st, pc + j, sp));
                assert forall|k: int| 0 <= k < c2.len() implies (#[trigger] c2[k]).start == st.start by {
                    if k < cache.len() {
                        assert(c2[k] == cache[k]);
                    }
                }
                lemma_run_attempts(re, s, moved(st, pc + 1, sp), c2, f);
            },
            SpecInstruction::Repeat(n) => if n <= pc {
                lemma_run_attempts(re, s, moved(st, pc - n, sp), cache, f);
            },
            SpecInstruction::Skip(n) => if pc + n <= usize::MAX {
                lemma_run_attempts(re, s, moved(st, pc + n, sp), cache, f);
            },
            SpecInstruction::Group(id) => if id != 0 {
                if id - 1 >= st.groups.len() {
                    lemma_run_attempts(re, s, moved(st, pc + 1, sp), cache, f);
                } else {
                    let gr = st.groups[id - 1];
                    if !(gr.0 <= gr.1 && gr.1 <= s.len()) || sp > s.len() {
                    } else if repeats_group(s, sp, gr) {
                        lemma_run_attempts(re, s, moved(st, pc + 1, sp + (gr.1 - gr.0)), cache, f);
                    } else {
                        lemma_run_attempts_fail(re, s, st, cache, f);
                    }
                }
            },
            SpecInstruction::GroupStart => {
                lemma_run_attempts(re, s, opened(st), cache, f);
            },
            SpecInstruction::GroupEnd => if !(st.active.len() == 0 || st.active.last() >= st.groups.len()) {
                lemma_run_attempts(re, s, closed(st), cache, f);
            },
            SpecInstruction::Recurse => {
                match run(re, s, fresh(st.sp, st.start), Seq::empty(), f) {
                    Outcome::Matched(st2) => {
                        lemma_run_attempts(re, s, moved(st, pc + 1, st2.sp as int), cache, f);
                    },
                    Outcome::Failed => {
                        lemma_run_attempts_fail(re, s, st, cache, f);
                    },
                    _ => {},
                }
            },
        }
    }
}

/// [`lemma_run_attempts`] after an instruction failed.
pub proof fn lemma_run_attempts_fail(
    re: Seq<SpecInstruction>,
    s: Seq<char>,
    st: SpecState,
    cache: Seq<SpecState>,
    fuel: nat,
)
    requires
        same_start(cache, st.start),
    ensures
        run_fail(re, s, st, cache, fuel) == after_attempt(
            re,
            s,
            st.start as int,
            attempt_fail(re, s, st, cache, fuel),
        ),
    decreases fuel, 1int,
{
    if cache.len() > 0 {
        let c2 = cache.drop_last();
        assert(cache[cache.len() - 1].start == st.start);
        assert forall|k: int| 0 <= k < c2.len() implies (#[trigger] c2[k]).start == cache.last().start by {
            assert(c2[k] == cache[k]);
        }
        lemma_run_attempts(re, s, cache.last(), c2, fuel);
    } else {
        assert(cache =~= Seq::<SpecState>::empty());
    }
}

/// The attempt `a` given `d` more steps: a failure leaves `d` more unused.
pub open spec fn shifted(a: Attempt, d: nat) -> Attempt {
    match a {
        Attempt::Failed(left) => Attempt::Failed(left + d),
        _ => a,
    }
}

/// More steps never change how an attempt that gave an answer ends, but for the steps a
/// failure leaves.
pub proof fn lemma_attempt_more_fuel(
    re: Seq<SpecInstruction>,
    s: Seq<char>,
    st: SpecState,
    cache: Seq<SpecState>,
    fuel: nat,
    more: nat,
)
    requires
        !(attempt(re, s, st, cache, fuel) is OutOfFuel),
        fuel <= more,
    ensures
        attempt(re, s, st, cache, more) == shifted(attempt(re, s, st, cache, fuel), (more - fuel) as nat),
    decreases fuel, 0int,
{
    if st.pc >= re.len() || fuel == 0 {
    } else {
        let f = (fuel - 1) as nat;
        let g = (more - 1) as nat;
        let pc = st.pc as int;
        let sp = st.sp as int;
        match re[pc] {
            SpecInstruction::Start => if sp == 0 {
                lemma_attempt_more_fuel(re, s, moved(st, pc + 1, sp), cache, f, g);
            } else {
                lemma_attempt_more_fuel_fail(re, s, st, cache, f, g);
            },
            SpecInstruction::End => if sp >= s.len() {
                lemma_attempt_more_fuel(re, s, moved(st, pc + 1, sp), cache, f, g);
            } else {
                lemma_attempt_more_fuel_fail(re, s, st, cache, f, g);
            },
            SpecInstruction::Boundary(b) => if at_boundary(s, sp) == b {
                lemma_attempt_more_fuel(re, s, moved(st, pc + 1, sp), cache, f, g);
            } else {
                lemma_attempt_more_fuel_fail(re, s, st, cache, f, g);
            },
            SpecInstruction::Is(c) => if sp < s.len() && class_matches(c, s[sp]) {
                lemma_attempt_more_fuel(re, s, moved(st, pc + 1, sp + 1), cache, f, g);
            } else {
                lemma_attempt_more_fuel_fail(re, s, st, cache, f, g);
            },
            SpecInstruction::Split(j) => if pc + j <= usize::MAX {
                lemma_attempt_more_fuel(re, s, moved(st, pc + 1, sp), cache.push(moved(st, pc + j, sp)), f, g);
            },
            SpecInstruction::Repeat(n) => if n <= pc {
                lemma_attempt_more_fuel(re, s, moved(st, pc - n, sp), cache, f, g);
            },
            SpecInstruction::Skip(n) => if pc + n <= usize::MAX {
                lemma_attempt_more_fuel(re, s, moved(st, pc + n, sp), cache, f, g);
            },
            SpecInstruction::Group(id) => if id == 0 {
            } else if id - 1 >= st.groups.len() {
                lemma_attempt_more_fuel(re, s, moved(st, pc + 1, sp), cache, f, g);
            } else {
                let gr = st.groups[id - 1];
                if !(gr.0 <= gr.1 && gr.1 <= s.len()) || sp > s.len() {
                } else if repeats_group(s, sp, gr) {
                    lemma_attempt_more_fuel(re, s, moved(st, pc + 1, sp + (gr.1 - gr.0)), cache, f, g);
                } else {
                    lemma_attempt_more_fuel_fail(re, s, st, cache, f, g);
                }
            },
            SpecInstruction::GroupStart => {
                lemma_attempt_more_fuel(re, s, opened(st), cache, f, g);
            },
            SpecInstruction::GroupEnd => if st.active.len() == 0 || st.active.last() >= st.groups.len() {
            } else {
                lemma_attempt_more_fuel(re, s, closed(st), cache, f, g);
            },
            SpecInstruction::Recurse => {
                let inner = run(re, s, fresh(st.sp, st.start), Seq::empty(), f);
                if !(inner is OutOfFuel) {
                    lemma_more_fuel(re, s, fresh(st.sp, st.start), Seq::empty(), f, g);
                    match inner {
                        Outcome::Matched(st2) => {
                            lemma_attempt_more_fuel(re, s, moved(st, pc + 1, st2.sp as int), cache, f, g);
                        },
                        Outcome::Failed => {
                            lemma_attempt_more_fuel_fail(re, s, st, cache, f, g);
                        },
                        _ => {},
                    }
                }
            },
        }
    }
}

/// [`lemma_attempt_more_fuel`] after an instruction failed.
pub proof fn lemma_attempt_more_fuel_fail(
    re: Seq<SpecInstruction>,
    s: Seq<char>,
    st: SpecState,
    cache: Seq<SpecState>,
    fuel: nat,
    more: nat,
)
    requires
        !(attempt_fail(re, s, st, cache, fuel) is OutOfFuel),
        fuel <= more,
    ensures
        attempt_fail(re, s, st, cache, more) == shifted(
            attempt_fail(re, s, st, cache, fuel),
            (more - fuel) as nat,
        ),
    decreases fuel, 1int,
{
    if cache.len() > 0 {
        lemma_attempt_more_fuel(re, s, cache.last(), cache.drop_last(), fuel, more);
    }
}

/// Whether the attempt from position `j` of `s` matches with some number of steps.
pub open spec fn attempt_matches(re: Seq<SpecInstruction>, s: Seq<char>, j: int) -> bool {
    exists|f: nat| #[trigger] attempt(re, s, fresh(j as usize, j as usize), Seq::empty(), f) is Matched
}

proof fn lemma_search(re: Seq<SpecInstruction>, s: Seq<char>, i: int, fuel: nat)
    requires
        0 <= i <= s.len(),
        s.len() <= usize::MAX,
        run(re, s, fresh(i as usize, i as usize), Seq::empty(), fuel) is Matched || run(
            re,
            s,
            fresh(i as usize, i as usize),
            Seq::empty(),
            fuel,
        ) is Failed,
    ensures
        (run(re, s, fresh(i as usize, i as usize), Seq::empty(), fuel) is Matched) == (exists|j: int|
            i <= j <= s.len() && #[trigger] attempt_matches(re, s, j)),
    decreases s.len() - i,
{
    let st = fresh(i as usize, i as usize);
    let a = attempt(re, s, st, Seq::empty(), fuel);
    lemma_run_attempts(re, s, st, Seq::empty(), fuel);
    match a {
        Attempt::Matched(_) => {
            assert(attempt_matches(re, s, i));
        },
        Attempt::Failed(left) => {
            if attempt_matches(re, s, i) {
                let f = choose|f: nat| #[trigger] attempt(re, s, st, Seq::empty(), f) is Matched;
                if f <= fuel {
                    lemma_attempt_more_fuel(re, s, st, Seq::empty(), f, fuel);
                } else {
                    lemma_attempt_more_fuel(re, s, st, Seq::empty(), fuel, f);
                }
            }
            if i + 1 <= s.len() {
                lemma_search(re, s, i + 1, left);
                assert forall|j: int| i <= j <= s.len() && #[trigger] attempt_matches(re, s, j) implies i + 1
                    <= j by {
                }
            }
        },
        _ => {},
    }
}

/// The machine searches from each position of the input in turn: on an input where its
/// run gives an answer, it matches exactly where the attempt from some position (its end
/// included) matches.
pub proof fn lemma_match_iff_some_attempt(rx: Seq<SpecInstruction>, string: Seq<char>)
    requires
        finishes(rx, string),
        string.len() <= usize::MAX,
    ensures
        (outcome(rx, string) is Matched) == (exists|j: int|
            0 <= j <= string.len() && #[trigger] attempt_matches(rx, string, j)),
{
    lemma_search(rx, string, 0, max_fuel());
}

} // verus!
