use crate::types::{
    Arrow, Boundary, Character, Regex, SpecArrow, SpecCharacter, SpecNode, arrow_view,
    character_view, characters_view, graph_view, graph_wf, lemma_character_view,
    lemma_characters_view_index, node_view,
};
use crate::utils::{
    lemma_bounded_set, Queue, is_alphanumeric, is_ascii_digit, is_whitespace, spec_is_alphanumeric, spec_is_digit,
    spec_is_whitespace, spec_to_lower, str_chars, to_lower,
};
use crate::compiler::{link, link_branch, new_result, pattern, plain_node, spec_compile, spec_new, with_arrow};
use crate::parser::{SpecResult, SpecToken, spec_parse};
use crate::utils::spec_regex_to_lower;
use vstd::prelude::*;

verus! {

broadcast use {vstd::std_specs::vec::group_vec_axioms, vstd::std_specs::hash::group_hash_axioms};

// ---------------------------------------------------------------------------
// characters and boundaries

/// Whether the class `ch` matches the character `c`.
pub open spec fn char_matches(ch: SpecCharacter, c: char) -> bool
    decreases ch,
{
    match ch {
        SpecCharacter::Anything => true,
        SpecCharacter::Literal(x) => x == c,
        SpecCharacter::Space => spec_is_whitespace(c),
        SpecCharacter::Digit => spec_is_digit(c),
        SpecCharacter::Word => spec_is_alphanumeric(c) || c == '_',
        SpecCharacter::Range(l, u) => l <= c && c <= u,
        SpecCharacter::Bracket(members) => exists|i: int|
            0 <= i < members.len() && char_matches(#[trigger] members[i], c),
        SpecCharacter::Not(b) => !char_matches(*b, c),
    }
}

/// Whether position `j` of `s` is at a word boundary: between a white space and another
/// character, or at either end next to a character that is no white space.
pub open spec fn at_boundary(s: Seq<char>, j: int) -> bool {
    if 0 < j && j < s.len() {
        spec_is_whitespace(s[j - 1]) != spec_is_whitespace(s[j])
    } else {
        !(0 <= j < s.len() && spec_is_whitespace(s[j]))
    }
}

/// Whether the boundary `b` holds at position `j` of `s`.
pub open spec fn guard_holds(b: Boundary, s: Seq<char>, j: int) -> bool {
    match b {
        Boundary::Start => j == 0,
        Boundary::End => j >= s.len(),
        Boundary::Word(yes) => at_boundary(s, j) == yes,
    }
}

// ---------------------------------------------------------------------------
// runs of the automaton

/// Whether the arrow `a` leads from position `p` to state `t` at position `q` in `s`.
pub open spec fn arrow_step(a: SpecArrow, s: Seq<char>, p: int, t: int, q: int) -> bool {
    match a {
        SpecArrow::Epsilon(x) => t == x && q == p,
        SpecArrow::Match(c, x) => t == x && 0 <= p < s.len() && char_matches(c, s[p]) && q == p + 1,
        SpecArrow::Guard(b, x) => t == x && q == p && guard_holds(b, s, p),
    }
}

/// Whether some arrow of state `u` leads from `(u, p)` to `(t, q)`.
pub open spec fn step(g: Seq<SpecNode>, s: Seq<char>, u: int, p: int, t: int, q: int) -> bool {
    0 <= u < g.len() && exists|k: int|
        0 <= k < g[u].arrows.len() && arrow_step(#[trigger] g[u].arrows[k], s, p, t, q)
}

/// A run: a sequence of (state, position) pairs, each reached by one arrow from the one
/// before.
pub open spec fn is_run(g: Seq<SpecNode>, s: Seq<char>, run: Seq<(int, int)>) -> bool {
    &&& run.len() >= 1
    &&& forall|k: int|
        0 <= k < run.len() - 1 ==> step(g, s, #[trigger] run[k].0, run[k].1, run[k + 1].0, run[k + 1].1)
}

/// Whether `(t, q)` can be reached from `(u, p)` by a run.
pub open spec fn reaches(g: Seq<SpecNode>, s: Seq<char>, u: int, p: int, t: int, q: int) -> bool {
    exists|run: Seq<(int, int)>|
        is_run(g, s, run) && run[0] == (u, p) && #[trigger] run.last() == (t, q)
}

/// Whether a run from `start` at position `i` reaches a final state.
pub open spec fn accepts_from(g: Seq<SpecNode>, s: Seq<char>, start: int, i: int) -> bool {
    exists|t: int, q: int| #[trigger] reaches(g, s, start, i, t, q) && 0 <= t < g.len() && g[t].end
}

/// Whether the automaton accepts part of `s`: a run from `start` at some position of `s`
/// (its end included) reaches a final state.
pub open spec fn spec_accepts(g: Seq<SpecNode>, start: int, s: Seq<char>) -> bool {
    exists|i: int| 0 <= i <= s.len() && #[trigger] accepts_from(g, s, start, i)
}

/// The characters that are matched for `string`: lower-cased when the case is ignored.
pub open spec fn input_chars(string: Seq<char>, ignore_case: bool) -> Seq<char> {
    if ignore_case {
        string.map_values(|c: char| spec_to_lower(c))
    } else {
        string
    }
}

/// Whether the regular expression matches part of `string`.
pub open spec fn spec_is_match(rx: Regex, string: Seq<char>) -> bool {
    spec_accepts(rx.automaton(), rx.start as int, input_chars(string, rx.ignore_case))
}

// ---------------------------------------------------------------------------
// lemmas on runs

pub proof fn lemma_reaches_refl(g: Seq<SpecNode>, s: Seq<char>, u: int, p: int)
    ensures
        reaches(g, s, u, p, u, p),
{
    let run = seq![(u, p)];
    assert(is_run(g, s, run));
    assert(run.last() == (u, p));
}

pub proof fn lemma_reaches_step(
    g: Seq<SpecNode>,
    s: Seq<char>,
    u: int,
    p: int,
    x: int,
    y: int,
    t: int,
    q: int,
)
    requires
        reaches(g, s, u, p, x, y),
        step(g, s, x, y, t, q),
    ensures
        reaches(g, s, u, p, t, q),
{
    let run = choose|run: Seq<(int, int)>|
        is_run(g, s, run) && run[0] == (u, p) && #[trigger] run.last() == (x, y);
    let run2 = run.push((t, q));
    assert forall|k: int| 0 <= k < run2.len() - 1 implies step(
        g,
        s,
        #[trigger] run2[k].0,
        run2[k].1,
        run2[k + 1].0,
        run2[k + 1].1,
    ) by {
        if k < run.len() - 1 {
            assert(run2[k] == run[k] && run2[k + 1] == run[k + 1]);
        }
    }
    assert(is_run(g, s, run2));
    assert(run2.last() == (t, q));
}


proof fn lemma_push_contains(s: Seq<usize>, v: usize)
    ensures
        s.push(v).contains(v),
        forall|x: usize| s.contains(x) ==> #[trigger] s.push(v).contains(x),
{
    assert(s.push(v)[s.len() as int] == v);
    assert forall|x: usize| s.contains(x) implies #[trigger] s.push(v).contains(x) by {
        let k = choose|k: int| 0 <= k < s.len() && s[k] == x;
        assert(s.push(v)[k] == x);
    }
}

proof fn lemma_bracket_matches(members: Seq<SpecCharacter>, k: int, x: char)
    requires
        0 <= k < members.len(),
        char_matches(members[k], x),
    ensures
        char_matches(SpecCharacter::Bracket(members), x),
{
    assert(exists|i: int| 0 <= i < members.len() && char_matches(#[trigger] members[i], x));
    let b = SpecCharacter::Bracket(members);
    assert(b->Bracket_0 == members);
    assert(char_matches(b, x) == (exists|i: int| 0 <= i < members.len() && char_matches(#[trigger] members[i], x)));
}

impl Character {
    /// Whether the class matches the character `c`.
    pub fn is_match(&self, c: char) -> (r: bool)
        ensures
            r == char_matches(self@, c),
        decreases self,
    {
        proof {
            lemma_character_view(*self);
        }
        match self {
            Character::Anything => true,
            Character::Literal(x) => *x == c,
            Character::Space => is_whitespace(c),
            Character::Digit => is_ascii_digit(c),
            Character::Word => is_alphanumeric(c) || c == '_',
            Character::Range(l, u) => *l <= c && c <= *u,
            Character::Bracket(v) => {
                let ghost members = characters_view(v@);
                let mut i: usize = 0;
                while i < v.len()
                    invariant
                        i <= v.len(),
                        *self == Character::Bracket(*v),
                        members == characters_view(v@),
                        self@ == SpecCharacter::Bracket(members),
                        forall|k: int| 0 <= k < i ==> !char_matches(#[trigger] members[k], c),
                    decreases v.len() - i,
                {
                    proof {
                        lemma_characters_view_index(v@, i as int);
                    }
                    assert(decreases_to!(*self => (*self)->Bracket_0));
                    if v[i].is_match(c) {
                        proof {
                            lemma_bracket_matches(members, i as int, c);
                        }
                        return true;
                    }
                    i = i + 1;
                }
                proof {
                    if v@.len() > 0 {
                        lemma_characters_view_index(v@, 0);
                    } else {
                        assert(members.len() == 0);
                    }
                }
                false
            },
            Character::Not(b) => {
                assert(decreases_to!(*self => (*self)->Not_0));
                !(**b).is_match(c)
            },
        }
    }
}

/// Whether position `j` of `s` is at a word boundary.
pub fn is_boundary(s: &Vec<char>, j: usize) -> (r: bool)
    ensures
        r == at_boundary(s@, j as int),
{
    if j > 0 && j < s.len() {
        is_whitespace(s[j - 1]) != is_whitespace(s[j])
    } else {
        !(j < s.len() && is_whitespace(s[j]))
    }
}

/// Whether the boundary `b` holds at position `j` of `s`.
fn guard_holds_exec(b: Boundary, s: &Vec<char>, j: usize) -> (r: bool)
    ensures
        r == guard_holds(b, s@, j as int),
{
    match b {
        Boundary::Start => j == 0,
        Boundary::End => j >= s.len(),
        Boundary::Word(yes) => is_boundary(s, j) == yes,
    }
}


// ---------------------------------------------------------------------------
// simulating the automaton

/// The arrow `a`, taken at position `j`, leads into `d` when it reads nothing, and into
/// `n` when it reads `s[j]`.
pub open spec fn arrow_closed(a: SpecArrow, s: Seq<char>, j: int, d: Set<usize>, n: Set<usize>) -> bool {
    match a {
        SpecArrow::Epsilon(t) => d.contains(t as usize),
        SpecArrow::Guard(b, t) => guard_holds(b, s, j) ==> d.contains(t as usize),
        SpecArrow::Match(c, t) => (0 <= j < s.len() && char_matches(c, s[j])) ==> n.contains(
            t as usize,
        ),
    }
}

/// Every arrow of state `u`, taken at position `j`, leads into `d` or `n`.
pub open spec fn closed_at(
    g: Seq<SpecNode>,
    s: Seq<char>,
    j: int,
    u: int,
    d: Set<usize>,
    n: Set<usize>,
) -> bool {
    forall|k: int| 0 <= k < g[u].arrows.len() ==> arrow_closed(#[trigger] g[u].arrows[k], s, j, d, n)
}

impl Regex {
    /// Takes the arrows of state `u`, reached at position `j` in a search from the start
    /// at `i`: states reached without reading go to `queue`, states reached by reading
    /// `chars[j]` go to `next`. Returns whether a final state was reached.
    fn process_state(
        &self,
        chars: &Vec<char>,
        j: usize,
        u: usize,
        queue: &mut Queue,
        next: &mut Queue,
        Ghost(i): Ghost<int>,
    ) -> (found: bool)
        requires
            self.wf(),
            j <= chars@.len(),
            u < self.nodes@.len(),
            reaches(self.automaton(), chars@, self.start as int, i, u as int, j as int),
            forall|x: usize|
                #[trigger] old(queue).seen@.contains(x) ==> x < self.automaton().len() && reaches(
                    self.automaton(),
                    chars@,
                    self.start as int,
                    i,
                    x as int,
                    j as int,
                ),
            forall|k: int| 0 <= k < old(queue).queue@.len() ==> old(queue).seen@.contains(#[trigger] old(queue).queue@[k]),
            old(queue).seen@.finite(),
            forall|k: int| 0 <= k < old(next).queue@.len() ==> old(next).seen@.contains(#[trigger] old(next).queue@[k]),
            forall|x: usize|
                #[trigger] old(next).seen@.contains(x) ==> x < self.automaton().len() && reaches(
                    self.automaton(),
                    chars@,
                    self.start as int,
                    i,
                    x as int,
                    j + 1,
                ) && old(next).queue@.contains(x),
        ensures
            found ==> accepts_from(self.automaton(), chars@, self.start as int, i),
            !found ==> {
                &&& final(queue).seen@.finite()
                &&& final(queue).queue@.len() + old(queue).seen@.len() == old(queue).queue@.len()
                    + final(queue).seen@.len()
                &&& forall|x: usize| #[trigger] old(queue).seen@.contains(x) ==> final(queue).seen@.contains(x)
                &&& forall|x: usize| #[trigger] old(next).seen@.contains(x) ==> final(next).seen@.contains(x)
                &&& forall|x: usize|
                    #[trigger] final(queue).seen@.contains(x) ==> old(queue).seen@.contains(x)
                        || final(queue).queue@.contains(x)
                &&& forall|x: usize|
                    old(queue).queue@.contains(x) ==> #[trigger] final(queue).queue@.contains(x)
                &&& forall|k: int|
                    0 <= k < final(queue).queue@.len() ==> final(queue).seen@.contains(
                        #[trigger] final(queue).queue@[k],
                    )
                &&& forall|x: usize|
                    #[trigger] final(queue).seen@.contains(x) ==> x < self.automaton().len() && reaches(
                        self.automaton(),
                        chars@,
                        self.start as int,
                        i,
                        x as int,
                        j as int,
                    )
                &&& forall|x: usize|
                    #[trigger] final(next).seen@.contains(x) ==> x < self.automaton().len() && reaches(
                        self.automaton(),
                        chars@,
                        self.start as int,
                        i,
                        x as int,
                        j + 1,
                    ) && final(next).queue@.contains(x)
                &&& forall|k: int|
                    0 <= k < final(next).queue@.len() ==> final(next).seen@.contains(
                        #[trigger] final(next).queue@[k],
                    )
                &&& closed_at(self.automaton(), chars@, j as int, u as int, final(queue).seen@, final(next).seen@)
            },
    {
        let ghost g = self.automaton();
        let ghost s = chars@;
        let ghost st = self.start as int;
        let node = &self.nodes[u];
        let ghost q0 = queue.seen@;
        let ghost qq0 = queue.queue@;
        let ghost n0 = next.seen@;
        assert(g[u as int] == node_view(*node));
        let mut k: usize = 0;
        while k < node.arrows.len()
            invariant
                self.wf(),
                g == self.automaton(),
                s == chars@,
                st == self.start as int,
                j <= s.len(),
                u < self.nodes@.len(),
                *node == self.nodes@[u as int],
                g[u as int] == node_view(*node),
                k <= node.arrows@.len(),
                reaches(g, s, st, i, u as int, j as int),
                queue.seen@.finite(),
                queue.queue@.len() + q0.len() == qq0.len() + queue.seen@.len(),
                forall|x: usize| #[trigger] q0.contains(x) ==> queue.seen@.contains(x),
                forall|x: usize| #[trigger] n0.contains(x) ==> next.seen@.contains(x),
                forall|x: usize|
                    #[trigger] queue.seen@.contains(x) ==> q0.contains(x) || queue.queue@.contains(x),
                forall|x: usize| qq0.contains(x) ==> #[trigger] queue.queue@.contains(x),
                forall|m: int|
                    0 <= m < queue.queue@.len() ==> queue.seen@.contains(#[trigger] queue.queue@[m]),
                forall|m: int|
                    0 <= m < next.queue@.len() ==> next.seen@.contains(#[trigger] next.queue@[m]),
                forall|x: usize|
                    #[trigger] queue.seen@.contains(x) ==> x < g.len() && reaches(g, s, st, i, x as int, j as int),
                forall|x: usize|
                    #[trigger] next.seen@.contains(x) ==> x < g.len() && reaches(g, s, st, i, x as int, j + 1)
                        && next.queue@.contains(x),
                forall|m: int|
                    0 <= m < k ==> arrow_closed(#[trigger] g[u as int].arrows[m], s, j as int, queue.seen@, next.seen@),
            decreases node.arrows@.len() - k,
        {
            let ghost a = g[u as int].arrows[k as int];
            assert(a == arrow_view(node.arrows@[k as int]));
            assert(0 <= a.target() < g.len());
            match &node.arrows[k] {
                Arrow::Epsilon(t) => {
                    let t = *t;
                    proof {
                        assert(arrow_step(a, s, j as int, t as int, j as int));
                        lemma_reaches_step(g, s, st, i, u as int, j as int, t as int, j as int);
                    }
                    if self.nodes[t].end {
                        assert(g[t as int].end);
                        return true;
                    }
                    let ghost before = queue.queue@;
                    queue.push(t);
                    proof {
                        lemma_push_contains(before, t);
                    }
                },
                Arrow::Match(c, t) => {
                    let t = *t;
                    if j < chars.len() && c.is_match(chars[j]) {
                        proof {
                            assert(arrow_step(a, s, j as int, t as int, j + 1));
                            lemma_reaches_step(g, s, st, i, u as int, j as int, t as int, j + 1);
                        }
                        if self.nodes[t].end {
                            assert(g[t as int].end);
                            return true;
                        }
                        let ghost before = next.queue@;
                        next.push(t);
                        proof {
                            lemma_push_contains(before, t);
                        }
                    }
                },
                Arrow::Guard(b, t) => {
                    let t = *t;
                    if guard_holds_exec(*b, chars, j) {
                        proof {
                            assert(arrow_step(a, s, j as int, t as int, j as int));
                            lemma_reaches_step(g, s, st, i, u as int, j as int, t as int, j as int);
                        }
                        if self.nodes[t].end {
                            assert(g[t as int].end);
                            return true;
                        }
                        let ghost before = queue.queue@;
                        queue.push(t);
                        proof {
                            lemma_push_contains(before, t);
                        }
                    }
                },
            }
            k = k + 1;
        }
        false
    }
}


// ---------------------------------------------------------------------------
// why a search that finds nothing is right

/// A state reached at position `p` is done: it is no final state, and each arrow out of
/// it leads into `done`, into `cur` at position `j`, or into `nxt` at position `j + 1`.
spec fn config_closed(
    g: Seq<SpecNode>,
    s: Seq<char>,
    done: Set<(int, int)>,
    j: int,
    cur: Set<usize>,
    nxt: Set<usize>,
    u: int,
    p: int,
) -> bool {
    &&& 0 <= u < g.len()
    &&& !g[u].end
    &&& 0 <= p <= j
    &&& p <= s.len()
    &&& forall|t: int, q: int| #[trigger]
        step(g, s, u, p, t, q) ==> done.contains((t, q)) || (q == j && cur.contains(t as usize)) || (
        q == j + 1 && nxt.contains(t as usize))
}

/// Every configuration in `done` is done.
#[verifier::opaque]
spec fn done_closed(
    g: Seq<SpecNode>,
    s: Seq<char>,
    done: Set<(int, int)>,
    j: int,
    cur: Set<usize>,
    nxt: Set<usize>,
) -> bool {
    forall|c: (int, int)| #[trigger] done.contains(c) ==> config_closed(g, s, done, j, cur, nxt, c.0, c.1)
}

/// An arrow leads to a state of the automaton and moves at most one position on.
proof fn lemma_step_bounds(g: Seq<SpecNode>, s: Seq<char>, u: int, p: int, t: int, q: int)
    requires
        graph_wf(g),
        step(g, s, u, p, t, q),
    ensures
        0 <= t < g.len(),
        q == p || (q == p + 1 && 0 <= p < s.len()),
{
    let k = choose|k: int|
        0 <= k < g[u].arrows.len() && arrow_step(#[trigger] g[u].arrows[k], s, p, t, q);
    assert(0 <= g[u].arrows[k].target() < g.len());
}

/// Where the arrows of a state that `process_state` took lead.
proof fn lemma_closed_step(
    g: Seq<SpecNode>,
    s: Seq<char>,
    j: int,
    u: int,
    d: Set<usize>,
    n: Set<usize>,
    t: int,
    q: int,
)
    requires
        graph_wf(g),
        closed_at(g, s, j, u, d, n),
        step(g, s, u, j, t, q),
    ensures
        0 <= t < g.len(),
        (q == j && d.contains(t as usize)) || (q == j + 1 && n.contains(t as usize)),
{
    let k = choose|k: int|
        0 <= k < g[u].arrows.len() && arrow_step(#[trigger] g[u].arrows[k], s, j, t, q);
    assert(arrow_closed(g[u].arrows[k], s, j, d, n));
    assert(0 <= g[u].arrows[k].target() < g.len());
}

/// Growing the sets that arrows may lead into keeps a configuration done.
proof fn lemma_config_grow(
    g: Seq<SpecNode>,
    s: Seq<char>,
    done: Set<(int, int)>,
    done2: Set<(int, int)>,
    j: int,
    cur: Set<usize>,
    cur2: Set<usize>,
    nxt: Set<usize>,
    nxt2: Set<usize>,
    u: int,
    p: int,
)
    requires
        config_closed(g, s, done, j, cur, nxt, u, p),
        done.subset_of(done2),
        cur.subset_of(cur2),
        nxt.subset_of(nxt2),
    ensures
        config_closed(g, s, done2, j, cur2, nxt2, u, p),
{
    assert forall|t: int, q: int| #[trigger] step(g, s, u, p, t, q) implies done2.contains((t, q))
        || (q == j && cur2.contains(t as usize)) || (q == j + 1 && nxt2.contains(t as usize)) by {
        if done.contains((t, q)) {
        } else if q == j && cur.contains(t as usize) {
        } else {
        }
    }
}

/// Growing the set of states for the next position keeps every configuration done.
proof fn lemma_config_grow_all(
    g: Seq<SpecNode>,
    s: Seq<char>,
    done: Set<(int, int)>,
    j: int,
    cur: Set<usize>,
    nxt: Set<usize>,
    nxt2: Set<usize>,
)
    requires
        done_closed(g, s, done, j, cur, nxt),
        nxt.subset_of(nxt2),
    ensures
        done_closed(g, s, done, j, cur, nxt2),
{
    reveal(done_closed);
    assert forall|c: (int, int)| #[trigger] done.contains(c) implies config_closed(
        g,
        s,
        done,
        j,
        cur,
        nxt2,
        c.0,
        c.1,
    ) by {
        lemma_config_grow(g, s, done, done, j, cur, cur, nxt, nxt2, c.0, c.1);
    }
}

/// Once every state of the current position is done, the search moves on a position.
proof fn lemma_level_done(
    g: Seq<SpecNode>,
    s: Seq<char>,
    done: Set<(int, int)>,
    j: int,
    cur: Set<usize>,
    nxt: Set<usize>,
)
    requires
        graph_wf(g),
        g.len() <= usize::MAX,
        done_closed(g, s, done, j, cur, nxt),
        forall|x: usize| #[trigger] cur.contains(x) ==> done.contains((x as int, j)),
    ensures
        done_closed(g, s, done, j + 1, nxt, Set::empty()),
{
    reveal(done_closed);
    assert forall|c: (int, int)| #[trigger] done.contains(c) implies config_closed(
        g,
        s,
        done,
        j + 1,
        nxt,
        Set::empty(),
        c.0,
        c.1,
    ) by {
        assert(config_closed(g, s, done, j, cur, nxt, c.0, c.1));
        assert forall|t: int, q: int| #[trigger] step(g, s, c.0, c.1, t, q) implies done.contains(
            (t, q),
        ) || (q == j + 1 && nxt.contains(t as usize)) || (q == j + 2 && Set::<usize>::empty().contains(
            t as usize,
        )) by {
            lemma_step_bounds(g, s, c.0, c.1, t, q);
            assert((t as usize) as int == t);
            if q == j && cur.contains(t as usize) {
                assert(done.contains(((t as usize) as int, j)));
            }
        }
    }
}

/// Every configuration of a run from a configuration in `done` is in `done`, once no
/// arrow leads out of `done`.
proof fn lemma_run_in(
    g: Seq<SpecNode>,
    s: Seq<char>,
    done: Set<(int, int)>,
    cur: Set<usize>,
    run: Seq<(int, int)>,
    k: int,
)
    requires
        graph_wf(g),
        is_run(g, s, run),
        done.contains(run[0]),
        done_closed(g, s, done, s.len() + 1int, cur, Set::empty()),
        0 <= k < run.len(),
    ensures
        done.contains(run[k]),
    decreases k,
{
    reveal(done_closed);
    if k > 0 {
        lemma_run_in(g, s, done, cur, run, k - 1);
        let c = run[k - 1];
        assert(step(g, s, run[k - 1].0, run[k - 1].1, run[k].0, run[k].1));
        assert(config_closed(g, s, done, s.len() + 1int, cur, Set::empty(), c.0, c.1));
        lemma_step_bounds(g, s, c.0, c.1, run[k].0, run[k].1);
        assert(run[k] == (run[k].0, run[k].1));
    }
}

/// A set of done configurations that holds the start and that no arrow leads out of
/// leaves no accepting run from the start.
proof fn lemma_no_accept(
    g: Seq<SpecNode>,
    s: Seq<char>,
    st: int,
    i: int,
    done: Set<(int, int)>,
    cur: Set<usize>,
)
    requires
        graph_wf(g),
        done.contains((st, i)),
        done_closed(g, s, done, s.len() + 1int, cur, Set::empty()),
    ensures
        !accepts_from(g, s, st, i),
{
    if accepts_from(g, s, st, i) {
        let (t, q) = choose|t: int, q: int|
            #[trigger] reaches(g, s, st, i, t, q) && 0 <= t < g.len() && g[t].end;
        let run = choose|run: Seq<(int, int)>|
            is_run(g, s, run) && run[0] == (st, i) && #[trigger] run.last() == (t, q);
        lemma_run_in(g, s, done, cur, run, run.len() - 1);
        assert(done.contains((t, q)));
        reveal(done_closed);
        assert(config_closed(g, s, done, s.len() + 1int, cur, Set::empty(), t, q));
    }
}

/// What `x` in a sequence is after the last item is taken off.
proof fn lemma_drop_last_contains(q: Seq<usize>, x: usize)
    requires
        q.len() > 0,
        q.contains(x),
    ensures
        x == q.last() || q.drop_last().contains(x),
{
    let k = choose|k: int| 0 <= k < q.len() && q[k] == x;
    if k < q.len() - 1 {
        assert(q.drop_last()[k] == x);
    }
}


impl Regex {
    /// Takes the states queued for position `j` one by one until none is left, in a
    /// search from the start at position `i`; the states reached by reading `chars[j]`
    /// are queued in `next`. Returns whether a final state was reached, and the
    /// configurations that are done once no state is left.
    fn drain_level(
        &self,
        chars: &Vec<char>,
        i: usize,
        j: usize,
        queue: &mut Queue,
        next: &mut Queue,
        Ghost(done): Ghost<Set<(int, int)>>,
    ) -> (res: (bool, Ghost<Set<(int, int)>>))
        requires
            self.wf(),
            i <= j <= chars@.len(),
            forall|x: usize|
                #[trigger] old(queue).seen@.contains(x) ==> x < self.nodes@.len() && reaches(
                    self.automaton(),
                    chars@,
                    self.start as int,
                    i as int,
                    x as int,
                    j as int,
                ) && old(queue).queue@.contains(x),
            forall|k: int| 0 <= k < old(queue).queue@.len() ==> old(queue).seen@.contains(#[trigger] old(queue).queue@[k]),
            old(next).seen@ == Set::<usize>::empty(),
            old(next).queue@ == Seq::<usize>::empty(),
            done_closed(self.automaton(), chars@, done, j as int, old(queue).seen@, Set::empty()),
            done.contains((self.start as int, i as int)) || (j == i && old(queue).seen@.contains(self.start)),
        ensures
            res.0 ==> accepts_from(self.automaton(), chars@, self.start as int, i as int),
            !res.0 ==> {
                let d = res.1@;
                &&& forall|x: usize|
                    #[trigger] final(queue).seen@.contains(x) ==> d.contains((x as int, j as int))
                &&& forall|x: usize|
                    #[trigger] final(next).seen@.contains(x) ==> x < self.nodes@.len() && reaches(
                        self.automaton(),
                        chars@,
                        self.start as int,
                        i as int,
                        x as int,
                        j + 1,
                    ) && final(next).queue@.contains(x)
                &&& forall|k: int|
                    0 <= k < final(next).queue@.len() ==> final(next).seen@.contains(
                        #[trigger] final(next).queue@[k],
                    )
                &&& done_closed(self.automaton(), chars@, d, j as int, final(queue).seen@, final(next).seen@)
                &&& d.contains((self.start as int, i as int)) || (j == i && final(queue).seen@.contains(
                    self.start,
                ))
            },
    {
        let ghost g = self.automaton();
        let ghost s = chars@;
        let ghost st = self.start as int;
        let ghost big_n = g.len();
        reveal(done_closed);
        let ghost mut done = done;
        proof {
            lemma_config_grow_all(g, s, done, j as int, queue.seen@, Set::empty(), next.seen@);
        }
        loop
            invariant
                self.wf(),
                g == self.automaton(),
                big_n == g.len(),
                big_n == self.nodes.len(),
                s == chars@,
                st == self.start as int,
                i <= j <= s.len(),
                forall|x: usize|
                    #[trigger] queue.seen@.contains(x) ==> x < big_n && reaches(g, s, st, i as int, x as int, j as int),
                forall|k: int| 0 <= k < queue.queue@.len() ==> queue.seen@.contains(#[trigger] queue.queue@[k]),
                forall|x: usize|
                    #[trigger] queue.seen@.contains(x) ==> done.contains((x as int, j as int)) || queue.queue@.contains(x),
                forall|x: usize|
                    #[trigger] next.seen@.contains(x) ==> x < big_n && reaches(g, s, st, i as int, x as int, j + 1)
                        && next.queue@.contains(x),
                forall|k: int| 0 <= k < next.queue@.len() ==> next.seen@.contains(#[trigger] next.queue@[k]),
                done_closed(g, s, done, j as int, queue.seen@, next.seen@),
                done.contains((st, i as int)) || (j == i && queue.seen@.contains(self.start)),
            ensures
                forall|x: usize|
                    #[trigger] queue.seen@.contains(x) ==> done.contains((x as int, j as int)),
                forall|x: usize|
                    #[trigger] next.seen@.contains(x) ==> x < big_n && reaches(g, s, st, i as int, x as int, j + 1)
                        && next.queue@.contains(x),
                forall|k: int| 0 <= k < next.queue@.len() ==> next.seen@.contains(#[trigger] next.queue@[k]),
                done_closed(g, s, done, j as int, queue.seen@, next.seen@),
                done.contains((st, i as int)) || (j == i && queue.seen@.contains(self.start)),
            decreases 2 * big_n - 2 * queue.seen@.len() + queue.queue@.len(),
        {
            proof {
                lemma_bounded_set(queue.seen@, big_n);
            }
            let ghost qa = queue.queue@;
            let ghost sa = queue.seen@;
            let ghost na = next.seen@;
            let popped = queue.pop();
            match popped {
                None => {
                    assert forall|x: usize| #[trigger] queue.seen@.contains(x) implies done.contains(
                        (x as int, j as int),
                    ) by {
                        if !done.contains((x as int, j as int)) {
                            let k = choose|k: int| 0 <= k < qa.len() && qa[k] == x;
                        }
                    }
                    break;
                },
                Some(u) => {
                    assert(qa[qa.len() - 1] == u);
                    assert(reaches(g, s, st, i as int, u as int, j as int));
                    if self.nodes[u].end {
                        assert(g[u as int].end);
                        return (true, Ghost(done));
                    }
                    let found = self.process_state(chars, j, u, queue, next, Ghost(i as int));
                    if found {
                        return (true, Ghost(done));
                    }
                    proof {
                        reveal(done_closed);
                        let done2 = done.insert((u as int, j as int));
                        assert forall|c: (int, int)| #[trigger] done2.contains(c) implies config_closed(
                            g,
                            s,
                            done2,
                            j as int,
                            queue.seen@,
                            next.seen@,
                            c.0,
                            c.1,
                        ) by {
                            if c == (u as int, j as int) {
                                assert forall|t: int, q: int| #[trigger] step(g, s, u as int, j as int, t, q)
                                    implies done2.contains((t, q)) || (q == j && queue.seen@.contains(
                                    t as usize,
                                )) || (q == j + 1 && next.seen@.contains(t as usize)) by {
                                    lemma_closed_step(
                                        g,
                                        s,
                                        j as int,
                                        u as int,
                                        queue.seen@,
                                        next.seen@,
                                        t,
                                        q,
                                    );
                                }
                            } else {
                                lemma_config_grow(
                                    g,
                                    s,
                                    done,
                                    done2,
                                    j as int,
                                    sa,
                                    queue.seen@,
                                    na,
                                    next.seen@,
                                    c.0,
                                    c.1,
                                );
                            }
                        }
                        assert forall|x: usize| #[trigger] queue.seen@.contains(x) implies done2.contains(
                            (x as int, j as int),
                        ) || queue.queue@.contains(x) by {
                            if sa.contains(x) && !done.contains((x as int, j as int)) {
                                lemma_drop_last_contains(qa, x);
                            }
                        }
                        lemma_bounded_set(queue.seen@, big_n);
                        vstd::set_lib::lemma_len_subset(sa, queue.seen@);
                        done = done2;
                    }
                },
            }
        }
        (false, Ghost(done))
    }

    /// Whether a run from the start state at position `i` of `chars` reaches a final
    /// state. The states are visited position by position; at each position each state is
    /// taken once.
    fn accepts_at(&self, chars: &Vec<char>, i: usize) -> (r: bool)
        requires
            self.wf(),
            i <= chars@.len(),
        ensures
            r == accepts_from(self.automaton(), chars@, self.start as int, i as int),
    {
        let ghost g = self.automaton();
        let ghost s = chars@;
        let ghost st = self.start as int;
        let ghost n = s.len() as int;
        let mut queue = Queue::new();
        queue.push(self.start);
        proof {
            lemma_reaches_refl(g, s, st, i as int);
            assert(queue.queue@[0] == self.start);
        }
        let ghost mut done: Set<(int, int)> = Set::empty();
        proof {
            reveal(done_closed);
        }
        let mut j: usize = i;
        loop
            invariant_except_break
                forall|x: usize|
                    #[trigger] queue.seen@.contains(x) ==> x < self.nodes@.len() && reaches(g, s, st, i as int, x as int, j as int)
                        && queue.queue@.contains(x),
                forall|k: int| 0 <= k < queue.queue@.len() ==> queue.seen@.contains(#[trigger] queue.queue@[k]),
                done_closed(g, s, done, j as int, queue.seen@, Set::empty()),
                done.contains((st, i as int)) || (j == i && queue.seen@.contains(self.start)),
            invariant
                self.wf(),
                g == self.automaton(),
                s == chars@,
                st == self.start as int,
                n == s.len(),
                i <= j <= n,
            ensures
                done_closed(g, s, done, n + 1, queue.seen@, Set::empty()),
                done.contains((st, i as int)),
            decreases n - j,
        {
            let mut next = Queue::new();
            let (found, Ghost(d)) = self.drain_level(chars, i, j, &mut queue, &mut next, Ghost(done));
            if found {
                return true;
            }
            proof {
                done = d;
                assert(g.len() == self.nodes.len());
                lemma_level_done(g, s, done, j as int, queue.seen@, next.seen@);
            }
            if j == chars.len() {
                queue = next;
                break;
            }
            queue = next;
            j = j + 1;
        }
        proof {
            lemma_no_accept(g, s, st, i as int, done, queue.seen@);
        }
        false
    }
}

// ---------------------------------------------------------------------------
// final states reached without reading or checking anything

/// Whether state `u` has an arrow to `t` that reads nothing and checks nothing.
pub open spec fn eps_step(g: Seq<SpecNode>, u: int, t: int) -> bool {
    0 <= u < g.len() && exists|k: int|
        0 <= k < g[u].arrows.len() && #[trigger] g[u].arrows[k] == SpecArrow::Epsilon(t)
}

/// A path of states, each joined to the next by such an arrow.
pub open spec fn is_eps_path(g: Seq<SpecNode>, path: Seq<int>) -> bool {
    &&& path.len() >= 1
    &&& forall|k: int| 0 <= k < path.len() - 1 ==> eps_step(g, #[trigger] path[k], path[k + 1])
}

/// Whether a final state is reached from `u` by one such arrow or more.
pub open spec fn eps_reaches_final(g: Seq<SpecNode>, u: int) -> bool {
    exists|path: Seq<int>|
        #[trigger] is_eps_path(g, path) && path.len() >= 2 && path[0] == u && 0 <= path.last() < g.len()
            && g[path.last()].end
}

/// Whether `t` is reached from `u` by a path of such arrows.
spec fn eps_reaches(g: Seq<SpecNode>, u: int, t: int) -> bool {
    exists|path: Seq<int>| #[trigger] is_eps_path(g, path) && path[0] == u && path.last() == t
}

proof fn lemma_eps_extend(g: Seq<SpecNode>, u: int, x: int, t: int)
    requires
        eps_reaches(g, u, x),
        eps_step(g, x, t),
    ensures
        eps_reaches(g, u, t),
        exists|path: Seq<int>|
            #[trigger] is_eps_path(g, path) && path.len() >= 2 && path[0] == u && path.last() == t,
{
    let path = choose|path: Seq<int>| #[trigger] is_eps_path(g, path) && path[0] == u && path.last() == x;
    let p2 = path.push(t);
    assert forall|k: int| 0 <= k < p2.len() - 1 implies eps_step(g, #[trigger] p2[k], p2[k + 1]) by {
        if k < path.len() - 1 {
            assert(p2[k] == path[k] && p2[k + 1] == path[k + 1]);
        }
    }
    assert(is_eps_path(g, p2));
}

/// Every state of a path that starts in a closed set of states stays in it.
proof fn lemma_eps_path_in(g: Seq<SpecNode>, done: Set<usize>, path: Seq<int>, k: int)
    requires
        is_eps_path(g, path),
        0 <= path[0] < g.len(),
        done.contains(path[0] as usize),
        g.len() <= usize::MAX,
        forall|u: usize, t: int|
            #[trigger] done.contains(u) && #[trigger] eps_step(g, u as int, t) ==> 0 <= t < g.len()
                && done.contains(t as usize) && !g[t].end,
        0 <= k < path.len(),
    ensures
        0 <= path[k] < g.len(),
        done.contains(path[k] as usize),
        k > 0 ==> !g[path[k]].end,
    decreases k,
{
    if k > 0 {
        lemma_eps_path_in(g, done, path, k - 1);
        assert(eps_step(g, path[k - 1], path[k]));
        assert((path[k - 1] as usize) as int == path[k - 1]);
        assert(eps_step(g, (path[k - 1] as usize) as int, path[k]));
    }
}

/// A path of arrows that read nothing and check nothing is a run at any position.
proof fn lemma_eps_path_run(g: Seq<SpecNode>, s: Seq<char>, path: Seq<int>, k: int, p: int)
    requires
        is_eps_path(g, path),
        0 <= k < path.len(),
    ensures
        reaches(g, s, path[0], p, path[k], p),
    decreases k,
{
    if k == 0 {
        lemma_reaches_refl(g, s, path[0], p);
    } else {
        lemma_eps_path_run(g, s, path, k - 1, p);
        assert(eps_step(g, path[k - 1], path[k]));
        let m = choose|m: int|
            0 <= m < g[path[k - 1]].arrows.len() && #[trigger] g[path[k - 1]].arrows[m] == SpecArrow::Epsilon(
                path[k],
            );
        assert(arrow_step(g[path[k - 1]].arrows[m], s, p, path[k], p));
        lemma_reaches_step(g, s, path[0], p, path[k - 1], p, path[k], p);
    }
}

impl Regex {
    /// Whether a final state is reached from the start by one arrow or more that read
    /// nothing and check nothing; every such state is visited once.
    pub fn reaches_final(&self) -> (r: bool)
        requires
            self.wf(),
        ensures
            r == eps_reaches_final(self.automaton(), self.start as int),
    {
        let ghost g = self.automaton();
        let ghost st = self.start as int;
        let ghost big_n = g.len();
        let mut queue = Queue::new();
        queue.push(self.start);
        let ghost mut done: Set<usize> = Set::empty();
        proof {
            let p0 = seq![st];
            assert(is_eps_path(g, p0));
            assert(queue.queue@[0] == self.start);
        }
        loop
            invariant
                self.wf(),
                g == self.automaton(),
                st == self.start as int,
                big_n == g.len(),
                big_n == self.nodes.len(),
                queue.seen@.contains(self.start),
                forall|x: usize| #[trigger] queue.seen@.contains(x) ==> x < big_n && eps_reaches(g, st, x as int),
                forall|k: int| 0 <= k < queue.queue@.len() ==> queue.seen@.contains(#[trigger] queue.queue@[k]),
                forall|x: usize| #[trigger] queue.seen@.contains(x) ==> done.contains(x) || queue.queue@.contains(x),
                forall|x: usize| #[trigger] done.contains(x) ==> queue.seen@.contains(x),
                forall|u: usize, t: int|
                    #[trigger] done.contains(u) && #[trigger] eps_step(g, u as int, t) ==> 0 <= t < g.len()
                        && queue.seen@.contains(t as usize) && !g[t].end,
            ensures
                forall|x: usize| #[trigger] queue.seen@.contains(x) ==> done.contains(x),
                queue.seen@.contains(self.start),
                forall|u: usize, t: int|
                    #[trigger] done.contains(u) && #[trigger] eps_step(g, u as int, t) ==> 0 <= t < g.len()
                        && queue.seen@.contains(t as usize) && !g[t].end,
            decreases 2 * big_n - 2 * queue.seen@.len() + queue.queue@.len(),
        {
            proof {
                lemma_bounded_set(queue.seen@, big_n);
            }
            let ghost qa = queue.queue@;
            let ghost sa = queue.seen@;
            match queue.pop() {
                None => {
                    assert forall|x: usize| #[trigger] queue.seen@.contains(x) implies done.contains(x) by {
                        if !done.contains(x) {
                            let k = choose|k: int| 0 <= k < qa.len() && qa[k] == x;
                        }
                    }
                    break;
                },
                Some(u) => {
                    assert(qa[qa.len() - 1] == u);
                    let node = &self.nodes[u];
                    assert(g[u as int] == node_view(*node));
                    let ghost qb = queue.queue@;
                    let mut k: usize = 0;
                    while k < node.arrows.len()
                        invariant
                            self.wf(),
                            g == self.automaton(),
                            st == self.start as int,
                            big_n == g.len(),
                            big_n == self.nodes.len(),
                            u < big_n,
                            *node == self.nodes@[u as int],
                            g[u as int] == node_view(*node),
                            k <= node.arrows@.len(),
                            eps_reaches(g, st, u as int),
                            sa.contains(u),
                            forall|x: usize| #[trigger] sa.contains(x) ==> queue.seen@.contains(x),
                            forall|x: usize| qb.contains(x) ==> #[trigger] queue.queue@.contains(x),
                            forall|x: usize|
                                #[trigger] queue.seen@.contains(x) ==> sa.contains(x) || queue.queue@.contains(x),
                            queue.seen@.finite(),
                            queue.queue@.len() + sa.len() == qb.len() + queue.seen@.len(),
                            forall|x: usize| #[trigger] queue.seen@.contains(x) ==> x < big_n && eps_reaches(g, st, x as int),
                            forall|m: int| 0 <= m < queue.queue@.len() ==> queue.seen@.contains(#[trigger] queue.queue@[m]),
                            forall|m: int|
                                0 <= m < k && (#[trigger] g[u as int].arrows[m]) is Epsilon ==> {
                                    let t = g[u as int].arrows[m]->Epsilon_0;
                                    0 <= t < big_n && queue.seen@.contains(t as usize) && !g[t].end
                                },
                        decreases node.arrows@.len() - k,
                    {
                        assert(node_view(*node).arrows[k as int] == arrow_view(node.arrows@[k as int]));
                        match &node.arrows[k] {
                            Arrow::Epsilon(t) => {
                                let t = *t;
                                proof {
                                    assert(g[u as int].arrows[k as int] == SpecArrow::Epsilon(t as int));
                                    assert(0 <= g[u as int].arrows[k as int].target() < g.len());
                                    assert(eps_step(g, u as int, t as int));
                                    lemma_eps_extend(g, st, u as int, t as int);
                                }
                                if self.nodes[t].end {
                                    assert(g[t as int].end);
                                    return true;
                                }
                                let ghost before = queue.queue@;
                                queue.push(t);
                                proof {
                                    lemma_push_contains(before, t);
                                }
                            },
                            _ => {},
                        }
                        k = k + 1;
                    }
                    proof {
                        let done2 = done.insert(u);
                        assert forall|v: usize, t: int|
                            #[trigger] done2.contains(v) && #[trigger] eps_step(g, v as int, t) implies 0 <= t < g.len()
                                && queue.seen@.contains(t as usize) && !g[t].end by {
                            if v == u {
                                let m = choose|m: int|
                                    0 <= m < g[u as int].arrows.len() && #[trigger] g[u as int].arrows[m]
                                        == SpecArrow::Epsilon(t);
                                assert(g[u as int].arrows[m] is Epsilon);
                            }
                        }
                        assert forall|x: usize| #[trigger] queue.seen@.contains(x) implies done2.contains(x)
                            || queue.queue@.contains(x) by {
                            if sa.contains(x) && !done.contains(x) && x != u {
                                lemma_drop_last_contains(qa, x);
                            }
                        }
                        lemma_bounded_set(queue.seen@, big_n);
                        vstd::set_lib::lemma_len_subset(sa, queue.seen@);
                        done = done2;
                    }
                },
            }
        }
        proof {
            if eps_reaches_final(g, st) {
                let path = choose|path: Seq<int>|
                    #[trigger] is_eps_path(g, path) && path.len() >= 2 && path[0] == st && 0 <= path.last()
                        < g.len() && g[path.last()].end;
                assert(done.contains(self.start));
                lemma_eps_path_in(g, done, path, path.len() - 1);
            }
        }
        false
    }
}

/// The characters of `v`, each lower-cased.
pub fn lower_chars(v: &Vec<char>) -> (r: Vec<char>)
    ensures
        r@ == v@.map_values(|c: char| spec_to_lower(c)),
{
    let mut r: Vec<char> = Vec::new();
    let mut i: usize = 0;
    while i < v.len()
        invariant
            i <= v.len(),
            r@ == v@.take(i as int).map_values(|c: char| spec_to_lower(c)),
        decreases v.len() - i,
    {
        let c = to_lower(v[i]);
        r.push(c);
        assert(v@.take(i + 1).map_values(|c: char| spec_to_lower(c)) =~= v@.take(i as int).map_values(
            |c: char| spec_to_lower(c),
        ).push(spec_to_lower(v@[i as int])));
        i = i + 1;
    }
    assert(v@.take(v.len() as int) =~= v@);
    r
}

impl Regex {
    /// Whether the regular expression matches part of `string`: whether a run of the
    /// automaton from its start state, beginning at some position of `string` (its end
    /// included), reaches the final state. With `ignore_case`, ASCII letters of `string`
    /// are lower-cased first, as the expression was.
    pub fn is_match(&self, string: &str) -> (r: bool)
        requires
            self.wf(),
        ensures
            r == spec_is_match(*self, string@),
    {
        if self.reaches_final() {
            proof {
                let g = self.automaton();
                let s = input_chars(string@, self.ignore_case);
                let path = choose|path: Seq<int>|
                    #[trigger] is_eps_path(g, path) && path.len() >= 2 && path[0] == self.start as int
                        && 0 <= path.last() < g.len() && g[path.last()].end;
                lemma_eps_path_run(g, s, path, path.len() - 1, 0);
                assert(reaches(g, s, self.start as int, 0, path.last(), 0));
                assert(accepts_from(g, s, self.start as int, 0));
            }
            return true;
        }
        let raw = str_chars(string);
        let chars = if self.ignore_case {
            lower_chars(&raw)
        } else {
            raw
        };
        let ghost g = self.automaton();
        let ghost st = self.start as int;
        let mut i: usize = 0;
        loop
            invariant
                self.wf(),
                g == self.automaton(),
                st == self.start as int,
                chars@ == input_chars(string@, self.ignore_case),
                i <= chars@.len(),
                forall|k: int| 0 <= k < i ==> !#[trigger] accepts_from(g, chars@, st, k),
            ensures
                forall|k: int| 0 <= k <= chars@.len() ==> !#[trigger] accepts_from(g, chars@, st, k),
            decreases chars@.len() - i,
        {
            if self.accepts_at(&chars, i) {
                assert(accepts_from(g, chars@, st, i as int));
                return true;
            }
            if i == chars.len() {
                break;
            }
            i = i + 1;
        }
        false
    }
}

// ---------------------------------------------------------------------------
// laws

/// A regular expression whose start reaches the final state by arrows that read and
/// check nothing matches every input.
pub proof fn lemma_eps_final_matches_all(rx: Regex, string: Seq<char>)
    requires
        eps_reaches_final(rx.automaton(), rx.start as int),
    ensures
        spec_is_match(rx, string),
{
    let g = rx.automaton();
    let s = input_chars(string, rx.ignore_case);
    let path = choose|path: Seq<int>|
        #[trigger] is_eps_path(g, path) && path.len() >= 2 && path[0] == rx.start as int && 0
            <= path.last() < g.len() && g[path.last()].end;
    lemma_eps_path_run(g, s, path, path.len() - 1, 0);
    assert(reaches(g, s, rx.start as int, 0, path.last(), 0));
    assert(accepts_from(g, s, rx.start as int, 0));
}

/// Whether no arrow of `g` checks the end of the input or a word boundary: what such an
/// automaton accepts does not depend on what follows the part it reads.
pub open spec fn reads_no_end(g: Seq<SpecNode>) -> bool {
    forall|u: int, k: int|
        0 <= u < g.len() && 0 <= k < g[u].arrows.len() ==> match #[trigger] g[u].arrows[k] {
            SpecArrow::Guard(b, _) => b == Boundary::Start,
            _ => true,
        }
}

/// An automaton that checks neither the end of the input nor word boundaries still
/// accepts an input when more characters are added after it.
pub proof fn lemma_accepts_longer_input(g: Seq<SpecNode>, start: int, s: Seq<char>, more: Seq<char>)
    requires
        reads_no_end(g),
        spec_accepts(g, start, s),
    ensures
        spec_accepts(g, start, s + more),
{
    let l = s + more;
    let i = choose|i: int| 0 <= i <= s.len() && #[trigger] accepts_from(g, s, start, i);
    let (t, q) = choose|t: int, q: int| #[trigger] reaches(g, s, start, i, t, q) && 0 <= t < g.len() && g[t].end;
    let run = choose|run: Seq<(int, int)>|
        is_run(g, s, run) && run[0] == (start, i) && #[trigger] run.last() == (t, q);
    assert forall|k: int| 0 <= k < run.len() - 1 implies step(
        g,
        l,
        #[trigger] run[k].0,
        run[k].1,
        run[k + 1].0,
        run[k + 1].1,
    ) by {
        let u = run[k].0;
        let p = run[k].1;
        assert(step(g, s, u, p, run[k + 1].0, run[k + 1].1));
        let a = choose|a: int|
            0 <= a < g[u].arrows.len() && arrow_step(#[trigger] g[u].arrows[a], s, p, run[k + 1].0, run[k + 1].1);
        match g[u].arrows[a] {
            SpecArrow::Match(c, x) => {
                assert(l[p] == s[p]);
            },
            _ => {},
        }
        assert(arrow_step(g[u].arrows[a], l, p, run[k + 1].0, run[k + 1].1));
    }
    assert(is_run(g, l, run));
    assert(reaches(g, l, start, i, t, q));
    assert(accepts_from(g, l, start, i));
}

/// A regular expression whose automaton checks neither the end of the input nor word
/// boundaries still matches an input when more characters are added after it.
pub proof fn lemma_match_longer_input(rx: Regex, s: Seq<char>, more: Seq<char>)
    requires
        reads_no_end(rx.automaton()),
        spec_is_match(rx, s),
    ensures
        spec_is_match(rx, s + more),
{
    assert(input_chars(s + more, rx.ignore_case) =~= input_chars(s, rx.ignore_case) + input_chars(
        more,
        rx.ignore_case,
    ));
    lemma_accepts_longer_input(rx.automaton(), rx.start as int, input_chars(s, rx.ignore_case), input_chars(more, rx.ignore_case));
}

/// With the case ignored, whether a regular expression matches does not depend on
/// the case of the ASCII letters of the input.
pub proof fn lemma_ignore_case(rx: Regex, s: Seq<char>, t: Seq<char>)
    requires
        rx.ignore_case,
        s.map_values(|c: char| spec_to_lower(c)) == t.map_values(|c: char| spec_to_lower(c)),
    ensures
        spec_is_match(rx, s) == spec_is_match(rx, t),
{
    assert(input_chars(s, true) == input_chars(t, true));
}

/// The empty regular expression is accepted and matches every input.
pub proof fn lemma_empty_regex_matches(ignore_case: bool, string: Seq<char>)
    ensures
        spec_new(Seq::empty(), ignore_case) is Some,
        spec_new(Seq::empty(), ignore_case)->Some_0 is Ok,
        forall|rx: Regex|
            #[trigger] new_result(Seq::empty(), ignore_case, Ok(rx)) ==> spec_is_match(rx, string),
{
    let e = Seq::<char>::empty();
    assert(pattern(e, ignore_case) =~= e) by {
        reveal_with_fuel(spec_regex_to_lower, 1);
    }
    assert(spec_parse(e) == SpecResult::Value(SpecToken::Branch(Seq::empty())));
    let g0 = seq![plain_node(), SpecNode { arrows: Seq::empty(), end: true }];
    let g = spec_compile(SpecToken::Branch(Seq::empty()));
    let ts = Seq::<SpecToken>::empty();
    assert(link_branch(g0, ts, 0, 0, 1) == with_arrow(g0, 0, SpecArrow::Epsilon(1)));
    assert(link(g0, SpecToken::Branch(ts), 0, 1) == link_branch(g0, ts, 0, 0, 1));
    assert(g == with_arrow(g0, 0, SpecArrow::Epsilon(1)));
    assert forall|rx: Regex| #[trigger] new_result(e, ignore_case, Ok(rx)) implies spec_is_match(rx, string) by {
        assert(rx.automaton() == g && rx.start == 0);
        let path = seq![0int, 1int];
        assert(g[0].arrows[0] == SpecArrow::Epsilon(1));
        assert(eps_step(g, 0, 1));
        assert(is_eps_path(g, path));
        assert(g[path.last()].end);
        lemma_eps_final_matches_all(rx, string);
    }
}

} // verus!
