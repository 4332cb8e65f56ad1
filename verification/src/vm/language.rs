use crate::language::token_matches;
use crate::matcher::{at_boundary, char_matches};
use crate::parser::{sp_simple_atom, SpecResult};
use crate::types::SpecCharacter as ClassValue;
use crate::vm::matcher::{
    Attempt, Outcome, SpecState, attempt, attempt_fail, class_matches, closed, finishes, fresh,
    lemma_run_attempts, max_fuel, moved, opened, outcome, run, run_fail,
};
use crate::vm::parser::{
    alternative_program, group_program, jump_fits, jumps_fit, lemma_jumps_concat, lemma_jumps_prefix,
    lemma_jumps_rep, lemma_jumps_single, lemma_loop_jumps, lemma_optional_jumps, lemma_optional_len,
    optional_copies, rep_seq, spec_repeat, Parsed, escape_instruction, sp_atom, sp_escape_atom,
    sp_reps, sp_set, sp_set_loop, sp_with_reps,
};
use crate::vm::types::{SpecCharacter, SpecInstruction};
use vstd::prelude::*;

verus! {

// ---------------------------------------------------------------------------
// what a program reads

/// Whether the program `p`, at instruction `a.0` and position `a.1` of `s`, can go on to
/// instruction `b.0` at position `b.1`: a split may go either way, a jump goes where it
/// points, a check lets the run through where it holds, a class reads one character.
/// A back reference and `(?R)` are left out: no step goes through them.
pub open spec fn pstep(p: Seq<SpecInstruction>, s: Seq<char>, a: (int, int), b: (int, int)) -> bool {
    0 <= a.0 < p.len() && match p[a.0] {
        SpecInstruction::Start => a.1 == 0 && b.0 == a.0 + 1 && b.1 == a.1,
        SpecInstruction::End => a.1 >= s.len() && b.0 == a.0 + 1 && b.1 == a.1,
        SpecInstruction::Boundary(x) => at_boundary(s, a.1) == x && b.0 == a.0 + 1 && b.1 == a.1,
        SpecInstruction::Is(c) => 0 <= a.1 < s.len() && class_matches(c, s[a.1]) && b.0 == a.0 + 1
            && b.1 == a.1 + 1,
        SpecInstruction::Split(j) => (b.0 == a.0 + 1 || b.0 == a.0 + j) && b.1 == a.1,
        SpecInstruction::Repeat(n) => b.0 == a.0 - n && b.1 == a.1,
        SpecInstruction::Skip(n) => b.0 == a.0 + n && b.1 == a.1,
        SpecInstruction::GroupStart => b.0 == a.0 + 1 && b.1 == a.1,
        SpecInstruction::GroupEnd => b.0 == a.0 + 1 && b.1 == a.1,
        SpecInstruction::Group(_) => false,
        SpecInstruction::Recurse => false,
    }
}

/// A run of a program: (instruction, position) pairs, each reached by one step from the
/// one before.
pub open spec fn is_prun(p: Seq<SpecInstruction>, s: Seq<char>, run: Seq<(int, int)>) -> bool {
    &&& run.len() >= 1
    &&& forall|k: int| 0 <= k < run.len() - 1 ==> #[trigger] pstep(p, s, run[k], run[k + 1])
}

/// Whether `p`, from its first instruction at position `i` of `s`, can reach its end at
/// position `j`: whether it reads the part of `s` from `i` up to `j`.
pub open spec fn prog_accepts(p: Seq<SpecInstruction>, s: Seq<char>, i: int, j: int) -> bool {
    exists|run: Seq<(int, int)>|
        is_prun(p, s, run) && run[0] == (0int, i) && #[trigger] run.last() == (p.len() as int, j)
}

/// Whether `k` parts that `p` reads, one after the other, make up the part of `s` from
/// `i` up to `j`.
pub open spec fn prog_power(p: Seq<SpecInstruction>, k: nat, s: Seq<char>, i: int, j: int) -> bool
    decreases k,
{
    if k == 0 {
        i == j
    } else {
        exists|mid: int| prog_power(p, (k - 1) as nat, s, i, mid) && #[trigger] prog_accepts(p, s, mid, j)
    }
}

// ---------------------------------------------------------------------------
// steps and runs

/// A step of a program whose jumps fit lands within it, at the same position or the next.
proof fn lemma_pstep_fits(p: Seq<SpecInstruction>, s: Seq<char>, a: (int, int), b: (int, int))
    requires
        jumps_fit(p),
        pstep(p, s, a, b),
    ensures
        0 <= b.0 <= p.len(),
        a.1 <= b.1 <= a.1 + 1,
{
    assert(jump_fits(p[a.0], a.0, p.len() as int));
}

/// A step of `a` is a step of `a + b` there.
proof fn lemma_pstep_front(a: Seq<SpecInstruction>, b: Seq<SpecInstruction>, s: Seq<char>, x: (int, int), y: (int, int))
    requires
        0 <= x.0 < a.len(),
    ensures
        pstep(a + b, s, x, y) == pstep(a, s, x, y),
{
    assert((a + b)[x.0] == a[x.0]);
}

/// A step of `b` is a step of `a + b`, shifted by the length of `a`.
proof fn lemma_pstep_back(a: Seq<SpecInstruction>, b: Seq<SpecInstruction>, s: Seq<char>, x: (int, int), y: (int, int))
    requires
        0 <= x.0 < b.len(),
    ensures
        pstep(a + b, s, (x.0 + a.len(), x.1), (y.0 + a.len(), y.1)) == pstep(b, s, x, y),
{
    assert((a + b)[x.0 + a.len()] == b[x.0]);
}

/// Two runs joined where the first ends and the second begins.
proof fn lemma_prun_join(p: Seq<SpecInstruction>, s: Seq<char>, r1: Seq<(int, int)>, r2: Seq<(int, int)>)
    requires
        is_prun(p, s, r1),
        is_prun(p, s, r2),
        r1.last() == r2[0],
    ensures
        is_prun(p, s, r1 + r2.drop_first()),
        (r1 + r2.drop_first())[0] == r1[0],
        (r1 + r2.drop_first()).last() == r2.last(),
{
    let r = r1 + r2.drop_first();
    assert forall|k: int| 0 <= k < r.len() - 1 implies #[trigger] pstep(p, s, r[k], r[k + 1]) by {
        if k < r1.len() - 1 {
            assert(r[k] == r1[k] && r[k + 1] == r1[k + 1]);
            assert(pstep(p, s, r1[k], r1[k + 1]));
        } else {
            let k2 = k - (r1.len() - 1);
            assert(r[k] == r2[k2]);
            assert(r[k + 1] == r2[k2 + 1]);
            assert(pstep(p, s, r2[k2], r2[k2 + 1]));
        }
    }
    if r2.len() > 1 {
        assert(r.last() == r2.drop_first().last());
    }
}

/// The part of a run from index `a` to index `b`.
proof fn lemma_prun_sub(p: Seq<SpecInstruction>, s: Seq<char>, run: Seq<(int, int)>, a: int, b: int)
    requires
        is_prun(p, s, run),
        0 <= a <= b < run.len(),
    ensures
        is_prun(p, s, run.subrange(a, b + 1)),
        run.subrange(a, b + 1)[0] == run[a],
        run.subrange(a, b + 1).last() == run[b],
{
    let r = run.subrange(a, b + 1);
    assert forall|k: int| 0 <= k < r.len() - 1 implies #[trigger] pstep(p, s, r[k], r[k + 1]) by {
        assert(r[k] == run[a + k] && r[k + 1] == run[a + k + 1]);
        assert(pstep(p, s, run[a + k], run[a + k + 1]));
    }
}

/// A run of `a` is a run of `a + b`.
proof fn lemma_prun_front(a: Seq<SpecInstruction>, b: Seq<SpecInstruction>, s: Seq<char>, run: Seq<(int, int)>)
    requires
        is_prun(a, s, run),
    ensures
        is_prun(a + b, s, run),
{
    assert forall|k: int| 0 <= k < run.len() - 1 implies #[trigger] pstep(a + b, s, run[k], run[k + 1]) by {
        assert(pstep(a, s, run[k], run[k + 1]));
        lemma_pstep_front(a, b, s, run[k], run[k + 1]);
    }
}

/// The run `run` with every instruction moved on by `d`.
pub open spec fn shift_run(run: Seq<(int, int)>, d: int) -> Seq<(int, int)> {
    run.map_values(|x: (int, int)| (x.0 + d, x.1))
}

/// A run of `b`, shifted, is a run of `a + b`.
proof fn lemma_prun_back(a: Seq<SpecInstruction>, b: Seq<SpecInstruction>, s: Seq<char>, run: Seq<(int, int)>)
    requires
        is_prun(b, s, run),
    ensures
        is_prun(a + b, s, shift_run(run, a.len() as int)),
{
    let r = shift_run(run, a.len() as int);
    assert forall|k: int| 0 <= k < r.len() - 1 implies #[trigger] pstep(a + b, s, r[k], r[k + 1]) by {
        assert(pstep(b, s, run[k], run[k + 1]));
        lemma_pstep_back(a, b, s, run[k], run[k + 1]);
    }
}

/// A run of `a + b` that stays at or after `b`'s first instruction, but for its last
/// pair, is a shifted run of `b`.
proof fn lemma_prun_unshift(a: Seq<SpecInstruction>, b: Seq<SpecInstruction>, s: Seq<char>, run: Seq<(int, int)>)
    requires
        is_prun(a + b, s, run),
        forall|k: int| 0 <= k < run.len() - 1 ==> a.len() <= #[trigger] run[k].0,
    ensures
        is_prun(b, s, shift_run(run, -a.len())),
{
    let r = shift_run(run, -a.len());
    assert forall|k: int| 0 <= k < r.len() - 1 implies #[trigger] pstep(b, s, r[k], r[k + 1]) by {
        assert(pstep(a + b, s, run[k], run[k + 1]));
        assert(a.len() <= run[k].0);
        assert(run[k].0 < (a + b).len());
        lemma_pstep_back(a, b, s, r[k], r[k + 1]);
        assert((r[k].0 + a.len(), r[k].1) == run[k]);
        assert((r[k + 1].0 + a.len(), r[k + 1].1) == run[k + 1]);
    }
}

/// A run of `a + b` from `a`'s first instruction that reaches `a`'s end does so first at
/// some index `e`, before which it stays in `a`.
proof fn lemma_prun_first_end(
    a: Seq<SpecInstruction>,
    b: Seq<SpecInstruction>,
    s: Seq<char>,
    run: Seq<(int, int)>,
    r: int,
) -> (e: int)
    requires
        jumps_fit(a),
        is_prun(a + b, s, run),
        0 <= r < run.len(),
        0 <= run[r].0 <= a.len(),
        forall|k: int| 0 <= k < r ==> 0 <= #[trigger] run[k].0 < a.len(),
        run.last().0 >= a.len(),
    ensures
        r <= e < run.len(),
        run[e].0 == a.len(),
        forall|k: int| 0 <= k < e ==> 0 <= #[trigger] run[k].0 < a.len(),
    decreases run.len() - r,
{
    if run[r].0 == a.len() {
        r
    } else {
        assert(r < run.len() - 1);
        assert(pstep(a + b, s, run[r], run[r + 1]));
        lemma_pstep_front(a, b, s, run[r], run[r + 1]);
        lemma_pstep_fits(a, s, run[r], run[r + 1]);
        lemma_prun_first_end(a, b, s, run, r + 1)
    }
}

/// From `b`'s first instruction on, a run of `a + b` with `b`'s jumps fitting stays in `b`.
proof fn lemma_prun_stays_back(
    a: Seq<SpecInstruction>,
    b: Seq<SpecInstruction>,
    s: Seq<char>,
    run: Seq<(int, int)>,
    e: int,
    k: int,
)
    requires
        jumps_fit(b),
        is_prun(a + b, s, run),
        0 <= e <= k < run.len(),
        run[e].0 == a.len(),
    ensures
        a.len() <= run[k].0 <= a.len() + b.len(),
    decreases k - e,
{
    if k > e {
        lemma_prun_stays_back(a, b, s, run, e, k - 1);
        let q = k - 1;
        assert(pstep(a + b, s, run[q], run[q + 1]));
        assert(q + 1 == k);
        let x = (run[k - 1].0 - a.len(), run[k - 1].1);
        let y = (run[k].0 - a.len(), run[k].1);
        lemma_pstep_back(a, b, s, x, y);
        lemma_pstep_fits(b, s, x, y);
    }
}

// ---------------------------------------------------------------------------
// programs one after the other

proof fn lemma_concat_intro(a: Seq<SpecInstruction>, b: Seq<SpecInstruction>, s: Seq<char>, i: int, mid: int, j: int)
    requires
        prog_accepts(a, s, i, mid),
        prog_accepts(b, s, mid, j),
    ensures
        prog_accepts(a + b, s, i, j),
{
    let r1 = choose|run: Seq<(int, int)>|
        is_prun(a, s, run) && run[0] == (0int, i) && #[trigger] run.last() == (a.len() as int, mid);
    let r2 = choose|run: Seq<(int, int)>|
        is_prun(b, s, run) && run[0] == (0int, mid) && #[trigger] run.last() == (b.len() as int, j);
    lemma_prun_front(a, b, s, r1);
    lemma_prun_back(a, b, s, r2);
    let r2s = shift_run(r2, a.len() as int);
    assert(r2s[0] == (a.len() as int, mid));
    assert(r2s.last() == ((a + b).len() as int, j));
    lemma_prun_join(a + b, s, r1, r2s);
    let r = r1 + r2s.drop_first();
    assert(is_prun(a + b, s, r) && r[0] == (0int, i) && r.last() == ((a + b).len() as int, j));
}

proof fn lemma_concat_elim(a: Seq<SpecInstruction>, b: Seq<SpecInstruction>, s: Seq<char>, i: int, j: int)
    requires
        jumps_fit(a),
        jumps_fit(b),
        prog_accepts(a + b, s, i, j),
    ensures
        exists|mid: int| prog_accepts(a, s, i, mid) && #[trigger] prog_accepts(b, s, mid, j),
{
    let run = choose|run: Seq<(int, int)>|
        is_prun(a + b, s, run) && run[0] == (0int, i) && #[trigger] run.last() == ((a + b).len() as int, j);
    let e = lemma_prun_first_end(a, b, s, run, 0);
    let mid = run[e].1;
    let r1 = run.subrange(0, e + 1);
    lemma_prun_sub(a + b, s, run, 0, e);
    assert forall|k: int| 0 <= k < r1.len() - 1 implies #[trigger] pstep(a, s, r1[k], r1[k + 1]) by {
        assert(pstep(a + b, s, r1[k], r1[k + 1]));
        assert(r1[k] == run[k]);
        lemma_pstep_front(a, b, s, r1[k], r1[k + 1]);
    }
    assert(prog_accepts(a, s, i, mid)) by {
        assert(is_prun(a, s, r1) && r1[0] == (0int, i) && r1.last() == (a.len() as int, mid));
    }
    let r2 = run.subrange(e, run.len() as int);
    lemma_prun_sub(a + b, s, run, e, run.len() - 1);
    assert forall|k: int| 0 <= k < r2.len() - 1 implies a.len() <= #[trigger] r2[k].0 by {
        lemma_prun_stays_back(a, b, s, run, e, e + k);
        assert(r2[k] == run[e + k]);
    }
    lemma_prun_unshift(a, b, s, r2);
    let r3 = shift_run(r2, -a.len());
    assert(r3[0] == (0int, mid));
    assert(r3.last() == (b.len() as int, j));
    assert(prog_accepts(b, s, mid, j));
}

/// A program followed by another reads a part exactly where the first reads up to some
/// position and the second from there.
pub proof fn lemma_concat_accepts(a: Seq<SpecInstruction>, b: Seq<SpecInstruction>, s: Seq<char>, i: int, j: int)
    requires
        jumps_fit(a),
        jumps_fit(b),
    ensures
        prog_accepts(a + b, s, i, j) == exists|mid: int|
            prog_accepts(a, s, i, mid) && #[trigger] prog_accepts(b, s, mid, j),
{
    if prog_accepts(a + b, s, i, j) {
        lemma_concat_elim(a, b, s, i, j);
    }
    if exists|mid: int| prog_accepts(a, s, i, mid) && #[trigger] prog_accepts(b, s, mid, j) {
        let mid = choose|mid: int| prog_accepts(a, s, i, mid) && #[trigger] prog_accepts(b, s, mid, j);
        lemma_concat_intro(a, b, s, i, mid, j);
    }
}

// ---------------------------------------------------------------------------
// copies one after the other

proof fn lemma_power_one(p: Seq<SpecInstruction>, s: Seq<char>, i: int, j: int)
    ensures
        prog_power(p, 1, s, i, j) == prog_accepts(p, s, i, j),
{
    reveal_with_fuel(prog_power, 2);
    if prog_accepts(p, s, i, j) {
        assert(prog_power(p, 0, s, i, i));
    }
    if prog_power(p, 1, s, i, j) {
        let m = choose|m: int| prog_power(p, 0, s, i, m) && #[trigger] prog_accepts(p, s, m, j);
        assert(m == i);
    }
}

/// `a` copies up to `mid` and `c` more from there make `a + c` copies.
proof fn lemma_power_app(p: Seq<SpecInstruction>, a: nat, c: nat, s: Seq<char>, i: int, mid: int, j: int)
    requires
        prog_power(p, a, s, i, mid),
        prog_power(p, c, s, mid, j),
    ensures
        prog_power(p, a + c, s, i, j),
    decreases c,
{
    if c > 0 {
        let m2 = choose|m2: int| prog_power(p, (c - 1) as nat, s, mid, m2) && #[trigger] prog_accepts(p, s, m2, j);
        lemma_power_app(p, a, (c - 1) as nat, s, i, mid, m2);
        assert((a + (c - 1)) as nat == (a + c - 1) as nat);
    }
}

/// `a + c` copies are `a` copies up to some position and `c` more from there.
proof fn lemma_power_split(p: Seq<SpecInstruction>, a: nat, c: nat, s: Seq<char>, i: int, j: int)
    requires
        prog_power(p, a + c, s, i, j),
    ensures
        exists|mid: int| prog_power(p, a, s, i, mid) && #[trigger] prog_power(p, c, s, mid, j),
    decreases c,
{
    if c == 0 {
        assert(prog_power(p, 0, s, j, j));
    } else {
        assert((a + c - 1) as nat == (a + (c - 1)) as nat);
        let m2 = choose|m2: int| prog_power(p, (a + c - 1) as nat, s, i, m2) && #[trigger] prog_accepts(p, s, m2, j);
        lemma_power_split(p, a, (c - 1) as nat, s, i, m2);
        let mid = choose|mid: int| prog_power(p, a, s, i, mid) && #[trigger] prog_power(p, (c - 1) as nat, s, mid, m2);
        assert(prog_power(p, c, s, mid, j));
    }
}

/// `p` copied `n` times reads exactly `n` parts that `p` reads.
proof fn lemma_rep_accepts(p: Seq<SpecInstruction>, n: nat, s: Seq<char>, i: int, j: int)
    requires
        jumps_fit(p),
    ensures
        prog_accepts(rep_seq(p, n), s, i, j) == prog_power(p, n, s, i, j),
    decreases n,
{
    if n == 0 {
        let e = rep_seq(p, 0);
        assert(e.len() == 0);
        if prog_accepts(e, s, i, j) {
            let run = choose|run: Seq<(int, int)>|
                is_prun(e, s, run) && run[0] == (0int, i) && #[trigger] run.last() == (e.len() as int, j);
            if run.len() > 1 {
                let q = 0int;
                assert(pstep(e, s, run[q], run[q + 1]));
            }
        }
        if i == j {
            let run = seq![(0int, i)];
            assert(is_prun(e, s, run) && run[0] == (0int, i) && run.last() == (e.len() as int, j));
        }
    } else {
        let n1 = (n - 1) as nat;
        lemma_jumps_rep(p, n1);
        let r = rep_seq(p, n1);
        assert(rep_seq(p, n) == r + p);
        lemma_concat_accepts(r, p, s, i, j);
        if prog_accepts(r + p, s, i, j) {
            let mid = choose|mid: int| prog_accepts(r, s, i, mid) && #[trigger] prog_accepts(p, s, mid, j);
            lemma_rep_accepts(p, n1, s, i, mid);
            assert(prog_power(p, n, s, i, j));
        }
        if prog_power(p, n, s, i, j) {
            let mid = choose|mid: int| prog_power(p, n1, s, i, mid) && #[trigger] prog_accepts(p, s, mid, j);
            lemma_rep_accepts(p, n1, s, i, mid);
            assert(prog_accepts(r, s, i, mid) && prog_accepts(p, s, mid, j));
        }
    }
}

// ---------------------------------------------------------------------------
// a split that may skip a program

/// A program behind a split that may jump just past it reads what the program reads, or
/// nothing.
proof fn lemma_skip_front(sp: SpecInstruction, r: Seq<SpecInstruction>, s: Seq<char>, i: int, j: int)
    requires
        jumps_fit(r),
        sp matches SpecInstruction::Split(x) && x == r.len() + 1,
    ensures
        prog_accepts(seq![sp] + r, s, i, j) == (i == j || prog_accepts(r, s, i, j)),
{
    let a = seq![sp];
    let c = a + r;
    assert(c[0] == sp);
    if i == j {
        let run = seq![(0int, i), (c.len() as int, i)];
        let q = 0int;
        assert(pstep(c, s, run[q], run[q + 1]));
        assert(is_prun(c, s, run) && run[0] == (0int, i) && run.last() == (c.len() as int, j));
    }
    if prog_accepts(r, s, i, j) {
        let rr = choose|run: Seq<(int, int)>|
            is_prun(r, s, run) && run[0] == (0int, i) && #[trigger] run.last() == (r.len() as int, j);
        lemma_prun_back(a, r, s, rr);
        let rs = shift_run(rr, 1);
        let head = seq![(0int, i), (1int, i)];
        let q = 0int;
        assert(pstep(c, s, head[q], head[q + 1]));
        assert(is_prun(c, s, head));
        assert(rs[0] == (1int, i));
        lemma_prun_join(c, s, head, rs);
        let run = head + rs.drop_first();
        assert(run.last() == (c.len() as int, j));
    }
    if prog_accepts(c, s, i, j) && i != j {
        let run = choose|run: Seq<(int, int)>|
            is_prun(c, s, run) && run[0] == (0int, i) && #[trigger] run.last() == (c.len() as int, j);
        assert(run.len() >= 2);
        let q = 0int;
        assert(pstep(c, s, run[q], run[q + 1]));
        if run[1].0 == c.len() {
            if run.len() > 2 {
                let q1 = 1int;
                assert(pstep(c, s, run[q1], run[q1 + 1]));
            }
        } else {
            assert(run[1].0 == 1);
            let r2 = run.subrange(1, run.len() as int);
            lemma_prun_sub(c, s, run, 1, run.len() - 1);
            assert forall|k: int| 0 <= k < r2.len() - 1 implies a.len() <= #[trigger] r2[k].0 by {
                lemma_prun_stays_back(a, r, s, run, 1, 1 + k);
                assert(r2[k] == run[1 + k]);
            }
            lemma_prun_unshift(a, r, s, r2);
            let r3 = shift_run(r2, -1);
            assert(r3[0] == (0int, i));
            assert(r3.last() == (r.len() as int, j));
            assert(prog_accepts(r, s, i, j));
        }
    }
}

// ---------------------------------------------------------------------------
// the loop of `*`

/// The loop around `p`: a split past the end, `p`, and a jump back to the split.
pub open spec fn loop_program(p: Seq<SpecInstruction>) -> Seq<SpecInstruction> {
    seq![SpecInstruction::Split((p.len() + 2) as usize)] + p + seq![SpecInstruction::Repeat((p.len() + 1) as usize)]
}

proof fn lemma_loop_layout(p: Seq<SpecInstruction>)
    requires
        p.len() + 2 <= usize::MAX,
    ensures
        loop_program(p) =~= seq![SpecInstruction::Split((p.len() + 2) as usize)] + (p + seq![
            SpecInstruction::Repeat((p.len() + 1) as usize),
        ]),
        loop_program(p).len() == p.len() + 2,
        loop_program(p)[0] == SpecInstruction::Split((p.len() + 2) as usize),
        loop_program(p)[p.len() + 1int] == SpecInstruction::Repeat((p.len() + 1) as usize),
{
}

/// The run of the loop from its split at `i` back to its split at `j`, through `k` parts
/// that `p` reads.
proof fn lemma_loop_back(p: Seq<SpecInstruction>, k: nat, s: Seq<char>, i: int, j: int) -> (run: Seq<(int, int)>)
    requires
        p.len() + 2 <= usize::MAX,
        prog_power(p, k, s, i, j),
    ensures
        is_prun(loop_program(p), s, run),
        run[0] == (0int, i),
        run.last() == (0int, j),
    decreases k,
{
    let w = loop_program(p);
    let l = p.len() as int;
    lemma_loop_layout(p);
    let a = seq![SpecInstruction::Split((l + 2) as usize)];
    let b = p + seq![SpecInstruction::Repeat((l + 1) as usize)];
    if k == 0 {
        let run = seq![(0int, i)];
        assert(is_prun(w, s, run));
        run
    } else {
        let mid = choose|mid: int| prog_power(p, (k - 1) as nat, s, i, mid) && #[trigger] prog_accepts(p, s, mid, j);
        let r1 = lemma_loop_back(p, (k - 1) as nat, s, i, mid);
        let rp = choose|run: Seq<(int, int)>|
            is_prun(p, s, run) && run[0] == (0int, mid) && #[trigger] run.last() == (l, j);
        lemma_prun_front(p, seq![SpecInstruction::Repeat((l + 1) as usize)], s, rp);
        lemma_prun_back(a, b, s, rp);
        let rs = shift_run(rp, 1);
        assert(a + b == w);
        let head = seq![(0int, mid), (1int, mid)];
        let q = 0int;
        assert(pstep(w, s, head[q], head[q + 1]));
        assert(is_prun(w, s, head));
        let tail = seq![(l + 1, j), (0int, j)];
        assert(pstep(w, s, tail[q], tail[q + 1]));
        assert(is_prun(w, s, tail));
        lemma_prun_join(w, s, r1, head);
        let x1 = r1 + head.drop_first();
        assert(rs[0] == (1int, mid));
        lemma_prun_join(w, s, x1, rs);
        let x2 = x1 + rs.drop_first();
        assert(rs.last() == (l + 1, j));
        lemma_prun_join(w, s, x2, tail);
        x2 + tail.drop_first()
    }
}

proof fn lemma_loop_exit(p: Seq<SpecInstruction>, s: Seq<char>, run: Seq<(int, int)>, r: int) -> (e: int)
    requires
        p.len() + 2 <= usize::MAX,
        jumps_fit(p),
        is_prun(loop_program(p), s, run),
        1 <= r < run.len(),
        1 <= run[r].0 <= p.len() + 1,
        forall|k: int| 1 <= k < r ==> 1 <= #[trigger] run[k].0 <= p.len(),
        run.last().0 == p.len() + 2,
    ensures
        r <= e < run.len() - 1,
        run[e].0 == p.len() + 1,
        forall|k: int| 1 <= k < e ==> 1 <= #[trigger] run[k].0 <= p.len(),
    decreases run.len() - r,
{
    let w = loop_program(p);
    let l = p.len() as int;
    lemma_loop_layout(p);
    let a = seq![SpecInstruction::Split((l + 2) as usize)];
    let b = p + seq![SpecInstruction::Repeat((l + 1) as usize)];
    assert(a + b == w);
    if run[r].0 == l + 1 {
        r
    } else {
        assert(r < run.len() - 1);
        assert(pstep(w, s, run[r], run[r + 1]));
        let x = (run[r].0 - 1, run[r].1);
        let y = (run[r + 1].0 - 1, run[r + 1].1);
        lemma_pstep_back(a, b, s, x, y);
        lemma_pstep_front(p, seq![SpecInstruction::Repeat((l + 1) as usize)], s, x, y);
        lemma_pstep_fits(p, s, x, y);
        lemma_loop_exit(p, s, run, r + 1)
    }
}

/// What the loop reads from its split to its end is made of parts that `p` reads.
proof fn lemma_loop_elim(p: Seq<SpecInstruction>, s: Seq<char>, run: Seq<(int, int)>, i: int, j: int)
    requires
        p.len() + 2 <= usize::MAX,
        jumps_fit(p),
        is_prun(loop_program(p), s, run),
        run[0] == (0int, i),
        run.last() == (p.len() + 2int, j),
    ensures
        exists|k: nat| #[trigger] prog_power(p, k, s, i, j),
    decreases run.len(),
{
    let w = loop_program(p);
    let l = p.len() as int;
    lemma_loop_layout(p);
    let a = seq![SpecInstruction::Split((l + 2) as usize)];
    let b = p + seq![SpecInstruction::Repeat((l + 1) as usize)];
    assert(a + b == w);
    assert(run.len() >= 2);
    let q = 0int;
    assert(pstep(w, s, run[q], run[q + 1]));
    if run[1].0 == l + 2 {
        if run.len() > 2 {
            let q1 = 1int;
            assert(pstep(w, s, run[q1], run[q1 + 1]));
        }
        assert(prog_power(p, 0, s, i, j));
    } else {
        assert(run[1] == (1int, i));
        let e = lemma_loop_exit(p, s, run, 1);
        let mid = run[e].1;
        // the copy of `p` read between the split and the jump back
        let r1 = run.subrange(1, e + 1);
        lemma_prun_sub(w, s, run, 1, e);
        assert forall|k: int| 0 <= k < r1.len() - 1 implies a.len() <= #[trigger] r1[k].0 by {
            assert(r1[k] == run[1 + k]);
        }
        lemma_prun_unshift(a, b, s, r1);
        let r2 = shift_run(r1, -1);
        assert forall|k: int| 0 <= k < r2.len() - 1 implies #[trigger] pstep(p, s, r2[k], r2[k + 1]) by {
            assert(pstep(b, s, r2[k], r2[k + 1]));
            assert(r1[k] == run[1 + k]);
            lemma_pstep_front(p, seq![SpecInstruction::Repeat((l + 1) as usize)], s, r2[k], r2[k + 1]);
        }
        assert(r2[0] == (0int, i));
        assert(r2.last() == (l, mid));
        assert(prog_accepts(p, s, i, mid)) by {
            assert(is_prun(p, s, r2));
        }
        // the jump back, then the rest of the run
        assert(pstep(w, s, run[e], run[e + 1]));
        assert(run[e + 1] == (0int, mid));
        let r3 = run.subrange(e + 1, run.len() as int);
        lemma_prun_sub(w, s, run, e + 1, run.len() - 1);
        lemma_loop_elim(p, s, r3, mid, j);
        let k = choose|k: nat| #[trigger] prog_power(p, k, s, mid, j);
        lemma_power_one(p, s, i, mid);
        lemma_power_app(p, 1, k, s, i, mid, j);
    }
}

/// The loop reads exactly the parts made of any number of parts that `p` reads.
proof fn lemma_loop_accepts(p: Seq<SpecInstruction>, s: Seq<char>, i: int, j: int)
    requires
        p.len() + 2 <= usize::MAX,
        jumps_fit(p),
    ensures
        prog_accepts(loop_program(p), s, i, j) == exists|k: nat| #[trigger] prog_power(p, k, s, i, j),
{
    let w = loop_program(p);
    let l = p.len() as int;
    lemma_loop_layout(p);
    if prog_accepts(w, s, i, j) {
        let run = choose|run: Seq<(int, int)>|
            is_prun(w, s, run) && run[0] == (0int, i) && #[trigger] run.last() == (w.len() as int, j);
        lemma_loop_elim(p, s, run, i, j);
    }
    if exists|k: nat| #[trigger] prog_power(p, k, s, i, j) {
        let k = choose|k: nat| #[trigger] prog_power(p, k, s, i, j);
        let r1 = lemma_loop_back(p, k, s, i, j);
        let tail = seq![(0int, j), (l + 2, j)];
        let q = 0int;
        assert(pstep(w, s, tail[q], tail[q + 1]));
        assert(is_prun(w, s, tail));
        lemma_prun_join(w, s, r1, tail);
        let run = r1 + tail.drop_first();
        assert(run.last() == (w.len() as int, j));
    }
}

// ---------------------------------------------------------------------------
// the optional copies of a bounded repetition

/// The optional copies `j0..total` of `p` read any number of parts that `p` reads, up to
/// `total - j0`.
proof fn lemma_optional_accepts(p: Seq<SpecInstruction>, total: nat, j0: nat, s: Seq<char>, i: int, j: int)
    requires
        jumps_fit(p),
        j0 <= total,
        total * (p.len() + 1) <= usize::MAX,
    ensures
        prog_accepts(optional_copies(p, total, j0), s, i, j) == exists|c: nat|
            c <= total - j0 && #[trigger] prog_power(p, c, s, i, j),
    decreases total - j0,
{
    let l = p.len() as int;
    if j0 == total {
        assert(optional_copies(p, total, j0) =~= rep_seq(p, 0));
        lemma_rep_accepts(p, 0, s, i, j);
        if prog_power(p, 0, s, i, j) {
            assert(0 <= total - j0);
        }
    } else {
        let x = (total - j0) * (l + 1);
        assert(x <= total * (l + 1)) by (nonlinear_arith)
            requires
                j0 <= total,
                x == (total - j0) * (l + 1),
                l >= 0,
        ;
        let sp = SpecInstruction::Split(x as usize);
        let rest = optional_copies(p, total, j0 + 1);
        let r = p + rest;
        assert(optional_copies(p, total, j0) =~= seq![sp] + r);
        lemma_optional_len(p, total, j0 + 1);
        assert(x == r.len() + 1) by (nonlinear_arith)
            requires
                r.len() == l + (total - (j0 + 1)) * (l + 1),
                x == (total - j0) * (l + 1),
                j0 < total,
        ;
        lemma_optional_jumps(p, total, j0 + 1);
        lemma_jumps_concat(p, rest);
        lemma_skip_front(sp, r, s, i, j);
        lemma_concat_accepts(p, rest, s, i, j);
        if prog_accepts(seq![sp] + r, s, i, j) {
            if i == j {
                assert(prog_power(p, 0, s, i, j));
            } else {
                let mid = choose|mid: int| prog_accepts(p, s, i, mid) && #[trigger] prog_accepts(rest, s, mid, j);
                lemma_optional_accepts(p, total, j0 + 1, s, mid, j);
                let c = choose|c: nat| c <= total - (j0 + 1) && #[trigger] prog_power(p, c, s, mid, j);
                lemma_power_one(p, s, i, mid);
                lemma_power_app(p, 1, c, s, i, mid, j);
                assert(1 + c <= total - j0);
            }
        }
        if exists|c: nat| c <= total - j0 && #[trigger] prog_power(p, c, s, i, j) {
            let c = choose|c: nat| c <= total - j0 && #[trigger] prog_power(p, c, s, i, j);
            if c > 0 {
                assert((1 + (c - 1)) as nat == c);
                lemma_power_split(p, 1, (c - 1) as nat, s, i, j);
                let mid = choose|mid: int| prog_power(p, 1, s, i, mid) && #[trigger] prog_power(p, (c - 1) as nat, s, mid, j);
                lemma_power_one(p, s, i, mid);
                lemma_optional_accepts(p, total, j0 + 1, s, mid, j);
                assert(prog_accepts(rest, s, mid, j));
                assert(prog_accepts(p, s, i, mid) && prog_accepts(rest, s, mid, j));
            } else {
                assert(i == j);
            }
        }
    }
}

// ---------------------------------------------------------------------------
// the law of `repeat`

/// Whether `k` copies are what a repetition from `n` to `m` times allows (`m ==
/// usize::MAX` for no upper bound).
pub open spec fn count_allowed(k: nat, n: usize, m: usize) -> bool {
    if n == m {
        k == n
    } else if m == usize::MAX {
        n <= k
    } else {
        n <= k <= m
    }
}

/// The program that [`crate::vm::parser::spec_repeat`] makes of `p` reads exactly the
/// parts of the input made of `k` parts that `p` reads, one after the other, for each
/// number `k` of copies that the repetition allows; and its jumps stay within it.
pub proof fn lemma_repeat_language(p: Seq<SpecInstruction>, n: usize, m: usize, s: Seq<char>, i: int, j: int)
    requires
        jumps_fit(p),
        spec_repeat(p, n, m) is Value,
    ensures
        jumps_fit(spec_repeat(p, n, m)->Value_0),
        prog_accepts(spec_repeat(p, n, m)->Value_0, s, i, j) == exists|k: nat|
            count_allowed(k, n, m) && #[trigger] prog_power(p, k, s, i, j),
{
    let q = spec_repeat(p, n, m)->Value_0;
    let l = p.len() as int;
    crate::vm::parser::lemma_repeat_jumps(p, n, m);
    if n == m {
        lemma_rep_accepts(p, n as nat, s, i, j);
        if prog_power(p, n as nat, s, i, j) {
            assert(count_allowed(n as nat, n, m));
        }
    } else if n == 0 && m == 1 {
        let sp = SpecInstruction::Split((l + 1) as usize);
        lemma_skip_front(sp, p, s, i, j);
        lemma_power_one(p, s, i, j);
        if prog_accepts(q, s, i, j) {
            if i == j {
                assert(prog_power(p, 0, s, i, j) && count_allowed(0, n, m));
            } else {
                assert(count_allowed(1, n, m));
            }
        }
    } else if n == 0 && m == usize::MAX {
        assert(q == loop_program(p));
        lemma_loop_accepts(p, s, i, j);
        if exists|k: nat| #[trigger] prog_power(p, k, s, i, j) {
            let k = choose|k: nat| #[trigger] prog_power(p, k, s, i, j);
            assert(count_allowed(k, n, m));
        }
    } else if m == usize::MAX {
        let base = rep_seq(p, n as nat);
        lemma_loop_jumps(p);
        lemma_jumps_rep(p, n as nat);
        assert(q =~= base + loop_program(p));
        lemma_concat_accepts(base, loop_program(p), s, i, j);
        if prog_accepts(q, s, i, j) {
            let mid = choose|mid: int| prog_accepts(base, s, i, mid) && #[trigger] prog_accepts(loop_program(p), s, mid, j);
            lemma_rep_accepts(p, n as nat, s, i, mid);
            lemma_loop_accepts(p, s, mid, j);
            let c = choose|c: nat| #[trigger] prog_power(p, c, s, mid, j);
            lemma_power_app(p, n as nat, c, s, i, mid, j);
            assert(count_allowed((n + c) as nat, n, m));
        }
        if exists|k: nat| count_allowed(k, n, m) && #[trigger] prog_power(p, k, s, i, j) {
            let k = choose|k: nat| count_allowed(k, n, m) && #[trigger] prog_power(p, k, s, i, j);
            assert((n + (k - n)) as nat == k);
            lemma_power_split(p, n as nat, (k - n) as nat, s, i, j);
            let mid = choose|mid: int| prog_power(p, n as nat, s, i, mid) && #[trigger] prog_power(p, (k - n) as nat, s, mid, j);
            lemma_rep_accepts(p, n as nat, s, i, mid);
            lemma_loop_accepts(p, s, mid, j);
            assert(prog_accepts(base, s, i, mid) && prog_accepts(loop_program(p), s, mid, j));
        }
    } else {
        let base = rep_seq(p, n as nat);
        let total = (m - n) as nat;
        let opt = optional_copies(p, total, 0);
        lemma_jumps_rep(p, n as nat);
        lemma_optional_jumps(p, total, 0);
        assert(q == base + opt);
        lemma_concat_accepts(base, opt, s, i, j);
        if prog_accepts(q, s, i, j) {
            let mid = choose|mid: int| prog_accepts(base, s, i, mid) && #[trigger] prog_accepts(opt, s, mid, j);
            lemma_rep_accepts(p, n as nat, s, i, mid);
            lemma_optional_accepts(p, total, 0, s, mid, j);
            let c = choose|c: nat| c <= total - 0 && #[trigger] prog_power(p, c, s, mid, j);
            lemma_power_app(p, n as nat, c, s, i, mid, j);
            assert(count_allowed((n + c) as nat, n, m));
        }
        if exists|k: nat| count_allowed(k, n, m) && #[trigger] prog_power(p, k, s, i, j) {
            let k = choose|k: nat| count_allowed(k, n, m) && #[trigger] prog_power(p, k, s, i, j);
            assert((n + (k - n)) as nat == k);
            lemma_power_split(p, n as nat, (k - n) as nat, s, i, j);
            let mid = choose|mid: int| prog_power(p, n as nat, s, i, mid) && #[trigger] prog_power(p, (k - n) as nat, s, mid, j);
            lemma_rep_accepts(p, n as nat, s, i, mid);
            lemma_optional_accepts(p, total, 0, s, mid, j);
            assert((k - n) as nat <= total - 0);
            assert(prog_accepts(base, s, i, mid) && prog_accepts(opt, s, mid, j));
        }
    }
}

// ---------------------------------------------------------------------------
// alternatives and groups

/// An instruction that goes on to the next one where the run stands, put before `r`,
/// reads what `r` reads.
proof fn lemma_step_front(ins: SpecInstruction, r: Seq<SpecInstruction>, s: Seq<char>, i: int, j: int)
    requires
        pstep(seq![ins] + r, s, (0int, i), (1int, i)),
        prog_accepts(r, s, i, j),
    ensures
        prog_accepts(seq![ins] + r, s, i, j),
{
    let a = seq![ins];
    let c = a + r;
    let rr = choose|run: Seq<(int, int)>|
        is_prun(r, s, run) && run[0] == (0int, i) && #[trigger] run.last() == (r.len() as int, j);
    lemma_prun_back(a, r, s, rr);
    let rs = shift_run(rr, 1);
    let head = seq![(0int, i), (1int, i)];
    let q = 0int;
    assert(pstep(c, s, head[q], head[q + 1]));
    assert(is_prun(c, s, head));
    assert(rs[0] == (1int, i));
    lemma_prun_join(c, s, head, rs);
    assert((head + rs.drop_first()).last() == (c.len() as int, j));
}

/// A program of one instruction that reads nothing and goes on reads exactly the empty
/// parts.
proof fn lemma_mark_accepts(ins: SpecInstruction, s: Seq<char>, i: int, j: int)
    requires
        ins == SpecInstruction::GroupStart || ins == SpecInstruction::GroupEnd,
    ensures
        prog_accepts(seq![ins], s, i, j) == (i == j),
{
    let c = seq![ins];
    if i == j {
        let run = seq![(0int, i), (1int, i)];
        let q = 0int;
        assert(pstep(c, s, run[q], run[q + 1]));
        assert(is_prun(c, s, run) && run[0] == (0int, i) && run.last() == (c.len() as int, j));
    }
    if prog_accepts(c, s, i, j) {
        let run = choose|run: Seq<(int, int)>|
            is_prun(c, s, run) && run[0] == (0int, i) && #[trigger] run.last() == (c.len() as int, j);
        let q = 0int;
        assert(pstep(c, s, run[q], run[q + 1]));
        if run.len() > 2 {
            let q1 = 1int;
            assert(pstep(c, s, run[q1], run[q1 + 1]));
        }
    }
}

/// An atom of one instruction that reads a character or checks the position reads
/// exactly what its one step reads: a class one character it matches, an anchor or a
/// boundary the empty part where it holds.
pub proof fn lemma_atom_language(ins: SpecInstruction, s: Seq<char>, i: int, j: int)
    requires
        ins is Is || ins is Start || ins is End || ins is Boundary,
    ensures
        prog_accepts(seq![ins], s, i, j) == pstep(seq![ins], s, (0int, i), (1int, j)),
{
    let c = seq![ins];
    if pstep(c, s, (0int, i), (1int, j)) {
        let run = seq![(0int, i), (1int, j)];
        let q = 0int;
        assert(pstep(c, s, run[q], run[q + 1]));
        assert(is_prun(c, s, run) && run[0] == (0int, i) && run.last() == (c.len() as int, j));
    }
    if prog_accepts(c, s, i, j) {
        let run = choose|run: Seq<(int, int)>|
            is_prun(c, s, run) && run[0] == (0int, i) && #[trigger] run.last() == (c.len() as int, j);
        let q = 0int;
        assert(pstep(c, s, run[q], run[q + 1]));
        if run.len() > 2 {
            let q1 = 1int;
            assert(pstep(c, s, run[q1], run[q1 + 1]));
        }
    }
}

/// A group reads what its body reads.
pub proof fn lemma_group_language(b: Seq<SpecInstruction>, s: Seq<char>, i: int, j: int)
    requires
        jumps_fit(b),
    ensures
        prog_accepts(group_program(b), s, i, j) == prog_accepts(b, s, i, j),
{
    let gs = seq![SpecInstruction::GroupStart];
    let ge = seq![SpecInstruction::GroupEnd];
    lemma_jumps_single(SpecInstruction::GroupStart);
    lemma_jumps_single(SpecInstruction::GroupEnd);
    lemma_jumps_concat(gs, b);
    lemma_concat_accepts(gs + b, ge, s, i, j);
    if prog_accepts(group_program(b), s, i, j) {
        let mid = choose|mid: int| prog_accepts(gs + b, s, i, mid) && #[trigger] prog_accepts(ge, s, mid, j);
        lemma_mark_accepts(SpecInstruction::GroupEnd, s, mid, j);
        lemma_concat_accepts(gs, b, s, i, mid);
        let m0 = choose|m0: int| prog_accepts(gs, s, i, m0) && #[trigger] prog_accepts(b, s, m0, mid);
        lemma_mark_accepts(SpecInstruction::GroupStart, s, i, m0);
    }
    if prog_accepts(b, s, i, j) {
        lemma_mark_accepts(SpecInstruction::GroupStart, s, i, i);
        lemma_mark_accepts(SpecInstruction::GroupEnd, s, j, j);
        lemma_concat_intro(gs, b, s, i, i, j);
        lemma_concat_intro(gs + b, ge, s, i, j, j);
    }
}

/// An alternation reads what either of its two programs reads.
pub proof fn lemma_alternative_language(a: Seq<SpecInstruction>, t: Seq<SpecInstruction>, s: Seq<char>, i: int, j: int)
    requires
        jumps_fit(a),
        jumps_fit(t),
        a.len() + 2 <= usize::MAX,
        t.len() + 1 <= usize::MAX,
    ensures
        prog_accepts(alternative_program(a, t), s, i, j) == (prog_accepts(a, s, i, j) || prog_accepts(
            t,
            s,
            i,
            j,
        )),
{
    let sp = SpecInstruction::Split((a.len() + 2) as usize);
    let sk = SpecInstruction::Skip((t.len() + 1) as usize);
    let c = alternative_program(a, t);
    let tail = seq![sk] + t;
    let b = a + tail;
    let front = seq![sp] + a + seq![sk];
    assert(c =~= seq![sp] + b);
    assert(c =~= front + t);
    assert(c[0] == sp);
    lemma_jumps_prefix(sk, t);
    lemma_jumps_concat(a, tail);
    // what the skip and `t` read: nothing, since the skip jumps past `t`
    assert forall|m: int, j2: int| #[trigger] prog_accepts(tail, s, m, j2) implies m == j2 by {
        let run = choose|run: Seq<(int, int)>|
            is_prun(tail, s, run) && run[0] == (0int, m) && #[trigger] run.last() == (tail.len() as int, j2);
        let q = 0int;
        assert(tail[0] == sk);
        assert(pstep(tail, s, run[q], run[q + 1]));
        if run.len() > 2 {
            let q1 = 1int;
            assert(pstep(tail, s, run[q1], run[q1 + 1]));
        }
    }
    if prog_accepts(a, s, i, j) {
        let r0 = seq![(0int, j), (tail.len() as int, j)];
        let q = 0int;
        assert(tail[0] == sk);
        assert(pstep(tail, s, r0[q], r0[q + 1]));
        assert(is_prun(tail, s, r0) && r0[0] == (0int, j) && r0.last() == (tail.len() as int, j));
        lemma_concat_intro(a, tail, s, i, j, j);
        assert(pstep(seq![sp] + b, s, (0int, i), (1int, i)));
        lemma_step_front(sp, b, s, i, j);
    }
    if prog_accepts(t, s, i, j) {
        let rt = choose|run: Seq<(int, int)>|
            is_prun(t, s, run) && run[0] == (0int, i) && #[trigger] run.last() == (t.len() as int, j);
        lemma_prun_back(front, t, s, rt);
        let rs = shift_run(rt, front.len() as int);
        let head = seq![(0int, i), (front.len() as int, i)];
        let q = 0int;
        assert(pstep(c, s, head[q], head[q + 1]));
        assert(is_prun(c, s, head));
        lemma_prun_join(c, s, head, rs);
        assert((head + rs.drop_first()).last() == (c.len() as int, j));
    }
    if prog_accepts(c, s, i, j) {
        let run = choose|run: Seq<(int, int)>|
            is_prun(c, s, run) && run[0] == (0int, i) && #[trigger] run.last() == (c.len() as int, j);
        assert(run.len() >= 2);
        let q = 0int;
        assert(pstep(c, s, run[q], run[q + 1]));
        let r2 = run.subrange(1, run.len() as int);
        lemma_prun_sub(c, s, run, 1, run.len() - 1);
        if run[1].0 == 1 {
            let one = seq![sp];
            assert forall|k: int| 0 <= k < r2.len() - 1 implies one.len() <= #[trigger] r2[k].0 by {
                lemma_prun_stays_back(one, b, s, run, 1, 1 + k);
                assert(r2[k] == run[1 + k]);
            }
            lemma_prun_unshift(one, b, s, r2);
            let r3 = shift_run(r2, -1);
            assert(r3[0] == (0int, i) && r3.last() == (b.len() as int, j));
            assert(prog_accepts(b, s, i, j));
            lemma_concat_elim(a, tail, s, i, j);
        } else {
            assert(run[1].0 == front.len());
            assert forall|k: int| 0 <= k < r2.len() - 1 implies front.len() <= #[trigger] r2[k].0 by {
                lemma_prun_stays_back(front, t, s, run, 1, 1 + k);
                assert(r2[k] == run[1 + k]);
            }
            lemma_prun_unshift(front, t, s, r2);
            let r3 = shift_run(r2, -front.len());
            assert(r3[0] == (0int, i) && r3.last() == (t.len() as int, j));
            assert(prog_accepts(t, s, i, j));
        }
    }
}

// ---------------------------------------------------------------------------
// what the machine matches, the program reads

/// Whether `re` holds no back reference and no `(?R)`.
pub open spec fn plain(re: Seq<SpecInstruction>) -> bool {
    forall|k: int| 0 <= k < re.len() ==> !(#[trigger] re[k] is Group) && !(re[k] is Recurse)
}

/// Whether `(x.0, x.1)` can reach `(y.0, y.1)` by steps of `p`.
pub open spec fn preaches(p: Seq<SpecInstruction>, s: Seq<char>, x: (int, int), y: (int, int)) -> bool {
    exists|run: Seq<(int, int)>| is_prun(p, s, run) && run[0] == x && #[trigger] run.last() == y
}

/// Whether the state `st` was reached by steps of `p` from the first instruction at the
/// start of its attempt, within the program and the input.
pub open spec fn read_so_far(p: Seq<SpecInstruction>, s: Seq<char>, st: SpecState) -> bool {
    &&& st.pc <= p.len()
    &&& st.sp <= s.len()
    &&& preaches(p, s, (0int, st.start as int), (st.pc as int, st.sp as int))
}

proof fn lemma_preaches_step(p: Seq<SpecInstruction>, s: Seq<char>, x: (int, int), y: (int, int), z: (int, int))
    requires
        preaches(p, s, x, y),
        pstep(p, s, y, z),
    ensures
        preaches(p, s, x, z),
{
    let r1 = choose|run: Seq<(int, int)>| is_prun(p, s, run) && run[0] == x && #[trigger] run.last() == y;
    let r2 = seq![y, z];
    let q = 0int;
    assert(pstep(p, s, r2[q], r2[q + 1]));
    assert(is_prun(p, s, r2));
    lemma_prun_join(p, s, r1, r2);
    assert((r1 + r2.drop_first()).last() == z);
}

/// The state `st` moved on by one step of `p` keeps having been read.
proof fn lemma_read_step(p: Seq<SpecInstruction>, s: Seq<char>, st: SpecState, nx: SpecState)
    requires
        jumps_fit(p),
        read_so_far(p, s, st),
        nx.start == st.start,
        nx.sp <= s.len(),
        pstep(p, s, (st.pc as int, st.sp as int), (nx.pc as int, nx.sp as int)),
    ensures
        read_so_far(p, s, nx),
{
    lemma_preaches_step(p, s, (0int, st.start as int), (st.pc as int, st.sp as int), (nx.pc as int, nx.sp as int));
    lemma_pstep_fits(p, s, (st.pc as int, st.sp as int), (nx.pc as int, nx.sp as int));
}

/// For a program without back references or `(?R)` whose jumps fit, a run that matches
/// ends in a state reached by steps of the program from the start of its attempt.
pub proof fn lemma_run_reads(
    re: Seq<SpecInstruction>,
    s: Seq<char>,
    st: SpecState,
    cache: Seq<SpecState>,
    fuel: nat,
)
    requires
        jumps_fit(re),
        plain(re),
        s.len() <= usize::MAX,
        re.len() <= usize::MAX,
        read_so_far(re, s, st),
        forall|k: int| 0 <= k < cache.len() ==> read_so_far(re, s, #[trigger] cache[k]),
    ensures
        run(re, s, st, cache, fuel) matches Outcome::Matched(end) ==> read_so_far(re, s, end) && end.pc
            >= re.len(),
    decreases fuel, 0int,
{
    if st.pc >= re.len() || fuel == 0 {
    } else {
        let f = (fuel - 1) as nat;
        let pc = st.pc as int;
        let sp = st.sp as int;
        assert(!(re[pc] is Group) && !(re[pc] is Recurse));
        match re[pc] {
            SpecInstruction::Start => if sp == 0 {
                lemma_read_step(re, s, st, moved(st, pc + 1, sp));
                lemma_run_reads(re, s, moved(st, pc + 1, sp), cache, f);
            } else {
                lemma_run_fail_reads(re, s, st, cache, f);
            },
            SpecInstruction::End => if sp >= s.len() {
                lemma_read_step(re, s, st, moved(st, pc + 1, sp));
                lemma_run_reads(re, s, moved(st, pc + 1, sp), cache, f);
            } else {
                lemma_run_fail_reads(re, s, st, cache, f);
            },
            SpecInstruction::Boundary(b) => if at_boundary(s, sp) == b {
                lemma_read_step(re, s, st, moved(st, pc + 1, sp));
                lemma_run_reads(re, s, moved(st, pc + 1, sp), cache, f);
            } else {
                lemma_run_fail_reads(re, s, st, cache, f);
            },
            SpecInstruction::Is(c) => if sp < s.len() && class_matches(c, s[sp]) {
                lemma_read_step(re, s, st, moved(st, pc + 1, sp + 1));
                lemma_run_reads(re, s, moved(st, pc + 1, sp + 1), cache, f);
            } else {
                lemma_run_fail_reads(re, s, st, cache, f);
            },
            SpecInstruction::Split(j) => if pc + j <= usize::MAX {
                let saved = moved(st, pc + j, sp);
                lemma_read_step(re, s, st, moved(st, pc + 1, sp));
                lemma_read_step(re, s, st, saved);
                let c2 = cache.push(saved);
                assert forall|k: int| 0 <= k < c2.len() implies read_so_far(re, s, #[trigger] c2[k]) by {
                    if k < cache.len() {
                        assert(c2[k] == cache[k]);
                    }
                }
                lemma_run_reads(re, s, moved(st, pc + 1, sp), c2, f);
            },
            SpecInstruction::Repeat(n) => if n <= pc {
                lemma_read_step(re, s, st, moved(st, pc - n, sp));
                lemma_run_reads(re, s, moved(st, pc - n, sp), cache, f);
            },
            SpecInstruction::Skip(n) => if pc + n <= usize::MAX {
                lemma_read_step(re, s, st, moved(st, pc + n, sp));
                lemma_run_reads(re, s, moved(st, pc + n, sp), cache, f);
            },
            SpecInstruction::GroupStart => {
                lemma_read_step(re, s, st, opened(st));
                lemma_run_reads(re, s, opened(st), cache, f);
            },
            SpecInstruction::GroupEnd => if !(st.active.len() == 0 || st.active.last() >= st.groups.len()) {
                lemma_read_step(re, s, st, closed(st));
                lemma_run_reads(re, s, closed(st), cache, f);
            },
            _ => {},
        }
    }
}

/// [`lemma_run_reads`] after an instruction failed.
pub proof fn lemma_run_fail_reads(
    re: Seq<SpecInstruction>,
    s: Seq<char>,
    st: SpecState,
    cache: Seq<SpecState>,
    fuel: nat,
)
    requires
        jumps_fit(re),
        plain(re),
        s.len() <= usize::MAX,
        re.len() <= usize::MAX,
        read_so_far(re, s, st),
        forall|k: int| 0 <= k < cache.len() ==> read_so_far(re, s, #[trigger] cache[k]),
    ensures
        run_fail(re, s, st, cache, fuel) matches Outcome::Matched(end) ==> read_so_far(re, s, end)
            && end.pc >= re.len(),
    decreases fuel, 1int,
{
    if cache.len() > 0 {
        let c2 = cache.drop_last();
        assert(read_so_far(re, s, cache[cache.len() - 1]));
        assert forall|k: int| 0 <= k < c2.len() implies read_so_far(re, s, #[trigger] c2[k]) by {
            assert(c2[k] == cache[k]);
        }
        lemma_run_reads(re, s, cache.last(), c2, fuel);
    } else if st.start + 1 <= s.len() {
        let nx = fresh((st.start + 1) as usize, (st.start + 1) as usize);
        let r0 = seq![(0int, nx.start as int)];
        assert(is_prun(re, s, r0));
        assert(r0.last() == (nx.pc as int, nx.sp as int));
        assert(read_so_far(re, s, nx));
        lemma_run_reads(re, s, nx, cache, fuel);
    }
}

/// What the machine matches, a program without back references or `(?R)` whose jumps
/// fit reads: a run that matches ends where the program, from its first instruction at
/// the attempt's start, reaches its end.
pub proof fn lemma_match_is_read(rx: Seq<SpecInstruction>, string: Seq<char>)
    requires
        jumps_fit(rx),
        plain(rx),
        string.len() <= usize::MAX,
        rx.len() <= usize::MAX,
    ensures
        outcome(rx, string) matches Outcome::Matched(end) ==> end.start <= end.sp <= string.len()
            && prog_accepts(rx, string, end.start as int, end.sp as int),
{
    let st = fresh(0, 0);
    let r0 = seq![(0int, 0int)];
    assert(is_prun(rx, string, r0));
    assert(r0.last() == (st.pc as int, st.sp as int));
    assert(read_so_far(rx, string, st));
    lemma_run_reads(rx, string, st, Seq::empty(), max_fuel());
    crate::vm::matcher::lemma_outcome_within(rx, string);
    if outcome(rx, string) is Matched {
        let end = outcome(rx, string)->Matched_0;
        assert(end.pc >= rx.len());
        assert(end.pc == rx.len());
        let run = choose|run: Seq<(int, int)>|
            is_prun(rx, string, run) && run[0] == (0int, end.start as int) && #[trigger] run.last() == (
                end.pc as int,
                end.sp as int,
            );
        assert(run.last() == (rx.len() as int, end.sp as int));
    }
}

/// Whether the program can go from the state `st` to its end.
pub open spec fn reaches_end(p: Seq<SpecInstruction>, s: Seq<char>, st: SpecState) -> bool {
    exists|j: int| #[trigger] preaches(p, s, (st.pc as int, st.sp as int), (p.len() as int, j))
}

/// A way to the end from before the end begins with a step.
proof fn lemma_first_step(p: Seq<SpecInstruction>, s: Seq<char>, x: (int, int), j: int) -> (y: (int, int))
    requires
        x.0 < p.len(),
        preaches(p, s, x, (p.len() as int, j)),
    ensures
        pstep(p, s, x, y),
        preaches(p, s, y, (p.len() as int, j)),
{
    let run = choose|run: Seq<(int, int)>| is_prun(p, s, run) && run[0] == x && #[trigger] run.last() == (p.len() as int, j);
    assert(run.len() >= 2);
    let q = 0int;
    assert(pstep(p, s, run[q], run[q + 1]));
    lemma_prun_sub(p, s, run, 1, run.len() - 1);
    assert(run.subrange(1, run.len() as int).last() == run.last());
    run[1]
}

/// A state whose only step leads to `nx`, which cannot reach the end, cannot reach it.
proof fn lemma_only_step(p: Seq<SpecInstruction>, s: Seq<char>, st: SpecState, nx: SpecState)
    requires
        st.pc < p.len(),
        !reaches_end(p, s, nx),
        forall|y: (int, int)|
            #[trigger] pstep(p, s, (st.pc as int, st.sp as int), y) ==> y == (nx.pc as int, nx.sp as int),
    ensures
        !reaches_end(p, s, st),
{
    if reaches_end(p, s, st) {
        let j = choose|j: int| #[trigger] preaches(p, s, (st.pc as int, st.sp as int), (p.len() as int, j));
        let y = lemma_first_step(p, s, (st.pc as int, st.sp as int), j);
        assert(preaches(p, s, (nx.pc as int, nx.sp as int), (p.len() as int, j)));
    }
}

/// A state with no step cannot reach the end.
proof fn lemma_no_step(p: Seq<SpecInstruction>, s: Seq<char>, st: SpecState)
    requires
        st.pc < p.len(),
        forall|y: (int, int)| !#[trigger] pstep(p, s, (st.pc as int, st.sp as int), y),
    ensures
        !reaches_end(p, s, st),
{
    if reaches_end(p, s, st) {
        let j = choose|j: int| #[trigger] preaches(p, s, (st.pc as int, st.sp as int), (p.len() as int, j));
        let y = lemma_first_step(p, s, (st.pc as int, st.sp as int), j);
    }
}

/// An attempt that fails has tried every way: neither its state nor any saved state can
/// reach the end of the program.
pub proof fn lemma_attempt_exhausts(
    re: Seq<SpecInstruction>,
    s: Seq<char>,
    st: SpecState,
    cache: Seq<SpecState>,
    fuel: nat,
)
    requires
        plain(re),
        s.len() <= usize::MAX,
        re.len() <= usize::MAX,
        st.sp <= s.len(),
        forall|k: int| 0 <= k < cache.len() ==> (#[trigger] cache[k]).sp <= s.len(),
    ensures
        attempt(re, s, st, cache, fuel) is Failed ==> !reaches_end(re, s, st) && forall|k: int|
            0 <= k < cache.len() ==> !reaches_end(re, s, #[trigger] cache[k]),
    decreases fuel, 0int,
{
    if st.pc >= re.len() || fuel == 0 {
    } else {
        let f = (fuel - 1) as nat;
        let pc = st.pc as int;
        let sp = st.sp as int;
        let x = (pc, sp);
        assert(!(re[pc] is Group) && !(re[pc] is Recurse));
        match re[pc] {
            SpecInstruction::Start => if sp == 0 {
                let nx = moved(st, pc + 1, sp);
                lemma_attempt_exhausts(re, s, nx, cache, f);
                if attempt(re, s, st, cache, fuel) is Failed {
                    lemma_only_step(re, s, st, nx);
                }
            } else {
                lemma_attempt_fail_exhausts(re, s, st, cache, f);
                lemma_no_step(re, s, st);
            },
            SpecInstruction::End => if sp >= s.len() {
                let nx = moved(st, pc + 1, sp);
                lemma_attempt_exhausts(re, s, nx, cache, f);
                if attempt(re, s, st, cache, fuel) is Failed {
                    lemma_only_step(re, s, st, nx);
                }
            } else {
                lemma_attempt_fail_exhausts(re, s, st, cache, f);
                lemma_no_step(re, s, st);
            },
            SpecInstruction::Boundary(b) => if at_boundary(s, sp) == b {
                let nx = moved(st, pc + 1, sp);
                lemma_attempt_exhausts(re, s, nx, cache, f);
                if attempt(re, s, st, cache, fuel) is Failed {
                    lemma_only_step(re, s, st, nx);
                }
            } else {
                lemma_attempt_fail_exhausts(re, s, st, cache, f);
                lemma_no_step(re, s, st);
            },
            SpecInstruction::Is(c) => if sp < s.len() && class_matches(c, s[sp]) {
                let nx = moved(st, pc + 1, sp + 1);
                lemma_attempt_exhausts(re, s, nx, cache, f);
                if attempt(re, s, st, cache, fuel) is Failed {
                    lemma_only_step(re, s, st, nx);
                }
            } else {
                lemma_attempt_fail_exhausts(re, s, st, cache, f);
                lemma_no_step(re, s, st);
            },
            SpecInstruction::Split(j) => if pc + j <= usize::MAX {
                let nx = moved(st, pc + 1, sp);
                let saved = moved(st, pc + j, sp);
                let c2 = cache.push(saved);
                assert forall|k: int| 0 <= k < c2.len() implies (#[trigger] c2[k]).sp <= s.len() by {
                    if k < cache.len() {
                        assert(c2[k] == cache[k]);
                    }
                }
                lemma_attempt_exhausts(re, s, nx, c2, f);
                if attempt(re, s, st, cache, fuel) is Failed {
                    assert(!reaches_end(re, s, c2[cache.len() as int]));
                    assert forall|k: int| 0 <= k < cache.len() implies !reaches_end(re, s, #[trigger] cache[k]) by {
                        assert(c2[k] == cache[k]);
                    }
                    if reaches_end(re, s, st) {
                        let jj = choose|jj: int| #[trigger] preaches(re, s, x, (re.len() as int, jj));
                        let y = lemma_first_step(re, s, x, jj);
                        if y == (nx.pc as int, nx.sp as int) {
                            assert(preaches(re, s, (nx.pc as int, nx.sp as int), (re.len() as int, jj)));
                        } else {
                            assert(preaches(re, s, (saved.pc as int, saved.sp as int), (re.len() as int, jj)));
                        }
                    }
                }
            },
            SpecInstruction::Repeat(n) => if n <= pc {
                let nx = moved(st, pc - n, sp);
                lemma_attempt_exhausts(re, s, nx, cache, f);
                if attempt(re, s, st, cache, fuel) is Failed {
                    lemma_only_step(re, s, st, nx);
                }
            },
            SpecInstruction::Skip(n) => if pc + n <= usize::MAX {
                let nx = moved(st, pc + n, sp);
                lemma_attempt_exhausts(re, s, nx, cache, f);
                if attempt(re, s, st, cache, fuel) is Failed {
                    lemma_only_step(re, s, st, nx);
                }
            },
            SpecInstruction::GroupStart => {
                let nx = opened(st);
                lemma_attempt_exhausts(re, s, nx, cache, f);
                if attempt(re, s, st, cache, fuel) is Failed {
                    lemma_only_step(re, s, st, nx);
                }
            },
            SpecInstruction::GroupEnd => if !(st.active.len() == 0 || st.active.last() >= st.groups.len()) {
                let nx = closed(st);
                lemma_attempt_exhausts(re, s, nx, cache, f);
                if attempt(re, s, st, cache, fuel) is Failed {
                    lemma_only_step(re, s, st, nx);
                }
            },
            _ => {},
        }
    }
}

/// [`lemma_attempt_exhausts`] after an instruction failed.
pub proof fn lemma_attempt_fail_exhausts(
    re: Seq<SpecInstruction>,
    s: Seq<char>,
    st: SpecState,
    cache: Seq<SpecState>,
    fuel: nat,
)
    requires
        plain(re),
        s.len() <= usize::MAX,
        re.len() <= usize::MAX,
        st.sp <= s.len(),
        forall|k: int| 0 <= k < cache.len() ==> (#[trigger] cache[k]).sp <= s.len(),
    ensures
        attempt_fail(re, s, st, cache, fuel) is Failed ==> forall|k: int|
            0 <= k < cache.len() ==> !reaches_end(re, s, #[trigger] cache[k]),
    decreases fuel, 1int,
{
    if cache.len() > 0 {
        let c2 = cache.drop_last();
        assert(cache[cache.len() - 1].sp <= s.len());
        assert forall|k: int| 0 <= k < c2.len() implies (#[trigger] c2[k]).sp <= s.len() by {
            assert(c2[k] == cache[k]);
        }
        lemma_attempt_exhausts(re, s, cache.last(), c2, fuel);
        if attempt_fail(re, s, st, cache, fuel) is Failed {
            assert forall|k: int| 0 <= k < cache.len() implies !reaches_end(re, s, #[trigger] cache[k]) by {
                if k < c2.len() {
                    assert(c2[k] == cache[k]);
                }
            }
        }
    }
}

proof fn lemma_failed_search(re: Seq<SpecInstruction>, s: Seq<char>, i: int, fuel: nat, i2: int)
    requires
        plain(re),
        s.len() <= usize::MAX,
        re.len() <= usize::MAX,
        0 <= i <= i2 <= s.len(),
        run(re, s, fresh(i as usize, i as usize), Seq::empty(), fuel) is Failed,
    ensures
        !reaches_end(re, s, fresh(i2 as usize, i2 as usize)),
    decreases s.len() - i,
{
    let st = fresh(i as usize, i as usize);
    lemma_run_attempts(re, s, st, Seq::empty(), fuel);
    lemma_attempt_exhausts(re, s, st, Seq::empty(), fuel);
    match attempt(re, s, st, Seq::empty(), fuel) {
        Attempt::Failed(left) => {
            if i < i2 {
                lemma_failed_search(re, s, i + 1, left, i2);
            }
        },
        _ => {},
    }
}

/// The machine matches exactly the inputs that hold a part its program reads: for a
/// program without back references or `(?R)` whose jumps fit, on an input where its run
/// gives an answer, it matches if and only if the program, from its first instruction at
/// some position `i`, can reach its end at some position `j`.
pub proof fn lemma_machine_language(rx: Seq<SpecInstruction>, string: Seq<char>)
    requires
        jumps_fit(rx),
        plain(rx),
        string.len() <= usize::MAX,
        rx.len() <= usize::MAX,
        finishes(rx, string),
    ensures
        (outcome(rx, string) is Matched) == exists|i: int, j: int|
            0 <= i <= j <= string.len() && #[trigger] prog_accepts(rx, string, i, j),
{
    lemma_match_is_read(rx, string);
    if outcome(rx, string) is Matched {
        let end = outcome(rx, string)->Matched_0;
        assert(prog_accepts(rx, string, end.start as int, end.sp as int));
    }
    if exists|i: int, j: int| 0 <= i <= j <= string.len() && #[trigger] prog_accepts(rx, string, i, j) {
        let (i, j) = choose|i: int, j: int| 0 <= i <= j <= string.len() && #[trigger] prog_accepts(rx, string, i, j);
        if outcome(rx, string) is Failed {
            lemma_failed_search(rx, string, 0, max_fuel(), i);
            let st = fresh(i as usize, i as usize);
            assert(preaches(rx, string, (st.pc as int, st.sp as int), (rx.len() as int, j)));
        }
    }
}

/// A `?` after an atom makes it optional: an atom whose program `base` has its jumps
/// within it gets, with the `?` after it, a program that reads the empty part, or a part
/// that `base` reads, and nothing else; two parts that `base` reads one after the other
/// are no part of it unless `base` reads them at once.
pub proof fn lemma_optional_suffix(s: Seq<char>, base: Seq<SpecInstruction>, q: int, input: Seq<char>, i: int, j: int)
    requires
        0 <= q < s.len(),
        s[q] == '?',
        jumps_fit(base),
        base.len() + 2 <= usize::MAX,
    ensures
        sp_with_reps(s, base, q).1 == q + 1,
        sp_with_reps(s, base, q).0 matches Parsed::Value(prog) && (prog_accepts(prog, input, i, j) <==> (
        i == j || prog_accepts(base, input, i, j))),
{
    assert(sp_reps(s, q) == (Parsed::Value(Some((0usize, 1usize))), q + 1));
    assert(spec_repeat(base, 0, 1) is Value);
    lemma_repeat_language(base, 0, 1, input, i, j);
    lemma_power_one(base, input, i, j);
    if exists|k: nat| count_allowed(k, 0, 1) && #[trigger] prog_power(base, k, input, i, j) {
        let k = choose|k: nat| count_allowed(k, 0, 1) && #[trigger] prog_power(base, k, input, i, j);
        assert(k == 0 || k == 1);
    }
    if i == j {
        assert(count_allowed(0, 0, 1) && prog_power(base, 0, input, i, j));
    }
    if prog_accepts(base, input, i, j) {
        assert(count_allowed(1, 0, 1) && prog_power(base, 1, input, i, j));
    }
}

// ---------------------------------------------------------------------------
// the class escapes

/// The machine and the automaton read each escape that is no character alike: for `\b`,
/// `\B`, `\d`, `\D`, `\s`, `\S`, `\w` and `\W`, the one instruction that the machine makes
/// of it matches exactly the characters, or lets a run on at exactly the positions, that
/// the automaton's token for the same escape matches.
pub proof fn lemma_escapes_agree(e: char, input: Seq<char>, i: int)
    requires
        e == 'b' || e == 'B' || e == 'd' || e == 'D' || e == 's' || e == 'S' || e == 'w' || e
            == 'W',
    ensures
        escape_instruction(e) matches Some(ins) && (sp_simple_atom(seq!['\\', e], 0).0 matches SpecResult::Value(
            t,
        ) && match ins {
            SpecInstruction::Is(k) => 0 <= i < input.len() ==> (class_matches(k, input[i])
                <==> token_matches(t, input, i, i + 1)),
            SpecInstruction::Boundary(b) => (at_boundary(input, i) == b) <==> token_matches(
                t,
                input,
                i,
                i,
            ),
            _ => false,
        }),
{
    let s = seq!['\\', e];
    assert(s.len() == 2 && s[0] == '\\' && s[1] == e);
    if 0 <= i < input.len() {
        let x = input[i];
        assert(char_matches(ClassValue::Digit, x) == ('0' <= x && x <= '9'));
        assert(char_matches(ClassValue::Space, x) == crate::utils::spec_is_whitespace(x));
        assert(char_matches(ClassValue::Word, x) == (crate::utils::spec_is_alphanumeric(x) || x == '_'));
    }
}


/// A bracket expression `[l-u]` holding one range, with no repetition suffix after it,
/// is read as one instruction that matches exactly the characters from `l` to `u`, both
/// ends included; `l` is a plain character that comes before `u`.
pub proof fn lemma_range_class(s: Seq<char>, p: int, l: char, u: char, c: char)
    requires
        0 <= p,
        p + 5 <= s.len(),
        s[p] == '[',
        s[p + 1] == l,
        s[p + 2] == '-',
        s[p + 3] == u,
        s[p + 4] == ']',
        l != '^' && l != '-' && l != ']' && l != '\\',
        u != ']',
        l < u,
        !(p + 5 < s.len() && (s[p + 5] == '?' || s[p + 5] == '*' || s[p + 5] == '+' || s[p + 5]
            == '{')),
    ensures
        sp_atom(s, p).1 == p + 5,
        sp_atom(s, p).0 matches Parsed::Value(prog) && prog.len() == 1 && (prog[0] matches SpecInstruction::Is(k)
            && (class_matches(k, c) <==> (l <= c && c <= u))),
{
    let e: Seq<SpecCharacter> = Seq::empty();
    let one = e.push(SpecCharacter::Literal(l));
    let members = seq![SpecCharacter::Range(l, u)];
    assert(sp_set_loop(s, p + 4, members) == (Parsed::Value(members), p + 5));
    assert(one.drop_last().push(SpecCharacter::Range(l, u)) =~= members);
    assert(sp_set_loop(s, p + 2, one) == (Parsed::Value(members), p + 5));
    assert(sp_set_loop(s, p + 1, e) == (Parsed::Value(members), p + 5));
    let k = SpecCharacter::Bracket(members, true);
    assert(sp_set(s, p + 1) == (Parsed::Value(k), p + 5));
    assert(sp_reps(s, p + 5) == (Parsed::Value(None::<(usize, usize)>), p + 5));
    assert(sp_atom(s, p) == (Parsed::Value(seq![SpecInstruction::Is(k)]), p + 5));
    assert(members.len() == 1 && members[0] == SpecCharacter::Range(l, u));
    assert(k->Bracket_0 == members && k->Bracket_1 == true);
    assert(class_matches(k, c) == (exists|i: int| 0 <= i < members.len() && class_matches(#[trigger] members[i], c)));
    if class_matches(k, c) {
        let i = choose|i: int| 0 <= i < members.len() && class_matches(#[trigger] members[i], c);
        assert(i == 0);
    }
    if l <= c && c <= u {
        assert(class_matches(members[0], c));
    }
}


/// The escapes `\d` and `\D`, with no repetition suffix after them, are read as one
/// instruction each: `\d` matches exactly the ASCII digits `0` to `9`, and `\D` exactly
/// the other characters.
pub proof fn lemma_digit_escapes(s: Seq<char>, p: int, c: char)
    requires
        0 <= p,
        p + 2 <= s.len(),
        s[p] == '\\',
        s[p + 1] == 'd' || s[p + 1] == 'D',
        !(p + 2 < s.len() && (s[p + 2] == '?' || s[p + 2] == '*' || s[p + 2] == '+' || s[p + 2]
            == '{')),
    ensures
        sp_atom(s, p).1 == p + 2,
        sp_atom(s, p).0 matches Parsed::Value(prog) && prog.len() == 1 && (prog[0] matches SpecInstruction::Is(k)
            && (class_matches(k, c) <==> (('0' <= c && c <= '9') == (s[p + 1] == 'd')))),
{
    let i = escape_instruction(s[p + 1]).unwrap();
    assert(sp_reps(s, p + 2) == (Parsed::Value(None::<(usize, usize)>), p + 2));
    assert(sp_with_reps(s, seq![i], p + 2) == (Parsed::Value(seq![i]), p + 2));
    assert(sp_escape_atom(s, p + 1) == (Parsed::Value(seq![i]), p + 2));
    assert(sp_atom(s, p) == (Parsed::Value(seq![i]), p + 2));
}

/// Each upper-case class escape `\D`, `\S` and `\W` matches exactly the characters that
/// its lower-case `\d`, `\s` or `\w` does not.
pub proof fn lemma_negated_escapes(lower: char, upper: char, c: char)
    requires
        (lower == 'd' && upper == 'D') || (lower == 's' && upper == 'S') || (lower == 'w' && upper
            == 'W'),
    ensures
        escape_instruction(lower) matches Some(SpecInstruction::Is(k)) && (escape_instruction(upper) matches Some(
            SpecInstruction::Is(m),
        ) && class_matches(m, c) == !class_matches(k, c)),
{
}

} // verus!
