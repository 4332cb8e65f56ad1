use crate::compiler::{
    link, link_alternatives, link_branch, pattern, plain_node, range_loop, repeated, spec_compile,
    spec_new, star, with_arrow, with_state,
};
use crate::matcher::{
    accepts_from, arrow_step, char_matches, guard_holds, input_chars, is_run, lemma_reaches_refl,
    lemma_reaches_step, reaches, spec_accepts, spec_is_match, step,
};
use crate::parser::{
    SpecResult, SpecToken, peek, sp_check_counts, sp_number, sp_number_loop, sp_alt_loop, sp_alt_token, sp_alternative, sp_atom, sp_branch,
    sp_branch_loop, sp_escaped, sp_group, sp_reps, sp_set, sp_set_loop, sp_simple_atom, sp_with_reps, spec_parse,
};
use crate::types::{Regex, SpecArrow, SpecCharacter, SpecNode};
use crate::utils::spec_is_special;
use vstd::prelude::*;

verus! {

// ---------------------------------------------------------------------------
// what a token matches

// Every part in which a token or a row of tokens is matched lies between the two ends of
// the whole part, so each split point is looked for among those positions, one after the
// other; a loop needs only its copies that read something.

/// Whether the token `t` matches the part of `s` from position `i` up to position `j`,
/// its anchors and word boundaries read at their positions in `s`.
pub open spec fn token_matches(t: SpecToken, s: Seq<char>, i: int, j: int) -> bool
    decreases t, 0int, 0int,
{
    match t {
        SpecToken::Special(b) => j == i && guard_holds(b, s, i),
        SpecToken::Matcher(c) => j == i + 1 && 0 <= i < s.len() && char_matches(c, s[i]),
        SpecToken::Branch(ts) => branch_matches(ts, 0, s, i, j),
        SpecToken::Alternative(ts) => alt_matches(ts, 0, s, i, j),
        SpecToken::Repeat(bt, m, None) => at_least_matches(*bt, m as nat, s, i, j),
        SpecToken::Repeat(bt, m, Some(n)) => between_matches(*bt, m as nat, n as nat, s, i, j),
    }
}

/// Whether the tokens `ts[k..]`, one after the other, match `s` from `i` up to `j`.
pub open spec fn branch_matches(ts: Seq<SpecToken>, k: int, s: Seq<char>, i: int, j: int) -> bool
    decreases ts, ts.len() - k, j - i + 1,
{
    if 0 <= k < ts.len() {
        if i <= j {
            branch_cut(ts, k, s, i, j, i)
        } else {
            false
        }
    } else {
        i == j
    }
}

/// Whether `ts[k]` matches from `i` up to some `mid` at or after `x`, and `ts[k + 1..]`
/// from there up to `j`.
pub open spec fn branch_cut(ts: Seq<SpecToken>, k: int, s: Seq<char>, i: int, j: int, x: int) -> bool
    decreases ts, ts.len() - k, j - x,
{
    if 0 <= k < ts.len() && i <= x <= j {
        if token_matches(ts[k], s, i, x) && branch_matches(ts, k + 1, s, x, j) {
            true
        } else if x < j {
            branch_cut(ts, k, s, i, j, x + 1)
        } else {
            false
        }
    } else {
        false
    }
}

/// Whether one of the alternatives `ts[k..]` matches `s` from `i` up to `j`.
pub open spec fn alt_matches(ts: Seq<SpecToken>, k: int, s: Seq<char>, i: int, j: int) -> bool
    decreases ts, ts.len() - k, 0int,
{
    if 0 <= k < ts.len() {
        if token_matches(ts[k], s, i, j) {
            true
        } else {
            alt_matches(ts, k + 1, s, i, j)
        }
    } else {
        false
    }
}

/// Whether `n` copies of `t`, one after the other, match `s` from `i` up to `j`.
pub open spec fn power_matches(t: SpecToken, n: nat, s: Seq<char>, i: int, j: int) -> bool
    decreases t, n + 1, j - i + 1,
{
    if n == 0 {
        i == j
    } else if i <= j {
        power_cut(t, n, s, i, j, i)
    } else {
        false
    }
}

/// Whether a copy of `t` matches from `i` up to some `mid` at or after `x`, and `n - 1`
/// copies from there up to `j`.
pub open spec fn power_cut(t: SpecToken, n: nat, s: Seq<char>, i: int, j: int, x: int) -> bool
    decreases t, n + 1, j - x,
{
    if n > 0 && i <= x <= j {
        if token_matches(t, s, i, x) && power_matches(t, (n - 1) as nat, s, x, j) {
            true
        } else if x < j {
            power_cut(t, n, s, i, j, x + 1)
        } else {
            false
        }
    } else {
        false
    }
}

/// Whether any number of copies of `t` match `s` from `i` up to `j`.
pub open spec fn star_matches(t: SpecToken, s: Seq<char>, i: int, j: int) -> bool
    decreases t, 1int, 2 * (j - i),
{
    if i == j {
        true
    } else if i < j {
        star_cut(t, s, i, j, i + 1)
    } else {
        false
    }
}

/// Whether a copy of `t` matches from `i` up to some `mid` at or after `x` (and after
/// `i`), and any number of copies from there up to `j`.
pub open spec fn star_cut(t: SpecToken, s: Seq<char>, i: int, j: int, x: int) -> bool
    decreases t, 1int, (j - i) + (j - x),
{
    if i < x <= j {
        if token_matches(t, s, i, x) && star_matches(t, s, x, j) {
            true
        } else if x < j {
            star_cut(t, s, i, j, x + 1)
        } else {
            false
        }
    } else {
        false
    }
}

/// Whether `m` or more copies of `t` match `s` from `i` up to `j`.
pub open spec fn at_least_matches(t: SpecToken, m: nat, s: Seq<char>, i: int, j: int) -> bool
    decreases t, m + 2, j - i + 1,
{
    if i <= j {
        least_cut(t, m, s, i, j, i)
    } else {
        false
    }
}

/// Whether `m` copies of `t` match from `i` up to some `mid` at or after `x`, and any
/// number of copies from there up to `j`.
pub open spec fn least_cut(t: SpecToken, m: nat, s: Seq<char>, i: int, j: int, x: int) -> bool
    decreases t, m + 2, j - x,
{
    if i <= x <= j {
        if power_matches(t, m, s, i, x) && star_matches(t, s, x, j) {
            true
        } else if x < j {
            least_cut(t, m, s, i, j, x + 1)
        } else {
            false
        }
    } else {
        false
    }
}

/// Whether `k` to `n` copies of `t` match `s` from `i` up to `j`.
pub open spec fn between_matches(t: SpecToken, k: nat, n: nat, s: Seq<char>, i: int, j: int) -> bool
    decreases t, n + 2, n - k,
{
    if k <= n {
        if power_matches(t, k, s, i, j) {
            true
        } else if k < n {
            between_matches(t, k + 1, n, s, i, j)
        } else {
            false
        }
    } else {
        false
    }
}

/// Whether every bounded repetition in `t` allows at least as many copies at most as it
/// asks for at least, as the parser ensures.
pub open spec fn counts_ordered(t: SpecToken) -> bool
    decreases t, 0int,
{
    match t {
        SpecToken::Branch(ts) => ordered_from(ts, 0),
        SpecToken::Alternative(ts) => ordered_from(ts, 0),
        SpecToken::Repeat(bt, m, Some(n)) => m <= n && counts_ordered(*bt),
        SpecToken::Repeat(bt, _, None) => counts_ordered(*bt),
        _ => true,
    }
}

/// Whether the tokens `ts[k..]` all have their counts in order.
pub open spec fn ordered_from(ts: Seq<SpecToken>, k: int) -> bool
    decreases ts, ts.len() - k,
{
    if 0 <= k < ts.len() {
        counts_ordered(ts[k]) && ordered_from(ts, k + 1)
    } else {
        true
    }
}

/// Whether `t` matches some part of `s`.
pub open spec fn matches_somewhere(t: SpecToken, s: Seq<char>) -> bool {
    exists|i: int, j: int| 0 <= i <= j <= s.len() && #[trigger] token_matches(t, s, i, j)
}

// ---------------------------------------------------------------------------
// the split points that a match is made of

proof fn lemma_branch_cut_first(ts: Seq<SpecToken>, k: int, s: Seq<char>, i: int, j: int, x: int)
    requires
        branch_cut(ts, k, s, i, j, x),
    ensures
        exists|mid: int|
            #[trigger] token_matches(ts[k], s, i, mid) && branch_matches(ts, k + 1, s, mid, j),
    decreases j - x,
{
    if !(token_matches(ts[k], s, i, x) && branch_matches(ts, k + 1, s, x, j)) {
        lemma_branch_cut_first(ts, k, s, i, j, x + 1);
    }
}

proof fn lemma_alt_first(ts: Seq<SpecToken>, k: int, s: Seq<char>, i: int, j: int)
    requires
        alt_matches(ts, k, s, i, j),
    ensures
        exists|c: int| k <= c < ts.len() && #[trigger] token_matches(ts[c], s, i, j),
    decreases ts.len() - k,
{
    if !token_matches(ts[k], s, i, j) {
        lemma_alt_first(ts, k + 1, s, i, j);
    }
}

proof fn lemma_power_cut_first(t: SpecToken, n: nat, s: Seq<char>, i: int, j: int, x: int)
    requires
        power_cut(t, n, s, i, j, x),
    ensures
        exists|mid: int|
            #[trigger] token_matches(t, s, i, mid) && power_matches(t, (n - 1) as nat, s, mid, j),
    decreases j - x,
{
    if !(token_matches(t, s, i, x) && power_matches(t, (n - 1) as nat, s, x, j)) {
        lemma_power_cut_first(t, n, s, i, j, x + 1);
    }
}

/// The first copy of `n > 0` copies.
proof fn lemma_power_first(t: SpecToken, n: nat, s: Seq<char>, i: int, j: int)
    requires
        n > 0,
        power_matches(t, n, s, i, j),
    ensures
        exists|mid: int|
            #[trigger] token_matches(t, s, i, mid) && power_matches(t, (n - 1) as nat, s, mid, j),
{
    lemma_power_cut_first(t, n, s, i, j, i);
}

proof fn lemma_star_cut_first(t: SpecToken, s: Seq<char>, i: int, j: int, x: int)
    requires
        star_cut(t, s, i, j, x),
    ensures
        exists|mid: int|
            i < mid <= j && #[trigger] token_matches(t, s, i, mid) && star_matches(t, s, mid, j),
    decreases j - x,
{
    if !(token_matches(t, s, i, x) && star_matches(t, s, x, j)) {
        lemma_star_cut_first(t, s, i, j, x + 1);
    }
}

proof fn lemma_least_cut_first(t: SpecToken, m: nat, s: Seq<char>, i: int, j: int, x: int)
    requires
        least_cut(t, m, s, i, j, x),
    ensures
        exists|y: int| #[trigger] power_matches(t, m, s, i, y) && star_matches(t, s, y, j),
    decreases j - x,
{
    if !(power_matches(t, m, s, i, x) && star_matches(t, s, x, j)) {
        lemma_least_cut_first(t, m, s, i, j, x + 1);
    }
}

proof fn lemma_between_first(t: SpecToken, k: nat, n: nat, s: Seq<char>, i: int, j: int)
    requires
        between_matches(t, k, n, s, i, j),
    ensures
        exists|c: nat| k <= c <= n && #[trigger] power_matches(t, c, s, i, j),
    decreases n - k,
{
    if !power_matches(t, k, s, i, j) {
        lemma_between_first(t, k + 1, n, s, i, j);
    }
}

proof fn lemma_branch_cut_intro(ts: Seq<SpecToken>, k: int, s: Seq<char>, i: int, j: int, x: int, mid: int)
    requires
        0 <= k < ts.len(),
        i <= x <= mid <= j,
        token_matches(ts[k], s, i, mid),
        branch_matches(ts, k + 1, s, mid, j),
    ensures
        branch_cut(ts, k, s, i, j, x),
    decreases mid - x,
{
    if x < mid {
        lemma_branch_cut_intro(ts, k, s, i, j, x + 1, mid);
    }
}

/// A row of tokens matches where its first token matches up to `mid` and the rest from
/// there.
proof fn lemma_branch_intro(ts: Seq<SpecToken>, k: int, s: Seq<char>, i: int, j: int, mid: int)
    requires
        0 <= k < ts.len(),
        i <= mid <= j,
        token_matches(ts[k], s, i, mid),
        branch_matches(ts, k + 1, s, mid, j),
    ensures
        branch_matches(ts, k, s, i, j),
{
    lemma_branch_cut_intro(ts, k, s, i, j, i, mid);
}

proof fn lemma_power_cut_intro(t: SpecToken, n: nat, s: Seq<char>, i: int, j: int, x: int, mid: int)
    requires
        n > 0,
        i <= x <= mid <= j,
        token_matches(t, s, i, mid),
        power_matches(t, (n - 1) as nat, s, mid, j),
    ensures
        power_cut(t, n, s, i, j, x),
    decreases mid - x,
{
    if x < mid {
        lemma_power_cut_intro(t, n, s, i, j, x + 1, mid);
    }
}

proof fn lemma_power_intro(t: SpecToken, n: nat, s: Seq<char>, i: int, j: int, mid: int)
    requires
        n > 0,
        i <= mid <= j,
        token_matches(t, s, i, mid),
        power_matches(t, (n - 1) as nat, s, mid, j),
    ensures
        power_matches(t, n, s, i, j),
{
    lemma_power_cut_intro(t, n, s, i, j, i, mid);
}

proof fn lemma_star_cut_intro(t: SpecToken, s: Seq<char>, i: int, j: int, x: int, mid: int)
    requires
        i < x <= mid <= j,
        token_matches(t, s, i, mid),
        star_matches(t, s, mid, j),
    ensures
        star_cut(t, s, i, j, x),
    decreases mid - x,
{
    if x < mid {
        lemma_star_cut_intro(t, s, i, j, x + 1, mid);
    }
}

proof fn lemma_star_intro(t: SpecToken, s: Seq<char>, i: int, j: int, mid: int)
    requires
        i <= mid <= j,
        token_matches(t, s, i, mid),
        star_matches(t, s, mid, j),
    ensures
        star_matches(t, s, i, j),
{
    if i < mid {
        lemma_star_cut_intro(t, s, i, j, i + 1, mid);
    }
}

proof fn lemma_least_cut_intro(t: SpecToken, m: nat, s: Seq<char>, i: int, j: int, x: int, y: int)
    requires
        i <= x <= y <= j,
        power_matches(t, m, s, i, y),
        star_matches(t, s, y, j),
    ensures
        least_cut(t, m, s, i, j, x),
    decreases y - x,
{
    if x < y {
        lemma_least_cut_intro(t, m, s, i, j, x + 1, y);
    }
}

proof fn lemma_least_intro(t: SpecToken, m: nat, s: Seq<char>, i: int, j: int, y: int)
    requires
        i <= y <= j,
        power_matches(t, m, s, i, y),
        star_matches(t, s, y, j),
    ensures
        at_least_matches(t, m, s, i, j),
{
    lemma_least_cut_intro(t, m, s, i, j, i, y);
}

proof fn lemma_between_intro(t: SpecToken, k: nat, n: nat, c: nat, s: Seq<char>, i: int, j: int)
    requires
        k <= c <= n,
        power_matches(t, c, s, i, j),
    ensures
        between_matches(t, k, n, s, i, j),
    decreases c - k,
{
    if k < c {
        lemma_between_intro(t, k + 1, n, c, s, i, j);
    }
}

/// A token never matches backwards.
proof fn lemma_token_forward(t: SpecToken, s: Seq<char>, i: int, j: int)
    requires
        token_matches(t, s, i, j),
    ensures
        i <= j,
    decreases t,
{
    match t {
        SpecToken::Alternative(ts) => {
            lemma_alt_first(ts, 0, s, i, j);
            let c = choose|c: int| 0 <= c < ts.len() && #[trigger] token_matches(ts[c], s, i, j);
            lemma_token_forward(ts[c], s, i, j);
        },
        SpecToken::Repeat(bt, m, Some(n)) => {
            lemma_between_first(*bt, m as nat, n as nat, s, i, j);
        },
        _ => {},
    }
}

/// `m` copies followed by `r` copies are `m + r` copies.
proof fn lemma_power_concat(t: SpecToken, m: nat, r: nat, s: Seq<char>, i: int, y: int, j: int)
    requires
        power_matches(t, m, s, i, y),
        power_matches(t, r, s, y, j),
    ensures
        power_matches(t, m + r, s, i, j),
    decreases m,
{
    if m > 0 {
        lemma_power_first(t, m, s, i, y);
        let mid = choose|mid: int|
            #[trigger] token_matches(t, s, i, mid) && power_matches(t, (m - 1) as nat, s, mid, y);
        lemma_power_concat(t, (m - 1) as nat, r, s, mid, y, j);
        lemma_token_forward(t, s, i, mid);
        assert(((m - 1) as nat + r) as nat == (m + r - 1) as nat);
        lemma_power_intro(t, m + r, s, i, j, mid);
    }
}

// ---------------------------------------------------------------------------
// automata that only grow

/// Whether `h` is `g` with states and arrows added: each state of `g` keeps its arrows,
/// in order, at the front of its arrows in `h`, and keeps whether it is final.
spec fn extends(g: Seq<SpecNode>, h: Seq<SpecNode>) -> bool {
    &&& g.len() <= h.len()
    &&& forall|u: int|
        #![trigger h[u]]
        0 <= u < g.len() ==> h[u].end == g[u].end && g[u].arrows.len() <= h[u].arrows.len()
            && h[u].arrows.subrange(0, g[u].arrows.len() as int) == g[u].arrows
}

proof fn lemma_extends_refl(g: Seq<SpecNode>)
    ensures
        extends(g, g),
{
    assert forall|u: int| 0 <= u < g.len() implies #[trigger] g[u].arrows.subrange(
        0,
        g[u].arrows.len() as int,
    ) == g[u].arrows by {
        assert(g[u].arrows.subrange(0, g[u].arrows.len() as int) =~= g[u].arrows);
    }
}

proof fn lemma_extends_trans(a: Seq<SpecNode>, b: Seq<SpecNode>, c: Seq<SpecNode>)
    requires
        extends(a, b),
        extends(b, c),
    ensures
        extends(a, c),
{
    assert forall|u: int| 0 <= u < a.len() implies c[u].end == a[u].end && a[u].arrows.len()
        <= c[u].arrows.len() && #[trigger] c[u].arrows.subrange(0, a[u].arrows.len() as int)
        == a[u].arrows by {
        assert(b[u].arrows.subrange(0, a[u].arrows.len() as int) == a[u].arrows);
        assert(c[u].arrows.subrange(0, b[u].arrows.len() as int) == b[u].arrows);
        assert(c[u].arrows.subrange(0, a[u].arrows.len() as int) =~= b[u].arrows.subrange(
            0,
            a[u].arrows.len() as int,
        ));
    }
}

proof fn lemma_with_state_extends(g: Seq<SpecNode>)
    ensures
        extends(g, with_state(g)),
        with_state(g).len() == g.len() + 1,
{
    let h = with_state(g);
    assert forall|u: int| 0 <= u < g.len() implies #[trigger] h[u].arrows.subrange(
        0,
        g[u].arrows.len() as int,
    ) == g[u].arrows by {
        assert(h[u] == g[u]);
        assert(g[u].arrows.subrange(0, g[u].arrows.len() as int) =~= g[u].arrows);
    }
}

proof fn lemma_with_arrow_extends(g: Seq<SpecNode>, x: int, a: SpecArrow)
    requires
        0 <= x < g.len(),
    ensures
        extends(g, with_arrow(g, x, a)),
        with_arrow(g, x, a).len() == g.len(),
{
    let h = with_arrow(g, x, a);
    assert forall|u: int| 0 <= u < g.len() implies #[trigger] h[u].arrows.subrange(
        0,
        g[u].arrows.len() as int,
    ) == g[u].arrows by {
        if u == x {
            assert(h[u].arrows.subrange(0, g[u].arrows.len() as int) =~= g[u].arrows);
        } else {
            assert(h[u] == g[u]);
            assert(g[u].arrows.subrange(0, g[u].arrows.len() as int) =~= g[u].arrows);
        }
    }
}

/// The arrow added last to `x` is a step of the automaton.
proof fn lemma_with_arrow_step(
    g: Seq<SpecNode>,
    x: int,
    a: SpecArrow,
    s: Seq<char>,
    p: int,
    t: int,
    q: int,
)
    requires
        0 <= x < g.len(),
        arrow_step(a, s, p, t, q),
    ensures
        step(with_arrow(g, x, a), s, x, p, t, q),
{
    let h = with_arrow(g, x, a);
    let k = g[x].arrows.len() as int;
    assert(h[x].arrows[k] == a);
    assert(arrow_step(h[x].arrows[k], s, p, t, q));
}

proof fn lemma_step_extends(
    g: Seq<SpecNode>,
    h: Seq<SpecNode>,
    s: Seq<char>,
    u: int,
    p: int,
    t: int,
    q: int,
)
    requires
        extends(g, h),
        step(g, s, u, p, t, q),
    ensures
        step(h, s, u, p, t, q),
{
    let k = choose|k: int| 0 <= k < g[u].arrows.len() && arrow_step(#[trigger] g[u].arrows[k], s, p, t, q);
    assert(h[u].arrows.subrange(0, g[u].arrows.len() as int) == g[u].arrows);
    assert(h[u].arrows[k] == h[u].arrows.subrange(0, g[u].arrows.len() as int)[k]);
    assert(arrow_step(h[u].arrows[k], s, p, t, q));
}

proof fn lemma_reaches_extends(
    g: Seq<SpecNode>,
    h: Seq<SpecNode>,
    s: Seq<char>,
    u: int,
    p: int,
    t: int,
    q: int,
)
    requires
        extends(g, h),
        reaches(g, s, u, p, t, q),
    ensures
        reaches(h, s, u, p, t, q),
{
    let run = choose|run: Seq<(int, int)>|
        is_run(g, s, run) && run[0] == (u, p) && #[trigger] run.last() == (t, q);
    assert forall|k: int| 0 <= k < run.len() - 1 implies step(
        h,
        s,
        #[trigger] run[k].0,
        run[k].1,
        run[k + 1].0,
        run[k + 1].1,
    ) by {
        assert(step(g, s, run[k].0, run[k].1, run[k + 1].0, run[k + 1].1));
        lemma_step_extends(g, h, s, run[k].0, run[k].1, run[k + 1].0, run[k + 1].1);
    }
    assert(is_run(h, s, run));
}

proof fn lemma_reaches_trans_run(
    g: Seq<SpecNode>,
    s: Seq<char>,
    u: int,
    p: int,
    run: Seq<(int, int)>,
)
    requires
        is_run(g, s, run),
        reaches(g, s, u, p, run[0].0, run[0].1),
    ensures
        reaches(g, s, u, p, run.last().0, run.last().1),
    decreases run.len(),
{
    if run.len() > 1 {
        let r2 = run.drop_last();
        assert forall|k: int| 0 <= k < r2.len() - 1 implies step(
            g,
            s,
            #[trigger] r2[k].0,
            r2[k].1,
            r2[k + 1].0,
            r2[k + 1].1,
        ) by {
            assert(r2[k] == run[k] && r2[k + 1] == run[k + 1]);
        }
        lemma_reaches_trans_run(g, s, u, p, r2);
        let n = run.len() - 2;
        assert(step(g, s, run[n].0, run[n].1, run[n + 1].0, run[n + 1].1));
        lemma_reaches_step(g, s, u, p, r2.last().0, r2.last().1, run.last().0, run.last().1);
    }
}

proof fn lemma_reaches_trans(
    g: Seq<SpecNode>,
    s: Seq<char>,
    u: int,
    p: int,
    x: int,
    y: int,
    t: int,
    q: int,
)
    requires
        reaches(g, s, u, p, x, y),
        reaches(g, s, x, y, t, q),
    ensures
        reaches(g, s, u, p, t, q),
{
    let run = choose|run: Seq<(int, int)>|
        is_run(g, s, run) && run[0] == (x, y) && #[trigger] run.last() == (t, q);
    lemma_reaches_trans_run(g, s, u, p, run);
}

/// A single step, as a run.
proof fn lemma_reaches_one(g: Seq<SpecNode>, s: Seq<char>, u: int, p: int, t: int, q: int)
    requires
        step(g, s, u, p, t, q),
    ensures
        reaches(g, s, u, p, t, q),
{
    lemma_reaches_refl(g, s, u, p);
    lemma_reaches_step(g, s, u, p, u, p, t, q);
}

// ---------------------------------------------------------------------------
// each builder only adds states and arrows

proof fn lemma_link_extends(g: Seq<SpecNode>, t: SpecToken, a: int, b: int)
    requires
        0 <= a < g.len(),
        0 <= b < g.len(),
    ensures
        extends(g, link(g, t, a, b)),
    decreases t, 0int,
{
    match t {
        SpecToken::Special(x) => lemma_with_arrow_extends(g, a, SpecArrow::Guard(x, b)),
        SpecToken::Matcher(c) => lemma_with_arrow_extends(g, a, SpecArrow::Match(c, b)),
        SpecToken::Branch(ts) => lemma_branch_extends(g, ts, 0, a, b),
        SpecToken::Alternative(ts) => lemma_alts_extends(g, ts, 0, a, b),
        SpecToken::Repeat(bt, m, None) => {
            if m == 0 {
                lemma_star_extends(g, *bt, a, b);
            } else {
                let mid = g.len() as int;
                let g0 = with_state(g);
                lemma_with_state_extends(g);
                lemma_repeated_extends(g0, *bt, m as int, a, mid);
                let g1 = repeated(g0, *bt, m as int, a, mid);
                lemma_star_extends(g1, *bt, mid, b);
                lemma_extends_trans(g, g0, g1);
                lemma_extends_trans(g, g1, star(g1, *bt, mid, b));
            }
        },
        SpecToken::Repeat(bt, m, Some(n)) => {
            if m == n {
                lemma_repeated_extends(g, *bt, m as int, a, b);
            } else if m > 0 {
                let this = g.len() as int;
                let g0 = with_state(g);
                lemma_with_state_extends(g);
                lemma_repeated_extends(g0, *bt, m as int, a, this);
                let g1 = repeated(g0, *bt, m as int, a, this);
                lemma_range_extends(g1, *bt, m as int, n as int, this, b);
                lemma_extends_trans(g, g0, g1);
                lemma_extends_trans(g, g1, range_loop(g1, *bt, m as int, n as int, this, b));
            } else {
                lemma_range_extends(g, *bt, m as int, n as int, a, b);
            }
        },
    }
}

proof fn lemma_branch_extends(g: Seq<SpecNode>, ts: Seq<SpecToken>, i: int, this: int, end: int)
    requires
        0 <= this < g.len(),
        0 <= end < g.len(),
    ensures
        extends(g, link_branch(g, ts, i, this, end)),
    decreases ts, ts.len() - i,
{
    if 0 <= i && i + 1 < ts.len() {
        let next = g.len() as int;
        let g0 = with_state(g);
        lemma_with_state_extends(g);
        lemma_link_extends(g0, ts[i], this, next);
        let g1 = link(g0, ts[i], this, next);
        lemma_branch_extends(g1, ts, i + 1, next, end);
        lemma_extends_trans(g, g0, g1);
        lemma_extends_trans(g, g1, link_branch(g1, ts, i + 1, next, end));
    } else if 0 <= i && i + 1 == ts.len() {
        lemma_link_extends(g, ts[i], this, end);
    } else {
        lemma_with_arrow_extends(g, this, SpecArrow::Epsilon(end));
    }
}

proof fn lemma_alts_extends(g: Seq<SpecNode>, ts: Seq<SpecToken>, i: int, start: int, end: int)
    requires
        0 <= start < g.len(),
        0 <= end < g.len(),
    ensures
        extends(g, link_alternatives(g, ts, i, start, end)),
    decreases ts, ts.len() - i,
{
    if 0 <= i < ts.len() {
        let state = g.len() as int;
        let g0 = with_state(g);
        lemma_with_state_extends(g);
        lemma_link_extends(g0, ts[i], start, state);
        let g2 = link(g0, ts[i], start, state);
        lemma_with_arrow_extends(g2, state, SpecArrow::Epsilon(end));
        let g3 = with_arrow(g2, state, SpecArrow::Epsilon(end));
        lemma_alts_extends(g3, ts, i + 1, start, end);
        lemma_extends_trans(g, g0, g2);
        lemma_extends_trans(g, g2, g3);
        lemma_extends_trans(g, g3, link_alternatives(g3, ts, i + 1, start, end));
    } else {
        lemma_extends_refl(g);
    }
}

proof fn lemma_repeated_extends(g: Seq<SpecNode>, t: SpecToken, n: int, a: int, b: int)
    requires
        0 <= a < g.len(),
        0 <= b < g.len(),
    ensures
        extends(g, repeated(g, t, n, a, b)),
    decreases t, n,
{
    if n <= 0 {
        lemma_with_arrow_extends(g, a, SpecArrow::Epsilon(b));
    } else if n == 1 {
        lemma_link_extends(g, t, a, b);
    } else {
        let next = g.len() as int;
        let g0 = with_state(g);
        lemma_with_state_extends(g);
        lemma_link_extends(g0, t, a, next);
        let g1 = link(g0, t, a, next);
        lemma_repeated_extends(g1, t, n - 1, next, b);
        lemma_extends_trans(g, g0, g1);
        lemma_extends_trans(g, g1, repeated(g1, t, n - 1, next, b));
    }
}

proof fn lemma_range_extends(g: Seq<SpecNode>, t: SpecToken, k: int, n: int, this: int, end: int)
    requires
        0 <= this < g.len(),
        0 <= end < g.len(),
    ensures
        extends(g, range_loop(g, t, k, n, this, end)),
    decreases t, if k < n {
        n - k
    } else {
        1
    },
{
    if k + 1 < n {
        let next = g.len() as int;
        let g0 = with_state(g);
        lemma_with_state_extends(g);
        lemma_link_extends(g0, t, this, next);
        let g2 = link(g0, t, this, next);
        lemma_with_arrow_extends(g2, this, SpecArrow::Epsilon(end));
        let g3 = with_arrow(g2, this, SpecArrow::Epsilon(end));
        lemma_range_extends(g3, t, k + 1, n, next, end);
        lemma_extends_trans(g, g0, g2);
        lemma_extends_trans(g, g2, g3);
        lemma_extends_trans(g, g3, range_loop(g3, t, k + 1, n, next, end));
    } else {
        lemma_link_extends(g, t, this, end);
        let g2 = link(g, t, this, end);
        lemma_with_arrow_extends(g2, this, SpecArrow::Epsilon(end));
        lemma_extends_trans(g, g2, with_arrow(g2, this, SpecArrow::Epsilon(end)));
    }
}

proof fn lemma_star_extends(g: Seq<SpecNode>, t: SpecToken, a: int, b: int)
    requires
        0 <= a < g.len(),
        0 <= b < g.len(),
    ensures
        extends(g, star(g, t, a, b)),
    decreases t, 1int,
{
    let lp = g.len() as int;
    let g0 = with_state(g);
    lemma_with_state_extends(g);
    lemma_with_arrow_extends(g0, a, SpecArrow::Epsilon(lp));
    let g1 = with_arrow(g0, a, SpecArrow::Epsilon(lp));
    lemma_link_extends(g1, t, lp, lp);
    let g2 = link(g1, t, lp, lp);
    lemma_with_arrow_extends(g2, lp, SpecArrow::Epsilon(b));
    lemma_extends_trans(g, g0, g1);
    lemma_extends_trans(g, g1, g2);
    lemma_extends_trans(g, g2, with_arrow(g2, lp, SpecArrow::Epsilon(b)));
}

// ---------------------------------------------------------------------------
// where the arrows that a builder adds lead

/// Whether `x` is one of the states from `lo` up to `hi`, or `b`.
spec fn in_part(x: int, lo: int, hi: int, b: int) -> bool {
    (lo <= x < hi) || x == b
}

/// Whether `out` is `g` with a part built from `a` to `b`: only `a` and the new states
/// change, the new states are not final, and every arrow of a new state, and every arrow
/// added to `a`, leads to a new state or to `b`.
spec fn shaped(g: Seq<SpecNode>, out: Seq<SpecNode>, a: int, b: int) -> bool {
    &&& extends(g, out)
    &&& forall|u: int| #![trigger out[u]] 0 <= u < g.len() && u != a ==> out[u] == g[u]
    &&& forall|u: int| #![trigger out[u]] g.len() <= u < out.len() ==> !out[u].end
    &&& forall|u: int, k: int|
        g.len() <= u < out.len() && 0 <= k < out[u].arrows.len() ==> in_part(
            (#[trigger] out[u].arrows[k]).target(),
            g.len() as int,
            out.len() as int,
            b,
        )
    &&& forall|k: int|
        g[a].arrows.len() <= k < out[a].arrows.len() ==> in_part(
            (#[trigger] out[a].arrows[k]).target(),
            g.len() as int,
            out.len() as int,
            b,
        )
}

proof fn lemma_shape_arrow(g: Seq<SpecNode>, a: int, x: SpecArrow, b: int)
    requires
        0 <= a < g.len(),
        x.target() == b,
    ensures
        shaped(g, with_arrow(g, a, x), a, b),
{
    lemma_with_arrow_extends(g, a, x);
}

/// A part built in two pieces through a new state `n`: from `a` to `n`, then from `n`
/// to `b`.
proof fn lemma_shape_seq(
    g: Seq<SpecNode>,
    g1: Seq<SpecNode>,
    out: Seq<SpecNode>,
    a: int,
    b: int,
)
    requires
        0 <= a < g.len(),
        0 <= b < g.len(),
        shaped(with_state(g), g1, a, g.len() as int),
        shaped(g1, out, g.len() as int, b),
    ensures
        shaped(g, out, a, b),
{
    let n = g.len() as int;
    let g0 = with_state(g);
    lemma_with_state_extends(g);
    lemma_extends_trans(g, g0, g1);
    lemma_extends_trans(g, g1, out);
    assert(g1[n] == g0[n]);
    assert forall|u: int| #![trigger out[u]] 0 <= u < g.len() && u != a implies out[u] == g[u] by {
        assert(out[u] == g1[u]);
        assert(g1[u] == g0[u]);
    }
    assert forall|u: int| #![trigger out[u]] g.len() <= u < out.len() implies !out[u].end by {
        if u < g1.len() && u != n {
            assert(out[u] == g1[u]);
        } else if u == n {
            assert(out[n].end == g1[n].end);
        }
    }
    assert forall|u: int, k: int|
        g.len() <= u < out.len() && 0 <= k < out[u].arrows.len() implies in_part(
        (#[trigger] out[u].arrows[k]).target(),
        g.len() as int,
        out.len() as int,
        b,
    ) by {
        if u == n {
            assert(g1[n].arrows.len() == 0);
        } else if u < g1.len() {
            assert(out[u] == g1[u]);
            assert(in_part(g1[u].arrows[k].target(), g0.len() as int, g1.len() as int, n));
        }
    }
    assert forall|k: int| g[a].arrows.len() <= k < out[a].arrows.len() implies in_part(
        (#[trigger] out[a].arrows[k]).target(),
        g.len() as int,
        out.len() as int,
        b,
    ) by {
        assert(out[a] == g1[a]);
        assert(g0[a] == g[a]);
        assert(in_part(g1[a].arrows[k].target(), g0.len() as int, g1.len() as int, n));
    }
}

#[verifier::spinoff_prover]
proof fn lemma_link_shape(g: Seq<SpecNode>, t: SpecToken, a: int, b: int)
    requires
        0 <= a < g.len(),
        0 <= b < g.len(),
    ensures
        shaped(g, link(g, t, a, b), a, b),
    decreases t, 0int,
{
    match t {
        SpecToken::Special(x) => lemma_shape_arrow(g, a, SpecArrow::Guard(x, b), b),
        SpecToken::Matcher(c) => lemma_shape_arrow(g, a, SpecArrow::Match(c, b), b),
        SpecToken::Branch(ts) => lemma_branch_shape(g, ts, 0, a, b),
        SpecToken::Alternative(ts) => lemma_alts_shape(g, ts, 0, a, b),
        SpecToken::Repeat(bt, m, None) => {
            if m == 0 {
                lemma_star_shape(g, *bt, a, b);
            } else {
                let mid = g.len() as int;
                let g0 = with_state(g);
                lemma_repeated_shape(g0, *bt, m as int, a, mid);
                let g1 = repeated(g0, *bt, m as int, a, mid);
                lemma_star_shape(g1, *bt, mid, b);
                lemma_shape_seq(g, g1, star(g1, *bt, mid, b), a, b);
            }
        },
        SpecToken::Repeat(bt, m, Some(n)) => {
            if m == n {
                lemma_repeated_shape(g, *bt, m as int, a, b);
            } else if m > 0 {
                let this = g.len() as int;
                let g0 = with_state(g);
                lemma_repeated_shape(g0, *bt, m as int, a, this);
                let g1 = repeated(g0, *bt, m as int, a, this);
                lemma_range_shape(g1, *bt, m as int, n as int, this, b);
                lemma_shape_seq(g, g1, range_loop(g1, *bt, m as int, n as int, this, b), a, b);
            } else {
                lemma_range_shape(g, *bt, m as int, n as int, a, b);
            }
        },
    }
}

#[verifier::spinoff_prover]
proof fn lemma_branch_shape(g: Seq<SpecNode>, ts: Seq<SpecToken>, i: int, this: int, end: int)
    requires
        0 <= this < g.len(),
        0 <= end < g.len(),
    ensures
        shaped(g, link_branch(g, ts, i, this, end), this, end),
    decreases ts, ts.len() - i,
{
    if 0 <= i && i + 1 < ts.len() {
        let next = g.len() as int;
        let g0 = with_state(g);
        lemma_link_shape(g0, ts[i], this, next);
        let g1 = link(g0, ts[i], this, next);
        lemma_branch_shape(g1, ts, i + 1, next, end);
        lemma_shape_seq(g, g1, link_branch(g1, ts, i + 1, next, end), this, end);
    } else if 0 <= i && i + 1 == ts.len() {
        lemma_link_shape(g, ts[i], this, end);
    } else {
        lemma_shape_arrow(g, this, SpecArrow::Epsilon(end), end);
    }
}

#[verifier::spinoff_prover]
proof fn lemma_repeated_shape(g: Seq<SpecNode>, t: SpecToken, n: int, a: int, b: int)
    requires
        0 <= a < g.len(),
        0 <= b < g.len(),
    ensures
        shaped(g, repeated(g, t, n, a, b), a, b),
    decreases t, n,
{
    if n <= 0 {
        lemma_shape_arrow(g, a, SpecArrow::Epsilon(b), b);
    } else if n == 1 {
        lemma_link_shape(g, t, a, b);
    } else {
        let next = g.len() as int;
        let g0 = with_state(g);
        lemma_link_shape(g0, t, a, next);
        let g1 = link(g0, t, a, next);
        lemma_repeated_shape(g1, t, n - 1, next, b);
        lemma_shape_seq(g, g1, repeated(g1, t, n - 1, next, b), a, b);
    }
}

#[verifier::spinoff_prover]
proof fn lemma_alts_shape(g: Seq<SpecNode>, ts: Seq<SpecToken>, i: int, start: int, end: int)
    requires
        0 <= start < g.len(),
        0 <= end < g.len(),
    ensures
        shaped(g, link_alternatives(g, ts, i, start, end), start, end),
    decreases ts, ts.len() - i,
{
    if 0 <= i < ts.len() {
        let state = g.len() as int;
        let g0 = with_state(g);
        lemma_with_state_extends(g);
        lemma_link_shape(g0, ts[i], start, state);
        let g2 = link(g0, ts[i], start, state);
        lemma_with_arrow_extends(g2, state, SpecArrow::Epsilon(end));
        let g3 = with_arrow(g2, state, SpecArrow::Epsilon(end));
        lemma_alts_shape(g3, ts, i + 1, start, end);
        let out = link_alternatives(g3, ts, i + 1, start, end);
        lemma_extends_trans(g, g0, g2);
        lemma_extends_trans(g, g2, g3);
        lemma_extends_trans(g, g3, out);
        assert(g2[state] == g0[state]);
        assert(g3[start] == g2[start]);
        assert(out[state] == g3[state]);
        assert forall|u: int| #![trigger out[u]] 0 <= u < g.len() && u != start implies out[u] == g[u] by {
            assert(out[u] == g3[u]);
            assert(g2[u] == g0[u]);
        }
        assert forall|u: int| #![trigger out[u]] g.len() <= u < out.len() implies !out[u].end by {
            if u < g3.len() {
                assert(out[u] == g3[u]);
                if u != state {
                    assert(g3[u] == g2[u]);
                }
            }
        }
        assert forall|u: int, k: int|
            g.len() <= u < out.len() && 0 <= k < out[u].arrows.len() implies in_part(
            (#[trigger] out[u].arrows[k]).target(),
            g.len() as int,
            out.len() as int,
            end,
        ) by {
            if u == state {
                assert(out[u].arrows[k] == SpecArrow::Epsilon(end));
            } else if u < g3.len() {
                assert(out[u] == g3[u]);
                assert(g3[u] == g2[u]);
                assert(in_part(g2[u].arrows[k].target(), g0.len() as int, g2.len() as int, state));
            }
        }
        assert forall|k: int| g[start].arrows.len() <= k < out[start].arrows.len() implies in_part(
            (#[trigger] out[start].arrows[k]).target(),
            g.len() as int,
            out.len() as int,
            end,
        ) by {
            if k < g2[start].arrows.len() {
                assert(out[start].arrows.subrange(0, g3[start].arrows.len() as int) == g3[start].arrows);
                assert(out[start].arrows[k] == g3[start].arrows[k]);
                assert(g0[start] == g[start]);
                assert(in_part(g2[start].arrows[k].target(), g0.len() as int, g2.len() as int, state));
            }
        }
    } else {
        lemma_extends_refl(g);
    }
}

#[verifier::spinoff_prover]
proof fn lemma_range_shape(g: Seq<SpecNode>, t: SpecToken, k: int, n: int, this: int, end: int)
    requires
        0 <= this < g.len(),
        0 <= end < g.len(),
    ensures
        shaped(g, range_loop(g, t, k, n, this, end), this, end),
    decreases t, if k < n {
        n - k
    } else {
        1
    },
{
    if k + 1 < n {
        let next = g.len() as int;
        let g0 = with_state(g);
        lemma_with_state_extends(g);
        lemma_link_shape(g0, t, this, next);
        let g2 = link(g0, t, this, next);
        lemma_with_arrow_extends(g2, this, SpecArrow::Epsilon(end));
        let g3 = with_arrow(g2, this, SpecArrow::Epsilon(end));
        lemma_range_shape(g3, t, k + 1, n, next, end);
        let out = range_loop(g3, t, k + 1, n, next, end);
        lemma_extends_trans(g, g0, g2);
        lemma_extends_trans(g, g2, g3);
        lemma_extends_trans(g, g3, out);
        assert(g2[next] == g0[next]);
        assert(g3[next] == g2[next]);
        assert(out[this] == g3[this]);
        assert forall|u: int| #![trigger out[u]] 0 <= u < g.len() && u != this implies out[u] == g[u] by {
            assert(out[u] == g3[u]);
            assert(g2[u] == g0[u]);
        }
        assert forall|u: int| #![trigger out[u]] g.len() <= u < out.len() implies !out[u].end by {
            if u < g3.len() && u != next {
                assert(out[u] == g3[u]);
                assert(g3[u] == g2[u]);
            } else if u == next {
                assert(out[next].end == g3[next].end);
            }
        }
        assert forall|u: int, j: int|
            g.len() <= u < out.len() && 0 <= j < out[u].arrows.len() implies in_part(
            (#[trigger] out[u].arrows[j]).target(),
            g.len() as int,
            out.len() as int,
            end,
        ) by {
            if u == next {
                assert(g3[next].arrows.len() == 0);
            } else if u < g3.len() {
                assert(out[u] == g3[u]);
                assert(g3[u] == g2[u]);
                assert(in_part(g2[u].arrows[j].target(), g0.len() as int, g2.len() as int, next));
            }
        }
        assert forall|j: int| g[this].arrows.len() <= j < out[this].arrows.len() implies in_part(
            (#[trigger] out[this].arrows[j]).target(),
            g.len() as int,
            out.len() as int,
            end,
        ) by {
            if j < g2[this].arrows.len() {
                assert(g3[this].arrows[j] == g2[this].arrows[j]);
                assert(g0[this] == g[this]);
                assert(in_part(g2[this].arrows[j].target(), g0.len() as int, g2.len() as int, next));
            }
        }
    } else {
        lemma_link_shape(g, t, this, end);
        let g2 = link(g, t, this, end);
        lemma_with_arrow_extends(g2, this, SpecArrow::Epsilon(end));
        let out = with_arrow(g2, this, SpecArrow::Epsilon(end));
        lemma_extends_trans(g, g2, out);
        assert forall|u: int| #![trigger out[u]] 0 <= u < g.len() && u != this implies out[u] == g[u] by {
            assert(out[u] == g2[u]);
        }
        assert forall|u: int| #![trigger out[u]] g.len() <= u < out.len() implies !out[u].end by {
            assert(out[u] == g2[u]);
        }
        assert forall|u: int, j: int|
            g.len() <= u < out.len() && 0 <= j < out[u].arrows.len() implies in_part(
            (#[trigger] out[u].arrows[j]).target(),
            g.len() as int,
            out.len() as int,
            end,
        ) by {
            assert(out[u] == g2[u]);
        }
        assert forall|j: int| g[this].arrows.len() <= j < out[this].arrows.len() implies in_part(
            (#[trigger] out[this].arrows[j]).target(),
            g.len() as int,
            out.len() as int,
            end,
        ) by {
            if j < g2[this].arrows.len() {
                assert(out[this].arrows[j] == g2[this].arrows[j]);
            }
        }
    }
}

#[verifier::spinoff_prover]
proof fn lemma_star_shape(g: Seq<SpecNode>, t: SpecToken, a: int, b: int)
    requires
        0 <= a < g.len(),
        0 <= b < g.len(),
    ensures
        shaped(g, star(g, t, a, b), a, b),
    decreases t, 1int,
{
    let lp = g.len() as int;
    let g0 = with_state(g);
    lemma_with_state_extends(g);
    lemma_with_arrow_extends(g0, a, SpecArrow::Epsilon(lp));
    let g1 = with_arrow(g0, a, SpecArrow::Epsilon(lp));
    lemma_link_shape(g1, t, lp, lp);
    let g2 = link(g1, t, lp, lp);
    lemma_with_arrow_extends(g2, lp, SpecArrow::Epsilon(b));
    let out = with_arrow(g2, lp, SpecArrow::Epsilon(b));
    lemma_extends_trans(g, g0, g1);
    lemma_extends_trans(g, g1, g2);
    lemma_extends_trans(g, g2, out);
    assert(g1[lp] == g0[lp]);
    assert(g2[a] == g1[a]);
    assert(out[a] == g2[a]);
    assert forall|u: int| #![trigger out[u]] 0 <= u < g.len() && u != a implies out[u] == g[u] by {
        assert(out[u] == g2[u]);
        assert(g2[u] == g1[u]);
        assert(g1[u] == g0[u]);
    }
    assert forall|u: int| #![trigger out[u]] g.len() <= u < out.len() implies !out[u].end by {
        if u != lp {
            assert(out[u] == g2[u]);
        } else {
            assert(out[lp].end == g2[lp].end);
        }
    }
    assert forall|u: int, k: int|
        g.len() <= u < out.len() && 0 <= k < out[u].arrows.len() implies in_part(
        (#[trigger] out[u].arrows[k]).target(),
        g.len() as int,
        out.len() as int,
        b,
    ) by {
        if u == lp {
            if k < g2[lp].arrows.len() {
                assert(out[lp].arrows[k] == g2[lp].arrows[k]);
                assert(g1[lp].arrows.len() == 0);
                assert(in_part(g2[lp].arrows[k].target(), g1.len() as int, g2.len() as int, lp));
            }
        } else {
            assert(out[u] == g2[u]);
            assert(in_part(g2[u].arrows[k].target(), g1.len() as int, g2.len() as int, lp));
        }
    }
    assert forall|k: int| g[a].arrows.len() <= k < out[a].arrows.len() implies in_part(
        (#[trigger] out[a].arrows[k]).target(),
        g.len() as int,
        out.len() as int,
        b,
    ) by {
        assert(g0[a] == g[a]);
        assert(out[a].arrows[k] == SpecArrow::Epsilon(lp));
    }
}

// ---------------------------------------------------------------------------
// cutting runs where a part is entered and left

/// The arrow that a step takes.
proof fn lemma_step_arrow(g: Seq<SpecNode>, s: Seq<char>, u: int, p: int, t: int, q: int) -> (k: int)
    requires
        step(g, s, u, p, t, q),
    ensures
        0 <= u < g.len(),
        0 <= k < g[u].arrows.len(),
        arrow_step(g[u].arrows[k], s, p, t, q),
        g[u].arrows[k].target() == t,
        p <= q <= p + 1,
{
    choose|k: int| 0 <= k < g[u].arrows.len() && arrow_step(#[trigger] g[u].arrows[k], s, p, t, q)
}

/// Positions never go back along a run.
proof fn lemma_run_positions(g: Seq<SpecNode>, s: Seq<char>, run: Seq<(int, int)>, q: int, r: int)
    requires
        is_run(g, s, run),
        0 <= q <= r < run.len(),
    ensures
        run[q].1 <= run[r].1,
    decreases r - q,
{
    if q < r {
        assert(step(g, s, run[r - 1].0, run[r - 1].1, run[r].0, run[r].1));
        lemma_step_arrow(g, s, run[r - 1].0, run[r - 1].1, run[r].0, run[r].1);
        lemma_run_positions(g, s, run, q, r - 1);
    }
}

/// A run that starts within the input stays within it.
proof fn lemma_run_bounded(g: Seq<SpecNode>, s: Seq<char>, run: Seq<(int, int)>, r: int)
    requires
        is_run(g, s, run),
        0 <= r < run.len(),
        run[0].1 <= s.len(),
    ensures
        run[r].1 <= s.len(),
    decreases r,
{
    if r > 0 {
        lemma_run_bounded(g, s, run, r - 1);
        assert(step(g, s, run[r - 1].0, run[r - 1].1, run[r].0, run[r].1));
        let k = lemma_step_arrow(g, s, run[r - 1].0, run[r - 1].1, run[r].0, run[r].1);
    }
}

/// Whether the arrows of the states from `lo` up to `hi` in `h` lead back among them or
/// to `x`.
spec fn closed_part(h: Seq<SpecNode>, lo: int, hi: int, x: int) -> bool {
    forall|u: int, k: int|
        lo <= u < hi && 0 <= u < h.len() && 0 <= k < h[u].arrows.len() ==> in_part(
            (#[trigger] h[u].arrows[k]).target(),
            lo,
            hi,
            x,
        )
}

/// A run that enters a closed part at `r` and is outside it at `qe` leaves it through `x`
/// first at some `p`.
proof fn lemma_exit(
    h: Seq<SpecNode>,
    s: Seq<char>,
    run: Seq<(int, int)>,
    r: int,
    lo: int,
    hi: int,
    x: int,
    qe: int,
) -> (p: int)
    requires
        is_run(h, s, run),
        0 < r <= qe < run.len(),
        in_part(run[r].0, lo, hi, x),
        !(lo <= run[qe].0 < hi),
        !(lo <= x < hi),
        closed_part(h, lo, hi, x),
    ensures
        r <= p <= qe,
        run[p].0 == x,
        forall|m: int| r <= m < p ==> lo <= #[trigger] run[m].0 < hi,
    decreases qe - r,
{
    if run[r].0 == x {
        r
    } else {
        assert(step(h, s, run[r].0, run[r].1, run[r + 1].0, run[r + 1].1));
        let k = lemma_step_arrow(h, s, run[r].0, run[r].1, run[r + 1].0, run[r + 1].1);
        assert(in_part(h[run[r].0].arrows[k].target(), lo, hi, x));
        lemma_exit(h, s, run, r + 1, lo, hi, x, qe)
    }
}

/// Whether `h` holds what was built in `out` on top of `g` from `a`: the states built
/// there, and the arrows added to `a`.
spec fn agrees(h: Seq<SpecNode>, g: Seq<SpecNode>, out: Seq<SpecNode>, a: int) -> bool {
    &&& out.len() <= h.len()
    &&& 0 <= a < g.len()
    &&& forall|u: int| #![trigger h[u]] g.len() <= u < out.len() ==> h[u] == out[u]
    &&& out[a].arrows.len() <= h[a].arrows.len()
    &&& forall|k: int|
        g[a].arrows.len() <= k < out[a].arrows.len() ==> #[trigger] h[a].arrows[k] == out[a].arrows[k]
}

/// Whether the step of `run` from `q0` takes one of the arrows added to `a` in `out`.
spec fn new_first(
    g: Seq<SpecNode>,
    out: Seq<SpecNode>,
    a: int,
    s: Seq<char>,
    run: Seq<(int, int)>,
    q0: int,
) -> bool {
    exists|k: int|
        g[a].arrows.len() <= k < out[a].arrows.len() && #[trigger] arrow_step(
            out[a].arrows[k],
            s,
            run[q0].1,
            run[q0 + 1].0,
            run[q0 + 1].1,
        )
}

/// Whether the part of `run` from `q0` to `q1` goes from `a` to `b` through what was
/// built in `out` on top of `g`.
spec fn through(
    h: Seq<SpecNode>,
    g: Seq<SpecNode>,
    out: Seq<SpecNode>,
    a: int,
    b: int,
    s: Seq<char>,
    run: Seq<(int, int)>,
    q0: int,
    q1: int,
) -> bool {
    &&& is_run(h, s, run)
    &&& 0 <= q0 < q1 < run.len()
    &&& run[q0].0 == a
    &&& run[q1].0 == b
    &&& 0 <= b < g.len()
    &&& agrees(h, g, out, a)
    &&& new_first(g, out, a, s, run, q0)
    &&& forall|m: int| q0 < m < q1 ==> g.len() <= #[trigger] run[m].0 < out.len()
}

/// The first piece of a part built through a new state `n`: from `a` to `n`.
proof fn lemma_head(
    h: Seq<SpecNode>,
    g0: Seq<SpecNode>,
    g1: Seq<SpecNode>,
    a: int,
    n: int,
    s: Seq<char>,
    run: Seq<(int, int)>,
    q0: int,
    q1: int,
) -> (p: int)
    requires
        is_run(h, s, run),
        0 <= q0 < q1 < run.len(),
        run[q0].0 == a,
        shaped(g0, g1, a, n),
        0 <= a < g0.len(),
        0 <= n < g0.len(),
        new_first(g0, g1, a, s, run, q0),
        forall|u: int| #![trigger h[u]] g0.len() <= u < g1.len() ==> h[u] == g1[u],
        g1.len() <= h.len(),
        !(g0.len() <= run[q1].0 < g1.len()),
    ensures
        q0 < p <= q1,
        run[p].0 == n,
        forall|m: int| q0 < m < p ==> g0.len() <= #[trigger] run[m].0 < g1.len(),
{
    let k = choose|k: int|
        g0[a].arrows.len() <= k < g1[a].arrows.len() && #[trigger] arrow_step(
            g1[a].arrows[k],
            s,
            run[q0].1,
            run[q0 + 1].0,
            run[q0 + 1].1,
        );
    assert(in_part(g1[a].arrows[k].target(), g0.len() as int, g1.len() as int, n));
    assert forall|u: int, j: int|
        g0.len() <= u < g1.len() && 0 <= u < h.len() && 0 <= j < h[u].arrows.len() implies in_part(
        (#[trigger] h[u].arrows[j]).target(),
        g0.len() as int,
        g1.len() as int,
        n,
    ) by {
        assert(h[u] == g1[u]);
    }
    lemma_exit(h, s, run, q0 + 1, g0.len() as int, g1.len() as int, n, q1)
}

/// The second piece of a part built through a new state `n`: from `n` to `b`.
proof fn lemma_tail(
    h: Seq<SpecNode>,
    g1: Seq<SpecNode>,
    out: Seq<SpecNode>,
    n: int,
    b: int,
    s: Seq<char>,
    run: Seq<(int, int)>,
    p: int,
    q1: int,
)
    requires
        is_run(h, s, run),
        0 <= p < q1 < run.len(),
        run[p].0 == n,
        run[q1].0 == b,
        0 <= n < g1.len(),
        0 <= b < g1.len(),
        g1[n].arrows.len() == 0,
        shaped(g1, out, n, b),
        h[n] == out[n],
        agrees(h, g1, out, n),
        forall|m: int| p < m < q1 ==> #[trigger] run[m].0 != b,
    ensures
        new_first(g1, out, n, s, run, p),
        forall|m: int| p < m < q1 ==> g1.len() <= #[trigger] run[m].0 < out.len(),
{
    assert(step(h, s, run[p].0, run[p].1, run[p + 1].0, run[p + 1].1));
    let k = lemma_step_arrow(h, s, n, run[p].1, run[p + 1].0, run[p + 1].1);
    assert(arrow_step(out[n].arrows[k], s, run[p].1, run[p + 1].0, run[p + 1].1));
    assert(in_part(out[n].arrows[k].target(), g1.len() as int, out.len() as int, b));
    assert forall|u: int, j: int|
        g1.len() <= u < out.len() && 0 <= u < h.len() && 0 <= j < h[u].arrows.len() implies in_part(
        (#[trigger] h[u].arrows[j]).target(),
        g1.len() as int,
        out.len() as int,
        b,
    ) by {
        assert(h[u] == out[u]);
    }
    let e = lemma_exit(h, s, run, p + 1, g1.len() as int, out.len() as int, b, q1);
    if e < q1 {
        assert(run[e].0 != b);
    }
}

/// A part built through a new state `n` (from `a` to `n`, then from `n` to `b`) is
/// crossed by a run in two pieces, one through each.
#[verifier::spinoff_prover]
proof fn lemma_split_seq(
    h: Seq<SpecNode>,
    g: Seq<SpecNode>,
    g1: Seq<SpecNode>,
    out: Seq<SpecNode>,
    a: int,
    b: int,
    s: Seq<char>,
    run: Seq<(int, int)>,
    q0: int,
    q1: int,
) -> (p: int)
    requires
        0 <= a < g.len(),
        shaped(with_state(g), g1, a, g.len() as int),
        shaped(g1, out, g.len() as int, b),
        through(h, g, out, a, b, s, run, q0, q1),
    ensures
        q0 < p < q1,
        run[p].0 == g.len(),
        through(h, with_state(g), g1, a, g.len() as int, s, run, q0, p),
        through(h, g1, out, g.len() as int, b, s, run, p, q1),
{
    let n = g.len() as int;
    let g0 = with_state(g);
    lemma_with_state_extends(g);
    assert(out[a] == g1[a]);
    assert(g0[a] == g[a]);
    assert(g1[n] == g0[n]);
    let kk = choose|k: int|
        g[a].arrows.len() <= k < out[a].arrows.len() && #[trigger] arrow_step(
            out[a].arrows[k],
            s,
            run[q0].1,
            run[q0 + 1].0,
            run[q0 + 1].1,
        );
    assert(arrow_step(g1[a].arrows[kk], s, run[q0].1, run[q0 + 1].0, run[q0 + 1].1));
    assert(new_first(g0, g1, a, s, run, q0));
    assert forall|u: int| #![trigger h[u]] g0.len() <= u < g1.len() implies h[u] == g1[u] by {
        assert(h[u] == out[u]);
        assert(out[u] == g1[u]);
    }
    let p = lemma_head(h, g0, g1, a, n, s, run, q0, q1);
    assert(agrees(h, g0, g1, a)) by {
        assert forall|k: int| g0[a].arrows.len() <= k < g1[a].arrows.len() implies #[trigger] h[a].arrows[k]
            == g1[a].arrows[k] by {
            assert(h[a].arrows[k] == out[a].arrows[k]);
        }
    }
    assert(h[n] == out[n]);
    assert(agrees(h, g1, out, n)) by {
        assert forall|u: int| #![trigger h[u]] g1.len() <= u < out.len() implies h[u] == out[u] by {
        }
    }
    assert forall|m: int| p < m < q1 implies #[trigger] run[m].0 != b by {
        assert(g.len() <= run[m].0);
    }
    lemma_tail(h, g1, out, n, b, s, run, p, q1);
    p
}

/// Where a run crosses what [`link`] built for `t` from `a` to `b`, `t` matches the part
/// of the input that the run reads on the way.
#[verifier::spinoff_prover]
proof fn lemma_link_sound(
    h: Seq<SpecNode>,
    g: Seq<SpecNode>,
    t: SpecToken,
    a: int,
    b: int,
    s: Seq<char>,
    run: Seq<(int, int)>,
    q0: int,
    q1: int,
)
    requires
        counts_ordered(t),
        through(h, g, link(g, t, a, b), a, b, s, run, q0, q1),
    ensures
        token_matches(t, s, run[q0].1, run[q1].1),
    decreases t, 0int, 0int,
{
    let i = run[q0].1;
    let j = run[q1].1;
    lemma_link_shape(g, t, a, b);
    lemma_run_positions(h, s, run, q0, q1);
    match t {
        SpecToken::Special(x) => {
            if q0 + 1 < q1 {
                assert(g.len() <= run[q0 + 1].0);
            }
        },
        SpecToken::Matcher(c) => {
            if q0 + 1 < q1 {
                assert(g.len() <= run[q0 + 1].0);
            }
        },
        SpecToken::Branch(ts) => lemma_branch_sound(h, g, ts, 0, a, b, s, run, q0, q1),
        SpecToken::Alternative(ts) => lemma_alts_sound(h, g, ts, 0, a, b, s, run, q0, q1),
        SpecToken::Repeat(bt, m, None) => {
            let u = *bt;
            if m == 0 {
                lemma_star_sound(h, g, u, a, b, s, run, q0, q1);
                lemma_least_intro(u, 0, s, i, j, i);
            } else {
                let mid = g.len() as int;
                let g0 = with_state(g);
                lemma_repeated_shape(g0, u, m as int, a, mid);
                let g1 = repeated(g0, u, m as int, a, mid);
                lemma_star_shape(g1, u, mid, b);
                let p = lemma_split_seq(h, g, g1, star(g1, u, mid, b), a, b, s, run, q0, q1);
                lemma_repeated_sound(h, g0, u, m as int, a, mid, s, run, q0, p);
                lemma_star_sound(h, g1, u, mid, b, s, run, p, q1);
                lemma_run_positions(h, s, run, q0, p);
                lemma_run_positions(h, s, run, p, q1);
                lemma_least_intro(u, m as nat, s, i, j, run[p].1);
            }
        },
        SpecToken::Repeat(bt, m, Some(n)) => {
            let u = *bt;
            if m == n {
                lemma_repeated_sound(h, g, u, m as int, a, b, s, run, q0, q1);
                lemma_between_intro(u, m as nat, n as nat, m as nat, s, i, j);
            } else if m > 0 {
                let this = g.len() as int;
                let g0 = with_state(g);
                lemma_repeated_shape(g0, u, m as int, a, this);
                let g1 = repeated(g0, u, m as int, a, this);
                lemma_range_shape(g1, u, m as int, n as int, this, b);
                let p = lemma_split_seq(
                    h,
                    g,
                    g1,
                    range_loop(g1, u, m as int, n as int, this, b),
                    a,
                    b,
                    s,
                    run,
                    q0,
                    q1,
                );
                lemma_repeated_sound(h, g0, u, m as int, a, this, s, run, q0, p);
                lemma_range_sound(h, g1, u, m as int, n as int, this, b, s, run, p, q1);
                let r = choose|r: nat| r <= n - m && #[trigger] power_matches(u, r, s, run[p].1, j);
                lemma_power_concat(u, m as nat, r, s, i, run[p].1, j);
                lemma_between_intro(u, m as nat, n as nat, (m + r) as nat, s, i, j);
            } else {
                lemma_range_sound(h, g, u, 0, n as int, a, b, s, run, q0, q1);
                let r = choose|r: nat| r <= n - 0 && #[trigger] power_matches(u, r, s, i, j);
                lemma_between_intro(u, m as nat, n as nat, r, s, i, j);
            }
        },
    }
}

#[verifier::spinoff_prover]
proof fn lemma_branch_sound(
    h: Seq<SpecNode>,
    g: Seq<SpecNode>,
    ts: Seq<SpecToken>,
    k: int,
    this: int,
    end: int,
    s: Seq<char>,
    run: Seq<(int, int)>,
    q0: int,
    q1: int,
)
    requires
        ordered_from(ts, k),
        0 <= k,
        through(h, g, link_branch(g, ts, k, this, end), this, end, s, run, q0, q1),
    ensures
        branch_matches(ts, k, s, run[q0].1, run[q1].1),
    decreases ts, ts.len() - k, 0int,
{
    let i = run[q0].1;
    let j = run[q1].1;
    lemma_run_positions(h, s, run, q0, q1);
    if k + 1 < ts.len() {
        let next = g.len() as int;
        let g0 = with_state(g);
        lemma_link_shape(g0, ts[k], this, next);
        let g1 = link(g0, ts[k], this, next);
        lemma_branch_shape(g1, ts, k + 1, next, end);
        let p = lemma_split_seq(h, g, g1, link_branch(g1, ts, k + 1, next, end), this, end, s, run, q0, q1);
        lemma_link_sound(h, g0, ts[k], this, next, s, run, q0, p);
        lemma_branch_sound(h, g1, ts, k + 1, next, end, s, run, p, q1);
        lemma_run_positions(h, s, run, q0, p);
        lemma_run_positions(h, s, run, p, q1);
        lemma_branch_intro(ts, k, s, i, j, run[p].1);
    } else if k + 1 == ts.len() {
        lemma_link_sound(h, g, ts[k], this, end, s, run, q0, q1);
        lemma_branch_intro(ts, k, s, i, j, j);
    } else {
        if q0 + 1 < q1 {
            assert(g.len() <= run[q0 + 1].0);
        }
    }
}

#[verifier::spinoff_prover]
proof fn lemma_alts_sound(
    h: Seq<SpecNode>,
    g: Seq<SpecNode>,
    ts: Seq<SpecToken>,
    k: int,
    start: int,
    end: int,
    s: Seq<char>,
    run: Seq<(int, int)>,
    q0: int,
    q1: int,
)
    requires
        ordered_from(ts, k),
        0 <= k,
        through(h, g, link_alternatives(g, ts, k, start, end), start, end, s, run, q0, q1),
    ensures
        alt_matches(ts, k, s, run[q0].1, run[q1].1),
    decreases ts, ts.len() - k, 0int,
{
    let i = run[q0].1;
    let j = run[q1].1;
    let out = link_alternatives(g, ts, k, start, end);
    if k < ts.len() {
        let state = g.len() as int;
        let g0 = with_state(g);
        lemma_with_state_extends(g);
        lemma_link_shape(g0, ts[k], start, state);
        let g2 = link(g0, ts[k], start, state);
        let g3 = with_arrow(g2, state, SpecArrow::Epsilon(end));
        lemma_with_arrow_extends(g2, state, SpecArrow::Epsilon(end));
        lemma_alts_shape(g3, ts, k + 1, start, end);
        assert(out == link_alternatives(g3, ts, k + 1, start, end));
        assert(g3[start] == g2[start]);
        assert(g0[start] == g[start]);
        assert(g2[state] == g0[state]);
        assert(out[state] == g3[state]);
        let kk = choose|x: int|
            g[start].arrows.len() <= x < out[start].arrows.len() && #[trigger] arrow_step(
                out[start].arrows[x],
                s,
                run[q0].1,
                run[q0 + 1].0,
                run[q0 + 1].1,
            );
        if kk < g2[start].arrows.len() {
            assert(out[start].arrows.subrange(0, g3[start].arrows.len() as int) == g3[start].arrows);
            assert(out[start].arrows[kk] == g2[start].arrows[kk]);
            assert(new_first(g0, g2, start, s, run, q0));
            assert forall|u: int| #![trigger h[u]] g0.len() <= u < g2.len() implies h[u] == g2[u] by {
                assert(h[u] == out[u]);
                assert(out[u] == g3[u]);
            }
            let p = lemma_head(h, g0, g2, start, state, s, run, q0, q1);
            assert(h[state] == out[state]);
            assert(step(h, s, run[p].0, run[p].1, run[p + 1].0, run[p + 1].1));
            let e = lemma_step_arrow(h, s, state, run[p].1, run[p + 1].0, run[p + 1].1);
            assert(h[state].arrows[e] == SpecArrow::Epsilon(end));
            if p + 1 < q1 {
                assert(g.len() <= run[p + 1].0);
            }
            assert(agrees(h, g0, g2, start)) by {
                assert forall|x: int| g0[start].arrows.len() <= x < g2[start].arrows.len() implies #[trigger] h[start].arrows[x]
                    == g2[start].arrows[x] by {
                    assert(h[start].arrows[x] == out[start].arrows[x]);
                    assert(out[start].arrows[x] == g3[start].arrows[x]);
                }
            }
            lemma_link_sound(h, g0, ts[k], start, state, s, run, q0, p);
        } else {
            assert(agrees(h, g3, out, start)) by {
                assert forall|u: int| #![trigger h[u]] g3.len() <= u < out.len() implies h[u] == out[u] by {
                }
            }
            assert(new_first(g3, out, start, s, run, q0));
            assert(in_part(out[start].arrows[kk].target(), g3.len() as int, out.len() as int, end));
            assert forall|u: int, x: int|
                g3.len() <= u < out.len() && 0 <= u < h.len() && 0 <= x < h[u].arrows.len() implies in_part(
                (#[trigger] h[u].arrows[x]).target(),
                g3.len() as int,
                out.len() as int,
                end,
            ) by {
                assert(h[u] == out[u]);
            }
            let e = lemma_exit(h, s, run, q0 + 1, g3.len() as int, out.len() as int, end, q1);
            if e < q1 {
                assert(g.len() <= run[e].0);
            }
            lemma_alts_sound(h, g3, ts, k + 1, start, end, s, run, q0, q1);
        }
    }
}

#[verifier::spinoff_prover]
proof fn lemma_repeated_sound(
    h: Seq<SpecNode>,
    g: Seq<SpecNode>,
    t: SpecToken,
    n: int,
    a: int,
    b: int,
    s: Seq<char>,
    run: Seq<(int, int)>,
    q0: int,
    q1: int,
)
    requires
        counts_ordered(t),
        0 <= n,
        through(h, g, repeated(g, t, n, a, b), a, b, s, run, q0, q1),
    ensures
        power_matches(t, n as nat, s, run[q0].1, run[q1].1),
    decreases t, n, 0int,
{
    let i = run[q0].1;
    let j = run[q1].1;
    lemma_run_positions(h, s, run, q0, q1);
    if n == 0 {
        if q0 + 1 < q1 {
            assert(g.len() <= run[q0 + 1].0);
        }
    } else if n == 1 {
        lemma_link_sound(h, g, t, a, b, s, run, q0, q1);
        lemma_power_intro(t, 1, s, i, j, j);
    } else {
        let next = g.len() as int;
        let g0 = with_state(g);
        lemma_link_shape(g0, t, a, next);
        let g1 = link(g0, t, a, next);
        lemma_repeated_shape(g1, t, n - 1, next, b);
        let p = lemma_split_seq(h, g, g1, repeated(g1, t, n - 1, next, b), a, b, s, run, q0, q1);
        lemma_link_sound(h, g0, t, a, next, s, run, q0, p);
        lemma_repeated_sound(h, g1, t, n - 1, next, b, s, run, p, q1);
        lemma_run_positions(h, s, run, q0, p);
        lemma_run_positions(h, s, run, p, q1);
        assert((n - 1) as nat == (n as nat - 1) as nat);
        lemma_power_intro(t, n as nat, s, i, j, run[p].1);
    }
}

#[verifier::spinoff_prover]
proof fn lemma_range_sound(
    h: Seq<SpecNode>,
    g: Seq<SpecNode>,
    t: SpecToken,
    k: int,
    n: int,
    this: int,
    end: int,
    s: Seq<char>,
    run: Seq<(int, int)>,
    q0: int,
    q1: int,
)
    requires
        counts_ordered(t),
        k < n,
        through(h, g, range_loop(g, t, k, n, this, end), this, end, s, run, q0, q1),
    ensures
        exists|r: nat| r <= n - k && #[trigger] power_matches(t, r, s, run[q0].1, run[q1].1),
    decreases t, if k < n {
        n - k
    } else {
        1
    }, 0int,
{
    let i = run[q0].1;
    let j = run[q1].1;
    let out = range_loop(g, t, k, n, this, end);
    lemma_run_positions(h, s, run, q0, q1);
    if k + 1 < n {
        let next = g.len() as int;
        let g0 = with_state(g);
        lemma_with_state_extends(g);
        lemma_link_shape(g0, t, this, next);
        let g2 = link(g0, t, this, next);
        let g3 = with_arrow(g2, this, SpecArrow::Epsilon(end));
        lemma_with_arrow_extends(g2, this, SpecArrow::Epsilon(end));
        lemma_range_shape(g3, t, k + 1, n, next, end);
        assert(out == range_loop(g3, t, k + 1, n, next, end));
        assert(out[this] == g3[this]);
        assert(g0[this] == g[this]);
        assert(g2[next] == g0[next]);
        assert(g3[next] == g2[next]);
        let kk = choose|x: int|
            g[this].arrows.len() <= x < out[this].arrows.len() && #[trigger] arrow_step(
                out[this].arrows[x],
                s,
                run[q0].1,
                run[q0 + 1].0,
                run[q0 + 1].1,
            );
        if kk == g2[this].arrows.len() {
            if q0 + 1 < q1 {
                assert(g.len() <= run[q0 + 1].0);
            }
            assert(power_matches(t, 0, s, i, j));
        } else {
            assert(out[this].arrows[kk] == g2[this].arrows[kk]);
            assert(new_first(g0, g2, this, s, run, q0));
            assert forall|u: int| #![trigger h[u]] g0.len() <= u < g2.len() implies h[u] == g2[u] by {
                assert(h[u] == out[u]);
                assert(out[u] == g3[u]);
            }
            let p = lemma_head(h, g0, g2, this, next, s, run, q0, q1);
            assert(agrees(h, g0, g2, this)) by {
                assert forall|x: int| g0[this].arrows.len() <= x < g2[this].arrows.len() implies #[trigger] h[this].arrows[x]
                    == g2[this].arrows[x] by {
                    assert(h[this].arrows[x] == out[this].arrows[x]);
                }
            }
            lemma_link_sound(h, g0, t, this, next, s, run, q0, p);
            assert(h[next] == out[next]);
            assert(agrees(h, g3, out, next)) by {
                assert forall|u: int| #![trigger h[u]] g3.len() <= u < out.len() implies h[u] == out[u] by {
                }
            }
            assert forall|m: int| p < m < q1 implies #[trigger] run[m].0 != end by {
                assert(g.len() <= run[m].0);
            }
            lemma_tail(h, g3, out, next, end, s, run, p, q1);
            lemma_range_sound(h, g3, t, k + 1, n, next, end, s, run, p, q1);
            let r = choose|r: nat| r <= n - (k + 1) && #[trigger] power_matches(t, r, s, run[p].1, j);
            lemma_run_positions(h, s, run, q0, p);
            lemma_run_positions(h, s, run, p, q1);
            lemma_power_intro(t, r + 1, s, i, j, run[p].1);
            assert(power_matches(t, (r + 1) as nat, s, i, j));
        }
    } else {
        let g2 = link(g, t, this, end);
        lemma_link_shape(g, t, this, end);
        assert(out == with_arrow(g2, this, SpecArrow::Epsilon(end)));
        let kk = choose|x: int|
            g[this].arrows.len() <= x < out[this].arrows.len() && #[trigger] arrow_step(
                out[this].arrows[x],
                s,
                run[q0].1,
                run[q0 + 1].0,
                run[q0 + 1].1,
            );
        if kk == g2[this].arrows.len() {
            if q0 + 1 < q1 {
                assert(g.len() <= run[q0 + 1].0);
            }
            assert(power_matches(t, 0, s, i, j));
        } else {
            assert(out[this].arrows[kk] == g2[this].arrows[kk]);
            assert(agrees(h, g, g2, this)) by {
                assert forall|u: int| #![trigger h[u]] g.len() <= u < g2.len() implies h[u] == g2[u] by {
                    assert(h[u] == out[u]);
                }
                assert forall|x: int| g[this].arrows.len() <= x < g2[this].arrows.len() implies #[trigger] h[this].arrows[x]
                    == g2[this].arrows[x] by {
                    assert(h[this].arrows[x] == out[this].arrows[x]);
                }
            }
            assert(new_first(g, g2, this, s, run, q0));
            lemma_link_sound(h, g, t, this, end, s, run, q0, q1);
            lemma_power_intro(t, 1, s, i, j, j);
        }
    }
}

/// Where a run crosses what [`star`] built for `t` from `a` to `b`, copies of `t` match
/// the part that the run reads.
#[verifier::spinoff_prover]
proof fn lemma_star_sound(
    h: Seq<SpecNode>,
    g: Seq<SpecNode>,
    t: SpecToken,
    a: int,
    b: int,
    s: Seq<char>,
    run: Seq<(int, int)>,
    q0: int,
    q1: int,
)
    requires
        counts_ordered(t),
        through(h, g, star(g, t, a, b), a, b, s, run, q0, q1),
    ensures
        star_matches(t, s, run[q0].1, run[q1].1),
    decreases t, 2int, 0int,
{
    let lp = g.len() as int;
    let g0 = with_state(g);
    lemma_with_state_extends(g);
    let g1 = with_arrow(g0, a, SpecArrow::Epsilon(lp));
    lemma_with_arrow_extends(g0, a, SpecArrow::Epsilon(lp));
    lemma_link_shape(g1, t, lp, lp);
    let g2 = link(g1, t, lp, lp);
    let out = with_arrow(g2, lp, SpecArrow::Epsilon(b));
    lemma_with_arrow_extends(g2, lp, SpecArrow::Epsilon(b));
    lemma_extends_trans(g1, g2, out);
    assert(out[a] == g2[a]);
    assert(g2[a] == g1[a]);
    assert(g1[lp] == g0[lp]);
    let kk = choose|x: int|
        g[a].arrows.len() <= x < out[a].arrows.len() && #[trigger] arrow_step(
            out[a].arrows[x],
            s,
            run[q0].1,
            run[q0 + 1].0,
            run[q0 + 1].1,
        );
    assert(out[a].arrows[kk] == SpecArrow::Epsilon(lp));
    assert forall|u: int| #![trigger h[u]] lp <= u < out.len() implies h[u] == out[u] by {
    }
    lemma_loop_sound(h, g1, t, lp, b, s, run, q0 + 1, q1);
}

/// The loop of [`star`]: from its state `lp` to `b`, the run reads copies of `t`.
#[verifier::spinoff_prover]
proof fn lemma_loop_sound(
    h: Seq<SpecNode>,
    g1: Seq<SpecNode>,
    t: SpecToken,
    lp: int,
    b: int,
    s: Seq<char>,
    run: Seq<(int, int)>,
    q: int,
    q1: int,
)
    requires
        counts_ordered(t),
        g1.len() == lp + 1,
        0 <= b < lp,
        g1[lp].arrows.len() == 0,
        is_run(h, s, run),
        0 <= q < q1 < run.len(),
        run[q].0 == lp,
        run[q1].0 == b,
        with_arrow(link(g1, t, lp, lp), lp, SpecArrow::Epsilon(b)).len() <= h.len(),
        forall|u: int|
            #![trigger h[u]]
            lp <= u < with_arrow(link(g1, t, lp, lp), lp, SpecArrow::Epsilon(b)).len() ==> h[u]
                == with_arrow(link(g1, t, lp, lp), lp, SpecArrow::Epsilon(b))[u],
        forall|m: int|
            q < m < q1 ==> lp <= #[trigger] run[m].0 < with_arrow(
                link(g1, t, lp, lp),
                lp,
                SpecArrow::Epsilon(b),
            ).len(),
    ensures
        star_matches(t, s, run[q].1, run[q1].1),
    decreases t, 1int, q1 - q,
{
    let g2 = link(g1, t, lp, lp);
    let out = with_arrow(g2, lp, SpecArrow::Epsilon(b));
    lemma_link_shape(g1, t, lp, lp);
    lemma_with_arrow_extends(g2, lp, SpecArrow::Epsilon(b));
    let x = run[q].1;
    let j = run[q1].1;
    lemma_run_positions(h, s, run, q, q1);
    assert(h[lp] == out[lp]);
    assert(step(h, s, run[q].0, run[q].1, run[q + 1].0, run[q + 1].1));
    let kk = lemma_step_arrow(h, s, lp, x, run[q + 1].0, run[q + 1].1);
    if kk == g2[lp].arrows.len() {
        assert(out[lp].arrows[kk] == SpecArrow::Epsilon(b));
        if q + 1 < q1 {
            assert(lp <= run[q + 1].0);
        }
    } else {
        assert(out[lp].arrows[kk] == g2[lp].arrows[kk]);
        assert(new_first(g1, g2, lp, s, run, q));
        assert forall|u: int| #![trigger h[u]] g1.len() <= u < g2.len() implies h[u] == g2[u] by {
            assert(h[u] == out[u]);
        }
        let p = lemma_head(h, g1, g2, lp, lp, s, run, q, q1);
        assert(agrees(h, g1, g2, lp)) by {
            assert forall|y: int| g1[lp].arrows.len() <= y < g2[lp].arrows.len() implies #[trigger] h[lp].arrows[y]
                == g2[lp].arrows[y] by {
                assert(out[lp].arrows[y] == g2[lp].arrows[y]);
            }
        }
        assert(through(h, g1, g2, lp, lp, s, run, q, p));
        lemma_link_sound(h, g1, t, lp, lp, s, run, q, p);
        lemma_loop_sound(h, g1, t, lp, b, s, run, p, q1);
        lemma_run_positions(h, s, run, q, p);
        lemma_run_positions(h, s, run, p, q1);
        lemma_star_intro(t, s, x, j, run[p].1);
    }
}

// ---------------------------------------------------------------------------
// what a token matches, its automaton reads

/// Where `t` matches `s` from `i` up to `j`, the states that [`link`] adds lead from `a`
/// at `i` to `b` at `j`.
proof fn lemma_link_complete(g: Seq<SpecNode>, t: SpecToken, a: int, b: int, s: Seq<char>, i: int, j: int)
    requires
        0 <= a < g.len(),
        0 <= b < g.len(),
        token_matches(t, s, i, j),
    ensures
        reaches(link(g, t, a, b), s, a, i, b, j),
    decreases t, 0int, 0int,
{
    match t {
        SpecToken::Special(x) => {
            lemma_with_arrow_step(g, a, SpecArrow::Guard(x, b), s, i, b, j);
            lemma_reaches_one(link(g, t, a, b), s, a, i, b, j);
        },
        SpecToken::Matcher(c) => {
            lemma_with_arrow_step(g, a, SpecArrow::Match(c, b), s, i, b, j);
            lemma_reaches_one(link(g, t, a, b), s, a, i, b, j);
        },
        SpecToken::Branch(ts) => lemma_branch_complete(g, ts, 0, a, b, s, i, j),
        SpecToken::Alternative(ts) => lemma_alts_complete(g, ts, 0, a, b, s, i, j),
        SpecToken::Repeat(bt, m, None) => {
            let u = *bt;
            lemma_least_cut_first(u, m as nat, s, i, j, i);
            let y = choose|y: int| #[trigger] power_matches(u, m as nat, s, i, y) && star_matches(u, s, y, j);
            if m == 0 {
                lemma_star_complete(g, u, a, b, s, i, j);
            } else {
                let mid = g.len() as int;
                let g0 = with_state(g);
                lemma_with_state_extends(g);
                lemma_repeated_complete(g0, u, m as int, a, mid, s, i, y, m as nat);
                let g1 = repeated(g0, u, m as int, a, mid);
                let x = choose|x: int|
                    reaches(g1, s, a, i, mid, x) && #[trigger] power_matches(u, (m - m) as nat, s, x, y);
                lemma_repeated_extends(g0, u, m as int, a, mid);
                lemma_star_complete(g1, u, mid, b, s, y, j);
                lemma_star_extends(g1, u, mid, b);
                lemma_reaches_extends(g1, star(g1, u, mid, b), s, a, i, mid, y);
                lemma_reaches_trans(star(g1, u, mid, b), s, a, i, mid, y, b, j);
            }
        },
        SpecToken::Repeat(bt, m, Some(n)) => {
            let u = *bt;
            lemma_between_first(u, m as nat, n as nat, s, i, j);
            let c = choose|c: nat| m <= c <= n && #[trigger] power_matches(u, c, s, i, j);
            if m == n {
                lemma_repeated_complete(g, u, m as int, a, b, s, i, j, c);
                let x = choose|x: int|
                    reaches(repeated(g, u, m as int, a, b), s, a, i, b, x) && #[trigger] power_matches(
                        u,
                        (c - m) as nat,
                        s,
                        x,
                        j,
                    );
            } else if m > 0 {
                let this = g.len() as int;
                let g0 = with_state(g);
                lemma_with_state_extends(g);
                lemma_repeated_extends(g0, u, m as int, a, this);
                lemma_repeated_complete(g0, u, m as int, a, this, s, i, j, c);
                let g1 = repeated(g0, u, m as int, a, this);
                let x = choose|x: int|
                    reaches(g1, s, a, i, this, x) && #[trigger] power_matches(u, (c - m) as nat, s, x, j);
                lemma_range_complete(g1, u, m as int, n as int, this, b, s, x, j, (c - m) as nat);
                let res = range_loop(g1, u, m as int, n as int, this, b);
                lemma_range_extends(g1, u, m as int, n as int, this, b);
                lemma_reaches_extends(g1, res, s, a, i, this, x);
                lemma_reaches_trans(res, s, a, i, this, x, b, j);
            } else {
                lemma_range_complete(g, u, 0, n as int, a, b, s, i, j, c);
            }
        },
    }
}

proof fn lemma_branch_complete(
    g: Seq<SpecNode>,
    ts: Seq<SpecToken>,
    k: int,
    this: int,
    end: int,
    s: Seq<char>,
    i: int,
    j: int,
)
    requires
        0 <= k,
        0 <= this < g.len(),
        0 <= end < g.len(),
        branch_matches(ts, k, s, i, j),
    ensures
        reaches(link_branch(g, ts, k, this, end), s, this, i, end, j),
    decreases ts, ts.len() - k, 0int,
{
    if k + 1 < ts.len() {
        lemma_branch_cut_first(ts, k, s, i, j, i);
        let mid = choose|mid: int|
            #[trigger] token_matches(ts[k], s, i, mid) && branch_matches(ts, k + 1, s, mid, j);
        let next = g.len() as int;
        let g0 = with_state(g);
        lemma_with_state_extends(g);
        lemma_link_complete(g0, ts[k], this, next, s, i, mid);
        lemma_link_extends(g0, ts[k], this, next);
        let g1 = link(g0, ts[k], this, next);
        lemma_branch_complete(g1, ts, k + 1, next, end, s, mid, j);
        let res = link_branch(g1, ts, k + 1, next, end);
        lemma_branch_extends(g1, ts, k + 1, next, end);
        lemma_reaches_extends(g1, res, s, this, i, next, mid);
        lemma_reaches_trans(res, s, this, i, next, mid, end, j);
    } else if k + 1 == ts.len() {
        lemma_branch_cut_first(ts, k, s, i, j, i);
        let mid = choose|mid: int|
            #[trigger] token_matches(ts[k], s, i, mid) && branch_matches(ts, k + 1, s, mid, j);
        lemma_link_complete(g, ts[k], this, end, s, i, j);
    } else {
        lemma_with_arrow_step(g, this, SpecArrow::Epsilon(end), s, i, end, j);
        lemma_reaches_one(link_branch(g, ts, k, this, end), s, this, i, end, j);
    }
}

proof fn lemma_alts_complete(
    g: Seq<SpecNode>,
    ts: Seq<SpecToken>,
    k: int,
    start: int,
    end: int,
    s: Seq<char>,
    i: int,
    j: int,
)
    requires
        0 <= k,
        0 <= start < g.len(),
        0 <= end < g.len(),
        alt_matches(ts, k, s, i, j),
    ensures
        reaches(link_alternatives(g, ts, k, start, end), s, start, i, end, j),
    decreases ts, ts.len() - k, 0int,
{
    let state = g.len() as int;
    let g0 = with_state(g);
    lemma_with_state_extends(g);
    lemma_link_extends(g0, ts[k], start, state);
    let g2 = link(g0, ts[k], start, state);
    lemma_with_arrow_extends(g2, state, SpecArrow::Epsilon(end));
    let g3 = with_arrow(g2, state, SpecArrow::Epsilon(end));
    let res = link_alternatives(g3, ts, k + 1, start, end);
    if token_matches(ts[k], s, i, j) {
        lemma_link_complete(g0, ts[k], start, state, s, i, j);
        lemma_reaches_extends(g2, g3, s, start, i, state, j);
        lemma_with_arrow_step(g2, state, SpecArrow::Epsilon(end), s, j, end, j);
        lemma_reaches_step(g3, s, start, i, state, j, end, j);
        lemma_alts_extends(g3, ts, k + 1, start, end);
        lemma_reaches_extends(g3, res, s, start, i, end, j);
    } else {
        lemma_alts_complete(g3, ts, k + 1, start, end, s, i, j);
    }
}

/// `n` copies of `t` linked one after the other read the first `n` of `k` copies that
/// match from `i` up to `j`.
proof fn lemma_repeated_complete(
    g: Seq<SpecNode>,
    t: SpecToken,
    n: int,
    a: int,
    b: int,
    s: Seq<char>,
    i: int,
    j: int,
    k: nat,
)
    requires
        0 <= a < g.len(),
        0 <= b < g.len(),
        0 <= n <= k,
        power_matches(t, k, s, i, j),
    ensures
        exists|x: int|
            reaches(repeated(g, t, n, a, b), s, a, i, b, x) && #[trigger] power_matches(
                t,
                (k - n) as nat,
                s,
                x,
                j,
            ),
    decreases t, n, 0int,
{
    if n <= 0 {
        lemma_with_arrow_step(g, a, SpecArrow::Epsilon(b), s, i, b, i);
        lemma_reaches_one(repeated(g, t, n, a, b), s, a, i, b, i);
        assert(power_matches(t, (k - n) as nat, s, i, j));
    } else {
        lemma_power_first(t, k, s, i, j);
        let mid = choose|mid: int|
            #[trigger] token_matches(t, s, i, mid) && power_matches(t, (k - 1) as nat, s, mid, j);
        if n == 1 {
            lemma_link_complete(g, t, a, b, s, i, mid);
            assert(power_matches(t, (k - n) as nat, s, mid, j));
        } else {
            let next = g.len() as int;
            let g0 = with_state(g);
            lemma_with_state_extends(g);
            lemma_link_complete(g0, t, a, next, s, i, mid);
            lemma_link_extends(g0, t, a, next);
            let g1 = link(g0, t, a, next);
            lemma_repeated_complete(g1, t, n - 1, next, b, s, mid, j, (k - 1) as nat);
            let res = repeated(g1, t, n - 1, next, b);
            let x = choose|x: int|
                reaches(res, s, next, mid, b, x) && #[trigger] power_matches(
                    t,
                    ((k - 1) as nat - (n - 1)) as nat,
                    s,
                    x,
                    j,
                );
            lemma_repeated_extends(g1, t, n - 1, next, b);
            lemma_reaches_extends(g1, res, s, a, i, next, mid);
            lemma_reaches_trans(res, s, a, i, next, mid, b, x);
            assert(((k - 1) as nat - (n - 1)) as nat == (k - n) as nat);
            assert(power_matches(t, (k - n) as nat, s, x, j));
        }
    }
}

/// Any number of copies of `t` read on the loop of [`star`].
proof fn lemma_loop_complete(g1: Seq<SpecNode>, t: SpecToken, lp: int, s: Seq<char>, i: int, j: int)
    requires
        0 <= lp < g1.len(),
        star_matches(t, s, i, j),
    ensures
        reaches(link(g1, t, lp, lp), s, lp, i, lp, j),
    decreases t, 1int, j - i,
{
    if i == j {
        lemma_reaches_refl(link(g1, t, lp, lp), s, lp, i);
    } else {
        lemma_star_cut_first(t, s, i, j, i + 1);
        let mid = choose|mid: int|
            i < mid <= j && #[trigger] token_matches(t, s, i, mid) && star_matches(t, s, mid, j);
        lemma_link_complete(g1, t, lp, lp, s, i, mid);
        lemma_loop_complete(g1, t, lp, s, mid, j);
        lemma_reaches_trans(link(g1, t, lp, lp), s, lp, i, lp, mid, lp, j);
    }
}

proof fn lemma_star_complete(g: Seq<SpecNode>, t: SpecToken, a: int, b: int, s: Seq<char>, i: int, j: int)
    requires
        0 <= a < g.len(),
        0 <= b < g.len(),
        star_matches(t, s, i, j),
    ensures
        reaches(star(g, t, a, b), s, a, i, b, j),
    decreases t, 2int, 0int,
{
    let lp = g.len() as int;
    let g0 = with_state(g);
    lemma_with_state_extends(g);
    let g1 = with_arrow(g0, a, SpecArrow::Epsilon(lp));
    lemma_with_arrow_step(g0, a, SpecArrow::Epsilon(lp), s, i, lp, i);
    lemma_reaches_one(g1, s, a, i, lp, i);
    lemma_with_arrow_extends(g0, a, SpecArrow::Epsilon(lp));
    let g2 = link(g1, t, lp, lp);
    lemma_loop_complete(g1, t, lp, s, i, j);
    lemma_link_extends(g1, t, lp, lp);
    lemma_reaches_extends(g1, g2, s, a, i, lp, i);
    lemma_reaches_trans(g2, s, a, i, lp, i, lp, j);
    let g3 = with_arrow(g2, lp, SpecArrow::Epsilon(b));
    lemma_with_arrow_extends(g2, lp, SpecArrow::Epsilon(b));
    lemma_reaches_extends(g2, g3, s, a, i, lp, j);
    lemma_with_arrow_step(g2, lp, SpecArrow::Epsilon(b), s, j, b, j);
    lemma_reaches_step(g3, s, a, i, lp, j, b, j);
}

/// `r` copies read on the optional copies of a bounded repetition, from the `k`-th on.
proof fn lemma_range_complete(
    g: Seq<SpecNode>,
    t: SpecToken,
    k: int,
    n: int,
    this: int,
    end: int,
    s: Seq<char>,
    i: int,
    j: int,
    r: nat,
)
    requires
        0 <= this < g.len(),
        0 <= end < g.len(),
        k < n,
        r <= n - k,
        power_matches(t, r, s, i, j),
    ensures
        reaches(range_loop(g, t, k, n, this, end), s, this, i, end, j),
    decreases t, r + 1, 0int,
{
    if k + 1 < n {
        let next = g.len() as int;
        let g0 = with_state(g);
        lemma_with_state_extends(g);
        lemma_link_extends(g0, t, this, next);
        let g2 = link(g0, t, this, next);
        lemma_with_arrow_extends(g2, this, SpecArrow::Epsilon(end));
        let g3 = with_arrow(g2, this, SpecArrow::Epsilon(end));
        let res = range_loop(g3, t, k + 1, n, next, end);
        lemma_range_extends(g3, t, k + 1, n, next, end);
        if r == 0 {
            lemma_with_arrow_step(g2, this, SpecArrow::Epsilon(end), s, i, end, j);
            lemma_reaches_one(g3, s, this, i, end, j);
            lemma_reaches_extends(g3, res, s, this, i, end, j);
        } else {
            lemma_power_first(t, r, s, i, j);
            let mid = choose|mid: int|
                #[trigger] token_matches(t, s, i, mid) && power_matches(t, (r - 1) as nat, s, mid, j);
            lemma_link_complete(g0, t, this, next, s, i, mid);
            lemma_extends_trans(g2, g3, res);
            lemma_reaches_extends(g2, res, s, this, i, next, mid);
            lemma_range_complete(g3, t, k + 1, n, next, end, s, mid, j, (r - 1) as nat);
            lemma_reaches_trans(res, s, this, i, next, mid, end, j);
        }
    } else {
        let g2 = link(g, t, this, end);
        lemma_link_extends(g, t, this, end);
        let res = with_arrow(g2, this, SpecArrow::Epsilon(end));
        lemma_with_arrow_extends(g2, this, SpecArrow::Epsilon(end));
        if r == 0 {
            lemma_with_arrow_step(g2, this, SpecArrow::Epsilon(end), s, i, end, j);
            lemma_reaches_one(res, s, this, i, end, j);
        } else {
            lemma_power_first(t, r, s, i, j);
            let mid = choose|mid: int|
                #[trigger] token_matches(t, s, i, mid) && power_matches(t, (r - 1) as nat, s, mid, j);
            assert(r == 1);
            lemma_link_complete(g, t, this, end, s, i, j);
            lemma_reaches_extends(g2, res, s, this, i, end, j);
        }
    }
}

// ---------------------------------------------------------------------------
// the parser keeps the counts of a repetition in order

proof fn lemma_ordered_push(acc: Seq<SpecToken>, t: SpecToken, k: int)
    requires
        0 <= k <= acc.len(),
        ordered_from(acc, k),
        counts_ordered(t),
    ensures
        ordered_from(acc.push(t), k),
    decreases acc.len() - k,
{
    if k < acc.len() {
        lemma_ordered_push(acc, t, k + 1);
        assert(acc.push(t)[k] == acc[k]);
    } else {
        assert(acc.push(t)[k] == t);
        assert(ordered_from(acc.push(t), k + 1));
    }
}

proof fn lemma_alt_token_ordered(acc: Seq<SpecToken>)
    requires
        ordered_from(acc, 0),
    ensures
        counts_ordered(sp_alt_token(acc)),
{
}

proof fn lemma_reps_ordered(s: Seq<char>, p: int)
    ensures
        sp_reps(s, p).0 matches SpecResult::Value(Some((n, Some(m)))) ==> n <= m,
{
}

proof fn lemma_atom_ordered(s: Seq<char>, p: int)
    ensures
        sp_atom(s, p).0 matches SpecResult::Value(Some(t)) ==> counts_ordered(t),
    decreases s.len() - p, 0int,
{
    if 0 <= p < s.len() {
        let (base, q2) = if s[p] == '(' {
            lemma_group_ordered(s, p + 1);
            sp_group(s, p + 1)
        } else {
            sp_simple_atom(s, p)
        };
        lemma_reps_ordered(s, q2);
        assert(base matches SpecResult::Value(b) ==> counts_ordered(b));
        assert(sp_atom(s, p) == sp_with_reps(s, base, q2));
    }
}

proof fn lemma_group_ordered(s: Seq<char>, q: int)
    ensures
        sp_group(s, q).0 matches SpecResult::Value(t) ==> counts_ordered(t),
    decreases s.len() - q, 5int,
{
    let q1 = if peek(s, q) == Some('?') {
        q + 2
    } else {
        q
    };
    if q1 <= s.len() {
        lemma_alternative_ordered(s, q1);
    }
}

proof fn lemma_alternative_ordered(s: Seq<char>, p: int)
    ensures
        sp_alternative(s, p).0 matches SpecResult::Value(t) ==> counts_ordered(t),
    decreases s.len() - p, 4int,
{
    lemma_alt_loop_ordered(s, p, Seq::empty());
}

proof fn lemma_alt_loop_ordered(s: Seq<char>, p: int, acc: Seq<SpecToken>)
    requires
        ordered_from(acc, 0),
    ensures
        sp_alt_loop(s, p, acc).0 matches SpecResult::Value(t) ==> counts_ordered(t),
    decreases s.len() - p, 3int,
{
    if !(0 <= p < s.len()) {
        lemma_alt_token_ordered(acc);
    } else {
        lemma_branch_ordered(s, p);
        let (r, p2) = sp_branch(s, p);
        if r is Value {
            let b = r->Value_0;
            lemma_ordered_push(acc, b, 0);
            if peek(s, p2) == Some('|') {
                if p <= p2 {
                    lemma_alt_loop_ordered(s, p2 + 1, acc.push(b));
                }
            } else {
                lemma_alt_token_ordered(acc.push(b));
            }
        }
    }
}

proof fn lemma_branch_ordered(s: Seq<char>, p: int)
    ensures
        sp_branch(s, p).0 matches SpecResult::Value(t) ==> counts_ordered(t),
    decreases s.len() - p, 2int,
{
    lemma_branch_loop_ordered(s, p, Seq::empty());
}

proof fn lemma_branch_loop_ordered(s: Seq<char>, p: int, acc: Seq<SpecToken>)
    requires
        ordered_from(acc, 0),
    ensures
        sp_branch_loop(s, p, acc).0 matches SpecResult::Value(t) ==> counts_ordered(t),
    decreases s.len() - p, 1int,
{
    if !(0 <= p < s.len()) || s[p] == '|' || s[p] == ')' {
    } else {
        lemma_atom_ordered(s, p);
        let (r, p2) = sp_atom(s, p);
        if r is Value && p < p2 <= s.len() {
            match r->Value_0 {
                Some(t) => {
                    lemma_ordered_push(acc, t, 0);
                    lemma_branch_loop_ordered(s, p2, acc.push(t));
                },
                None => {
                    lemma_branch_loop_ordered(s, p2, acc);
                },
            }
        }
    }
}

/// Every token that the parser gives has the counts of each bounded repetition in
/// order.
pub proof fn lemma_parse_counts_ordered(s: Seq<char>)
    ensures
        spec_parse(s) matches SpecResult::Value(t) ==> counts_ordered(t),
{
    lemma_alternative_ordered(s, 0);
}

// ---------------------------------------------------------------------------
// a match without anchors survives a longer input

/// Whether `t` holds no anchor (`^`, `$`) and no word boundary (`\b`, `\B`).
pub open spec fn no_anchor(t: SpecToken) -> bool
    decreases t, 0int,
{
    match t {
        SpecToken::Special(_) => false,
        SpecToken::Matcher(_) => true,
        SpecToken::Branch(ts) => anchor_free_from(ts, 0),
        SpecToken::Alternative(ts) => anchor_free_from(ts, 0),
        SpecToken::Repeat(bt, _, _) => no_anchor(*bt),
    }
}

/// Whether the tokens `ts[k..]` hold no anchor and no word boundary.
pub open spec fn anchor_free_from(ts: Seq<SpecToken>, k: int) -> bool
    decreases ts, ts.len() - k,
{
    if 0 <= k < ts.len() {
        no_anchor(ts[k]) && anchor_free_from(ts, k + 1)
    } else {
        true
    }
}

proof fn lemma_token_shift(t: SpecToken, s: Seq<char>, x: Seq<char>, y: Seq<char>, i: int, j: int)
    requires
        no_anchor(t),
        token_matches(t, s, i, j),
    ensures
        token_matches(t, x + s + y, i + x.len(), j + x.len()),
    decreases t, 0int, 0int,
{
    let l = x + s + y;
    let d = x.len() as int;
    match t {
        SpecToken::Matcher(c) => {
            assert(l[i + d] == s[i]);
        },
        SpecToken::Branch(ts) => lemma_branch_shift(ts, 0, s, x, y, i, j),
        SpecToken::Alternative(ts) => lemma_alt_shift(ts, 0, s, x, y, i, j),
        SpecToken::Repeat(bt, m, None) => lemma_least_shift(*bt, m as nat, s, x, y, i, j),
        SpecToken::Repeat(bt, m, Some(n)) => lemma_between_shift(*bt, m as nat, n as nat, s, x, y, i, j),
        _ => {},
    }
}

proof fn lemma_branch_shift(ts: Seq<SpecToken>, k: int, s: Seq<char>, x: Seq<char>, y: Seq<char>, i: int, j: int)
    requires
        anchor_free_from(ts, k),
        branch_matches(ts, k, s, i, j),
    ensures
        branch_matches(ts, k, x + s + y, i + x.len(), j + x.len()),
    decreases ts, ts.len() - k, j - i + 1,
{
    if 0 <= k < ts.len() {
        lemma_branch_cut_shift(ts, k, s, x, y, i, j, i);
    }
}

proof fn lemma_branch_cut_shift(
    ts: Seq<SpecToken>,
    k: int,
    s: Seq<char>,
    x: Seq<char>,
    y: Seq<char>,
    i: int,
    j: int,
    c: int,
)
    requires
        anchor_free_from(ts, k),
        branch_cut(ts, k, s, i, j, c),
    ensures
        branch_cut(ts, k, x + s + y, i + x.len(), j + x.len(), c + x.len()),
    decreases ts, ts.len() - k, j - c,
{
    if token_matches(ts[k], s, i, c) && branch_matches(ts, k + 1, s, c, j) {
        lemma_token_shift(ts[k], s, x, y, i, c);
        lemma_branch_shift(ts, k + 1, s, x, y, c, j);
    } else {
        lemma_branch_cut_shift(ts, k, s, x, y, i, j, c + 1);
    }
}

proof fn lemma_alt_shift(ts: Seq<SpecToken>, k: int, s: Seq<char>, x: Seq<char>, y: Seq<char>, i: int, j: int)
    requires
        anchor_free_from(ts, k),
        alt_matches(ts, k, s, i, j),
    ensures
        alt_matches(ts, k, x + s + y, i + x.len(), j + x.len()),
    decreases ts, ts.len() - k, 0int,
{
    if token_matches(ts[k], s, i, j) {
        lemma_token_shift(ts[k], s, x, y, i, j);
    } else {
        lemma_alt_shift(ts, k + 1, s, x, y, i, j);
    }
}

proof fn lemma_power_shift(t: SpecToken, n: nat, s: Seq<char>, x: Seq<char>, y: Seq<char>, i: int, j: int)
    requires
        no_anchor(t),
        power_matches(t, n, s, i, j),
    ensures
        power_matches(t, n, x + s + y, i + x.len(), j + x.len()),
    decreases t, n + 1, j - i + 1,
{
    if n > 0 {
        lemma_power_cut_shift(t, n, s, x, y, i, j, i);
    }
}

proof fn lemma_power_cut_shift(
    t: SpecToken,
    n: nat,
    s: Seq<char>,
    x: Seq<char>,
    y: Seq<char>,
    i: int,
    j: int,
    c: int,
)
    requires
        no_anchor(t),
        power_cut(t, n, s, i, j, c),
    ensures
        power_cut(t, n, x + s + y, i + x.len(), j + x.len(), c + x.len()),
    decreases t, n + 1, j - c,
{
    if token_matches(t, s, i, c) && power_matches(t, (n - 1) as nat, s, c, j) {
        lemma_token_shift(t, s, x, y, i, c);
        lemma_power_shift(t, (n - 1) as nat, s, x, y, c, j);
    } else {
        lemma_power_cut_shift(t, n, s, x, y, i, j, c + 1);
    }
}

proof fn lemma_star_shift(t: SpecToken, s: Seq<char>, x: Seq<char>, y: Seq<char>, i: int, j: int)
    requires
        no_anchor(t),
        star_matches(t, s, i, j),
    ensures
        star_matches(t, x + s + y, i + x.len(), j + x.len()),
    decreases t, 1int, 2 * (j - i),
{
    if i < j {
        lemma_star_cut_shift(t, s, x, y, i, j, i + 1);
    }
}

proof fn lemma_star_cut_shift(t: SpecToken, s: Seq<char>, x: Seq<char>, y: Seq<char>, i: int, j: int, c: int)
    requires
        no_anchor(t),
        star_cut(t, s, i, j, c),
    ensures
        star_cut(t, x + s + y, i + x.len(), j + x.len(), c + x.len()),
    decreases t, 1int, (j - i) + (j - c),
{
    if token_matches(t, s, i, c) && star_matches(t, s, c, j) {
        lemma_token_shift(t, s, x, y, i, c);
        lemma_star_shift(t, s, x, y, c, j);
    } else {
        lemma_star_cut_shift(t, s, x, y, i, j, c + 1);
    }
}

proof fn lemma_least_shift(t: SpecToken, m: nat, s: Seq<char>, x: Seq<char>, y: Seq<char>, i: int, j: int)
    requires
        no_anchor(t),
        at_least_matches(t, m, s, i, j),
    ensures
        at_least_matches(t, m, x + s + y, i + x.len(), j + x.len()),
    decreases t, m + 2, j - i + 1,
{
    lemma_least_cut_shift(t, m, s, x, y, i, j, i);
}

proof fn lemma_least_cut_shift(
    t: SpecToken,
    m: nat,
    s: Seq<char>,
    x: Seq<char>,
    y: Seq<char>,
    i: int,
    j: int,
    c: int,
)
    requires
        no_anchor(t),
        least_cut(t, m, s, i, j, c),
    ensures
        least_cut(t, m, x + s + y, i + x.len(), j + x.len(), c + x.len()),
    decreases t, m + 2, j - c,
{
    if power_matches(t, m, s, i, c) && star_matches(t, s, c, j) {
        lemma_power_shift(t, m, s, x, y, i, c);
        lemma_star_shift(t, s, x, y, c, j);
    } else {
        lemma_least_cut_shift(t, m, s, x, y, i, j, c + 1);
    }
}

proof fn lemma_between_shift(
    t: SpecToken,
    k: nat,
    n: nat,
    s: Seq<char>,
    x: Seq<char>,
    y: Seq<char>,
    i: int,
    j: int,
)
    requires
        no_anchor(t),
        between_matches(t, k, n, s, i, j),
    ensures
        between_matches(t, k, n, x + s + y, i + x.len(), j + x.len()),
    decreases t, n + 2, n - k,
{
    if power_matches(t, k, s, i, j) {
        lemma_power_shift(t, k, s, x, y, i, j);
    } else {
        lemma_between_shift(t, k + 1, n, s, x, y, i, j);
    }
}

// ---------------------------------------------------------------------------
// laws

/// Every part of `s` that `t` matches is read by the automaton compiled from `t`: a run
/// from its start state at the part's first position reaches its final state.
pub proof fn lemma_compiled_reads_language(t: SpecToken, s: Seq<char>, i: int, j: int)
    requires
        0 <= i <= j <= s.len(),
        token_matches(t, s, i, j),
    ensures
        accepts_from(spec_compile(t), s, 0, i),
        spec_accepts(spec_compile(t), 0, s),
{
    let g0 = seq![plain_node(), SpecNode { arrows: Seq::empty(), end: true }];
    let g = link(g0, t, 0, 1);
    lemma_link_complete(g0, t, 0, 1, s, i, j);
    lemma_link_extends(g0, t, 0, 1);
    assert(g[1].end == g0[1].end);
    assert(reaches(g, s, 0, i, 1, j) && 0 <= 1 < g.len() && g[1].end);
    assert(accepts_from(g, s, 0, i));
}

/// Every run of the automaton compiled from `t` that reaches its final state reads a part
/// of `s` that `t` matches, when every bounded repetition of `t` has its counts in order.
pub proof fn lemma_compiled_reads_only_language(t: SpecToken, s: Seq<char>, i: int)
    requires
        counts_ordered(t),
        0 <= i <= s.len(),
        accepts_from(spec_compile(t), s, 0, i),
    ensures
        exists|j: int| i <= j <= s.len() && #[trigger] token_matches(t, s, i, j),
{
    let g0 = seq![plain_node(), SpecNode { arrows: Seq::empty(), end: true }];
    let g = link(g0, t, 0, 1);
    lemma_link_shape(g0, t, 0, 1);
    let (x, q) = choose|x: int, q: int| #[trigger] reaches(g, s, 0, i, x, q) && 0 <= x < g.len() && g[x].end;
    assert(g[0].end == g0[0].end);
    assert(x == 1) by {
        if x >= 2 {
            assert(!g[x].end);
        }
    }
    let run = choose|run: Seq<(int, int)>| is_run(g, s, run) && run[0] == (0int, i) && #[trigger] run.last() == (x, q);
    let q1 = run.len() - 1;
    assert(run[q1] == (1int, q));
    assert(q1 > 0);
    assert(g[1] == g0[1]);
    assert(step(g, s, run[0].0, run[0].1, run[1].0, run[1].1));
    let k = lemma_step_arrow(g, s, 0, i, run[1].0, run[1].1);
    assert(in_part(g[0].arrows[k].target(), 2, g.len() as int, 1));
    assert forall|u: int, y: int|
        2 <= u < g.len() && 0 <= u < g.len() && 0 <= y < g[u].arrows.len() implies in_part(
        (#[trigger] g[u].arrows[y]).target(),
        2,
        g.len() as int,
        1,
    ) by {
    }
    let p = lemma_exit(g, s, run, 1, 2, g.len() as int, 1, q1);
    if p < q1 {
        assert(step(g, s, run[p].0, run[p].1, run[p + 1].0, run[p + 1].1));
        lemma_step_arrow(g, s, 1, run[p].1, run[p + 1].0, run[p + 1].1);
    }
    lemma_extends_refl(g);
    assert(new_first(g0, g, 0, s, run, 0));
    assert(through(g, g0, g, 0, 1, s, run, 0, q1));
    lemma_link_sound(g, g0, t, 0, 1, s, run, 0, q1);
    lemma_run_positions(g, s, run, 0, q1);
    lemma_run_bounded(g, s, run, q1);
}

/// A regular expression matches an input exactly where the input holds a part in the
/// language of its pattern: where the pattern parses to `t`, [`Regex::is_match`]
/// answers `true` if and only if `t` matches some part of the input (taken lower-cased
/// when the case is ignored), with `^`, `$`, `\b` and `\B` read at their positions in
/// the whole input.
pub proof fn lemma_match_iff_language(
    regex: Seq<char>,
    ignore_case: bool,
    t: SpecToken,
    rx: Regex,
    string: Seq<char>,
)
    requires
        spec_parse(pattern(regex, ignore_case)) == SpecResult::Value(t),
        spec_new(regex, ignore_case) == Some(
            Ok::<_, crate::parser::SpecParsingError>((rx.automaton(), rx.start, rx.ignore_case)),
        ),
    ensures
        spec_is_match(rx, string) == matches_somewhere(t, input_chars(string, ignore_case)),
{
    let s = input_chars(string, ignore_case);
    if matches_somewhere(t, s) {
        let (i, j) = choose|i: int, j: int| 0 <= i <= j <= s.len() && #[trigger] token_matches(t, s, i, j);
        lemma_compiled_reads_language(t, s, i, j);
    }
    if spec_is_match(rx, string) {
        let i = choose|i: int| 0 <= i <= s.len() && #[trigger] accepts_from(spec_compile(t), s, 0, i);
        lemma_parse_counts_ordered(pattern(regex, ignore_case));
        lemma_compiled_reads_only_language(t, s, i);
        let j = choose|j: int| i <= j <= s.len() && #[trigger] token_matches(t, s, i, j);
        assert(0 <= i <= j <= s.len() && token_matches(t, s, i, j));
    }
}

/// A regular expression whose pattern holds no anchor and no word boundary finds its
/// match again in any input that holds the matched one, whatever text stands before and
/// after it.
pub proof fn lemma_match_in_longer_input(
    regex: Seq<char>,
    ignore_case: bool,
    t: SpecToken,
    rx: Regex,
    string: Seq<char>,
    before: Seq<char>,
    after: Seq<char>,
)
    requires
        spec_parse(pattern(regex, ignore_case)) == SpecResult::Value(t),
        spec_new(regex, ignore_case) == Some(
            Ok::<_, crate::parser::SpecParsingError>((rx.automaton(), rx.start, rx.ignore_case)),
        ),
        no_anchor(t),
        spec_is_match(rx, string),
    ensures
        spec_is_match(rx, before + string + after),
{
    let s = input_chars(string, ignore_case);
    let x = input_chars(before, ignore_case);
    let y = input_chars(after, ignore_case);
    lemma_match_iff_language(regex, ignore_case, t, rx, string);
    lemma_match_iff_language(regex, ignore_case, t, rx, before + string + after);
    let (i, j) = choose|i: int, j: int| 0 <= i <= j <= s.len() && #[trigger] token_matches(t, s, i, j);
    lemma_token_shift(t, s, x, y, i, j);
    assert(input_chars(before + string + after, ignore_case) =~= x + s + y);
    let l = x + s + y;
    assert(0 <= i + x.len() <= j + x.len() <= l.len() && token_matches(t, l, i + x.len(), j + x.len()));
}

// ---------------------------------------------------------------------------
// what the suffixes and the classes of a pattern mean

/// One copy of `t` is what `t` matches.
proof fn lemma_one_copy(t: SpecToken, s: Seq<char>, i: int, j: int)
    ensures
        power_matches(t, 1, s, i, j) <==> token_matches(t, s, i, j),
{
    if power_matches(t, 1, s, i, j) {
        lemma_power_first(t, 1, s, i, j);
    }
    if token_matches(t, s, i, j) {
        lemma_token_forward(t, s, i, j);
        lemma_power_intro(t, 1, s, i, j, j);
    }
}

/// A `?` after an atom makes the atom optional: where the atom alone gives the token `t`
/// up to the `?`, the atom with its suffix ends after the `?` and gives a token that
/// matches an empty part, or a part that one copy of `t` matches, and nothing else; two
/// copies of `t` one after the other are no match of it unless one copy matches them too.
pub proof fn lemma_optional_suffix(
    s: Seq<char>,
    p: int,
    t: SpecToken,
    q: int,
    input: Seq<char>,
    i: int,
    j: int,
)
    requires
        0 <= p < s.len(),
        (if s[p] == '(' {
            sp_group(s, p + 1)
        } else {
            sp_simple_atom(s, p)
        }) == (SpecResult::Value(t), q),
        peek(s, q) == Some('?'),
    ensures
        sp_atom(s, p).1 == q + 1,
        sp_atom(s, p).0 matches SpecResult::Value(Some(x)) && (token_matches(x, input, i, j) <==> (
        i == j || token_matches(t, input, i, j))),
{
    assert(sp_reps(s, q) == (SpecResult::Value(Some((0usize, Some(1usize)))), q + 1));
    let x = SpecToken::Repeat(Box::new(t), 0, Some(1));
    assert(sp_atom(s, p) == (SpecResult::Value(Some(x)), q + 1));
    lemma_one_copy(t, input, i, j);
    assert(power_matches(t, 0, input, i, j) == (i == j));
    assert(between_matches(t, 1, 1, input, i, j) == power_matches(t, 1, input, i, j));
    assert(between_matches(t, 0, 1, input, i, j) == (i == j || between_matches(t, 1, 1, input, i, j)));
    assert(token_matches(x, input, i, j) == between_matches(t, 0, 1, input, i, j));
}

/// A character with no meaning of its own in a pattern matches exactly itself, and a
/// `.` matches any one character.
pub proof fn lemma_plain_and_dot(s: Seq<char>, p: int, input: Seq<char>, i: int, j: int)
    requires
        0 <= p < s.len(),
        s[p] == '.' || !spec_is_special(s[p]),
    ensures
        sp_simple_atom(s, p).1 == p + 1,
        sp_simple_atom(s, p).0 matches SpecResult::Value(x) && (token_matches(x, input, i, j) <==> (j
            == i + 1 && 0 <= i < input.len() && (s[p] == '.' || input[i] == s[p]))),
{
}

/// A count of one digit, followed by no other digit.
proof fn lemma_one_digit(s: Seq<char>, p: int, n: usize)
    requires
        0 <= p < s.len(),
        n <= 9,
        s[p] as int == '0' as int + n,
        !(p + 1 < s.len() && '0' <= s[p + 1] && s[p + 1] <= '9'),
    ensures
        sp_number(s, p) == (SpecResult::Value(Some(n)), p + 1),
{
    assert(sp_number_loop(s, p + 1, n as int) == (SpecResult::Value(Some(n)), p + 1));
}

/// The suffix `{n}` after an atom, `n` a single digit other than `0`, repeats the atom
/// exactly `n` times: where the atom alone gives the token `t` up to the `{`, the atom
/// with its suffix ends after the `}` and gives a token that matches exactly where `n`
/// copies of `t` match one after the other.
pub proof fn lemma_exact_count_suffix(
    s: Seq<char>,
    p: int,
    t: SpecToken,
    q: int,
    n: usize,
    input: Seq<char>,
    i: int,
    j: int,
)
    requires
        0 <= p < s.len(),
        (if s[p] == '(' {
            sp_group(s, p + 1)
        } else {
            sp_simple_atom(s, p)
        }) == (SpecResult::Value(t), q),
        p < q,
        q + 3 <= s.len(),
        1 <= n <= 9,
        s[q] == '{',
        s[q + 1] as int == '0' as int + n,
        s[q + 2] == '}',
    ensures
        sp_atom(s, p).1 == q + 3,
        sp_atom(s, p).0 matches SpecResult::Value(Some(x)) && (token_matches(x, input, i, j)
            <==> power_matches(t, n as nat, input, i, j)),
{
    lemma_one_digit(s, q + 1, n);
    assert(sp_check_counts(n, Some(n), q + 2) == (SpecResult::Value(Some((n, Some(n)))), q + 3));
    assert(sp_reps(s, q) == (SpecResult::Value(Some((n, Some(n)))), q + 3));
    let x = SpecToken::Repeat(Box::new(t), n, Some(n));
    assert(sp_atom(s, p) == (SpecResult::Value(Some(x)), q + 3));
    assert(token_matches(x, input, i, j) == between_matches(t, n as nat, n as nat, input, i, j));
}

/// The suffix `{n,}` after an atom, `n` a single digit, repeats the atom `n` or more
/// times: the atom with its suffix ends after the `}` and gives a token that matches
/// exactly where `n` copies of `t` match up to some `y`, and any number of copies from
/// there on.
pub proof fn lemma_least_count_suffix(
    s: Seq<char>,
    p: int,
    t: SpecToken,
    q: int,
    n: usize,
    input: Seq<char>,
    i: int,
    j: int,
)
    requires
        0 <= p < s.len(),
        (if s[p] == '(' {
            sp_group(s, p + 1)
        } else {
            sp_simple_atom(s, p)
        }) == (SpecResult::Value(t), q),
        p < q,
        q + 4 <= s.len(),
        n <= 9,
        s[q] == '{',
        s[q + 1] as int == '0' as int + n,
        s[q + 2] == ',',
        s[q + 3] == '}',
    ensures
        sp_atom(s, p).1 == q + 4,
        sp_atom(s, p).0 matches SpecResult::Value(Some(x)) && (token_matches(x, input, i, j)
            <==> exists|y: int| #[trigger] power_matches(t, n as nat, input, i, y) && star_matches(t, input, y, j)),
{
    lemma_one_digit(s, q + 1, n);
    assert(sp_check_counts(n, None, q + 3) == (SpecResult::Value(Some((n, None::<usize>))), q + 4));
    assert(sp_reps(s, q) == (SpecResult::Value(Some((n, None::<usize>))), q + 4));
    let x = SpecToken::Repeat(Box::new(t), n, None);
    assert(sp_atom(s, p) == (SpecResult::Value(Some(x)), q + 4));
    assert(token_matches(x, input, i, j) == at_least_matches(t, n as nat, input, i, j));
    if at_least_matches(t, n as nat, input, i, j) {
        lemma_least_cut_first(t, n as nat, input, i, j, i);
    }
    if exists|y: int| #[trigger] power_matches(t, n as nat, input, i, y) && star_matches(t, input, y, j) {
        let y = choose|y: int| #[trigger] power_matches(t, n as nat, input, i, y) && star_matches(t, input, y, j);
        assert(i <= y);
        lemma_star_forward(t, input, y, j);
        lemma_least_intro(t, n as nat, input, i, j, y);
    }
}

/// The suffix `{n,m}` after an atom, `n` and `m` single digits with `n <= m` and `m`
/// other than `0`, repeats the atom from `n` to `m` times: the atom with its suffix ends
/// after the `}` and gives a token that matches exactly where some number of copies of
/// `t` from `n` to `m` match one after the other.
pub proof fn lemma_bounded_count_suffix(
    s: Seq<char>,
    p: int,
    t: SpecToken,
    q: int,
    n: usize,
    m: usize,
    input: Seq<char>,
    i: int,
    j: int,
)
    requires
        0 <= p < s.len(),
        (if s[p] == '(' {
            sp_group(s, p + 1)
        } else {
            sp_simple_atom(s, p)
        }) == (SpecResult::Value(t), q),
        p < q,
        q + 5 <= s.len(),
        n <= m,
        1 <= m <= 9,
        s[q] == '{',
        s[q + 1] as int == '0' as int + n,
        s[q + 2] == ',',
        s[q + 3] as int == '0' as int + m,
        s[q + 4] == '}',
    ensures
        sp_atom(s, p).1 == q + 5,
        sp_atom(s, p).0 matches SpecResult::Value(Some(x)) && (token_matches(x, input, i, j)
            <==> exists|k: nat| n <= k <= m && #[trigger] power_matches(t, k, input, i, j)),
{
    lemma_one_digit(s, q + 1, n);
    lemma_one_digit(s, q + 3, m);
    assert(sp_check_counts(n, Some(m), q + 4) == (SpecResult::Value(Some((n, Some(m)))), q + 5));
    assert(sp_reps(s, q) == (SpecResult::Value(Some((n, Some(m)))), q + 5));
    let x = SpecToken::Repeat(Box::new(t), n, Some(m));
    assert(sp_atom(s, p) == (SpecResult::Value(Some(x)), q + 5));
    assert(token_matches(x, input, i, j) == between_matches(t, n as nat, m as nat, input, i, j));
    if between_matches(t, n as nat, m as nat, input, i, j) {
        lemma_between_first(t, n as nat, m as nat, input, i, j);
    }
    if exists|k: nat| n <= k <= m && #[trigger] power_matches(t, k, input, i, j) {
        let k = choose|k: nat| n <= k <= m && #[trigger] power_matches(t, k, input, i, j);
        lemma_between_intro(t, n as nat, m as nat, k, input, i, j);
    }
}

/// The escapes `\d` and `\D` are read as one class each: `\d` matches exactly the ASCII
/// digits `0` to `9`, and `\D` exactly the other characters.
pub proof fn lemma_digit_escapes(s: Seq<char>, p: int, input: Seq<char>, i: int, j: int)
    requires
        0 <= p,
        p + 2 <= s.len(),
        s[p] == '\\',
        s[p + 1] == 'd' || s[p + 1] == 'D',
    ensures
        sp_simple_atom(s, p).1 == p + 2,
        sp_simple_atom(s, p).0 matches SpecResult::Value(x) && (token_matches(x, input, i, j) <==> (j
            == i + 1 && 0 <= i < input.len() && (('0' <= input[i] && input[i] <= '9') == (s[p + 1]
            == 'd')))),
{
    let c = sp_escaped(s, p + 1).0->Value_0;
    assert(sp_simple_atom(s, p) == (SpecResult::Value(SpecToken::Matcher(c)), p + 2));
    if 0 <= i < input.len() {
        let ch = input[i];
        assert(char_matches(SpecCharacter::Digit, ch) == ('0' <= ch && ch <= '9'));
        assert(char_matches(c, ch) == (('0' <= ch && ch <= '9') == (s[p + 1] == 'd')));
    }
}

/// Each upper-case class escape `\D`, `\S` and `\W` matches exactly the characters that
/// its lower-case `\d`, `\s` or `\w` does not.
pub proof fn lemma_negated_escapes(s: Seq<char>, p: int, x: char)
    requires
        0 <= p,
        p + 1 < s.len(),
        (s[p] == 'd' && s[p + 1] == 'D') || (s[p] == 's' && s[p + 1] == 'S') || (s[p] == 'w' && s[p
            + 1] == 'W'),
    ensures
        sp_escaped(s, p).0 matches SpecResult::Value(k) && (sp_escaped(s, p + 1).0 matches SpecResult::Value(
            m,
        ) && char_matches(m, x) == !char_matches(k, x)),
{
}

/// Any number of copies of `t`, none included, are what `m` or more copies after `m = 0`
/// are.
proof fn lemma_no_least(t: SpecToken, s: Seq<char>, i: int, j: int)
    ensures
        at_least_matches(t, 0, s, i, j) <==> star_matches(t, s, i, j),
{
    if at_least_matches(t, 0, s, i, j) {
        lemma_least_cut_first(t, 0, s, i, j, i);
    }
    if star_matches(t, s, i, j) {
        assert(i <= j);
        assert(power_matches(t, 0, s, i, i));
        lemma_least_intro(t, 0, s, i, j, i);
    }
}

/// A `*` after an atom lets the atom repeat any number of times: where the atom alone
/// gives the token `t` up to the `*`, the atom with its suffix ends after the `*` and
/// gives a token that matches exactly where any number of copies of `t`, none included,
/// match one after the other.
pub proof fn lemma_star_suffix(s: Seq<char>, p: int, t: SpecToken, q: int, input: Seq<char>, i: int, j: int)
    requires
        0 <= p < s.len(),
        (if s[p] == '(' {
            sp_group(s, p + 1)
        } else {
            sp_simple_atom(s, p)
        }) == (SpecResult::Value(t), q),
        peek(s, q) == Some('*'),
    ensures
        sp_atom(s, p).1 == q + 1,
        sp_atom(s, p).0 matches SpecResult::Value(Some(x)) && (token_matches(x, input, i, j)
            <==> star_matches(t, input, i, j)),
{
    assert(sp_reps(s, q) == (SpecResult::Value(Some((0usize, None::<usize>))), q + 1));
    let x = SpecToken::Repeat(Box::new(t), 0, None);
    assert(sp_atom(s, p) == (SpecResult::Value(Some(x)), q + 1));
    lemma_no_least(t, input, i, j);
    assert(token_matches(x, input, i, j) == at_least_matches(t, 0, input, i, j));
}

/// A `+` after an atom lets the atom repeat one or more times: where the atom alone gives
/// the token `t` up to the `+`, the atom with its suffix ends after the `+` and gives a
/// token that matches exactly where a copy of `t` matches up to some `mid`, and any
/// number of copies from there on.
pub proof fn lemma_plus_suffix(s: Seq<char>, p: int, t: SpecToken, q: int, input: Seq<char>, i: int, j: int)
    requires
        0 <= p < s.len(),
        (if s[p] == '(' {
            sp_group(s, p + 1)
        } else {
            sp_simple_atom(s, p)
        }) == (SpecResult::Value(t), q),
        peek(s, q) == Some('+'),
    ensures
        sp_atom(s, p).1 == q + 1,
        sp_atom(s, p).0 matches SpecResult::Value(Some(x)) && (token_matches(x, input, i, j)
            <==> exists|mid: int| #[trigger] token_matches(t, input, i, mid) && star_matches(t, input, mid, j)),
{
    assert(sp_reps(s, q) == (SpecResult::Value(Some((1usize, None::<usize>))), q + 1));
    let x = SpecToken::Repeat(Box::new(t), 1, None);
    assert(sp_atom(s, p) == (SpecResult::Value(Some(x)), q + 1));
    assert(token_matches(x, input, i, j) == at_least_matches(t, 1, input, i, j));
    if at_least_matches(t, 1, input, i, j) {
        lemma_least_cut_first(t, 1, input, i, j, i);
        let y = choose|y: int| #[trigger] power_matches(t, 1, input, i, y) && star_matches(t, input, y, j);
        lemma_one_copy(t, input, i, y);
        assert(token_matches(t, input, i, y) && star_matches(t, input, y, j));
    }
    if exists|mid: int| #[trigger] token_matches(t, input, i, mid) && star_matches(t, input, mid, j) {
        let mid = choose|mid: int| #[trigger] token_matches(t, input, i, mid) && star_matches(t, input, mid, j);
        lemma_one_copy(t, input, i, mid);
        lemma_token_forward(t, input, i, mid);
        lemma_star_forward(t, input, mid, j);
        lemma_least_intro(t, 1, input, i, j, mid);
    }
}

/// Copies of a token never match backwards.
proof fn lemma_star_forward(t: SpecToken, s: Seq<char>, i: int, j: int)
    requires
        star_matches(t, s, i, j),
    ensures
        i <= j,
{
}

/// A bracket expression of one member matches what that member matches.
proof fn lemma_one_member(r: SpecCharacter, x: char)
    ensures
        char_matches(SpecCharacter::Bracket(seq![r]), x) == char_matches(r, x),
{
    let m = seq![r];
    let b = SpecCharacter::Bracket(m);
    assert(m.len() == 1 && m[0] == r);
    assert(b->Bracket_0 == m);
    assert(char_matches(b, x) == (exists|i: int| 0 <= i < m.len() && char_matches(#[trigger] m[i], x)));
    if char_matches(b, x) {
        let k = choose|k: int| 0 <= k < m.len() && char_matches(#[trigger] m[k], x);
        assert(k == 0);
    }
    if char_matches(r, x) {
        assert(char_matches(m[0], x));
    }
}

/// A bracket expression `[l-u]` holding one range matches one character, and exactly the
/// characters from `l` to `u`, both ends included; `l` is a plain character that comes
/// before `u`.
pub proof fn lemma_range_class(s: Seq<char>, p: int, l: char, u: char, input: Seq<char>, i: int, j: int)
    requires
        0 <= p,
        p + 5 <= s.len(),
        s[p] == '[',
        s[p + 1] == l,
        s[p + 2] == '-',
        s[p + 3] == u,
        s[p + 4] == ']',
        l != '^' && l != '-' && l != ']' && l != '\\',
        u != ']',
        l < u,
    ensures
        sp_simple_atom(s, p).1 == p + 5,
        sp_simple_atom(s, p).0 matches SpecResult::Value(x) && (token_matches(x, input, i, j) <==> (j
            == i + 1 && 0 <= i < input.len() && l <= input[i] && input[i] <= u)),
{
    let e: Seq<SpecCharacter> = Seq::empty();
    let one = e.push(SpecCharacter::Literal(l));
    let members = seq![SpecCharacter::Range(l, u)];
    assert(sp_set_loop(s, p + 4, members) == (SpecResult::Value(members), p + 5));
    assert(one.drop_last().push(SpecCharacter::Range(l, u)) =~= members);
    assert(sp_set_loop(s, p + 2, one) == (SpecResult::Value(members), p + 5));
    assert(e.push(SpecCharacter::Literal(l)) == one);
    assert(sp_set_loop(s, p + 1, e) == (SpecResult::Value(members), p + 5));
    let c = SpecCharacter::Bracket(members);
    assert(sp_set(s, p + 1) == (SpecResult::Value(c), p + 5));
    assert(sp_simple_atom(s, p) == (SpecResult::Value(SpecToken::Matcher(c)), p + 5));
    if 0 <= i < input.len() {
        lemma_one_member(SpecCharacter::Range(l, u), input[i]);
        assert(char_matches(c, input[i]) == (l <= input[i] && input[i] <= u));
    }
}

} // verus!
