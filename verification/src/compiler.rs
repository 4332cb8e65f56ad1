use crate::parser::{
    Fault, ParsingError, SpecResult, SpecToken, Token, agrees, lemma_token_view,
    lemma_tokens_view_index, lemma_tokens_view_push, parse_chars, spec_parse, token_of, token_view, tokens_view,
};
use crate::types::{
    Arrow, Boundary, Character, Node, Regex, SpecArrow, SpecNode, arrow_view, graph_view,
    graph_wf, node_view,
};
use crate::text::{
    arrow_printable, arrows_printable, lemma_tokens_printable_index, token_printable,
    tokens_printable,
};
use crate::utils::{regex_to_lower, spec_regex_to_lower, str_chars};
use vstd::prelude::*;

verus! {

broadcast use vstd::std_specs::vec::group_vec_axioms;

// ---------------------------------------------------------------------------
// building automata

/// A state with no arrows that is not final.
pub open spec fn plain_node() -> SpecNode {
    SpecNode { arrows: Seq::empty(), end: false }
}

/// The automaton with one more state, which is not final and has no arrows yet.
pub open spec fn with_state(g: Seq<SpecNode>) -> Seq<SpecNode> {
    g.push(plain_node())
}

/// The automaton with the arrow `a` added, last, to the arrows of state `s`.
pub open spec fn with_arrow(g: Seq<SpecNode>, s: int, a: SpecArrow) -> Seq<SpecNode> {
    g.update(s, SpecNode { arrows: g[s].arrows.push(a), end: g[s].end })
}

/// The automaton with arrows added from `start` to `end` that accept what `t` matches,
/// building states as they are needed.
pub open spec fn link(g: Seq<SpecNode>, t: SpecToken, start: int, end: int) -> Seq<SpecNode>
    decreases t, 0int,
{
    match t {
        SpecToken::Special(b) => with_arrow(g, start, SpecArrow::Guard(b, end)),
        SpecToken::Matcher(c) => with_arrow(g, start, SpecArrow::Match(c, end)),
        SpecToken::Branch(ts) => link_branch(g, ts, 0, start, end),
        SpecToken::Alternative(ts) => link_alternatives(g, ts, 0, start, end),
        SpecToken::Repeat(bt, m, None) => if m == 0 {
            // a*
            star(g, *bt, start, end)
        } else {
            // a+, a{m,}: m copies, then a loop of its own
            let mid = g.len() as int;
            star(repeated(with_state(g), *bt, m as int, start, mid), *bt, mid, end)
        },
        SpecToken::Repeat(bt, m, Some(n)) => if m == n {
            // a{m}
            repeated(g, *bt, m as int, start, end)
        } else if m > 0 {
            // a{m,n}
            let this = g.len() as int;
            range_loop(repeated(with_state(g), *bt, m as int, start, this), *bt, m as int, n as int, this, end)
        } else {
            // a{0,n}
            range_loop(g, *bt, m as int, n as int, start, end)
        },
    }
}

/// Any number of copies of `t` from `start` to `end`: the loop stands on a state of its
/// own, entered from `start` and left for `end` by arrows that read nothing, so that no
/// other path through `start` or `end` can take it.
pub open spec fn star(g: Seq<SpecNode>, t: SpecToken, start: int, end: int) -> Seq<SpecNode>
    decreases t, 1int,
{
    let lp = g.len() as int;
    let g1 = with_arrow(with_state(g), start, SpecArrow::Epsilon(lp));
    with_arrow(link(g1, t, lp, lp), lp, SpecArrow::Epsilon(end))
}

/// The tokens `ts[i..]` of a branch linked one after the other from `this` to `end`;
/// an empty branch is an arrow that reads nothing.
pub open spec fn link_branch(
    g: Seq<SpecNode>,
    ts: Seq<SpecToken>,
    i: int,
    this: int,
    end: int,
) -> Seq<SpecNode>
    decreases ts, ts.len() - i,
{
    if 0 <= i && i + 1 < ts.len() {
        let next = g.len() as int;
        link_branch(link(with_state(g), ts[i], this, next), ts, i + 1, next, end)
    } else if 0 <= i && i + 1 == ts.len() {
        link(g, ts[i], this, end)
    } else {
        with_arrow(g, this, SpecArrow::Epsilon(end))
    }
}

/// The alternatives `ts[i..]`, each linked from `start` to a state of its own with an
/// arrow that reads nothing to `end`.
pub open spec fn link_alternatives(
    g: Seq<SpecNode>,
    ts: Seq<SpecToken>,
    i: int,
    start: int,
    end: int,
) -> Seq<SpecNode>
    decreases ts, ts.len() - i,
{
    if 0 <= i < ts.len() {
        let state = g.len() as int;
        let g2 = link(with_state(g), ts[i], start, state);
        link_alternatives(with_arrow(g2, state, SpecArrow::Epsilon(end)), ts, i + 1, start, end)
    } else {
        g
    }
}

/// `t` repeated `n` times: the branch of `n` copies of `t`.
pub open spec fn repeated(g: Seq<SpecNode>, t: SpecToken, n: int, start: int, end: int) -> Seq<
    SpecNode,
>
    decreases t, n,
{
    if n <= 0 {
        with_arrow(g, start, SpecArrow::Epsilon(end))
    } else if n == 1 {
        link(g, t, start, end)
    } else {
        let next = g.len() as int;
        repeated(link(with_state(g), t, start, next), t, n - 1, next, end)
    }
}

/// The optional copies of `t` of a bounded repetition, from the `k`-th on; each may be
/// skipped with an arrow that reads nothing to `end`.
pub open spec fn range_loop(g: Seq<SpecNode>, t: SpecToken, k: int, n: int, this: int, end: int) -> Seq<
    SpecNode,
>
    decreases t, if k < n {
        n - k
    } else {
        1
    },
{
    if k + 1 < n {
        let next = g.len() as int;
        let g2 = link(with_state(g), t, this, next);
        range_loop(with_arrow(g2, this, SpecArrow::Epsilon(end)), t, k + 1, n, next, end)
    } else {
        with_arrow(link(g, t, this, end), this, SpecArrow::Epsilon(end))
    }
}

/// The automaton of a token: state 0 is the start, state 1 the final state.
pub open spec fn spec_compile(t: SpecToken) -> Seq<SpecNode> {
    link(seq![plain_node(), SpecNode { arrows: Seq::empty(), end: true }], t, 0, 1)
}


// ---------------------------------------------------------------------------
// the executable compiler

proof fn lemma_graph_view_push(g: Seq<Node>, n: Node)
    ensures
        graph_view(g.push(n)) == graph_view(g).push(node_view(n)),
{
    assert(graph_view(g.push(n)) =~= graph_view(g).push(node_view(n)));
}

/// Adds a state that is not final and has no arrows; returns its number.
fn new_state(g: &mut Vec<Node>) -> (s: usize)
    requires
        graph_wf(graph_view(old(g)@)),
    ensures
        graph_view(final(g)@) == with_state(graph_view(old(g)@)),
        s == old(g)@.len(),
        final(g)@.len() == old(g)@.len() + 1,
        graph_wf(graph_view(final(g)@)),
        arrows_printable(graph_view(old(g)@)) ==> arrows_printable(graph_view(final(g)@)),
{
    let s = g.len();
    let n = Node { arrows: Vec::new(), end: false };
    proof {
        lemma_graph_view_push(g@, n);
        assert(node_view(n).arrows =~= Seq::<SpecArrow>::empty());
    }
    g.push(n);
    proof {
        let gv = graph_view(g@);
        assert forall|i: int, k: int|
            0 <= i < gv.len() && 0 <= k < gv[i].arrows.len() implies 0
            <= #[trigger] gv[i].arrows[k].target() < gv.len() by {
            if i < s {
                assert(gv[i] == graph_view(old(g)@)[i]);
            }
        }
        if arrows_printable(graph_view(old(g)@)) {
            assert forall|i: int, k: int|
                0 <= i < gv.len() && 0 <= k < gv[i].arrows.len() implies arrow_printable(
                #[trigger] gv[i].arrows[k],
            ) by {
                assert(i < s);
                assert(gv[i] == graph_view(old(g)@)[i]);
            }
        }
    }
    s
}

/// Adds the arrow `a` last to the arrows of state `s`.
fn add_arrow(g: &mut Vec<Node>, s: usize, a: Arrow)
    requires
        s < old(g)@.len(),
        0 <= arrow_view(a).target() < old(g)@.len(),
        graph_wf(graph_view(old(g)@)),
    ensures
        graph_view(final(g)@) == with_arrow(graph_view(old(g)@), s as int, arrow_view(a)),
        final(g)@.len() == old(g)@.len(),
        graph_wf(graph_view(final(g)@)),
        arrows_printable(graph_view(old(g)@)) && arrow_printable(arrow_view(a)) ==> arrows_printable(
            graph_view(final(g)@),
        ),
{
    let ghost gv0 = graph_view(g@);
    let ghost av = arrow_view(a);
    let mut node = Node { arrows: Vec::new(), end: false };
    std::mem::swap(&mut g[s], &mut node);
    let ghost n0 = node;
    node.arrows.push(a);
    proof {
        assert(node_view(node).arrows =~= node_view(n0).arrows.push(av));
    }
    g.set(s, node);
    proof {
        let gv = graph_view(g@);
        assert(gv =~= with_arrow(gv0, s as int, av));
        assert forall|i: int, k: int|
            0 <= i < gv.len() && 0 <= k < gv[i].arrows.len() implies 0
            <= #[trigger] gv[i].arrows[k].target() < gv.len() by {
            if i == s && k == gv[i].arrows.len() - 1 {
            } else if i == s {
                assert(gv[i].arrows[k] == gv0[i].arrows[k]);
            } else {
                assert(gv[i] == gv0[i]);
            }
        }
        if arrows_printable(gv0) && arrow_printable(av) {
            assert forall|i: int, k: int|
                0 <= i < gv.len() && 0 <= k < gv[i].arrows.len() implies arrow_printable(
                #[trigger] gv[i].arrows[k],
            ) by {
                if i == s && k == gv[i].arrows.len() - 1 {
                } else if i == s {
                    assert(gv[i].arrows[k] == gv0[i].arrows[k]);
                } else {
                    assert(gv[i] == gv0[i]);
                }
            }
        }
    }
}


/// Links `token` from `start` to `end`.
fn make_link(g: &mut Vec<Node>, token: &Token, start: usize, end: usize)
    requires
        start < old(g)@.len(),
        end < old(g)@.len(),
        graph_wf(graph_view(old(g)@)),
    ensures
        graph_view(final(g)@) == link(graph_view(old(g)@), token@, start as int, end as int),
        old(g)@.len() <= final(g)@.len(),
        graph_wf(graph_view(final(g)@)),
        arrows_printable(graph_view(old(g)@)) && token_printable(token@) ==> arrows_printable(
            graph_view(final(g)@),
        ),
    decreases token, 0int,
{
    proof {
        lemma_token_view(*token);
    }
    match token {
        Token::Special(b) => {
            add_arrow(g, start, Arrow::Guard(*b, end));
        },
        Token::Matcher(c) => {
            add_arrow(g, start, Arrow::Match(c.clone(), end));
        },
        Token::Branch(ts) => {
            assert(decreases_to!(*token => (*token)->Branch_0));
            link_branch_exec(g, ts, start, end);
        },
        Token::Alternative(ts) => {
            assert(decreases_to!(*token => (*token)->Alternative_0));
            link_alternatives_exec(g, ts, start, end);
        },
        Token::Repeat(bt, m, None) => {
            assert(decreases_to!(*token => *(*token)->Repeat_0));
            if *m == 0 {
                star_exec(g, &**bt, start, end);
            } else {
                let mid = new_state(g);
                repeated_exec(g, &**bt, *m, start, mid);
                star_exec(g, &**bt, mid, end);
            }
        },
        Token::Repeat(bt, m, Some(n)) => {
            assert(decreases_to!(*token => *(*token)->Repeat_0));
            if *m == *n {
                repeated_exec(g, &**bt, *m, start, end);
            } else if *m > 0 {
                let this = new_state(g);
                repeated_exec(g, &**bt, *m, start, this);
                range_exec(g, &**bt, *m, *n, this, end);
            } else {
                range_exec(g, &**bt, *m, *n, start, end);
            }
        },
    }
}

/// Links any number of copies of `t` from `start` to `end` through a loop on a new state.
fn star_exec(g: &mut Vec<Node>, t: &Token, start: usize, end: usize)
    requires
        start < old(g)@.len(),
        end < old(g)@.len(),
        graph_wf(graph_view(old(g)@)),
    ensures
        graph_view(final(g)@) == star(graph_view(old(g)@), t@, start as int, end as int),
        old(g)@.len() <= final(g)@.len(),
        graph_wf(graph_view(final(g)@)),
        arrows_printable(graph_view(old(g)@)) && token_printable(t@) ==> arrows_printable(
            graph_view(final(g)@),
        ),
    decreases t, 1int,
{
    let lp = new_state(g);
    add_arrow(g, start, Arrow::Epsilon(lp));
    make_link(g, t, lp, lp);
    add_arrow(g, lp, Arrow::Epsilon(end));
}

/// Links the tokens of a branch one after the other from `start` to `end`.
fn link_branch_exec(g: &mut Vec<Node>, ts: &Vec<Token>, start: usize, end: usize)
    requires
        start < old(g)@.len(),
        end < old(g)@.len(),
        graph_wf(graph_view(old(g)@)),
    ensures
        graph_view(final(g)@) == link_branch(
            graph_view(old(g)@),
            tokens_view(ts@),
            0,
            start as int,
            end as int,
        ),
        old(g)@.len() <= final(g)@.len(),
        graph_wf(graph_view(final(g)@)),
        arrows_printable(graph_view(old(g)@)) && tokens_printable(tokens_view(ts@))
            ==> arrows_printable(graph_view(final(g)@)),
    decreases ts, 0int,
{
    let ghost tv = tokens_view(ts@);
    if ts.len() == 0 {
        proof {
            lemma_tokens_view_push(ts@, Token::Special(Boundary::Start));
        }
        add_arrow(g, start, Arrow::Epsilon(end));
        return;
    }
    let mut this = start;
    let mut i: usize = 0;
    while i + 1 < ts.len()
        invariant
            this < g@.len(),
            end < g@.len(),
            old(g)@.len() <= g@.len(),
            graph_wf(graph_view(g@)),
            arrows_printable(graph_view(old(g)@)) && tokens_printable(tv) ==> arrows_printable(
                graph_view(g@),
            ),
            i + 1 <= ts.len(),
            tv == tokens_view(ts@),
            link_branch(graph_view(old(g)@), tv, 0, start as int, end as int) == link_branch(
                graph_view(g@),
                tv,
                i as int,
                this as int,
                end as int,
            ),
        decreases ts.len() - i,
    {
        proof {
            lemma_tokens_view_index(ts@, i as int);
            if tokens_printable(tv) {
                lemma_tokens_printable_index(tv, i as int);
            }
        }
        let next = new_state(g);
        make_link(g, &ts[i], this, next);
        this = next;
        i = i + 1;
    }
    proof {
        lemma_tokens_view_index(ts@, i as int);
        if tokens_printable(tv) {
            lemma_tokens_printable_index(tv, i as int);
        }
    }
    make_link(g, &ts[i], this, end);
}

/// Links each alternative from `start` to a state of its own, with an arrow that reads
/// nothing from there to `end`.
fn link_alternatives_exec(g: &mut Vec<Node>, ts: &Vec<Token>, start: usize, end: usize)
    requires
        start < old(g)@.len(),
        end < old(g)@.len(),
        graph_wf(graph_view(old(g)@)),
    ensures
        graph_view(final(g)@) == link_alternatives(
            graph_view(old(g)@),
            tokens_view(ts@),
            0,
            start as int,
            end as int,
        ),
        old(g)@.len() <= final(g)@.len(),
        graph_wf(graph_view(final(g)@)),
        arrows_printable(graph_view(old(g)@)) && tokens_printable(tokens_view(ts@))
            ==> arrows_printable(graph_view(final(g)@)),
    decreases ts, 0int,
{
    let ghost tv = tokens_view(ts@);
    let mut i: usize = 0;
    proof {
        lemma_tokens_view_push(ts@, Token::Special(Boundary::Start));
    }
    while i < ts.len()
        invariant
            start < g@.len(),
            end < g@.len(),
            old(g)@.len() <= g@.len(),
            graph_wf(graph_view(g@)),
            arrows_printable(graph_view(old(g)@)) && tokens_printable(tv) ==> arrows_printable(
                graph_view(g@),
            ),
            i <= ts.len(),
            tv == tokens_view(ts@),
            tv.len() == ts@.len(),
            link_alternatives(graph_view(old(g)@), tv, 0, start as int, end as int)
                == link_alternatives(graph_view(g@), tv, i as int, start as int, end as int),
        decreases ts.len() - i,
    {
        proof {
            lemma_tokens_view_index(ts@, i as int);
            if tokens_printable(tv) {
                lemma_tokens_printable_index(tv, i as int);
            }
        }
        let state = new_state(g);
        make_link(g, &ts[i], start, state);
        add_arrow(g, state, Arrow::Epsilon(end));
        i = i + 1;
    }
}

/// Links `n` copies of `t` one after the other from `start` to `end`.
fn repeated_exec(g: &mut Vec<Node>, t: &Token, n: usize, start: usize, end: usize)
    requires
        start < old(g)@.len(),
        end < old(g)@.len(),
        graph_wf(graph_view(old(g)@)),
    ensures
        graph_view(final(g)@) == repeated(graph_view(old(g)@), t@, n as int, start as int, end as int),
        old(g)@.len() <= final(g)@.len(),
        graph_wf(graph_view(final(g)@)),
        arrows_printable(graph_view(old(g)@)) && token_printable(t@) ==> arrows_printable(
            graph_view(final(g)@),
        ),
    decreases t, 1int,
{
    if n == 0 {
        add_arrow(g, start, Arrow::Epsilon(end));
        return;
    }
    let mut this = start;
    let mut k = n;
    while k > 1
        invariant
            this < g@.len(),
            end < g@.len(),
            old(g)@.len() <= g@.len(),
            graph_wf(graph_view(g@)),
            arrows_printable(graph_view(old(g)@)) && token_printable(t@) ==> arrows_printable(
                graph_view(g@),
            ),
            1 <= k <= n,
            repeated(graph_view(old(g)@), t@, n as int, start as int, end as int) == repeated(
                graph_view(g@),
                t@,
                k as int,
                this as int,
                end as int,
            ),
        decreases k,
    {
        let next = new_state(g);
        make_link(g, t, this, next);
        this = next;
        k = k - 1;
    }
    make_link(g, t, this, end);
}

/// Links the optional copies of `t` of a bounded repetition, from the `k`-th on.
fn range_exec(g: &mut Vec<Node>, t: &Token, k: usize, n: usize, this: usize, end: usize)
    requires
        this < old(g)@.len(),
        end < old(g)@.len(),
        graph_wf(graph_view(old(g)@)),
    ensures
        graph_view(final(g)@) == range_loop(
            graph_view(old(g)@),
            t@,
            k as int,
            n as int,
            this as int,
            end as int,
        ),
        old(g)@.len() <= final(g)@.len(),
        graph_wf(graph_view(final(g)@)),
        arrows_printable(graph_view(old(g)@)) && token_printable(t@) ==> arrows_printable(
            graph_view(final(g)@),
        ),
    decreases t, 1int,
{
    let ghost k0 = k as int;
    let ghost this0 = this as int;
    let mut this = this;
    let mut k = k;
    while n > 0 && k < n - 1
        invariant
            this < g@.len(),
            end < g@.len(),
            old(g)@.len() <= g@.len(),
            graph_wf(graph_view(g@)),
            arrows_printable(graph_view(old(g)@)) && token_printable(t@) ==> arrows_printable(
                graph_view(g@),
            ),
            range_loop(graph_view(old(g)@), t@, k0, n as int, this0, end as int)
                == range_loop(graph_view(g@), t@, k as int, n as int, this as int, end as int),
        decreases n - k,
    {
        let next = new_state(g);
        make_link(g, t, this, next);
        add_arrow(g, this, Arrow::Epsilon(end));
        this = next;
        k = k + 1;
    }
    make_link(g, t, this, end);
    add_arrow(g, this, Arrow::Epsilon(end));
}


/// The automaton of a parsed token: state 0 is the start, state 1 the final state.
pub fn compile(token: &Token) -> (g: Vec<Node>)
    ensures
        graph_view(g@) == spec_compile(token@),
        graph_wf(graph_view(g@)),
        g@.len() >= 2,
        token_printable(token@) ==> arrows_printable(graph_view(g@)),
{
    let mut g: Vec<Node> = Vec::new();
    let n0 = Node { arrows: Vec::new(), end: false };
    let n1 = Node { arrows: Vec::new(), end: true };
    proof {
        lemma_graph_view_push(g@, n0);
        lemma_graph_view_push(g@.push(n0), n1);
        assert(node_view(n0).arrows =~= Seq::<SpecArrow>::empty());
        assert(node_view(n1).arrows =~= Seq::<SpecArrow>::empty());
    }
    g.push(n0);
    g.push(n1);
    assert(graph_view(g@) =~= seq![plain_node(), SpecNode { arrows: Seq::empty(), end: true }]);
    make_link(&mut g, token, 0, 1);
    g
}

/// The characters that are parsed for `regex`: lower-cased when the case is ignored.
pub open spec fn pattern(regex: Seq<char>, ignore_case: bool) -> Seq<char> {
    if ignore_case {
        spec_regex_to_lower(regex)
    } else {
        regex
    }
}

/// What [`Regex::new`] gives for `regex`, or `None` where the parser has no answer.
pub open spec fn spec_new(regex: Seq<char>, ignore_case: bool) -> Option<
    Result<(Seq<SpecNode>, usize, bool), crate::parser::SpecParsingError>,
> {
    match spec_parse(pattern(regex, ignore_case)) {
        SpecResult::Value(t) => Some(Ok((spec_compile(t), 0usize, ignore_case))),
        SpecResult::Failure(e) => Some(Err(e)),
        SpecResult::Abort => None,
    }
}

/// Whether `r` is what [`Regex::new`] promises for `regex`.
pub open spec fn new_result(
    regex: Seq<char>,
    ignore_case: bool,
    r: Result<Regex, ParsingError>,
) -> bool {
    match r {
        Ok(rx) => rx.wf() && spec_new(regex, ignore_case) == Some(
            Ok::<_, crate::parser::SpecParsingError>((rx.automaton(), rx.start, rx.ignore_case)),
        ),
        Err(e) => spec_new(regex, ignore_case) == Some(
            Err::<(Seq<SpecNode>, usize, bool), _>(e@),
        ),
    }
}

impl Regex {
    /// Parses `regex` and compiles it; with `ignore_case`, the expression and later
    /// the input are lower-cased.
    pub fn new(regex: &str, ignore_case: bool) -> (r: Result<Regex, ParsingError>)
        requires
            spec_new(regex@, ignore_case) is Some,
        ensures
            new_result(regex@, ignore_case, r),
            r matches Ok(rx) ==> arrows_printable(rx.automaton()),
    {
        match Regex::checked_new(regex, ignore_case) {
            Some(r) => r,
            None => Err(ParsingError::EndOfInput),
        }
    }

    /// As [`Regex::new`], with `None` for the expressions the parser has no answer for: a range
    /// in brackets that starts with a class or a range, or a count that does not fit
    /// in 32 bits.
    pub fn checked_new(regex: &str, ignore_case: bool) -> (r: Option<Result<Regex, ParsingError>>)
        ensures
            r is None <==> spec_new(regex@, ignore_case) is None,
            r matches Some(res) ==> new_result(regex@, ignore_case, res),
            r matches Some(Ok(rx)) ==> arrows_printable(rx.automaton()),
    {
        let chars = str_chars(regex);
        let chars = if ignore_case {
            regex_to_lower(&chars)
        } else {
            chars
        };
        match parse_chars(chars) {
            Ok(token) => {
                proof {
                    crate::parser::lemma_parse_printable(chars@);
                }
                let nodes = compile(&token);
                Some(Ok(Regex { nodes, start: 0, ignore_case }))
            },
            Err(Fault::Error(e)) => Some(Err(e)),
            Err(Fault::Abort) => None,
        }
    }
}

} // verus!
