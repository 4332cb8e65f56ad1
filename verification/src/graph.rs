use crate::parser::{SpecResult, SpecToken, spec_parse, string_from_chars};
use crate::text::{
    arrow_printable, arrows_printable, boundary_chars, boundary_text, class_text, decimal,
    decimal_chars, lemma_boundary_text_parses, printable,
};
use crate::types::{Arrow, Boundary, Node, Regex, arrow_view, graph_view, node_view};
use crate::utils::{Queue, lemma_bounded_set, str_chars};
use vstd::prelude::*;

verus! {

broadcast use {vstd::std_specs::vec::group_vec_axioms, vstd::std_specs::hash::group_hash_axioms};

// ---------------------------------------------------------------------------
// the order in which a depth-first search meets the states

/// The state an arrow points to.
pub open spec fn arrow_target(a: Arrow) -> usize {
    match a {
        Arrow::Epsilon(t) => t,
        Arrow::Match(_, t) => t,
        Arrow::Guard(_, t) => t,
    }
}

/// The states the arrows of a node point to, in the order of the arrows.
pub open spec fn node_targets(n: Node) -> Seq<usize> {
    n.arrows@.map_values(|a: Arrow| arrow_target(a))
}

/// Takes the states of `targets` in turn: each one not seen before is marked seen,
/// pushed on the stack and appended to the order.
pub open spec fn push_targets(
    seen: Set<usize>,
    stack: Seq<usize>,
    order: Seq<usize>,
    targets: Seq<usize>,
) -> (Set<usize>, Seq<usize>, Seq<usize>)
    decreases targets.len(),
{
    if targets.len() == 0 {
        (seen, stack, order)
    } else if seen.contains(targets[0]) {
        push_targets(seen, stack, order, targets.skip(1))
    } else {
        push_targets(
            seen.insert(targets[0]),
            stack.push(targets[0]),
            order.push(targets[0]),
            targets.skip(1),
        )
    }
}

/// The search for at most `fuel` more steps; each step takes the state pushed last
/// and pushes the states its arrows point to.
pub open spec fn search(
    g: Seq<Node>,
    seen: Set<usize>,
    stack: Seq<usize>,
    order: Seq<usize>,
    fuel: nat,
) -> Seq<usize>
    decreases fuel,
{
    if stack.len() == 0 || fuel == 0 {
        order
    } else {
        let u = stack.last();
        let targets = if u < g.len() {
            node_targets(g[u as int])
        } else {
            Seq::empty()
        };
        let r = push_targets(seen, stack.drop_last(), order, targets);
        search(g, r.0, r.1, r.2, (fuel - 1) as nat)
    }
}

/// The states reached from `start`, in the order a depth-first search that follows
/// the arrows last first meets them. Each state is taken once, so `g.len() + 1`
/// steps are more than the search needs.
pub open spec fn discovery(g: Seq<Node>, start: usize) -> Seq<usize> {
    search(g, set![start], seq![start], seq![start], (g.len() + 1) as nat)
}

impl Regex {
    /// The states reached from the start, in the order a depth-first search meets
    /// them: the start first, each state once, and every state an arrow of one of them
    /// points to among them.
    pub fn nodes(&self) -> (r: Vec<usize>)
        requires
            self.wf(),
        ensures
            r@ == discovery(self.nodes@, self.start),
            r@.len() >= 1,
            r@[0] == self.start,
            r@.no_duplicates(),
            forall|k: int| 0 <= k < r@.len() ==> #[trigger] r@[k] < self.nodes@.len(),
            forall|k: int, j: int|
                0 <= k < r@.len() && 0 <= j < node_targets(self.nodes@[r@[k] as int]).len()
                    ==> r@.contains(#[trigger] node_targets(self.nodes@[r@[k] as int])[j]),
    {
        let ghost g = self.nodes@;
        let ghost big_n = g.len();
        let ghost target = discovery(g, self.start);
        let mut queue = Queue::new();
        let mut order: Vec<usize> = Vec::new();
        order.push(self.start);
        queue.push(self.start);
        let ghost mut fuel: nat = (big_n + 1) as nat;
        let ghost mut pops: nat = 0;
        let ghost mut done: Set<usize> = Set::empty();
        proof {
            assert(queue.seen@ =~= set![self.start]);
            assert(queue.queue@ =~= seq![self.start]);
            assert(order@ =~= seq![self.start]);
        }
        loop
            invariant
                self.wf(),
                g == self.nodes@,
                big_n == g.len(),
                big_n == self.nodes.len(),
                target == discovery(g, self.start),
                search(g, queue.seen@, queue.queue@, order@, fuel) == target,
                fuel == big_n + 1 - pops,
                pops + queue.queue@.len() == order@.len(),
                order@.len() >= 1,
                order@[0] == self.start,
                order@.no_duplicates(),
                forall|k: int| 0 <= k < order@.len() ==> #[trigger] order@[k] < big_n,
                forall|x: usize| #[trigger] queue.seen@.contains(x) <==> order@.contains(x),
                forall|k: int| 0 <= k < queue.queue@.len() ==> queue.seen@.contains(#[trigger] queue.queue@[k]),
                forall|x: usize| #[trigger] queue.seen@.contains(x) ==> done.contains(x) || queue.queue@.contains(x),
                forall|x: usize, j: int|
                    #[trigger] done.contains(x) && 0 <= j < node_targets(g[x as int]).len()
                        ==> queue.seen@.contains(#[trigger] node_targets(g[x as int])[j]),
                forall|x: usize| #[trigger] done.contains(x) ==> x < big_n,
            ensures
                order@ == target,
                queue.queue@.len() == 0,
                order@.len() >= 1,
                order@[0] == self.start,
                order@.no_duplicates(),
                forall|k: int| 0 <= k < order@.len() ==> #[trigger] order@[k] < big_n,
                forall|x: usize| #[trigger] queue.seen@.contains(x) <==> order@.contains(x),
                forall|x: usize| #[trigger] queue.seen@.contains(x) ==> done.contains(x),
                forall|x: usize, j: int|
                    #[trigger] done.contains(x) && 0 <= j < node_targets(g[x as int]).len()
                        ==> queue.seen@.contains(#[trigger] node_targets(g[x as int])[j]),
            decreases big_n + 1 - pops,
        {
            proof {
                order@.unique_seq_to_set();
                lemma_bounded_set(order@.to_set(), big_n);
                assert(order@.len() <= big_n);
            }
            let ghost qa = queue.queue@;
            let u = match queue.pop() {
                Some(u) => u,
                None => {
                    assert forall|x: usize| #[trigger] queue.seen@.contains(x) implies done.contains(x) by {
                        if !done.contains(x) {
                            let k = choose|k: int| 0 <= k < qa.len() && qa[k] == x;
                        }
                    }
                    break;
                },
            };
            assert(qa[qa.len() - 1] == u);
            assert(order@.contains(u));
            let node = &self.nodes[u];
            let ghost targets = node_targets(*node);
            let ghost s0 = queue.seen@;
            let ghost st0 = queue.queue@;
            let ghost o0 = order@;
            let mut k: usize = 0;
            assert(targets.skip(0) =~= targets);
            while k < node.arrows.len()
                invariant
                    self.wf(),
                    g == self.nodes@,
                    big_n == g.len(),
                    big_n == self.nodes.len(),
                    u < big_n,
                    *node == g[u as int],
                    targets == node_targets(*node),
                    k <= node.arrows@.len(),
                    push_targets(s0, st0, o0, targets) == push_targets(
                        queue.seen@,
                        queue.queue@,
                        order@,
                        targets.skip(k as int),
                    ),
                    queue.queue@.len() + o0.len() == st0.len() + order@.len(),
                    order@.len() >= 1,
                    order@[0] == self.start,
                    order@.no_duplicates(),
                    forall|m: int| 0 <= m < order@.len() ==> #[trigger] order@[m] < big_n,
                    forall|x: usize| #[trigger] queue.seen@.contains(x) <==> order@.contains(x),
                    forall|m: int| 0 <= m < queue.queue@.len() ==> queue.seen@.contains(#[trigger] queue.queue@[m]),
                    forall|x: usize| #[trigger] s0.contains(x) ==> queue.seen@.contains(x),
                    forall|x: usize| st0.contains(x) ==> #[trigger] queue.queue@.contains(x),
                    forall|x: usize|
                        #[trigger] queue.seen@.contains(x) ==> s0.contains(x) || queue.queue@.contains(x),
                    forall|j: int| 0 <= j < k ==> queue.seen@.contains(#[trigger] targets[j]),
                decreases node.arrows@.len() - k,
            {
                let t = match &node.arrows[k] {
                    Arrow::Epsilon(t) => *t,
                    Arrow::Match(_, t) => *t,
                    Arrow::Guard(_, t) => *t,
                };
                assert(t == targets[k as int]);
                assert(graph_view(g)[u as int] == node_view(*node));
                assert(node_view(*node).arrows[k as int].target() == t);
                assert(t < big_n);
                let ghost seen_before = queue.seen@;
                let ghost stack_before = queue.queue@;
                let ghost order_before = order@;
                assert(targets.skip(k as int).skip(1) =~= targets.skip(k + 1));
                assert(targets.skip(k as int)[0] == t);
                assert(targets.skip(k as int).len() > 0);
                assert(push_targets(seen_before, stack_before, order_before, targets.skip(k as int)) == (
                if seen_before.contains(t) {
                    push_targets(seen_before, stack_before, order_before, targets.skip(k + 1))
                } else {
                    push_targets(
                        seen_before.insert(t),
                        stack_before.push(t),
                        order_before.push(t),
                        targets.skip(k + 1),
                    )
                }));
                if queue.push(t) {
                    order.push(t);
                    proof {
                        lemma_push_contains_usize(stack_before, t);
                        lemma_push_contains_usize(order_before, t);
                        assert forall|x: usize| #[trigger] queue.seen@.contains(x) <==> order@.contains(x) by {
                            if x != t && order@.contains(x) {
                                let m = choose|m: int| 0 <= m < order@.len() && order@[m] == x;
                                assert(order_before[m] == x);
                            }
                        }
                    }
                } else {
                    assert(queue.seen@ =~= seen_before);
                }
                k = k + 1;
            }
            proof {
                assert(targets.skip(k as int) =~= Seq::<usize>::empty());
                let done2 = done.insert(u);
                assert forall|x: usize, j: int|
                    #[trigger] done2.contains(x) && 0 <= j < node_targets(g[x as int]).len()
                        implies queue.seen@.contains(#[trigger] node_targets(g[x as int])[j]) by {
                    if x != u {
                        assert(s0.contains(node_targets(g[x as int])[j]));
                    } else {
                        assert(node_targets(g[x as int])[j] == targets[j]);
                    }
                }
                assert forall|x: usize| #[trigger] queue.seen@.contains(x) implies done2.contains(x)
                    || queue.queue@.contains(x) by {
                    if s0.contains(x) && !done.contains(x) && x != u {
                        lemma_drop_last_contains_usize(qa, x);
                    }
                }
                done = done2;
                pops = pops + 1;
                fuel = (fuel - 1) as nat;
            }
        }
        assert forall|k: int, j: int|
            0 <= k < order@.len() && 0 <= j < node_targets(self.nodes@[order@[k] as int]).len()
                implies order@.contains(#[trigger] node_targets(self.nodes@[order@[k] as int])[j]) by {
            let x = order@[k];
            assert(order@.contains(x));
            assert(queue.seen@.contains(x));
            assert(done.contains(x));
            assert(queue.seen@.contains(node_targets(g[x as int])[j]));
        }
        order
    }
}

proof fn lemma_push_contains_usize(s: Seq<usize>, v: usize)
    ensures
        s.push(v).contains(v),
        forall|x: usize| s.contains(x) ==> #[trigger] s.push(v).contains(x),
{
    assert(s.push(v)[s.len() as int] == v);
    assert forall|x: usize| s.contains(x) implies #[trigger] s.push(v).contains(x) by {
        let k = choose|k: int| 0 <= k < s.len() && s[k] == x;
        assert(s.push(v)[k] == x);
    }
}

proof fn lemma_drop_last_contains_usize(q: Seq<usize>, x: usize)
    requires
        q.len() > 0,
        q.contains(x),
    ensures
        x == q.last() || q.drop_last().contains(x),
{
    let k = choose|k: int| 0 <= k < q.len() && q[k] == x;
    if k < q.len() - 1 {
        assert(q.drop_last()[k] == x);
    }
}

// ---------------------------------------------------------------------------
// the automaton as a graph in the DOT language

/// The label of an arrow: `ε` for an arrow that reads and checks nothing, else how
/// its class or boundary is written.
pub open spec fn label_text(a: Arrow) -> Seq<char> {
    match a {
        Arrow::Epsilon(_) => seq!['\u{03B5}'],
        Arrow::Match(c, _) => class_text(c@),
        Arrow::Guard(b, _) => boundary_text(b),
    }
}

/// The label of a guard arrow, read back as a pattern, gives the boundary that the arrow
/// checks.
pub proof fn lemma_guard_label_parses(b: Boundary, target: usize)
    ensures
        spec_parse(label_text(Arrow::Guard(b, target))) == SpecResult::Value(SpecToken::Special(b)),
{
    lemma_boundary_text_parses(b);
}

/// The line of an edge from the state numbered `from` to the one numbered `to`.
pub open spec fn edge_line(from: int, to: int, label: Seq<char>) -> Seq<char> {
    "  "@ + decimal(from as nat) + " -> "@ + decimal(to as nat) + " [label = \""@ + label + "\"]"@
}

/// The position of the state `t` in `order`.
pub open spec fn position(order: Seq<usize>, t: usize) -> int {
    choose|k: int| 0 <= k < order.len() && order[k] == t
}

/// The lines of the edges out of the `i`-th state of `order`.
pub open spec fn node_lines(g: Seq<Node>, order: Seq<usize>, i: int) -> Seq<Seq<char>> {
    g[order[i] as int].arrows@.map_values(
        |a: Arrow| edge_line(i, position(order, arrow_target(a)), label_text(a)),
    )
}

/// The lines of the edges out of the first `i` states of `order`.
pub open spec fn lines_upto(g: Seq<Node>, order: Seq<usize>, i: int) -> Seq<Seq<char>>
    decreases i,
{
    if i <= 0 {
        Seq::empty()
    } else {
        lines_upto(g, order, i - 1) + node_lines(g, order, i - 1)
    }
}

/// The lines joined by line feeds.
pub open spec fn joined(lines: Seq<Seq<char>>) -> Seq<char>
    decreases lines.len(),
{
    if lines.len() == 0 {
        Seq::empty()
    } else if lines.len() == 1 {
        lines[0]
    } else {
        joined(lines.drop_last()) + seq!['\n'] + lines.last()
    }
}

/// The text with each backslash doubled.
pub open spec fn escaped(t: Seq<char>) -> Seq<char>
    decreases t.len(),
{
    if t.len() == 0 {
        Seq::empty()
    } else {
        escaped(t.drop_last()) + if t.last() == '\\' {
            seq!['\\', '\\']
        } else {
            seq![t.last()]
        }
    }
}

/// Whether every class on an arrow out of the states of `order` can be written.
pub open spec fn graph_printable(g: Seq<Node>, order: Seq<usize>) -> bool {
    forall|k: int, j: int|
        0 <= k < order.len() && order[k] < g.len() && 0 <= j < g[order[k] as int].arrows@.len() ==> match #[trigger] g[order[k] as int].arrows@[j] {
            Arrow::Match(c, _) => printable(c@),
            _ => true,
        }
}

/// The automaton of `rx` in the DOT language: the states numbered in the order of
/// [`discovery`], one edge per arrow, with every backslash doubled.
pub open spec fn graph_text(rx: Regex) -> Seq<char> {
    let order = discovery(rx.nodes@, rx.start);
    escaped(
        "digraph G {\n  rankdir=LR;\n"@ + joined(lines_upto(rx.nodes@, order, order.len() as int))
            + "\n}"@,
    )
}

/// The label of an arrow.
fn label_chars(a: &Arrow) -> (r: Vec<char>)
    requires
        a matches Arrow::Match(c, _) ==> printable(c@),
    ensures
        r@ == label_text(*a),
{
    match a {
        Arrow::Epsilon(_) => {
            let mut r: Vec<char> = Vec::new();
            r.push('\u{03B5}');
            assert(r@ =~= seq!['\u{03B5}']);
            r
        },
        Arrow::Match(c, _) => c.text(),
        Arrow::Guard(b, _) => boundary_chars(*b),
    }
}

/// The line of an edge.
fn edge_chars(from: usize, to: usize, label: Vec<char>) -> (r: Vec<char>)
    ensures
        r@ == edge_line(from as int, to as int, label@),
{
    let mut label = label;
    let mut r = str_chars("  ");
    let mut a = decimal_chars(from);
    r.append(&mut a);
    let mut b = str_chars(" -> ");
    r.append(&mut b);
    let mut c = decimal_chars(to);
    r.append(&mut c);
    let mut d = str_chars(" [label = \"");
    r.append(&mut d);
    r.append(&mut label);
    let mut e = str_chars("\"]");
    r.append(&mut e);
    r
}

proof fn lemma_joined_push(lines: Seq<Seq<char>>, x: Seq<char>)
    ensures
        joined(lines.push(x)) == if lines.len() == 0 {
            x
        } else {
            joined(lines) + seq!['\n'] + x
        },
{
    assert(lines.push(x).drop_last() =~= lines);
}

proof fn lemma_escaped_push(t: Seq<char>, c: char)
    ensures
        escaped(t.push(c)) == escaped(t) + if c == '\\' {
            seq!['\\', '\\']
        } else {
            seq![c]
        },
{
    assert(t.push(c).drop_last() =~= t);
}

impl Regex {
    /// Whether every class on an arrow out of a state reached from the start can be
    /// written, as [`Regex::graph`] needs.
    pub fn graph_printable(&self) -> (r: bool)
        requires
            self.wf(),
        ensures
            r == graph_printable(self.nodes@, discovery(self.nodes@, self.start)),
    {
        let order = self.nodes();
        let ghost g = self.nodes@;
        let mut i: usize = 0;
        while i < order.len()
            invariant
                self.wf(),
                g == self.nodes@,
                order@ == discovery(g, self.start),
                forall|k: int| 0 <= k < order@.len() ==> #[trigger] order@[k] < g.len(),
                i <= order@.len(),
                forall|k: int, j: int|
                    0 <= k < i && order@[k] < g.len() && 0 <= j < g[order@[k] as int].arrows@.len() ==> match #[trigger] g[order@[k] as int].arrows@[j] {
                        Arrow::Match(c, _) => printable(c@),
                        _ => true,
                    },
            decreases order@.len() - i,
        {
            let node = &self.nodes[order[i]];
            let mut j: usize = 0;
            while j < node.arrows.len()
                invariant
                    *node == g[order@[i as int] as int],
                    g == self.nodes@,
                    order@ == discovery(g, self.start),
                    i < order@.len(),
                    order@[i as int] < g.len(),
                    j <= node.arrows@.len(),
                    forall|m: int|
                        0 <= m < j ==> match #[trigger] node.arrows@[m] {
                            Arrow::Match(c, _) => printable(c@),
                            _ => true,
                        },
                decreases node.arrows@.len() - j,
            {
                match &node.arrows[j] {
                    Arrow::Match(c, _) => {
                        if !c.is_printable() {
                            assert(!match g[order@[i as int] as int].arrows@[j as int] {
                                Arrow::Match(c, _) => printable(c@),
                                _ => true,
                            });
                            return false;
                        }
                    },
                    _ => {},
                }
                j = j + 1;
            }
            i = i + 1;
        }
        true
    }

    /// The automaton in the DOT language: a `digraph` with the states numbered in the
    /// order [`Regex::nodes`] gives, one edge per arrow labelled with `ε` or with how
    /// its class or boundary is written, and every backslash doubled.
    pub fn graph(&self) -> (r: String)
        requires
            self.wf(),
            graph_printable(self.nodes@, discovery(self.nodes@, self.start)),
        ensures
            r@ == graph_text(*self),
    {
        let ghost g = self.nodes@;
        let order = self.nodes();
        let ghost ov = order@;
        // where each state stands in the order
        let mut pos: Vec<usize> = Vec::new();
        let mut k: usize = 0;
        while k < self.nodes.len()
            invariant
                k <= self.nodes@.len(),
                pos@.len() == k,
            decreases self.nodes@.len() - k,
        {
            pos.push(0);
            k = k + 1;
        }
        let mut k: usize = 0;
        while k < order.len()
            invariant
                order@ == ov,
                ov.no_duplicates(),
                forall|m: int| 0 <= m < ov.len() ==> #[trigger] ov[m] < g.len(),
                g == self.nodes@,
                pos@.len() == g.len(),
                k <= ov.len(),
                forall|m: int| 0 <= m < k ==> pos@[#[trigger] ov[m] as int] == m,
            decreases ov.len() - k,
        {
            pos.set(order[k], k);
            k = k + 1;
        }
        let mut text = str_chars("digraph G {\n  rankdir=LR;\n");
        let ghost header = text@;
        let ghost mut lines: Seq<Seq<char>> = Seq::empty();
        let mut written = false;
        let mut i: usize = 0;
        while i < order.len()
            invariant
                self.wf(),
                g == self.nodes@,
                order@ == ov,
                ov == discovery(g, self.start),
                ov.no_duplicates(),
                forall|m: int| 0 <= m < ov.len() ==> #[trigger] ov[m] < g.len(),
                forall|m: int, j: int|
                    0 <= m < ov.len() && 0 <= j < node_targets(g[ov[m] as int]).len() ==> ov.contains(
                        #[trigger] node_targets(g[ov[m] as int])[j],
                    ),
                graph_printable(g, ov),
                pos@.len() == g.len(),
                forall|m: int| 0 <= m < ov.len() ==> pos@[#[trigger] ov[m] as int] == m,
                i <= ov.len(),
                lines == lines_upto(g, ov, i as int),
                text@ == header + joined(lines),
                written == (lines.len() > 0),
            decreases ov.len() - i,
        {
            let node = &self.nodes[order[i]];
            let ghost l0 = lines;
            let mut j: usize = 0;
            assert(node_lines(g, ov, i as int).take(0) =~= Seq::<Seq<char>>::empty());
            assert(l0 + node_lines(g, ov, i as int).take(0) =~= l0);
            while j < node.arrows.len()
                invariant
                    *node == g[ov[i as int] as int],
                    order@ == ov,
                    i < ov.len(),
                    ov.no_duplicates(),
                    forall|m: int| 0 <= m < ov.len() ==> #[trigger] ov[m] < g.len(),
                    forall|m: int, jj: int|
                        0 <= m < ov.len() && 0 <= jj < node_targets(g[ov[m] as int]).len()
                            ==> ov.contains(#[trigger] node_targets(g[ov[m] as int])[jj]),
                    graph_printable(g, ov),
                    pos@.len() == g.len(),
                    forall|m: int| 0 <= m < ov.len() ==> pos@[#[trigger] ov[m] as int] == m,
                    j <= node.arrows@.len(),
                    lines == l0 + node_lines(g, ov, i as int).take(j as int),
                    text@ == header + joined(lines),
                    written == (lines.len() > 0),
                decreases node.arrows@.len() - j,
            {
                let a = &node.arrows[j];
                let t = match a {
                    Arrow::Epsilon(t) => *t,
                    Arrow::Match(_, t) => *t,
                    Arrow::Guard(_, t) => *t,
                };
                proof {
                    assert(node_targets(*node)[j as int] == t);
                    assert(ov.contains(node_targets(g[ov[i as int] as int])[j as int]));
                    let m = choose|m: int| 0 <= m < ov.len() && ov[m] == t;
                    assert(pos@[ov[m] as int] == m);
                    assert(position(ov, t) == m);
                    assert(match g[ov[i as int] as int].arrows@[j as int] {
                        Arrow::Match(c, _) => printable(c@),
                        _ => true,
                    });
                }
                let label = label_chars(a);
                let line = edge_chars(i, pos[t], label);
                assert(line@ == node_lines(g, ov, i as int)[j as int]);
                proof {
                    lemma_joined_push(lines, line@);
                    lines = lines.push(line@);
                    assert(lines =~= l0 + node_lines(g, ov, i as int).take(j + 1));
                }
                if written {
                    text.push('\n');
                }
                written = true;
                let mut line = line;
                text.append(&mut line);
                assert(text@ =~= header + joined(lines));
                j = j + 1;
            }
            proof {
                assert(node_lines(g, ov, i as int).take(j as int) =~= node_lines(g, ov, i as int));
                assert(lines_upto(g, ov, i + 1) == lines_upto(g, ov, i as int) + node_lines(g, ov, i as int));
            }
            i = i + 1;
        }
        let mut tail = str_chars("\n}");
        text.append(&mut tail);
        let ghost full = text@;
        let mut out: Vec<char> = Vec::new();
        let mut m: usize = 0;
        assert(full.take(0) =~= Seq::<char>::empty());
        while m < text.len()
            invariant
                text@ == full,
                m <= full.len(),
                out@ == escaped(full.take(m as int)),
            decreases full.len() - m,
        {
            let c = text[m];
            proof {
                assert(full.take(m + 1) =~= full.take(m as int).push(c));
                lemma_escaped_push(full.take(m as int), c);
            }
            if c == '\\' {
                out.push('\\');
                out.push('\\');
            } else {
                out.push(c);
            }
            assert(out@ =~= escaped(full.take(m + 1)));
            m = m + 1;
        }
        assert(full.take(full.len() as int) =~= full);
        string_from_chars(&out)
    }
}

/// Every automaton whose classes can all be written can be written as a graph; in
/// particular every automaton that [`Regex::new`] builds.
pub proof fn lemma_printable_graph(rx: Regex)
    requires
        arrows_printable(rx.automaton()),
    ensures
        graph_printable(rx.nodes@, discovery(rx.nodes@, rx.start)),
{
    let g = rx.nodes@;
    let order = discovery(g, rx.start);
    assert forall|k: int, j: int|
        0 <= k < order.len() && order[k] < g.len() && 0 <= j < g[order[k] as int].arrows@.len()
            implies match #[trigger] g[order[k] as int].arrows@[j] {
            Arrow::Match(c, _) => printable(c@),
            _ => true,
        } by {
        let i = order[k] as int;
        assert(graph_view(g)[i] == node_view(g[i]));
        assert(graph_view(g)[i].arrows[j] == arrow_view(g[i].arrows@[j]));
        assert(arrow_printable(graph_view(g)[i].arrows[j]));
    }
}

} // verus!
