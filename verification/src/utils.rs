use std::collections::HashSet;
use vstd::prelude::*;

verus! {

broadcast use vstd::std_specs::hash::group_hash_axioms;

/// The characters that have a meaning of their own in a regular expression
/// and have to be escaped to be matched literally.
pub open spec fn spec_is_special(c: char) -> bool {
    c == '^' || c == '.' || c == '[' || c == '$' || c == '(' || c == ')' || c == '|' || c == '*'
        || c == '+' || c == '?' || c == '{' || c == '\\'
}

/// Returns whether `c` has a meaning of its own in a regular expression.
pub fn is_special(c: char) -> (r: bool)
    ensures
        r == spec_is_special(c),
{
    c == '^' || c == '.' || c == '[' || c == '$' || c == '(' || c == ')' || c == '|' || c == '*'
        || c == '+' || c == '?' || c == '{' || c == '\\'
}

/// Whether `c` has the Unicode `White_Space` property: the controls from tab to carriage
/// return, the space, next line, no-break space, Ogham space mark, the spaces from en
/// quad to hair space, line and paragraph separators, narrow no-break space, medium
/// mathematical space and ideographic space.
pub open spec fn spec_is_whitespace(c: char) -> bool {
    ('\u{9}' <= c && c <= '\u{d}') || c == ' ' || c == '\u{85}' || c == '\u{a0}' || c
        == '\u{1680}' || ('\u{2000}' <= c && c <= '\u{200a}') || c == '\u{2028}' || c == '\u{2029}'
        || c == '\u{202f}' || c == '\u{205f}' || c == '\u{3000}'
}

/// Whether `c` is alphabetic or numeric in Unicode, as `char::is_alphanumeric` decides.
pub uninterp spec fn spec_is_alphanumeric(c: char) -> bool;

/// Returns whether `c` has the Unicode `White_Space` property.
pub(crate) fn is_whitespace(c: char) -> (r: bool)
    ensures
        r == spec_is_whitespace(c),
{
    ('\u{9}' <= c && c <= '\u{d}') || c == ' ' || c == '\u{85}' || c == '\u{a0}' || c
        == '\u{1680}' || ('\u{2000}' <= c && c <= '\u{200a}') || c == '\u{2028}' || c == '\u{2029}'
        || c == '\u{202f}' || c == '\u{205f}' || c == '\u{3000}'
}

/// Calls `char::is_alphanumeric`. Its result is named `spec_is_alphanumeric`: a fixed
/// property of the character (the Unicode `Alphabetic` and `Numeric` tables).
#[verifier::external_body]
pub(crate) fn is_alphanumeric(c: char) -> (r: bool)
    ensures
        r == spec_is_alphanumeric(c),
{
    c.is_alphanumeric()
}

/// An ASCII decimal digit.
pub open spec fn spec_is_digit(c: char) -> bool {
    '0' <= c && c <= '9'
}

/// Returns whether `c` is an ASCII decimal digit.
pub fn is_ascii_digit(c: char) -> (r: bool)
    ensures
        r == spec_is_digit(c),
{
    '0' <= c && c <= '9'
}

/// The value of a decimal digit.
pub open spec fn spec_digit_value(c: char) -> u32 {
    (c as u32 - '0' as u32) as u32
}

/// Returns the value of the decimal digit `c`, or `None` when `c` is no digit.
pub fn to_digit(c: char) -> (r: Option<u32>)
    ensures
        r == (if spec_is_digit(c) { Some(spec_digit_value(c)) } else { None::<u32> }),
{
    if '0' <= c && c <= '9' {
        Some(c as u32 - '0' as u32)
    } else {
        None
    }
}


/// The characters of a string, in order.
pub fn str_chars(s: &str) -> (r: Vec<char>)
    ensures
        r@ == s@,
{
    broadcast use vstd::string::group_string_axioms;
    let mut v: Vec<char> = Vec::new();
    for c in it: s.chars()
        invariant
            v@ == it.seq().take(it.index() as int),
            it.seq() == s@,
    {
        v.push(c);
    }
    v
}

/// ASCII upper case letters become lower case; every other character stays.
pub open spec fn spec_to_lower(c: char) -> char {
    if 'A' <= c && c <= 'Z' {
        ((c as u32) + 32) as char
    } else {
        c
    }
}

/// Lower-cases an ASCII upper case letter; every other character stays.
pub(crate) fn to_lower(c: char) -> (r: char)
    ensures
        r == spec_to_lower(c),
{
    if 'A' <= c && c <= 'Z' {
        ((c as u8) + 32) as char
    } else {
        c
    }
}


/// A regular expression lower-cased for case-insensitive matching: every character
/// is lower-cased except the one right after a backslash, so that escapes such as
/// `\W`, `\S`, `\D` and `\B` keep their meaning.
pub open spec fn spec_regex_to_lower(s: Seq<char>) -> Seq<char>
    decreases s.len(),
{
    if s.len() == 0 {
        s
    } else if s[0] == '\\' && s.len() >= 2 {
        seq!['\\', s[1]] + spec_regex_to_lower(s.skip(2))
    } else {
        seq![spec_to_lower(s[0])] + spec_regex_to_lower(s.skip(1))
    }
}

proof fn lemma_regex_to_lower_step(s: Seq<char>, i: int)
    requires
        0 <= i < s.len(),
    ensures
        s[i] == '\\' && i + 1 < s.len() ==> spec_regex_to_lower(s.skip(i)) == seq!['\\', s[i + 1]]
            + spec_regex_to_lower(s.skip(i + 2)),
        !(s[i] == '\\' && i + 1 < s.len()) ==> spec_regex_to_lower(s.skip(i)) == seq![
            spec_to_lower(s[i]),
        ] + spec_regex_to_lower(s.skip(i + 1)),
{
    assert(s.skip(i).skip(1) =~= s.skip(i + 1));
    if i + 2 <= s.len() {
        assert(s.skip(i).skip(2) =~= s.skip(i + 2));
    }
}

/// Lower-cases a regular expression as `spec_regex_to_lower` says.
pub fn regex_to_lower(s: &Vec<char>) -> (r: Vec<char>)
    ensures
        r@ == spec_regex_to_lower(s@),
{
    let mut r: Vec<char> = Vec::new();
    let mut i: usize = 0;
    assert(s@.skip(0) =~= s@);
    while i < s.len()
        invariant
            i <= s.len(),
            spec_regex_to_lower(s@) == r@ + spec_regex_to_lower(s@.skip(i as int)),
        decreases s.len() - i,
    {
        proof {
            lemma_regex_to_lower_step(s@, i as int);
        }
        if s[i] == '\\' && i + 1 < s.len() {
            r.push('\\');
            r.push(s[i + 1]);
            i = i + 2;
        } else {
            r.push(to_lower(s[i]));
            i = i + 1;
        }
    }
    assert(s@.skip(i as int) =~= Seq::<char>::empty());
    r
}

/// A set of states below `n` has at most `n` members.
pub proof fn lemma_bounded_set(s: Set<usize>, n: nat)
    requires
        n <= usize::MAX,
        forall|x: usize| #[trigger] s.contains(x) ==> x < n,
    ensures
        s.finite(),
        s.len() <= n,
    decreases n,
{
    if n == 0 {
        assert(s =~= Set::<usize>::empty());
    } else {
        let m = (n - 1) as usize;
        let t = s.remove(m);
        lemma_bounded_set(t, (n - 1) as nat);
        if s.contains(m) {
            assert(s =~= t.insert(m));
        } else {
            assert(s =~= t);
        }
    }
}

/// A work list of automaton states that remembers every state it was ever given,
/// so that no state is handed out twice.
pub struct Queue {
    /// Every state that was ever pushed.
    pub seen: HashSet<usize>,
    /// The states still to be handed out, the last one first.
    pub queue: Vec<usize>,
}

impl Queue {
    /// An empty work list.
    pub fn new() -> (q: Queue)
        ensures
            q.seen@ == Set::<usize>::empty(),
            q.queue@ == Seq::<usize>::empty(),
    {
        Queue { seen: HashSet::new(), queue: Vec::new() }
    }

    /// Adds `value` unless it was ever added before; returns whether it was added.
    pub fn push(&mut self, value: usize) -> (r: bool)
        ensures
            r == !old(self).seen@.contains(value),
            final(self).seen@ == old(self).seen@.insert(value),
            final(self).queue@ == (if r {
                old(self).queue@.push(value)
            } else {
                old(self).queue@
            }),
    {
        if self.seen.insert(value) {
            self.queue.push(value);
            return true;
        }
        false
    }

    /// Hands out the state that was added last, if any is left.
    pub fn pop(&mut self) -> (r: Option<usize>)
        ensures
            final(self).seen@ == old(self).seen@,
            old(self).queue@.len() == 0 ==> r is None && final(self).queue@ == old(self).queue@,
            old(self).queue@.len() > 0 ==> r == Some(old(self).queue@.last())
                && final(self).queue@ == old(self).queue@.drop_last(),
    {
        self.queue.pop()
    }
}

} // verus!
