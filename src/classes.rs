use vstd::prelude::*;
use crate::dfa::{lemma_graft_fresh, DfaModel, State, StateAllocator, DFA};

verus! {

/// A decimal digit.
pub open spec fn is_digit(c: char) -> bool {
    '0' <= c <= '9'
}

/// A lowercase ASCII letter.
pub open spec fn is_lower(c: char) -> bool {
    'a' <= c <= 'z'
}

/// The moves of the built-in classes, for an automaton started at `start`
/// whose class states are `n` (inside an identifier), `n + 1` (inside a
/// number) and `n + 2` (the sink for digits followed by letters).
pub open spec fn class_move(start: usize, n: usize, q: usize, c: char) -> Option<usize> {
    let id = n;
    let num = (n + 1) as usize;
    let sink = (n + 2) as usize;
    if !is_digit(c) && !is_lower(c) {
        None
    } else if q == start {
        if is_digit(c) { Some(num) } else { Some(id) }
    } else if q == num {
        if is_digit(c) { Some(num) } else { Some(sink) }
    } else if q == id || q == sink {
        Some(q)
    } else {
        None
    }
}

/// The built-in class moves on digits below `'0' + d` and letters below `'a' + l`.
pub open spec fn class_moves(start: usize, n: usize, d: int, l: int) -> Map<(usize, char), usize> {
    Map::new(
        |k: (usize, char)|
            class_move(start, n, k.0, k.1) is Some && (is_digit(k.1) ==> (k.1 as int) < '0' as int + d)
                && (is_lower(k.1) ==> (k.1 as int) < 'a' as int + l),
        |k: (usize, char)| class_move(start, n, k.0, k.1)->0,
    )
}

/// `m` with the built-in classes installed on states `n`, `n + 1`, `n + 2`:
/// identifiers accept `ID`, numbers accept `NUM`, the sink accepts nothing.
pub open spec fn with_classes(m: DfaModel, n: usize) -> DfaModel {
    DfaModel {
        delta: m.delta.union_prefer_right(class_moves(m.start, n, 10, 26)),
        ..m
    }.with_token(n, "ID"@).with_token((n + 1) as usize, "NUM"@)
}

/// Installs the built-in lexical classes: numbers (`NUM`, one or more
/// digits), identifiers (`ID`, a lowercase letter followed by letters and
/// digits), and a sink that swallows letters following a number.
pub fn add_default_states(a: &mut DFA, alloc: &mut StateAllocator)
    requires
        old(a).wf(),
        old(a)@.states_below(old(alloc)@),
        old(alloc)@ + 3 <= usize::MAX,
    ensures
        final(a).wf(),
        final(a)@.states_below(final(alloc)@),
        final(a)@ == with_classes(old(a)@, old(alloc)@),
        final(alloc)@ == old(alloc)@ + 3,
{
    let ghost m0 = a@;
    let ghost n0 = alloc@;
    let end_id = State::new(alloc);
    let end_num = State::new(alloc);
    let sink = State::new(alloc);
    let start = a.get_start_state();
    let mut i: u8 = 0;
    while i < 10
        invariant
            a.wf(),
            i <= 10,
            a@.start == m0.start,
            a@.accept == m0.accept,
            m0.start < n0,
            start.id() == m0.start,
            end_id.id() == n0,
            end_num.id() == n0 + 1,
            sink.id() == n0 + 2,
            a@.delta == m0.delta.union_prefer_right(class_moves(m0.start, n0, i as int, 0)),
        decreases 10 - i,
    {
        let ch = (48 + i) as char;
        assert(ch as int == 48 + i);
        a.add_transition(start, ch, end_num);
        a.add_transition(end_num, ch, end_num);
        a.add_transition(sink, ch, sink);
        a.add_transition(end_id, ch, end_id);
        i = i + 1;
        assert(a@.delta =~= m0.delta.union_prefer_right(class_moves(m0.start, n0, i as int, 0)));
    }
    let mut x: u8 = 0;
    while x < 26
        invariant
            a.wf(),
            x <= 26,
            a@.start == m0.start,
            a@.accept == m0.accept,
            m0.start < n0,
            start.id() == m0.start,
            end_id.id() == n0,
            end_num.id() == n0 + 1,
            sink.id() == n0 + 2,
            a@.delta == m0.delta.union_prefer_right(class_moves(m0.start, n0, 10, x as int)),
        decreases 26 - x,
    {
        let ch = (97 + x) as char;
        assert(ch as int == 97 + x);
        a.add_transition(end_num, ch, sink);
        a.add_transition(sink, ch, sink);
        a.add_transition(start, ch, end_id);
        a.add_transition(end_id, ch, end_id);
        x = x + 1;
        assert(a@.delta =~= m0.delta.union_prefer_right(class_moves(m0.start, n0, 10, x as int)));
    }
    a.mark_end_state(end_id, "ID");
    a.mark_end_state(end_num, "NUM");
    proof {
        let m = a@;
        assert forall|k: (usize, char)| #[trigger] m.delta.contains_key(k) implies k.0 < n0 + 3
            && m.delta[k] < n0 + 3 by {
            if !m0.delta.contains_key(k) {
                assert(class_moves(m0.start, n0, 10, 26).contains_key(k));
            }
        }
    }
}

/// The (pattern, token name) pairs as character sequences.
pub open spec fn pattern_views(ps: Seq<(&str, &str)>) -> Seq<(Seq<char>, Seq<char>)> {
    ps.map_values(|p: (&str, &str)| (p.0@, p.1@))
}

/// The number of symbols over all patterns.
pub open spec fn total_len(ps: Seq<(Seq<char>, Seq<char>)>) -> nat
    decreases ps.len(),
{
    if ps.len() == 0 {
        0
    } else {
        total_len(ps.drop_last()) + ps.last().0.len()
    }
}

/// The automaton that `simulate` builds: start state 0, the built-in classes
/// on states 1 to 3, then each pattern merged in order; with the next unused
/// state number.
pub open spec fn built(ps: Seq<(Seq<char>, Seq<char>)>) -> (DfaModel, nat)
    decreases ps.len(),
{
    if ps.len() == 0 {
        (with_classes(DfaModel { start: 0, delta: Map::empty(), accept: Map::empty() }, 1), 4)
    } else {
        let (m, n) = built(ps.drop_last());
        let (g, e, n2) = m.graft(m.start, ps.last().0, n);
        (g.with_token(e, ps.last().1), n2)
    }
}

/// Builds an automaton from the built-in classes and the given (pattern,
/// token name) pairs, and scans `input` with it by first-longest-match.
pub fn simulate(reg_exs: &[(&str, &str)], input: &str) -> (r: Vec<(String, Vec<String>)>)
    requires
        total_len(pattern_views(reg_exs@)) + 4 <= usize::MAX,
    ensures
        crate::dfa::match_view(r@) == built(pattern_views(reg_exs@)).0.scan(input@),
{
    let ghost ps = pattern_views(reg_exs@);
    let mut alloc = StateAllocator::new();
    let mut dfa = DFA::new(State::new(&mut alloc));
    add_default_states(&mut dfa, &mut alloc);
    proof {
        assert(dfa@ =~= built(ps.take(0)).0);
        assert(ps.take(0).len() == 0);
    }
    let mut i: usize = 0;
    while i < reg_exs.len()
        invariant
            i <= reg_exs@.len(),
            ps == pattern_views(reg_exs@),
            dfa.wf(),
            dfa@.states_below(alloc@),
            (dfa@, alloc@ as nat) == built(ps.take(i as int)),
            alloc@ + total_len(ps) - total_len(ps.take(i as int)) <= usize::MAX,
        decreases reg_exs.len() - i,
    {
        let (regex, token) = reg_exs[i];
        proof {
            assert(ps.take(i + 1).drop_last() =~= ps.take(i as int));
            assert(ps.take(i + 1).last() == (regex@, token@));
            lemma_total_len_prefix(ps, i + 1);
            lemma_graft_fresh(dfa@, dfa@.start, regex@, alloc@ as nat);
        }
        dfa.extend_with(&mut alloc, regex, token);
        i = i + 1;
    }
    assert(ps.take(i as int) =~= ps);
    dfa.first_longest_match(input)
}

/// The symbols of a prefix of the patterns are at most those of all.
proof fn lemma_total_len_prefix(ps: Seq<(Seq<char>, Seq<char>)>, k: int)
    requires
        0 <= k <= ps.len(),
    ensures
        total_len(ps.take(k)) <= total_len(ps),
    decreases ps.len() - k,
{
    if k < ps.len() {
        lemma_total_len_prefix(ps, k + 1);
        assert(ps.take(k + 1).drop_last() =~= ps.take(k));
    } else {
        assert(ps.take(k) =~= ps);
    }
}

} // verus!
