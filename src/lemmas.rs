use vstd::prelude::*;
use crate::classes::{class_moves, is_digit, is_lower, with_classes};
use crate::dfa::{match_view, DfaModel};

verus! {

/// Scanning an empty input yields no match.
pub proof fn lemma_scan_empty(d: DfaModel)
    ensures
        d.scan(Seq::empty()) == Seq::<(Seq<char>, Set<Seq<char>>)>::empty(),
{
}

/// A scan is determined by the automaton and the input alone: two scans of
/// the same input with the same automaton give the same matches.
pub proof fn lemma_rescan_identical(
    d: DfaModel,
    input: Seq<char>,
    r1: Seq<(String, Vec<String>)>,
    r2: Seq<(String, Vec<String>)>,
)
    requires
        match_view(r1) == d.scan(input),
        match_view(r2) == d.scan(input),
    ensures
        match_view(r1) == match_view(r2),
{
}

/// Reading a non-empty word is one move on its first symbol followed by
/// reading the rest.
pub proof fn lemma_run_first(m: DfaModel, q: usize, p: Seq<char>)
    requires
        p.len() > 0,
    ensures
        m.run(q, p) == match m.step(q, p[0]) {
            Some(r) => m.run(r, p.drop_first()),
            None => None,
        },
    decreases p.len(),
{
    if p.len() > 1 {
        lemma_run_first(m, q, p.drop_last());
        assert(p.drop_last().drop_first() =~= p.drop_first().drop_last());
        assert(p.drop_last()[0] == p[0]);
        assert(p.drop_first().last() == p.last());
        match m.step(q, p[0]) {
            Some(r) => {
                assert(m.run(r, p.drop_first()) == match m.run(r, p.drop_first().drop_last()) {
                    Some(x) => m.step(x, p.last()),
                    None => None,
                });
            },
            None => {},
        }
    } else {
        assert(p.drop_last().len() == 0);
        assert(p.drop_first().len() == 0);
        assert(m.run(q, p.drop_last()) == Some(q));
        assert(p.last() == p[0]);
        assert(m.run(q, p) == m.step(q, p[0]));
    }
}

/// Merging a word whose every move already exists changes nothing and
/// ends where reading the word ends.
pub proof fn lemma_graft_existing(m: DfaModel, q: usize, p: Seq<char>, n: nat)
    requires
        m.run(q, p) is Some,
    ensures
        m.graft(q, p, n) == (m, m.run(q, p)->0, n),
    decreases p.len(),
{
    if p.len() > 0 {
        lemma_run_first(m, q, p);
        lemma_graft_existing(m, m.delta[(q, p[0])], p.drop_first(), n);
    }
}

/// A word that is accepted as a whole is scanned as one match of itself,
/// with all the token names of the state it ends in.
pub proof fn lemma_scan_accepted(d: DfaModel, w: Seq<char>)
    requires
        w.len() > 0,
        d.accepts(w),
    ensures
        d.scan(w) == seq![(w, d.word_tokens(w))],
{
    assert(w.take(w.len() as int) =~= w);
    assert(w.skip(w.len() as int) =~= Seq::<char>::empty());
    assert(d.scan(w.skip(w.len() as int)) =~= Seq::empty());
    assert(seq![(w, d.word_tokens(w))] + Seq::<(Seq<char>, Set<Seq<char>>)>::empty() =~= seq![(w, d.word_tokens(w))]);
}

/// A word that starts with a lowercase letter and goes on with letters and digits.
pub open spec fn is_identifier(p: Seq<char>) -> bool {
    &&& p.len() > 0
    &&& is_lower(p[0])
    &&& forall|i: int| 1 <= i < p.len() ==> is_lower(#[trigger] p[i]) || is_digit(p[i])
}

/// With the built-in classes installed on states `n` to `n + 2`, every
/// identifier leads from the start to the identifier state `n`.
pub proof fn lemma_identifier_run(m: DfaModel, n: usize, p: Seq<char>)
    requires
        m.start < n,
        n + 3 <= usize::MAX,
        is_identifier(p),
    ensures
        with_classes(m, n).run(m.start, p) == Some(n),
    decreases p.len(),
{
    let c = with_classes(m, n);
    let moves = class_moves(m.start, n, 10, 26);
    if p.len() == 1 {
        assert(moves.contains_key((m.start, p[0])));
        assert(p.drop_last().len() == 0);
    } else {
        let q = p.drop_last();
        assert forall|i: int| 1 <= i < q.len() implies is_lower(#[trigger] q[i]) || is_digit(q[i]) by {
            assert(q[i] == p[i]);
        }
        lemma_identifier_run(m, n, q);
        assert(is_lower(p[p.len() - 1]) || is_digit(p[p.len() - 1]));
        assert(moves.contains_key((n, p.last())));
    }
}

/// A state reached both by a pattern and by a built-in class accepts the
/// names of both: after merging an identifier-shaped pattern `p` with name
/// `t` into an automaton with the built-in classes, scanning `p` yields a
/// single match carrying `ID`, `t` and every other name of that state.
pub proof fn lemma_shared_state_union(m: DfaModel, n: usize, p: Seq<char>, t: Seq<char>, k: nat)
    requires
        m.start < n,
        n + 3 <= usize::MAX,
        is_identifier(p),
    ensures
        ({
            let c = with_classes(m, n);
            let (g, e, k2) = c.graft(c.start, p, k);
            let d = g.with_token(e, t);
            &&& e == n
            &&& d.scan(p) == seq![(p, c.tokens_at(n).insert(t))]
            &&& c.tokens_at(n).contains("ID"@)
        }),
{
    let c = with_classes(m, n);
    lemma_identifier_run(m, n, p);
    lemma_graft_existing(c, c.start, p, k);
    let d = c.with_token(n, t);
    assert(d.delta == c.delta);
    assert(d.run(d.start, p) == c.run(c.start, p)) by {
        lemma_run_same_moves(c, d, c.start, p);
    }
    assert(d.accepts(p));
    lemma_scan_accepted(d, p);
    assert(c.tokens_at(n).contains("ID"@)) by {
        assert((n + 1) as usize != n);
    }
}

/// Reading depends on the moves alone.
proof fn lemma_run_same_moves(a: DfaModel, b: DfaModel, q: usize, w: Seq<char>)
    requires
        a.delta == b.delta,
    ensures
        a.run(q, w) == b.run(q, w),
    decreases w.len(),
{
    if w.len() > 0 {
        lemma_run_same_moves(a, b, q, w.drop_last());
    }
}

/// The sink of the built-in classes (state `n + 2`) is never left for
/// another state and never accepts: a run that enters it cannot produce a
/// match, so the scan falls back to the last accepted prefix.
pub proof fn lemma_sink_never_accepts(m: DfaModel, n: usize, w: Seq<char>)
    requires
        m.states_below(n),
        n + 3 <= usize::MAX,
    ensures
        ({
            let c = with_classes(m, n);
            let sink = (n + 2) as usize;
            &&& c.run(sink, w) == Some(sink) || c.run(sink, w) is None
            &&& !c.accept.contains_key(sink)
        }),
    decreases w.len(),
{
    let c = with_classes(m, n);
    let sink = (n + 2) as usize;
    if w.len() > 0 {
        lemma_sink_never_accepts(m, n, w.drop_last());
        if c.run(sink, w.drop_last()) == Some(sink) {
            if !class_moves(m.start, n, 10, 26).contains_key((sink, w.last())) {
                assert(!m.delta.contains_key((sink, w.last())));
            }
        }
    }
}

} // verus!
