use vstd::prelude::*;
use crate::dfa::{lemma_graft_fresh, DfaModel};

verus! {

/// The automaton after merging `pa` with name `ta`, then `pb` with name
/// `tb`, into `m`, numbering new states from `n`.
pub open spec fn merge_two(m: DfaModel, n: nat, pa: Seq<char>, ta: Seq<char>, pb: Seq<char>, tb: Seq<char>) -> DfaModel {
    let (g1, e1, n1) = m.graft(m.start, pa, n);
    let m1 = g1.with_token(e1, ta);
    let (g2, e2, n2) = m1.graft(m1.start, pb, n1);
    g2.with_token(e2, tb)
}

/// Follows the existing moves of `b` along `p` from `q`, as far as they go:
/// the state reached and the part of `p` left over.
pub open spec fn walk(b: DfaModel, q: usize, p: Seq<char>) -> (usize, Seq<char>)
    decreases p.len(),
{
    if p.len() == 0 || !b.delta.contains_key((q, p[0])) {
        (q, p)
    } else {
        walk(b, b.delta[(q, p[0])], p.drop_first())
    }
}

/// The moves of a chain of new states `n`, `n + 1`, ... spelling `u` from `q`.
pub open spec fn chain_step(q: usize, u: Seq<char>, n: nat, x: usize, c: char) -> Option<usize> {
    if u.len() > 0 && x == q && c == u[0] {
        Some(n as usize)
    } else if n <= x && x + 1 < n + u.len() && c == u[x - n + 1] {
        Some((x + 1) as usize)
    } else {
        None
    }
}

/// The chain of `chain_step` as a map of moves.
pub open spec fn chain_map(q: usize, u: Seq<char>, n: nat) -> Map<(usize, char), usize> {
    Map::new(
        |k: (usize, char)| chain_step(q, u, n, k.0, k.1) is Some,
        |k: (usize, char)| chain_step(q, u, n, k.0, k.1)->0,
    )
}

/// Merging starts by following the existing moves.
proof fn lemma_graft_walk(b: DfaModel, q: usize, p: Seq<char>, n: nat)
    ensures
        b.graft(q, p, n) == b.graft(walk(b, q, p).0, walk(b, q, p).1, n),
        walk(b, q, p).1.len() > 0 ==> !b.delta.contains_key((walk(b, q, p).0, walk(b, q, p).1[0])),
        walk(b, q, p).1.len() <= p.len(),
    decreases p.len(),
{
    if p.len() > 0 && b.delta.contains_key((q, p[0])) {
        lemma_graft_walk(b, b.delta[(q, p[0])], p.drop_first(), n);
    }
}

/// Walking stays below `n` when every state does.
proof fn lemma_walk_below(b: DfaModel, q: usize, p: Seq<char>, n: usize)
    requires
        b.states_below(n),
        q < n,
    ensures
        walk(b, q, p).0 < n,
    decreases p.len(),
{
    if p.len() > 0 && b.delta.contains_key((q, p[0])) {
        lemma_walk_below(b, b.delta[(q, p[0])], p.drop_first(), n);
    }
}

/// Where the first move is missing, merging installs a chain of new states.
proof fn lemma_graft_chain(b: DfaModel, q: usize, u: Seq<char>, n: nat)
    requires
        b.states_below(n as usize),
        q < n,
        u.len() > 0,
        !b.delta.contains_key((q, u[0])),
        n + u.len() <= usize::MAX,
    ensures
        b.graft(q, u, n) == (
            DfaModel { delta: b.delta.union_prefer_right(chain_map(q, u, n)), ..b },
            (n + u.len() - 1) as usize,
            n + u.len(),
        ),
    decreases u.len(),
{
    let b1 = DfaModel { delta: b.delta.insert((q, u[0]), n as usize), ..b };
    let u1 = u.drop_first();
    let want = b.delta.union_prefer_right(chain_map(q, u, n));
    assert(b.graft(q, u, n) == b1.graft(n as usize, u1, n + 1));
    if u1.len() == 0 {
        assert(b1.graft(n as usize, u1, n + 1) == (b1, n as usize, n + 1));
        assert forall|k: (usize, char)| #[trigger] want.contains_key(k) == b1.delta.contains_key(k) && (want.contains_key(k) ==> want[k] == b1.delta[k]) by {
            if chain_map(q, u, n).contains_key(k) {
                assert(k == (q, u[0]));
            }
        }
        assert(want =~= b1.delta);
    } else {
        assert(b1.states_below((n + 1) as usize));
        assert(!b1.delta.contains_key((n as usize, u1[0])));
        lemma_graft_chain(b1, n as usize, u1, n + 1);
        let got = b1.delta.union_prefer_right(chain_map(n as usize, u1, n + 1));
        assert forall|k: (usize, char)| #[trigger] want.contains_key(k) == got.contains_key(k) && (want.contains_key(k) ==> want[k] == got[k]) by {
            if k.0 == n && k.1 == u[1] {
                assert(u1[0] == u[1]);
                assert(chain_map(n as usize, u1, n + 1).contains_key(k));
                assert(chain_map(q, u, n).contains_key(k));
            } else if n < k.0 && k.0 + 1 < n + u.len() {
                assert(u1[k.0 - (n + 1) + 1] == u[k.0 - n + 1]);
            }
        }
        assert(want =~= got);
    }
}

/// The length of the longest common prefix of `a` and `b`.
pub open spec fn common(a: Seq<char>, b: Seq<char>) -> nat
    decreases a.len(),
{
    if a.len() == 0 || b.len() == 0 || a[0] != b[0] {
        0
    } else {
        1 + common(a.drop_first(), b.drop_first())
    }
}

/// The longest common prefix is common, and the next symbols differ.
proof fn lemma_common(a: Seq<char>, b: Seq<char>)
    ensures
        common(a, b) <= a.len(),
        common(a, b) <= b.len(),
        forall|i: int| 0 <= i < common(a, b) ==> a[i] == b[i],
        common(a, b) < a.len() && common(a, b) < b.len() ==> a[common(a, b) as int] != b[common(a, b) as int],
        common(a, b) == common(b, a),
    decreases a.len(),
{
    if a.len() > 0 && b.len() > 0 && a[0] == b[0] {
        lemma_common(a.drop_first(), b.drop_first());
        let c = common(a, b);
        assert forall|i: int| 0 <= i < c implies a[i] == b[i] by {
            if i > 0 {
                assert(a.drop_first()[i - 1] == b.drop_first()[i - 1]);
            }
        }
    }
}

/// Following the moves of a larger automaton first goes where the smaller one goes.
proof fn lemma_walk_super(m: DfaModel, b: DfaModel, q: usize, p: Seq<char>)
    requires
        m.delta.submap_of(b.delta),
    ensures
        walk(b, q, p) == walk(b, walk(m, q, p).0, walk(m, q, p).1),
    decreases p.len(),
{
    if p.len() > 0 && m.delta.contains_key((q, p[0])) {
        assert(b.delta.contains_key((q, p[0])));
        lemma_walk_super(m, b, m.delta[(q, p[0])], p.drop_first());
    }
}

/// Walking along a chain spelling `u1` while the word agrees with it.
proof fn lemma_walk_along_chain(m: DfaModel, b: DfaModel, n: nat, r1: usize, u1: Seq<char>, u2: Seq<char>, j: nat)
    requires
        m.states_below(n as usize),
        r1 < n,
        n + u1.len() <= usize::MAX,
        b.delta == m.delta.union_prefer_right(chain_map(r1, u1, n)),
        1 <= j <= common(u1, u2),
    ensures
        walk(b, (n + j - 1) as usize, u2.skip(j as int)) == ((n + common(u1, u2) - 1) as usize, u2.skip(
            common(u1, u2) as int,
        )),
    decreases common(u1, u2) - j,
{
    let c = common(u1, u2);
    lemma_common(u1, u2);
    let x = (n + j - 1) as usize;
    let rest = u2.skip(j as int);
    if j < c {
        assert(rest[0] == u2[j as int]);
        assert(u1[j as int] == u2[j as int]);
        assert(chain_step(r1, u1, n, x, rest[0]) == Some((x + 1) as usize));
        assert(b.delta.contains_key((x, rest[0])));
        assert(rest.drop_first() =~= u2.skip(j + 1 as int));
        lemma_walk_along_chain(m, b, n, r1, u1, u2, (j + 1) as nat);
    } else if rest.len() > 0 {
        assert(rest[0] == u2[c as int]);
        assert(!m.delta.contains_key((x, rest[0])));
        assert(chain_step(r1, u1, n, x, rest[0]) is None);
    }
}

/// Where a word leaves the old moves at `r2` with `u2` left, a chain from
/// `r1` spelling `u1` takes it along their common prefix.
proof fn lemma_walk_chain(m: DfaModel, b: DfaModel, n: nat, r1: usize, u1: Seq<char>, r2: usize, u2: Seq<char>)
    requires
        m.states_below(n as usize),
        r1 < n,
        r2 < n,
        n + u1.len() <= usize::MAX,
        b.delta == m.delta.union_prefer_right(chain_map(r1, u1, n)),
        u2.len() > 0 ==> !m.delta.contains_key((r2, u2[0])),
    ensures
        walk(b, r2, u2) == if r1 == r2 && common(u1, u2) > 0 {
            ((n + common(u1, u2) - 1) as usize, u2.skip(common(u1, u2) as int))
        } else {
            (r2, u2)
        },
{
    let c = common(u1, u2);
    lemma_common(u1, u2);
    if r1 == r2 && c > 0 {
        assert(chain_step(r1, u1, n, r2, u2[0]) == Some(n as usize));
        assert(u2.drop_first() =~= u2.skip(1));
        lemma_walk_along_chain(m, b, n, r1, u1, u2, 1);
    } else if u2.len() > 0 {
        assert(chain_step(r1, u1, n, r2, u2[0]) is None);
    }
}

/// How far two patterns share their way out of the old moves of `m`: the
/// length of the common prefix of what is left of each where both leave at
/// the same state, 0 otherwise.
pub open spec fn shared(m: DfaModel, pa: Seq<char>, pb: Seq<char>) -> nat {
    let (r1, u1) = walk(m, m.start, pa);
    let (r2, u2) = walk(m, m.start, pb);
    if r1 == r2 {
        common(u1, u2)
    } else {
        0
    }
}

/// Where the second pattern leaves the moves of the automaton holding the first.
pub open spec fn second_exit(m: DfaModel, n: nat, pa: Seq<char>, pb: Seq<char>) -> (usize, Seq<char>) {
    let (r2, u2) = walk(m, m.start, pb);
    let c = shared(m, pa, pb);
    if c > 0 {
        ((n + c - 1) as usize, u2.skip(c as int))
    } else {
        (r2, u2)
    }
}

/// The accepting tokens of `merge_two`, state by state.
pub open spec fn two_tokens(m: DfaModel, x: usize, e1: usize, ta: Seq<char>, e2: usize, tb: Seq<char>) -> Set<Seq<char>> {
    let s1 = if x == e1 { m.tokens_at(x).insert(ta) } else { m.tokens_at(x) };
    if x == e2 { s1.insert(tb) } else { s1 }
}

/// The shape of `merge_two`: the old moves, a chain for what is left of
/// the first pattern, and a chain for what is left of the second after it
/// has followed the first.
proof fn lemma_merge_two_shape(m: DfaModel, n: nat, pa: Seq<char>, ta: Seq<char>, pb: Seq<char>, tb: Seq<char>)
    requires
        m.states_below(n as usize),
        n + pa.len() + pb.len() <= usize::MAX,
    ensures
        ({
            let a = merge_two(m, n, pa, ta, pb, tb);
            let (r1, u1) = walk(m, m.start, pa);
            let (r2, u2) = walk(m, m.start, pb);
            let n1 = n + u1.len();
            let (r3, u3) = second_exit(m, n, pa, pb);
            let e1 = if u1.len() > 0 { (n1 - 1) as usize } else { r1 };
            let e2 = if u3.len() > 0 { (n1 + u3.len() - 1) as usize } else { r3 };
            &&& r1 < n && r2 < n
            &&& u1.len() <= pa.len() && u2.len() <= pb.len()
            &&& u1.len() > 0 ==> !m.delta.contains_key((r1, u1[0]))
            &&& u2.len() > 0 ==> !m.delta.contains_key((r2, u2[0]))
            &&& a.start == m.start
            &&& a.delta == m.delta.union_prefer_right(chain_map(r1, u1, n)).union_prefer_right(
                chain_map(r3, u3, n1),
            )
            &&& forall|x: usize| #[trigger] a.tokens_at(x) == two_tokens(m, x, e1, ta, e2, tb)
            &&& forall|x: usize| #[trigger] a.accept.contains_key(x) == (m.accept.contains_key(x) || x == e1
                || x == e2)
        }),
{
    let s0 = m.start;
    let (r1, u1) = walk(m, s0, pa);
    let (r2, u2) = walk(m, s0, pb);
    let n1 = n + u1.len();
    let (r3, u3) = second_exit(m, n, pa, pb);
    lemma_graft_walk(m, s0, pa, n);
    lemma_graft_walk(m, s0, pb, n);
    lemma_walk_below(m, s0, pa, n as usize);
    lemma_walk_below(m, s0, pb, n as usize);
    lemma_graft_fresh(m, s0, pa, n);
    let (g1, e1, k1) = m.graft(s0, pa, n);
    let ch1 = m.delta.union_prefer_right(chain_map(r1, u1, n));
    if u1.len() > 0 {
        lemma_graft_chain(m, r1, u1, n);
    } else {
        assert(chain_map(r1, u1, n) =~= Map::empty());
        assert(ch1 =~= m.delta);
    }
    assert(g1.delta == ch1);
    assert(k1 == n1);
    let m1 = g1.with_token(e1, ta);
    assert(m1.states_below(n1 as usize));
    assert(m.delta.submap_of(m1.delta));
    lemma_walk_super(m, m1, s0, pb);
    lemma_walk_chain(m, m1, n, r1, u1, r2, u2);
    assert(walk(m1, s0, pb) == (r3, u3));
    lemma_graft_walk(m1, s0, pb, n1);
    lemma_common(u1, u2);
    lemma_walk_below(m1, s0, pb, n1 as usize);
    let (g2, e2, k2) = m1.graft(s0, pb, n1);
    if u3.len() > 0 {
        lemma_graft_chain(m1, r3, u3, n1);
    } else {
        assert(chain_map(r3, u3, n1) =~= Map::empty());
        assert(ch1.union_prefer_right(chain_map(r3, u3, n1)) =~= ch1);
    }
    let a = merge_two(m, n, pa, ta, pb, tb);
    assert(a == g2.with_token(e2, tb));
    assert forall|x: usize| #[trigger] a.tokens_at(x) == two_tokens(m, x, e1, ta, e2, tb) by {
    }
    lemma_graft_fresh(m1, s0, pb, n1);
    assert forall|x: usize| #[trigger] a.accept.contains_key(x) == (m.accept.contains_key(x) || x == e1
        || x == e2) by {
    }
}

/// `v` is a prefix of `u`.
pub open spec fn is_prefix(v: Seq<char>, u: Seq<char>) -> bool {
    v.len() <= u.len() && u.take(v.len() as int) == v
}

/// A move of the order-free automaton, whose states are addresses: an old
/// state with nothing read since (an empty word), or the state where a
/// pattern leaves the old moves together with a non-empty prefix of what is
/// left of that pattern there.
pub open spec fn nstep(
    m: DfaModel,
    r1: usize,
    u1: Seq<char>,
    r2: usize,
    u2: Seq<char>,
    a: (usize, Seq<char>),
    c: char,
) -> Option<(usize, Seq<char>)> {
    if a.1.len() == 0 && m.delta.contains_key((a.0, c)) {
        Some((m.delta[(a.0, c)], Seq::empty()))
    } else if (a.0 == r1 && is_prefix(a.1.push(c), u1)) || (a.0 == r2 && is_prefix(a.1.push(c), u2)) {
        Some((a.0, a.1.push(c)))
    } else {
        None
    }
}

/// The token names of an address of the order-free automaton.
pub open spec fn ntokens(
    m: DfaModel,
    r1: usize,
    u1: Seq<char>,
    ta: Seq<char>,
    r2: usize,
    u2: Seq<char>,
    tb: Seq<char>,
    a: (usize, Seq<char>),
) -> Set<Seq<char>> {
    let s0 = if a.1.len() == 0 { m.tokens_at(a.0) } else { Set::empty() };
    let s1 = if a == (r1, u1) { s0.insert(ta) } else { s0 };
    if a == (r2, u2) { s1.insert(tb) } else { s1 }
}

/// Whether an address of the order-free automaton is accepting.
pub open spec fn naccepts(m: DfaModel, r1: usize, u1: Seq<char>, r2: usize, u2: Seq<char>, a: (usize, Seq<char>)) -> bool {
    (a.1.len() == 0 && m.accept.contains_key(a.0)) || a == (r1, u1) || a == (r2, u2)
}

/// The address of state `x` of `merge_two(m, n, pa, _, pb, _)`.
pub open spec fn addr(m: DfaModel, n: nat, pa: Seq<char>, pb: Seq<char>, x: usize) -> (usize, Seq<char>) {
    let (r1, u1) = walk(m, m.start, pa);
    let (r2, u2) = walk(m, m.start, pb);
    let c = shared(m, pa, pb);
    let n1 = n + u1.len();
    if x < n {
        (x, Seq::empty())
    } else if x < n1 {
        (r1, u1.take(x - n + 1))
    } else {
        (r2, u2.take(c + x - n1 + 1))
    }
}

/// The states of `merge_two(m, n, pa, _, pb, _)` that exist: the old ones
/// and those of both chains.
pub open spec fn allocated(m: DfaModel, n: nat, pa: Seq<char>, pb: Seq<char>, x: usize) -> bool {
    let (r1, u1) = walk(m, m.start, pa);
    let (r2, u2) = walk(m, m.start, pb);
    x < n + u1.len() + u2.len() - shared(m, pa, pb)
}

/// `merge_two` moves and accepts as the order-free automaton does on the
/// addresses of its states.
proof fn lemma_merge_two_simulates(
    m: DfaModel,
    n: nat,
    pa: Seq<char>,
    ta: Seq<char>,
    pb: Seq<char>,
    tb: Seq<char>,
    x: usize,
    ch: char,
)
    requires
        m.states_below(n as usize),
        n + pa.len() + pb.len() <= usize::MAX,
        allocated(m, n, pa, pb, x),
    ensures
        ({
            let a = merge_two(m, n, pa, ta, pb, tb);
            let (r1, u1) = walk(m, m.start, pa);
            let (r2, u2) = walk(m, m.start, pb);
            &&& a.tokens_at(x) == ntokens(m, r1, u1, ta, r2, u2, tb, addr(m, n, pa, pb, x))
            &&& a.accept.contains_key(x) == naccepts(m, r1, u1, r2, u2, addr(m, n, pa, pb, x))
            &&& match a.step(x, ch) {
                Some(y) => allocated(m, n, pa, pb, y) && nstep(m, r1, u1, r2, u2, addr(m, n, pa, pb, x), ch)
                    == Some(addr(m, n, pa, pb, y)),
                None => nstep(m, r1, u1, r2, u2, addr(m, n, pa, pb, x), ch) is None,
            }
        }),
{
    lemma_merge_two_shape(m, n, pa, ta, pb, tb);
    let a = merge_two(m, n, pa, ta, pb, tb);
    let (r1, u1) = walk(m, m.start, pa);
    let (r2, u2) = walk(m, m.start, pb);
    let c = shared(m, pa, pb);
    let n1 = n + u1.len();
    let (r3, u3) = second_exit(m, n, pa, pb);
    let e1 = if u1.len() > 0 { (n1 - 1) as usize } else { r1 };
    let e2 = if u3.len() > 0 { (n1 + u3.len() - 1) as usize } else { r3 };
    lemma_common(u1, u2);
    let ad = addr(m, n, pa, pb, x);
    assert(c <= u1.len() && c <= u2.len());
    assert(u3.len() == u2.len() - c);
    assert(c > 0 ==> r1 == r2);
    assert(forall|i: int| 0 <= i < c ==> u1[i] == u2[i]);
    // tokens
    assert(m.tokens_at(x) == (if ad.1.len() == 0 { m.tokens_at(ad.0) } else { Set::<Seq<char>>::empty() }));
    assert((x == e1) == (ad == (r1, u1))) by {
        if x < n {
            if u1.len() == 0 {
                assert(u1 =~= Seq::<char>::empty());
            } else {
                assert(ad.1 != u1);
            }
        } else if x < n1 {
            if ad.1 == u1 {
                assert(u1.take(x - n + 1).len() == u1.len());
            }
            if x == e1 {
                assert(u1.take(x - n + 1) =~= u1);
            }
        } else {
            let k = c + x - n1 + 1;
            if ad == (r1, u1) {
                assert(u1.len() == k);
                assert(u1.take(k) =~= u1);
                lemma_prefix_common(u1, u2, k);
                assert(false);
            }
        }
    }
    assert((x == e2) == (ad == (r2, u2))) by {
        if x < n {
            if ad == (r2, u2) {
                assert(u2.len() == 0);
                assert(c == 0);
                assert(u3 == u2);
            }
            if x == e2 {
                if c > 0 {
                    assert(r3 >= n);
                }
                assert(u3.len() == 0);
                assert(u2 =~= Seq::<char>::empty());
            }
        } else if x < n1 {
            let i = x - n;
            if ad == (r2, u2) {
                assert(r1 == r2);
                assert(u2.len() == i + 1);
                assert(u1.take(i + 1) == u2.take(i + 1)) by {
                    assert(u2.take(i + 1) =~= u2);
                }
                lemma_prefix_common(u1, u2, i + 1);
                assert(c == i + 1);
                assert(u3.len() == 0);
            }
            if x == e2 {
                assert(u3.len() == 0 && c > 0);
                assert(x == n + c - 1);
                assert(u2.take(c as int) =~= u2);
                assert(u1.take(c as int) =~= u2.take(c as int));
            }
        } else {
            let k = c + x - n1 + 1;
            if ad == (r2, u2) {
                assert(u2.take(k).len() == u2.len());
                assert(x == e2);
            }
            if x == e2 {
                assert(u2.take(k) =~= u2);
            }
        }
    }
    assert(a.tokens_at(x) =~= ntokens(m, r1, u1, ta, r2, u2, tb, ad));
    assert(a.accept.contains_key(x) == (m.accept.contains_key(x) || x == e1 || x == e2));
    // moves
    lemma_merge_two_moves(m, n, pa, ta, pb, tb, x, ch);
}

/// The moves half of `lemma_merge_two_simulates`.
proof fn lemma_merge_two_moves(
    m: DfaModel,
    n: nat,
    pa: Seq<char>,
    ta: Seq<char>,
    pb: Seq<char>,
    tb: Seq<char>,
    x: usize,
    ch: char,
)
    requires
        m.states_below(n as usize),
        n + pa.len() + pb.len() <= usize::MAX,
        allocated(m, n, pa, pb, x),
    ensures
        ({
            let a = merge_two(m, n, pa, ta, pb, tb);
            let (r1, u1) = walk(m, m.start, pa);
            let (r2, u2) = walk(m, m.start, pb);
            match a.step(x, ch) {
                Some(y) => allocated(m, n, pa, pb, y) && nstep(m, r1, u1, r2, u2, addr(m, n, pa, pb, x), ch)
                    == Some(addr(m, n, pa, pb, y)),
                None => nstep(m, r1, u1, r2, u2, addr(m, n, pa, pb, x), ch) is None,
            }
        }),
{
    lemma_merge_two_shape(m, n, pa, ta, pb, tb);
    let a = merge_two(m, n, pa, ta, pb, tb);
    let (r1, u1) = walk(m, m.start, pa);
    let (r2, u2) = walk(m, m.start, pb);
    let c = shared(m, pa, pb);
    let n1 = n + u1.len();
    let (r3, u3) = second_exit(m, n, pa, pb);
    lemma_common(u1, u2);
    let ad = addr(m, n, pa, pb, x);
    let s3 = chain_step(r3, u3, n1, x, ch);
    let s1 = chain_step(r1, u1, n, x, ch);
    assert(c <= u1.len() && c <= u2.len());
    assert(u3.len() == u2.len() - c);
    assert(c > 0 ==> r1 == r2);
    assert(forall|i: int| 0 <= i < c ==> u1[i] == u2[i]);
    assert(a.step(x, ch) == if s3 is Some {
        s3
    } else if s1 is Some {
        s1
    } else {
        m.step(x, ch)
    });
    let ns = nstep(m, r1, u1, r2, u2, ad, ch);
    if x < n {
        assert(ad.1.push(ch) =~= seq![ch]);
        assert(is_prefix(seq![ch], u1) == (u1.len() > 0 && u1[0] == ch)) by {
            if u1.len() > 0 && u1[0] == ch {
                assert(u1.take(1) =~= seq![ch]);
            }
            if is_prefix(seq![ch], u1) {
                assert(u1.take(1)[0] == u1[0]);
            }
        }
        assert(is_prefix(seq![ch], u2) == (u2.len() > 0 && u2[0] == ch)) by {
            if u2.len() > 0 && u2[0] == ch {
                assert(u2.take(1) =~= seq![ch]);
            }
            if is_prefix(seq![ch], u2) {
                assert(u2.take(1)[0] == u2[0]);
            }
        }
        if m.delta.contains_key((x, ch)) {
            assert(s1 is None);
            assert(s3 is None);
        } else if x == r1 && u1.len() > 0 && ch == u1[0] {
            if s3 is Some {
                assert(c == 0);
                assert(r3 == r2 && u3 == u2);
                assert(false);
            }
            assert(u1.take(1) =~= seq![ch]);
        } else if x == r2 && u2.len() > 0 && ch == u2[0] {
            assert(c == 0);
            assert(u2.take(c + n1 - n1 + 1) =~= seq![ch]);
        }
    } else if x < n1 {
        let i = x - n;
        assert(ad == (r1, u1.take(i + 1)));
        assert(s3 is Some <==> (c > 0 && i == c - 1 && c < u2.len() && ch == u2[c as int]));
        if s3 is Some {
            assert(u1.take(i + 1).push(ch) =~= u2.take(c + 1 as int));
            assert(is_prefix(u1.take(i + 1).push(ch), u2));
            assert(addr(m, n, pa, pb, n1 as usize) == (r2, u2.take(c + 1 as int)));
        } else if s1 is Some {
            assert(u1.take(i + 1).push(ch) =~= u1.take(i + 2));
            assert(is_prefix(u1.take(i + 1).push(ch), u1));
        } else {
            if is_prefix(u1.take(i + 1).push(ch), u1) {
                assert(u1.take(i + 2)[i + 1] == ch);
            }
            if r1 == r2 && is_prefix(u1.take(i + 1).push(ch), u2) {
                let v = u1.take(i + 1).push(ch);
                assert(u2.take(i + 2)[i + 1] == ch);
                assert(forall|j: int| 0 <= j < i + 1 ==> u1[j] == u2[j]) by {
                    assert forall|j: int| 0 <= j < i + 1 implies u1[j] == u2[j] by {
                        assert(u2.take(i + 2)[j] == v[j]);
                        assert(v[j] == u1.take(i + 1)[j]);
                    }
                }
                if c < i + 1 {
                    assert(u1[c as int] == u2[c as int]);
                }
                if c > i + 1 {
                    assert(u1[i + 1] == u2[i + 1]);
                }
            }
        }
    } else {
        let i = x - n1;
        let k = c + i + 1;
        assert(ad == (r2, u2.take(k)));
        assert(s1 is None);
        if s3 is Some {
            assert(u2.take(k).push(ch) =~= u2.take(k + 1));
            assert(u3[i + 1] == u2[k]);
            assert(addr(m, n, pa, pb, (x + 1) as usize) == (r2, u2.take(k + 1)));
        } else {
            if is_prefix(u2.take(k).push(ch), u2) {
                assert(u2.take(k + 1)[k] == ch);
                assert(u3[i + 1] == u2[k]);
            }
            if r1 == r2 && is_prefix(u2.take(k).push(ch), u1) {
                assert(forall|j: int| 0 <= j < k ==> u1[j] == u2[j]) by {
                    assert forall|j: int| 0 <= j < k implies u1[j] == u2[j] by {
                        assert(u1.take(k + 1)[j] == u2.take(k)[j]);
                    }
                }
                assert(u1[c as int] == u2[c as int]);
            }
        }
    }
}

/// Words that agree on their first `k` symbols share a prefix of length at least `k`.
proof fn lemma_prefix_common(u1: Seq<char>, u2: Seq<char>, k: int)
    requires
        0 <= k <= u1.len(),
        k <= u2.len(),
        u1.take(k) == u2.take(k),
    ensures
        common(u1, u2) >= k,
{
    lemma_common(u1, u2);
    let c = common(u1, u2);
    if c < k {
        assert(u1.take(k)[c as int] == u1[c as int]);
        assert(u2.take(k)[c as int] == u2[c as int]);
        assert(u1.take(k)[c as int] == u2.take(k)[c as int]);
    }
}

/// Runs of both merge orders stay on states with the same address.
proof fn lemma_runs_correspond(
    m: DfaModel,
    n: nat,
    pa: Seq<char>,
    ta: Seq<char>,
    pb: Seq<char>,
    tb: Seq<char>,
    w: Seq<char>,
)
    requires
        m.states_below(n as usize),
        n + pa.len() + pb.len() <= usize::MAX,
    ensures
        ({
            let a = merge_two(m, n, pa, ta, pb, tb);
            let b = merge_two(m, n, pb, tb, pa, ta);
            let x = a.run(a.start, w);
            let y = b.run(b.start, w);
            &&& x is Some <==> y is Some
            &&& x is Some ==> allocated(m, n, pa, pb, x->0) && allocated(m, n, pb, pa, y->0) && addr(
                m,
                n,
                pa,
                pb,
                x->0,
            ) == addr(m, n, pb, pa, y->0)
        }),
    decreases w.len(),
{
    let a = merge_two(m, n, pa, ta, pb, tb);
    let b = merge_two(m, n, pb, tb, pa, ta);
    lemma_merge_two_shape(m, n, pa, ta, pb, tb);
    lemma_merge_two_shape(m, n, pb, tb, pa, ta);
    lemma_common(walk(m, m.start, pa).1, walk(m, m.start, pb).1);
    if w.len() > 0 {
        lemma_runs_correspond(m, n, pa, ta, pb, tb, w.drop_last());
        let c = w.last();
        match a.run(a.start, w.drop_last()) {
            Some(x) => {
                let y = b.run(b.start, w.drop_last())->0;
                lemma_merge_two_moves(m, n, pa, ta, pb, tb, x, c);
                lemma_merge_two_moves(m, n, pb, tb, pa, ta, y, c);
            },
            None => {},
        }
    } else {
        assert(addr(m, n, pa, pb, m.start) == (m.start, Seq::<char>::empty()));
        assert(addr(m, n, pb, pa, m.start) == (m.start, Seq::<char>::empty()));
    }
}

/// Merging two patterns into an automaton does not depend on their order:
/// both orders read the same words and give every word the same token
/// names. States are numbered from `n`, above every state of `m`, as a
/// `StateAllocator` that issued the states of `m` would number them.
pub proof fn lemma_merge_order_irrelevant(
    m: DfaModel,
    n: nat,
    pa: Seq<char>,
    ta: Seq<char>,
    pb: Seq<char>,
    tb: Seq<char>,
    w: Seq<char>,
)
    requires
        m.states_below(n as usize),
        n + pa.len() + pb.len() <= usize::MAX,
    ensures
        ({
            let a = merge_two(m, n, pa, ta, pb, tb);
            let b = merge_two(m, n, pb, tb, pa, ta);
            &&& a.run(a.start, w) is Some <==> b.run(b.start, w) is Some
            &&& a.accepts(w) <==> b.accepts(w)
            &&& a.word_tokens(w) == b.word_tokens(w)
        }),
{
    let a = merge_two(m, n, pa, ta, pb, tb);
    let b = merge_two(m, n, pb, tb, pa, ta);
    lemma_runs_correspond(m, n, pa, ta, pb, tb, w);
    lemma_merge_two_shape(m, n, pa, ta, pb, tb);
    lemma_merge_two_shape(m, n, pb, tb, pa, ta);
    match a.run(a.start, w) {
        Some(x) => {
            let y = b.run(b.start, w)->0;
            let (r1, u1) = walk(m, m.start, pa);
            let (r2, u2) = walk(m, m.start, pb);
            lemma_merge_two_simulates(m, n, pa, ta, pb, tb, x, 'a');
            lemma_merge_two_simulates(m, n, pb, tb, pa, ta, y, 'a');
            let ad = addr(m, n, pa, pb, x);
            assert(ntokens(m, r1, u1, ta, r2, u2, tb, ad) =~= ntokens(m, r2, u2, tb, r1, u1, ta, ad));
        },
        None => {},
    }
}

} // verus!
