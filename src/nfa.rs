use vstd::prelude::*;
use std::collections::HashSet;

verus! {

broadcast use vstd::std_specs::hash::group_hash_axioms;

/// A nondeterministic automaton: a set of moves (from, symbol, to), where one
/// state may move to several states on the same symbol.
pub struct NFA {
    transitions: Vec<(u64, String, u64)>,
}

/// The states reachable in one move on `a` from some state of `from`.
pub open spec fn successors(rel: Set<(u64, Seq<char>, u64)>, from: Set<u64>, a: Seq<char>) -> Set<u64> {
    Set::new(|t: u64| exists|s: u64| from.contains(s) && rel.contains((s, a, t)))
}

/// The states the automaton can be in after reading the symbols `w` from the states `from`.
pub open spec fn reachable(rel: Set<(u64, Seq<char>, u64)>, from: Set<u64>, w: Seq<Seq<char>>) -> Set<u64>
    decreases w.len(),
{
    if w.len() == 0 {
        from
    } else {
        successors(rel, reachable(rel, from, w.drop_last()), w.last())
    }
}

impl View for NFA {
    type V = Set<(u64, Seq<char>, u64)>;

    closed spec fn view(&self) -> Set<(u64, Seq<char>, u64)> {
        self.transitions@.map_values(|t: (u64, String, u64)| (t.0, t.1@, t.2)).to_set()
    }
}

/// Whether `v` holds `x`.
fn holds(v: &Vec<u64>, x: u64) -> (r: bool)
    ensures
        r == v@.contains(x),
{
    let mut i: usize = 0;
    while i < v.len()
        invariant
            i <= v.len(),
            forall|j: int| 0 <= j < i ==> v@[j] != x,
        decreases v.len() - i,
    {
        if v[i] == x {
            return true;
        }
        i = i + 1;
    }
    false
}

impl NFA {
    /// An automaton without moves.
    pub fn new() -> (r: NFA)
        ensures
            r@ == Set::<(u64, Seq<char>, u64)>::empty(),
    {
        let r = NFA { transitions: Vec::new() };
        assert(r@ =~= Set::empty());
        r
    }

    /// Adds the move from `from` on `with` to `to`.
    pub fn add_transition(&mut self, from: u64, with: &str, to: u64)
        ensures
            final(self)@ == old(self)@.insert((from, with@, to)),
    {
        let ghost f = |t: (u64, String, u64)| (t.0, t.1@, t.2);
        let ghost before = self.transitions@;
        self.transitions.push((from, with.to_owned(), to));
        proof {
            assert(self.transitions@.map_values(f) =~= before.map_values(f).push((from, with@, to)));
            before.map_values(f).lemma_push_to_set_commute((from, with@, to));
        }
    }

    /// The states reached in one move on `a` from a state of `cur`, each once.
    fn step(&self, cur: &Vec<u64>, a: &str) -> (r: Vec<u64>)
        ensures
            r@.to_set() == successors(self@, cur@.to_set(), a@),
            r@.no_duplicates(),
    {
        let ghost f = |t: (u64, String, u64)| (t.0, t.1@, t.2);
        let sym = a.to_owned();
        let mut next: Vec<u64> = Vec::new();
        let mut k: usize = 0;
        while k < self.transitions.len()
            invariant
                k <= self.transitions.len(),
                sym@ == a@,
                next@.no_duplicates(),
                forall|t: u64|
                    next@.contains(t) <==> exists|j: int|
                        0 <= j < k && (#[trigger] self.transitions@[j]).1@ == a@
                            && cur@.contains(self.transitions@[j].0) && self.transitions@[j].2 == t,
            decreases self.transitions.len() - k,
        {
            let s = self.transitions[k].0;
            let t = self.transitions[k].2;
            let hit = self.transitions[k].1 == sym && holds(cur, s);
            let ghost before = next@;
            if hit && !holds(&next, t) {
                next.push(t);
            }
            proof {
                assert forall|u: u64| next@.contains(u) <==> (before.contains(u) || (hit && u == t)) by {
                    if next@.len() > before.len() {
                        assert(next@ == before.push(t));
                        if next@.contains(u) && !before.contains(u) {
                            let j = choose|j: int| 0 <= j < next@.len() && next@[j] == u;
                            assert(j == before.len());
                        }
                        if before.contains(u) {
                            let j = choose|j: int| 0 <= j < before.len() && before[j] == u;
                            assert(next@[j] == u);
                        }
                        assert(next@[before.len() as int] == t);
                    }
                }
                assert forall|u: u64| next@.contains(u) <==> exists|j: int|
                    0 <= j < k + 1 && (#[trigger] self.transitions@[j]).1@ == a@
                        && cur@.contains(self.transitions@[j].0) && self.transitions@[j].2 == u by {
                    if next@.contains(u) {
                        if before.contains(u) {
                            let j = choose|j: int|
                                0 <= j < k && (#[trigger] self.transitions@[j]).1@ == a@
                                    && cur@.contains(self.transitions@[j].0) && self.transitions@[j].2 == u;
                            assert(0 <= j < k + 1);
                        } else {
                            assert(self.transitions@[k as int].1@ == a@);
                            assert(cur@.contains(self.transitions@[k as int].0));
                        }
                    }
                    if exists|j: int|
                        0 <= j < k + 1 && (#[trigger] self.transitions@[j]).1@ == a@
                            && cur@.contains(self.transitions@[j].0) && self.transitions@[j].2 == u {
                        let j = choose|j: int|
                            0 <= j < k + 1 && (#[trigger] self.transitions@[j]).1@ == a@
                                && cur@.contains(self.transitions@[j].0) && self.transitions@[j].2 == u;
                        if j == k {
                            assert(hit && u == t);
                        } else {
                            assert(before.contains(u));
                        }
                    }
                }
                if hit && !before.contains(t) {
                    assert(next@.no_duplicates()) by {
                        assert forall|x: int, y: int| 0 <= x < y < next@.len() implies next@[x] != next@[y] by {
                            if y == before.len() {
                                assert(before[x] == next@[x]);
                            }
                        }
                    }
                }
            }
            k = k + 1;
        }
        proof {
            assert forall|u: u64| next@.to_set().contains(u) <==> successors(self@, cur@.to_set(), a@).contains(u) by {
                if next@.contains(u) {
                    let j = choose|j: int|
                        0 <= j < k && (#[trigger] self.transitions@[j]).1@ == a@
                            && cur@.contains(self.transitions@[j].0) && self.transitions@[j].2 == u;
                    assert(self.transitions@.map_values(f)[j] == (self.transitions@[j].0, a@, u));
                    assert(cur@.to_set().contains(self.transitions@[j].0));
                }
                if successors(self@, cur@.to_set(), a@).contains(u) {
                    let s = choose|s: u64| cur@.to_set().contains(s) && self@.contains((s, a@, u));
                    let j = choose|j: int| 0 <= j < self.transitions@.map_values(f).len()
                        && self.transitions@.map_values(f)[j] == (s, a@, u);
                    assert(self.transitions@[j].1@ == a@);
                }
            }
            assert(next@.to_set() =~= successors(self@, cur@.to_set(), a@));
        }
        next
    }

    /// The set of states the automaton can be in after reading `with`,
    /// starting from `from`.
    pub fn simulate(&self, from: u64, with: &[&str]) -> (r: HashSet<u64>)
        ensures
            r@ == reachable(self@, set![from], with@.map_values(|a: &str| a@)),
    {
        let ghost w = with@.map_values(|a: &str| a@);
        let mut cur: Vec<u64> = Vec::new();
        cur.push(from);
        assert(cur@.to_set() =~= set![from]) by {
            assert(cur@[0] == from);
        }
        assert(w.take(0) =~= Seq::<Seq<char>>::empty());
        let mut i: usize = 0;
        while i < with.len()
            invariant
                i <= with@.len(),
                w == with@.map_values(|a: &str| a@),
                cur@.to_set() == reachable(self@, set![from], w.take(i as int)),
            decreases with.len() - i,
        {
            cur = self.step(&cur, with[i]);
            assert(w.take(i + 1).drop_last() =~= w.take(i as int));
            i = i + 1;
        }
        assert(w.take(i as int) =~= w);
        let mut r: HashSet<u64> = HashSet::new();
        let mut j: usize = 0;
        while j < cur.len()
            invariant
                j <= cur.len(),
                r@ == cur@.take(j as int).to_set(),
            decreases cur.len() - j,
        {
            r.insert(cur[j]);
            proof {
                assert(cur@.take(j + 1) =~= cur@.take(j as int).push(cur@[j as int]));
                cur@.take(j as int).lemma_push_to_set_commute(cur@[j as int]);
            }
            j = j + 1;
        }
        assert(cur@.take(j as int) =~= cur@);
        r
    }
}

} // verus!
