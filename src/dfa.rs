use vstd::prelude::*;
use std::collections::HashMap;
use vstd::std_specs::iter::IteratorSpec;

verus! {

broadcast use vstd::std_specs::hash::group_hash_axioms, vstd::string::group_string_axioms;

/// An automaton state: an opaque identifier issued by a `StateAllocator`.
#[derive(Clone, Copy, Debug, PartialEq, Eq, Hash)]
pub struct State(usize);

impl State {
    /// The identifier behind this state.
    pub closed spec fn id(self) -> usize {
        self.0
    }

    /// Issues a state that `alloc` has never issued before.
    pub fn new(alloc: &mut StateAllocator) -> (r: State)
        requires
            old(alloc)@ < usize::MAX,
        ensures
            r.id() == old(alloc)@,
            final(alloc)@ == old(alloc)@ + 1,
    {
        let r = State(alloc.next);
        alloc.next = alloc.next + 1;
        r
    }
}

/// Issues distinct states by counting upwards.
#[derive(Debug)]
pub struct StateAllocator {
    next: usize,
}

impl View for StateAllocator {
    type V = usize;

    /// The identifier of the next state to be issued; every state issued so far lies below it.
    closed spec fn view(&self) -> usize {
        self.next
    }
}

impl StateAllocator {
    /// An allocator that has issued nothing yet.
    pub fn new() -> (r: StateAllocator)
        ensures
            r@ == 0,
    {
        StateAllocator { next: 0 }
    }
}

/// The set of names held in a list of token names.
pub open spec fn names(v: Seq<String>) -> Set<Seq<char>> {
    v.map_values(|s: String| s@).to_set()
}

/// The mathematical content of an automaton: its start state, its partial
/// transition function and the token names accepted at each accepting state.
pub struct DfaModel {
    pub start: usize,
    pub delta: Map<(usize, char), usize>,
    pub accept: Map<usize, Set<Seq<char>>>,
}

impl DfaModel {
    /// The move from `q` on `c`, if there is one.
    pub open spec fn step(self, q: usize, c: char) -> Option<usize> {
        if self.delta.contains_key((q, c)) {
            Some(self.delta[(q, c)])
        } else {
            None
        }
    }

    /// The state reached from `q` by reading all of `w`, if every move exists.
    pub open spec fn run(self, q: usize, w: Seq<char>) -> Option<usize>
        decreases w.len(),
    {
        if w.len() == 0 {
            Some(q)
        } else {
            match self.run(q, w.drop_last()) {
                Some(p) => self.step(p, w.last()),
                None => None,
            }
        }
    }

    /// The token names accepted at `q` (empty where `q` is not accepting).
    pub open spec fn tokens_at(self, q: usize) -> Set<Seq<char>> {
        if self.accept.contains_key(q) {
            self.accept[q]
        } else {
            Set::empty()
        }
    }

    /// Whether reading `w` from the start ends in an accepting state.
    pub open spec fn accepts(self, w: Seq<char>) -> bool {
        match self.run(self.start, w) {
            Some(q) => self.accept.contains_key(q),
            None => false,
        }
    }

    /// The token names that the word `w` is recognised as.
    pub open spec fn word_tokens(self, w: Seq<char>) -> Set<Seq<char>> {
        match self.run(self.start, w) {
            Some(q) => self.tokens_at(q),
            None => Set::empty(),
        }
    }

    /// The length of the longest non-empty prefix of `w`, at most `k` long,
    /// that the automaton accepts; 0 where there is none.
    pub open spec fn longest_prefix(self, w: Seq<char>, k: nat) -> nat
        decreases k,
    {
        if k == 0 {
            0
        } else if k <= w.len() && self.accepts(w.take(k as int)) {
            k
        } else {
            self.longest_prefix(w, (k - 1) as nat)
        }
    }

    /// First-longest-match tokenization of `w`: the longest accepted prefix
    /// is emitted with its token names and scanning goes on right after it;
    /// where no non-empty prefix is accepted, scanning stops.
    pub open spec fn scan(self, w: Seq<char>) -> Seq<(Seq<char>, Set<Seq<char>>)>
        decreases w.len(),
    {
        if w.len() == 0 {
            Seq::empty()
        } else {
            let n = self.longest_prefix(w, w.len());
            if n == 0 {
                Seq::empty()
            } else {
                proof {
                    lemma_longest_prefix_bound(self, w, w.len());
                }
                seq![(w.take(n as int), self.word_tokens(w.take(n as int)))] + self.scan(
                    w.skip(n as int),
                )
            }
        }
    }

    /// Every state that the automaton mentions lies below `n`.
    pub open spec fn states_below(self, n: usize) -> bool {
        &&& self.start < n
        &&& forall|k: (usize, char)| #[trigger]
            self.delta.contains_key(k) ==> k.0 < n && self.delta[k] < n
        &&& forall|q: usize| #[trigger] self.accept.contains_key(q) ==> q < n
    }

    /// The same automaton with `t` added to the names accepted at `q`.
    pub open spec fn with_token(self, q: usize, t: Seq<char>) -> DfaModel {
        DfaModel { accept: self.accept.insert(q, self.tokens_at(q).insert(t)), ..self }
    }

    /// Merges the word `p` into the automaton, walking from `q`: existing
    /// moves are followed, and where a move is missing a state numbered `n`
    /// (then `n + 1`, ...) is installed. Yields the new automaton, the state
    /// where the walk ends, and the next unused number.
    pub open spec fn graft(self, q: usize, p: Seq<char>, n: nat) -> (DfaModel, usize, nat)
        decreases p.len(),
    {
        if p.len() == 0 {
            (self, q, n)
        } else if self.delta.contains_key((q, p[0])) {
            self.graft(self.delta[(q, p[0])], p.drop_first(), n)
        } else {
            let m = DfaModel { delta: self.delta.insert((q, p[0]), n as usize), ..self };
            m.graft(n as usize, p.drop_first(), n + 1)
        }
    }
}

/// A deterministic automaton whose missing moves mean "no move".
#[derive(Clone, Debug)]
pub struct DFA {
    end_states: HashMap<usize, Vec<String>>,
    start_state: State,
    transitions: HashMap<usize, HashMap<u32, usize>>,
}

impl View for DFA {
    type V = DfaModel;

    closed spec fn view(&self) -> DfaModel {
        DfaModel {
            start: self.start_state.0,
            delta: Map::new(
                |k: (usize, char)|
                    0 <= k.1 as int <= 0x10FFFF && self.transitions@.contains_key(k.0)
                        && self.transitions@[k.0]@.contains_key(k.1 as u32),
                |k: (usize, char)| self.transitions@[k.0]@[k.1 as u32],
            ),
            accept: Map::new(
                |q: usize| self.end_states@.contains_key(q),
                |q: usize| names(self.end_states@[q]@),
            ),
        }
    }
}

impl DFA {
    /// Each accepting state holds a non-empty list of distinct names.
    pub closed spec fn wf(&self) -> bool {
        forall|q: usize| #[trigger]
            self.end_states@.contains_key(q) ==> {
                let v = self.end_states@[q]@;
                v.len() > 0 && v.map_values(|s: String| s@).no_duplicates()
            }
    }

    /// An automaton with no moves and no accepting state.
    pub fn new(start_state: State) -> (r: DFA)
        ensures
            r.wf(),
            r@ == (DfaModel { start: start_state.id(), delta: Map::empty(), accept: Map::empty() }),
    {
        let r = DFA { end_states: HashMap::new(), start_state: start_state, transitions: HashMap::new() };
        assert(r@.delta =~= Map::empty());
        assert(r@.accept =~= Map::empty());
        r
    }

    /// The start state.
    pub fn get_start_state(&self) -> (r: State)
        ensures
            r.id() == self@.start,
    {
        self.start_state
    }

    /// Installs the move from `from` on `with` to `to`, replacing any move
    /// from `from` on `with`.
    pub fn add_transition(&mut self, from: State, with: char, to: State)
        ensures
            final(self).wf() == old(self).wf(),
            final(self)@ == (DfaModel {
                delta: old(self)@.delta.insert((from.id(), with), to.id()),
                ..old(self)@
            }),
    {
        let ghost pre = self@;
        let mut row = match self.transitions.remove(&from.0) {
            Some(m) => m,
            None => HashMap::new(),
        };
        row.insert(with as u32, to.0);
        self.transitions.insert(from.0, row);
        assert forall|k: (usize, char)|
            self@.delta.contains_key(k) == pre.delta.insert((from.id(), with), to.id()).contains_key(k)
            && (self@.delta.contains_key(k) ==> self@.delta[k] == pre.delta.insert((from.id(), with), to.id())[k])
        by {
            assert(0 <= k.1 as int <= 0x10FFFF && k.1 as u32 == with as u32 ==> k.1 == with);
        }
        assert(self@.delta =~= pre.delta.insert((from.id(), with), to.id()));
        assert(self@.accept =~= pre.accept);
    }

    /// Adds `token` to the names accepted at `s`; names already there stay.
    pub fn mark_end_state(&mut self, s: State, token: &str)
        requires
            old(self).wf(),
        ensures
            final(self).wf(),
            final(self)@ == old(self)@.with_token(s.id(), token@),
    {
        let ghost pre = self@;
        let ghost pre_ends = self.end_states@;
        let t = token.to_owned();
        let mut list = match self.end_states.remove(&s.0) {
            Some(v) => v,
            None => Vec::new(),
        };
        let ghost before = list@;
        assert(pre_ends.contains_key(s.0) ==> before == pre_ends[s.0]@);
        let mut present = false;
        let mut i: usize = 0;
        while i < list.len()
            invariant
                i <= list.len(),
                list@ == before,
                present <==> exists|j: int| 0 <= j < i && (#[trigger] list@[j])@ == t@,
            decreases list.len() - i,
        {
            if list[i] == t {
                present = true;
            }
            i = i + 1;
        }
        proof {
            let f = |x: String| x@;
            assert(names(before) == before.map_values(f).to_set());
            if present {
                let j = choose|j: int| 0 <= j < before.len() && (#[trigger] before[j])@ == t@;
                assert(before.map_values(f)[j] == t@);
            }
        }
        if !present {
            list.push(t);
            proof {
                let f = |x: String| x@;
                assert(list@.map_values(f) =~= before.map_values(f).push(t@));
                before.map_values(f).lemma_push_to_set_commute(t@);
                assert forall|a: int, b: int|
                    0 <= a < list@.len() && 0 <= b < list@.len() && a != b implies
                    list@.map_values(f)[a] != list@.map_values(f)[b] by {
                    if a < before.len() && b < before.len() {
                        assert(before.map_values(f)[a] == list@.map_values(f)[a]);
                        assert(before.map_values(f)[b] == list@.map_values(f)[b]);
                    } else if a == before.len() {
                        assert(list@[b] == before[b]);
                    } else {
                        assert(list@[a] == before[a]);
                    }
                }
            }
        }
        self.end_states.insert(s.0, list);
        proof {
            let post = self@;
            let want = pre.with_token(s.id(), token@);
            assert(names(before).insert(t@) =~= names(list@)) by {
                let f = |x: String| x@;
                if present {
                    assert(names(before).contains(t@));
                } else {
                    before.map_values(f).lemma_push_to_set_commute(t@);
                    assert(list@.map_values(f) =~= before.map_values(f).push(t@));
                }
            }
            assert(pre.tokens_at(s.0) == names(before)) by {
                if !pre_ends.contains_key(s.0) {
                    assert(before.map_values(|x: String| x@).to_set() =~= Set::empty());
                }
            }
            assert(post.accept =~= want.accept);
            assert(post.delta =~= want.delta);
        }
    }

    /// Merges the pattern `with` into the automaton so that reading it from
    /// the start ends in a state that accepts `token`. Existing moves are
    /// followed; where one is missing, a fresh state from `alloc` is
    /// installed.
    pub fn extend_with(&mut self, alloc: &mut StateAllocator, with: &str, token: &str)
        requires
            old(self).wf(),
            old(alloc)@ + with@.len() <= usize::MAX,
        ensures
            final(self).wf(),
            ({
                let (m, e, n) = old(self)@.graft(old(self)@.start, with@, old(alloc)@ as nat);
                &&& final(self)@ == m.with_token(e, token@)
                &&& final(alloc)@ == n
            }),
            old(self)@.states_below(old(alloc)@) ==> final(self)@.states_below(final(alloc)@),
    {
        let word = symbols(with);
        let mut cur: usize = self.start_state.0;
        let mut i: usize = 0;
        assert(with@.skip(0) =~= with@);
        while i < word.len()
            invariant
                self.wf(),
                i <= word.len(),
                word@ == with@,
                self@.start == old(self)@.start,
                alloc@ + (word@.len() - i) <= usize::MAX,
                old(self)@.graft(old(self)@.start, with@, old(alloc)@ as nat) == self@.graft(
                    cur,
                    with@.skip(i as int),
                    alloc@ as nat,
                ),
            decreases word.len() - i,
        {
            let c = word[i];
            let ghost rest = with@.skip(i as int);
            assert(rest[0] == c);
            assert(rest.drop_first() =~= with@.skip(i + 1));
            let next = match self.next_state(cur, c) {
                Some(t) => t,
                None => {
                    let t = State::new(alloc);
                    self.add_transition(State(cur), c, t);
                    t.0
                },
            };
            cur = next;
            i = i + 1;
        }
        assert(with@.skip(i as int).len() == 0);
        self.mark_end_state(State(cur), token);
        proof {
            if old(self)@.states_below(old(alloc)@) {
                lemma_graft_fresh(old(self)@, old(self)@.start, with@, old(alloc)@ as nat);
            }
        }
    }

    /// The move from `from` on `c`, if there is one.
    fn next_state(&self, from: usize, c: char) -> (r: Option<usize>)
        ensures
            r == self@.step(from, c),
    {
        match self.transitions.get(&from) {
            Some(row) => match row.get(&(c as u32)) {
                Some(t) => Some(*t),
                None => None,
            },
            None => None,
        }
    }
}

/// The characters of `s`, in order.
pub(crate) fn symbols(s: &str) -> (r: Vec<char>)
    ensures
        r@ == s@,
{
    let mut r: Vec<char> = Vec::new();
    let mut it = s.chars();
    loop
        invariant
            r@ + IteratorSpec::remaining(&it) == s@,
            IteratorSpec::decrease(&it) is Some,
        decreases IteratorSpec::decrease(&it)->0,
    {
        match it.next() {
            Some(c) => {
                r.push(c);
            },
            None => {
                return r;
            },
        }
    }
}

/// Merging a word keeps the start, the accept table and every existing
/// move; it only numbers new states from `n` upwards.
pub proof fn lemma_graft_fresh(m: DfaModel, q: usize, p: Seq<char>, n: nat)
    requires
        m.states_below(n as usize),
        q < n,
        n + p.len() <= usize::MAX,
    ensures
        ({
            let (g, e, n2) = m.graft(q, p, n);
            &&& g.states_below(n2 as usize)
            &&& e < n2
            &&& n <= n2 <= n + p.len()
            &&& g.start == m.start
            &&& g.accept == m.accept
            &&& m.delta.submap_of(g.delta)
        }),
    decreases p.len(),
{
    if p.len() > 0 {
        if m.delta.contains_key((q, p[0])) {
            lemma_graft_fresh(m, m.delta[(q, p[0])], p.drop_first(), n);
        } else {
            let m1 = DfaModel { delta: m.delta.insert((q, p[0]), n as usize), ..m };
            assert(m1.states_below((n + 1) as usize));
            assert(m.delta.submap_of(m1.delta));
            lemma_graft_fresh(m1, n as usize, p.drop_first(), n + 1);
            let g = m1.graft(n as usize, p.drop_first(), n + 1).0;
            assert forall|k: (usize, char)| #[trigger] m.delta.contains_key(k) implies g.delta.contains_key(k)
                && g.delta[k] == m.delta[k] by {
                assert(m1.delta.submap_of(g.delta));
                assert(m1.delta.dom().contains(k));
                assert(m1.delta[k] == m.delta[k]);
                assert(g.delta.dom().contains(k));
            }
        }
    }
}

/// The longest accepted prefix is no longer than the bound, and where it
/// exists it fits in the word and is accepted.
pub proof fn lemma_longest_prefix_bound(m: DfaModel, w: Seq<char>, k: nat)
    ensures
        m.longest_prefix(w, k) <= k,
        m.longest_prefix(w, k) > 0 ==> m.longest_prefix(w, k) <= w.len() && m.accepts(
            w.take(m.longest_prefix(w, k) as int),
        ),
    decreases k,
{
    if k > 0 {
        lemma_longest_prefix_bound(m, w, (k - 1) as nat);
    }
}

/// Once a run gets stuck, reading more never unsticks it.
proof fn lemma_run_stuck(m: DfaModel, q: usize, w: Seq<char>, k: int, l: int)
    requires
        0 <= k <= l <= w.len(),
        m.run(q, w.take(k)) is None,
    ensures
        m.run(q, w.take(l)) is None,
    decreases l - k,
{
    if k < l {
        lemma_run_stuck(m, q, w, k, l - 1);
        assert(w.take(l).drop_last() =~= w.take(l - 1));
    }
}

/// Bounds past which nothing is accepted do not change the longest prefix.
proof fn lemma_longest_prefix_stalls(m: DfaModel, w: Seq<char>, k: nat, j: nat)
    requires
        k <= j,
        forall|l: nat| k < l <= j && l <= w.len() ==> !m.accepts(#[trigger] w.take(l as int)),
    ensures
        m.longest_prefix(w, j) == m.longest_prefix(w, k),
    decreases j,
{
    if k < j {
        lemma_longest_prefix_stalls(m, w, k, (j - 1) as nat);
    }
}

/// The view of a list of matches: each text with its set of token names.
pub open spec fn match_view(r: Seq<(String, Vec<String>)>) -> Seq<(Seq<char>, Set<Seq<char>>)> {
    r.map_values(|x: (String, Vec<String>)| (x.0@, names(x.1@)))
}

/// A copy of a list of names.
fn copy_names(v: &Vec<String>) -> (r: Vec<String>)
    ensures
        r@ == v@,
{
    let mut r: Vec<String> = Vec::new();
    let mut j: usize = 0;
    while j < v.len()
        invariant
            j <= v.len(),
            r@ == v@.take(j as int),
        decreases v.len() - j,
    {
        r.push(v[j].clone());
        assert(r@ =~= v@.take(j + 1));
        j = j + 1;
    }
    assert(r@ =~= v@);
    r
}

impl DFA {
    /// Scans `input` by first-longest-match: from the current position the
    /// longest prefix that ends in an accepting state is emitted together
    /// with all token names of that state, and scanning resumes right after
    /// it. Where no non-empty prefix is accepted, the matches so far are
    /// returned.
    pub fn first_longest_match(&self, input: &str) -> (r: Vec<(String, Vec<String>)>)
        requires
            self.wf(),
        ensures
            match_view(r@) == self@.scan(input@),
            forall|j: int|
                0 <= j < r@.len() ==> (#[trigger] r@[j]).1@.map_values(|s: String| s@).no_duplicates(),
    {
        let ghost m = self@;
        let ghost w = input@;
        let word = symbols(input);
        let n = word.len();
        let mut results: Vec<(String, Vec<String>)> = Vec::new();
        let mut pos: usize = 0;
        assert(w.skip(0) =~= w);
        while pos < n
            invariant
                self.wf(),
                m == self@,
                word@ == w,
                input@ == w,
                n == w.len(),
                pos <= n,
                match_view(results@) + m.scan(w.skip(pos as int)) == m.scan(w),
                forall|j: int|
                    0 <= j < results@.len() ==> (#[trigger] results@[j]).1@.map_values(
                        |s: String| s@,
                    ).no_duplicates(),
            decreases n - pos,
        {
            let ghost rest = w.skip(pos as int);
            let mut q: usize = self.start_state.0;
            let mut i: usize = pos;
            let mut best: usize = pos;
            let mut best_tokens: Vec<String> = Vec::new();
            assert(rest.take(0) =~= Seq::<char>::empty());
            while i < n
                invariant
                    self.wf(),
                    m == self@,
                    word@ == w,
                    n == w.len(),
                    rest == w.skip(pos as int),
                    pos <= best <= i <= n,
                    m.run(m.start, rest.take(i - pos)) == Some(q),
                    best - pos == m.longest_prefix(rest, (i - pos) as nat),
                    best > pos ==> names(best_tokens@) == m.word_tokens(rest.take(best - pos)),
                    best_tokens@.map_values(|s: String| s@).no_duplicates(),
                ensures
                    pos <= best <= i <= n,
                    best - pos == m.longest_prefix(rest, rest.len()),
                    best > pos ==> names(best_tokens@) == m.word_tokens(rest.take(best - pos)),
                    best_tokens@.map_values(|s: String| s@).no_duplicates(),
                decreases n - i,
            {
                let c = word[i];
                assert(rest.take(i - pos + 1).drop_last() =~= rest.take(i - pos));
                assert(rest.take(i - pos + 1).last() == c);
                match self.next_state(q, c) {
                    Some(t) => {
                        q = t;
                        i = i + 1;
                        match self.end_states.get(&q) {
                            Some(v) => {
                                best = i;
                                best_tokens = copy_names(v);
                            },
                            None => {},
                        }
                    },
                    None => {
                        proof {
                            assert forall|l: nat|
                                i - pos < l <= rest.len() implies
                                !m.accepts(#[trigger] rest.take(l as int)) by {
                                lemma_run_stuck(m, m.start, rest, i - pos + 1, l as int);
                            }
                            lemma_longest_prefix_stalls(m, rest, (i - pos) as nat, rest.len());
                        }
                        break;
                    },
                }
            }
            if best == pos {
                assert(m.scan(rest) =~= Seq::empty());
                assert(match_view(results@) + Seq::empty() =~= match_view(results@));
                return results;
            }
            let text = input.substring_char(pos, best).to_owned();
            let ghost prev = results@;
            results.push((text, best_tokens));
            proof {
                let b = best - pos;
                lemma_longest_prefix_bound(m, rest, rest.len());
                assert(rest.take(b) =~= w.subrange(pos as int, best as int));
                assert(rest.skip(b) =~= w.skip(best as int));
                assert(match_view(results@) =~= match_view(results@.drop_last()).push(
                    (rest.take(b), m.word_tokens(rest.take(b))),
                ));
                assert(results@.drop_last() =~= prev);
            }
            pos = best;
        }
        assert(w.skip(n as int).len() == 0);
        assert(match_view(results@) =~= m.scan(w));
        results
    }
}

} // verus!
