//! The keyword automaton: a prefix trie over characters.  Each node records
//! whether some keyword ends there and its outgoing transitions, and owns
//! its children.  A trie is built once by inserting every keyword as a path
//! from the root; matching then walks transitions as far as they exist.

use vstd::prelude::*;

verus! {

/// One trie node.  `trans` maps a character to the child reached on it;
/// lookups take the first entry with the character, and insertion never
/// creates a second entry for the same character.
#[derive(Debug, PartialEq)]
pub struct State {
    pub is_end_state: bool,
    pub trans: Vec<(char, State)>,
}

/// The child reached from transition entries `ts` on character `c`: the
/// second component of the first entry whose first component is `c`.
pub open spec fn step(ts: Seq<(char, State)>, c: char) -> Option<State>
    decreases ts.len(),
{
    if ts.len() == 0 {
        None
    } else if ts[0].0 == c {
        Some(ts[0].1)
    } else {
        step(ts.drop_first(), c)
    }
}

/// Whether the trie rooted at `s` accepts the word `w`: the path spelled
/// by `w` exists and ends on a node marked as an end state.
pub open spec fn accepts(s: State, w: Seq<char>) -> bool
    decreases w.len(),
{
    if w.len() == 0 {
        s.is_end_state
    } else {
        match step(s.trans@, w[0]) {
            Some(t) => accepts(t, w.drop_first()),
            None => false,
        }
    }
}

/// The greedy walk from node `s` over `text` starting at `pos`: follow the
/// transition for the current character as long as one exists, and return
/// the node and position where the walk stops.  There is no backtracking:
/// acceptance is judged only at the final node.
pub open spec fn walk(s: State, text: Seq<char>, pos: int) -> (State, int)
    decreases text.len() - pos,
{
    if pos < text.len() {
        match step(s.trans@, text[pos]) {
            Some(t) => walk(t, text, pos + 1),
            None => (s, pos),
        }
    } else {
        (s, pos)
    }
}

/// Whether the path spelled by `w` exists in the trie rooted at `s`:
/// every character of `w` has a transition from the node reached so far.
pub open spec fn has_path(s: State, w: Seq<char>) -> bool
    decreases w.len(),
{
    if w.len() == 0 {
        true
    } else {
        match step(s.trans@, w[0]) {
            Some(t) => has_path(t, w.drop_first()),
            None => false,
        }
    }
}

/// The node reached by following the path `w` from `s`; meaningful only
/// where `has_path(s, w)` holds.
pub open spec fn node_at(s: State, w: Seq<char>) -> State
    decreases w.len(),
{
    if w.len() == 0 {
        s
    } else {
        match step(s.trans@, w[0]) {
            Some(t) => node_at(t, w.drop_first()),
            None => s,
        }
    }
}

/// Whether `p` is a prefix of `w`.
pub open spec fn is_prefix_of(p: Seq<char>, w: Seq<char>) -> bool {
    p.len() <= w.len() && p == w.subrange(0, p.len() as int)
}

/// No two entries of a transition list carry the same character.
pub open spec fn entries_unique(ts: Seq<(char, State)>) -> bool {
    forall|j: int, k: int| 0 <= j < k < ts.len() ==> ts[j].0 != ts[k].0
}

/// Every node of the trie keeps one transition entry per character.
pub open spec fn wf_trie(s: State) -> bool {
    forall|w: Seq<char>| #[trigger] has_path(s, w) ==> entries_unique(node_at(s, w).trans@)
}

/// `step` returns the entry at the first index matching `c`.
pub(crate) proof fn lemma_step_first_match(ts: Seq<(char, State)>, c: char, i: int)
    requires
        0 <= i < ts.len(),
        ts[i].0 == c,
        forall|j: int| 0 <= j < i ==> ts[j].0 != c,
    ensures
        step(ts, c) == Some(ts[i].1),
    decreases i,
{
    if i > 0 {
        lemma_step_first_match(ts.drop_first(), c, i - 1);
    }
}

/// Without a matching entry, `step` returns nothing.
pub(crate) proof fn lemma_step_none(ts: Seq<(char, State)>, c: char)
    requires
        forall|j: int| 0 <= j < ts.len() ==> ts[j].0 != c,
    ensures
        step(ts, c) is None,
    decreases ts.len(),
{
    if ts.len() > 0 {
        lemma_step_none(ts.drop_first(), c);
    }
}

/// `step` on `d` agrees between two entry lists with the same characters
/// whose entries for `d` carry equal children.
proof fn lemma_step_agree(ts1: Seq<(char, State)>, ts2: Seq<(char, State)>, d: char)
    requires
        ts1.len() == ts2.len(),
        forall|j: int| 0 <= j < ts1.len() ==> ts1[j].0 == ts2[j].0,
        forall|j: int| 0 <= j < ts1.len() && ts1[j].0 == d ==> ts1[j].1 == ts2[j].1,
    ensures
        step(ts1, d) == step(ts2, d),
    decreases ts1.len(),
{
    if ts1.len() > 0 && ts1[0].0 != d {
        assert forall|j: int| 0 <= j < ts1.drop_first().len() implies ts1.drop_first()[j].0
            == ts2.drop_first()[j].0 by {
            assert(ts1.drop_first()[j] == ts1[j + 1]);
            assert(ts2.drop_first()[j] == ts2[j + 1]);
        }
        assert forall|j: int|
            0 <= j < ts1.drop_first().len() && ts1.drop_first()[j].0 == d implies ts1.drop_first()[
            j
        ].1 == ts2.drop_first()[j].1 by {
            assert(ts1.drop_first()[j] == ts1[j + 1]);
            assert(ts2.drop_first()[j] == ts2[j + 1]);
        }
        lemma_step_agree(ts1.drop_first(), ts2.drop_first(), d);
    }
}

/// Appending an entry for another character does not change `step` on `d`.
proof fn lemma_step_push(ts: Seq<(char, State)>, e: (char, State), d: char)
    requires
        e.0 != d,
    ensures
        step(ts.push(e), d) == step(ts, d),
    decreases ts.len(),
{
    if ts.len() == 0 {
        assert(ts.push(e)[0] == e);
        assert(ts.push(e).drop_first() =~= ts);
    } else {
        assert(ts.push(e)[0] == ts[0]);
        assert(ts.push(e).drop_first() =~= ts.drop_first().push(e));
        lemma_step_push(ts.drop_first(), e, d);
    }
}

/// For a word starting with the character at `kw[from]`, being the suffix
/// `kw.skip(from)` is the same as its tail being the next suffix.
proof fn lemma_skip_cons(kw: Seq<char>, from: int, w: Seq<char>)
    requires
        0 <= from < kw.len(),
        w.len() > 0,
        w[0] == kw[from],
    ensures
        (w == kw.skip(from)) <==> (w.drop_first() == kw.skip(from + 1)),
{
    assert(kw.skip(from).drop_first() =~= kw.skip(from + 1));
    if w.drop_first() == kw.skip(from + 1) {
        assert forall|k: int| 0 <= k < w.len() implies w[k] == kw.skip(from)[k] by {
            if k > 0 {
                assert(w[k] == w.drop_first()[k - 1]);
                assert(kw.skip(from + 1)[k - 1] == kw[from + k]);
            }
        }
        assert(w =~= kw.skip(from));
    }
}

/// Prepending the character of a taken transition moves `has_path` and
/// `node_at` one step down the trie.
proof fn lemma_cons(s: State, t: State, c: char, p: Seq<char>)
    requires
        step(s.trans@, c) == Some(t),
    ensures
        has_path(s, seq![c] + p) == has_path(t, p),
        node_at(s, seq![c] + p) == node_at(t, p),
{
    assert((seq![c] + p)[0] == c);
    assert((seq![c] + p).drop_first() =~= p);
}

/// One more character extends a path exactly when the node it reaches
/// has a transition for it, and acceptance at a path is the end mark of
/// the node it reaches.
proof fn lemma_snoc(s: State, p: Seq<char>, c: char)
    requires
        has_path(s, p),
    ensures
        has_path(s, p.push(c)) == (step(node_at(s, p).trans@, c) is Some),
        match step(node_at(s, p).trans@, c) {
            Some(t) => has_path(s, p.push(c)) && node_at(s, p.push(c)) == t,
            None => true,
        },
    decreases p.len(),
{
    if p.len() == 0 {
        assert(p.push(c)[0] == c);
        assert(p.push(c).drop_first() =~= Seq::<char>::empty());
        assert(node_at(s, p) == s);
        match step(s.trans@, c) {
            Some(t) => {
                assert(has_path(t, p.push(c).drop_first()));
                assert(node_at(t, p.push(c).drop_first()) == t);
                assert(has_path(s, p.push(c)));
                assert(node_at(s, p.push(c)) == t);
            },
            None => {
                assert(!has_path(s, p.push(c)));
            },
        }
    } else {
        assert(p.push(c)[0] == p[0]);
        assert(p.push(c).drop_first() =~= p.drop_first().push(c));
        match step(s.trans@, p[0]) {
            Some(t0) => {
                lemma_snoc(t0, p.drop_first(), c);
                assert(node_at(s, p) == node_at(t0, p.drop_first()));
                assert(has_path(s, p.push(c)) == has_path(t0, p.drop_first().push(c)));
                assert(node_at(s, p.push(c)) == node_at(t0, p.drop_first().push(c)));
            },
            None => {
                assert(false);
            },
        }
    }
}

/// Acceptance at a path is the end mark of the node the path reaches.
proof fn lemma_node_at_end(s: State, p: Seq<char>)
    requires
        has_path(s, p),
    ensures
        accepts(s, p) == node_at(s, p).is_end_state,
    decreases p.len(),
{
    if p.len() > 0 {
        match step(s.trans@, p[0]) {
            Some(t) => {
                lemma_node_at_end(t, p.drop_first());
            },
            None => {
                assert(false);
            },
        }
    }
}

/// For a word starting with the character at `kw[from]`, being a prefix
/// of the suffix `kw.skip(from)` is the same as its tail being a prefix
/// of the next suffix.
proof fn lemma_prefix_cons(kw: Seq<char>, from: int, w: Seq<char>)
    requires
        0 <= from < kw.len(),
        w.len() > 0,
        w[0] == kw[from],
    ensures
        is_prefix_of(w, kw.skip(from)) <==> is_prefix_of(w.drop_first(), kw.skip(from + 1)),
{
    if is_prefix_of(w, kw.skip(from)) {
        assert forall|t: int| 0 <= t < w.len() - 1 implies w.drop_first()[t] == kw.skip(
            from + 1,
        ).subrange(0, w.len() - 1)[t] by {
            assert(w[t + 1] == kw.skip(from).subrange(0, w.len() as int)[t + 1]);
        }
        assert(w.drop_first() =~= kw.skip(from + 1).subrange(0, w.len() - 1));
    }
    if is_prefix_of(w.drop_first(), kw.skip(from + 1)) {
        assert forall|t: int| 0 <= t < w.len() implies w[t] == kw.skip(from).subrange(
            0,
            w.len() as int,
        )[t] by {
            if t > 0 {
                assert(w[t] == w.drop_first()[t - 1]);
                assert(w.drop_first()[t - 1] == kw.skip(from + 1).subrange(
                    0,
                    w.len() - 1,
                )[t - 1]);
            }
        }
        assert(w =~= kw.skip(from).subrange(0, w.len() as int));
    }
}

/// The empty word is a prefix of every word.
proof fn lemma_empty_prefix(w: Seq<char>)
    ensures
        is_prefix_of(Seq::<char>::empty(), w),
{
    assert(Seq::<char>::empty() =~= w.subrange(0, 0));
}

/// Walk agreement below a common path: two tries that agree on accepted
/// words and on existing paths walk alike from the node each reaches by
/// `p`.
proof fn lemma_walk_agree_at(s1: State, s2: State, text: Seq<char>, pos: int, p: Seq<char>)
    requires
        forall|w: Seq<char>| #[trigger] accepts(s1, w) == accepts(s2, w),
        forall|w: Seq<char>| #[trigger] has_path(s1, w) == has_path(s2, w),
        has_path(s1, p),
        0 <= pos <= text.len(),
    ensures
        walk(node_at(s1, p), text, pos).1 == walk(node_at(s2, p), text, pos).1,
        walk(node_at(s1, p), text, pos).0.is_end_state == walk(
            node_at(s2, p),
            text,
            pos,
        ).0.is_end_state,
    decreases text.len() - pos,
{
    lemma_node_at_end(s1, p);
    lemma_node_at_end(s2, p);
    if pos < text.len() {
        let c = text[pos];
        lemma_snoc(s1, p, c);
        lemma_snoc(s2, p, c);
        if has_path(s1, p.push(c)) {
            lemma_walk_agree_at(s1, s2, text, pos + 1, p.push(c));
        } else {
            assert(step(node_at(s1, p).trans@, c) is None);
            assert(step(node_at(s2, p).trans@, c) is None);
        }
    }
}

/// Law: the accepted words and the existing paths determine the walk.
/// Two tries that agree on both stop every walk at the same position
/// with the same verdict, so they drive the scanner identically.
pub proof fn lemma_walk_agree(s1: State, s2: State, text: Seq<char>, pos: int)
    requires
        forall|w: Seq<char>| #[trigger] accepts(s1, w) == accepts(s2, w),
        forall|w: Seq<char>| #[trigger] has_path(s1, w) == has_path(s2, w),
        0 <= pos <= text.len(),
    ensures
        walk(s1, text, pos).1 == walk(s2, text, pos).1,
        walk(s1, text, pos).0.is_end_state == walk(s2, text, pos).0.is_end_state,
{
    lemma_walk_agree_at(s1, s2, text, pos, Seq::<char>::empty());
    assert(node_at(s1, Seq::<char>::empty()) == s1);
    assert(node_at(s2, Seq::<char>::empty()) == s2);
}

impl State {
    /// A fresh node: not an end state, no transitions; it accepts nothing.
    pub fn new() -> (s: State)
        ensures
            !s.is_end_state,
            s.trans@.len() == 0,
            forall|w: Seq<char>| !accepts(s, w),
            forall|w: Seq<char>| #[trigger] has_path(s, w) <==> w.len() == 0,
            wf_trie(s),
    {
        let s = State { is_end_state: false, trans: Vec::new() };
        proof {
            assert forall|w: Seq<char>| !accepts(s, w) by {
                if w.len() > 0 {
                    lemma_step_none(s.trans@, w[0]);
                }
            }
            assert forall|w: Seq<char>| #[trigger] has_path(s, w) <==> w.len() == 0 by {
                if w.len() > 0 {
                    lemma_step_none(s.trans@, w[0]);
                }
            }
            assert forall|w: Seq<char>| has_path(s, w) implies entries_unique(
                node_at(s, w).trans@,
            ) by {
                assert(w.len() == 0);
                assert(node_at(s, w) == s);
            }
        }
        s
    }

    /// The index of the first transition entry for `c`, if there is one.
    pub(crate) fn find_child(&self, c: char) -> (r: Option<usize>)
        ensures
            match r {
                Some(i) => i < self.trans@.len() && self.trans@[i as int].0 == c && (forall|j: int|
                    0 <= j < i ==> self.trans@[j].0 != c),
                None => forall|j: int| 0 <= j < self.trans@.len() ==> self.trans@[j].0 != c,
            },
    {
        let mut i: usize = 0;
        while i < self.trans.len()
            invariant
                i <= self.trans@.len(),
                forall|j: int| 0 <= j < i ==> self.trans@[j].0 != c,
            decreases self.trans@.len() - i,
        {
            if self.trans[i].0 == c {
                return Some(i);
            }
            i = i + 1;
        }
        None
    }

    /// Insert the suffix of `keyword` that starts at `from` as a path from
    /// this node, creating nodes as needed, and mark the final node as an
    /// end state.  Exactly that suffix becomes newly accepted, exactly its
    /// prefixes become new paths, and one entry per character is kept at
    /// every node.
    pub fn add_path(&mut self, keyword: &str, from: usize)
        requires
            from <= keyword@.len(),
        ensures
            forall|w: Seq<char>| #[trigger] accepts(*final(self), w) <==> (accepts(*old(self), w)
                || w == keyword@.skip(from as int)),
            forall|w: Seq<char>| #[trigger] has_path(*final(self), w) <==> (has_path(
                *old(self),
                w,
            ) || is_prefix_of(w, keyword@.skip(from as int))),
            wf_trie(*old(self)) ==> wf_trie(*final(self)),
            final(self).is_end_state == (old(self).is_end_state || from == keyword@.len()),
            from == keyword@.len() ==> final(self).trans == old(self).trans,
        decreases keyword@.len() - from,
    {
        let len: usize = keyword.unicode_len();
        if from == len {
            self.is_end_state = true;
            proof {
                assert(keyword@.skip(from as int) =~= Seq::<char>::empty());
                assert forall|w: Seq<char>| #[trigger] accepts(*self, w) <==> (accepts(
                    *old(self),
                    w,
                ) || w == keyword@.skip(from as int)) by {
                    if w.len() > 0 {
                        assert(accepts(*self, w) == accepts(*old(self), w));
                    } else {
                        assert(w =~= keyword@.skip(from as int));
                    }
                }
                assert forall|w: Seq<char>| #[trigger] has_path(*self, w) <==> (has_path(
                    *old(self),
                    w,
                ) || is_prefix_of(w, keyword@.skip(from as int))) by {
                    if w.len() > 0 {
                        assert(has_path(*self, w) == has_path(*old(self), w));
                        assert(!is_prefix_of(w, keyword@.skip(from as int)));
                    }
                }
                if wf_trie(*old(self)) {
                    assert forall|w: Seq<char>| has_path(*self, w) implies entries_unique(
                        node_at(*self, w).trans@,
                    ) by {
                        if w.len() == 0 {
                            assert(has_path(*old(self), w));
                            assert(node_at(*old(self), w) == *old(self));
                            assert(node_at(*self, w) == *self);
                        } else {
                            assert(has_path(*old(self), w));
                            assert(node_at(*self, w) == node_at(*old(self), w));
                        }
                    }
                    assert(wf_trie(*self));
                }
            }
        } else {
            let c = keyword.get_char(from);
            match self.find_child(c) {
                Some(i) => {
                    let ghost ts0 = self.trans@;
                    let (ch, mut child) = self.trans.remove(i);
                    let ghost child0 = child;
                    child.add_path(keyword, from + 1);
                    self.trans.insert(i, (ch, child));
                    proof {
                        assert(self.trans@ =~= ts0.update(i as int, (c, child)));
                        lemma_step_first_match(ts0, c, i as int);
                        lemma_step_first_match(self.trans@, c, i as int);
                        assert(step(ts0, c) == Some(child0));
                        assert(step(self.trans@, c) == Some(child));
                        assert(keyword@.skip(from as int)[0] == c);
                        assert forall|w: Seq<char>| #[trigger] accepts(*self, w) <==> (accepts(
                            *old(self),
                            w,
                        ) || w == keyword@.skip(from as int)) by {
                            if w.len() == 0 {
                            } else if w[0] == c {
                                lemma_skip_cons(keyword@, from as int, w);
                                assert(accepts(*self, w) == accepts(child, w.drop_first()));
                                assert(accepts(child, w.drop_first()) <==> (accepts(
                                    child0,
                                    w.drop_first(),
                                ) || w.drop_first() == keyword@.skip(from as int + 1)));
                                assert(accepts(*old(self), w) == accepts(child0, w.drop_first()));
                            } else {
                                lemma_step_agree(ts0, self.trans@, w[0]);
                                assert(accepts(*self, w) == accepts(*old(self), w));
                                assert(w != keyword@.skip(from as int));
                            }
                        }
                        assert forall|w: Seq<char>| #[trigger] has_path(*self, w) <==> (has_path(
                            *old(self),
                            w,
                        ) || is_prefix_of(w, keyword@.skip(from as int))) by {
                            if w.len() == 0 {
                            } else if w[0] == c {
                                lemma_prefix_cons(keyword@, from as int, w);
                                assert(has_path(*self, w) == has_path(child, w.drop_first()));
                                assert(has_path(child, w.drop_first()) <==> (has_path(
                                    child0,
                                    w.drop_first(),
                                ) || is_prefix_of(w.drop_first(), keyword@.skip(from as int + 1))));
                                assert(has_path(*old(self), w) == has_path(
                                    child0,
                                    w.drop_first(),
                                ));
                            } else {
                                lemma_step_agree(ts0, self.trans@, w[0]);
                                assert(has_path(*self, w) == has_path(*old(self), w));
                                if is_prefix_of(w, keyword@.skip(from as int)) {
                                    assert(w == keyword@.skip(from as int).subrange(
                                        0,
                                        w.len() as int,
                                    ));
                                    assert(w[0] == keyword@.skip(from as int)[0]);
                                }
                            }
                        }
                        if wf_trie(*old(self)) {
                            assert forall|p: Seq<char>| has_path(child0, p) implies entries_unique(
                                node_at(child0, p).trans@,
                            ) by {
                                lemma_cons(*old(self), child0, c, p);
                                assert(has_path(*old(self), seq![c] + p));
                                assert(node_at(*old(self), seq![c] + p) == node_at(child0, p));
                            }
                            assert(wf_trie(child0));
                            assert(wf_trie(child));
                            assert forall|w: Seq<char>| has_path(*self, w) implies entries_unique(
                                node_at(*self, w).trans@,
                            ) by {
                                if w.len() == 0 {
                                    assert(has_path(*old(self), w));
                                    assert(node_at(*old(self), w) == *old(self));
                                    assert(node_at(*self, w) == *self);
                                    assert forall|a: int, b: int|
                                        0 <= a < b < self.trans@.len() implies self.trans@[a].0
                                        != self.trans@[b].0 by {
                                        assert(self.trans@[a].0 == ts0[a].0);
                                        assert(self.trans@[b].0 == ts0[b].0);
                                    }
                                } else if w[0] == c {
                                    assert(has_path(*self, w) == has_path(child, w.drop_first()));
                                    assert(has_path(child, w.drop_first()));
                                    assert(node_at(*self, w) == node_at(child, w.drop_first()));
                                } else {
                                    lemma_step_agree(ts0, self.trans@, w[0]);
                                    match step(ts0, w[0]) {
                                        Some(t) => {
                                            assert(has_path(*old(self), w));
                                            assert(node_at(*self, w) == node_at(
                                                t,
                                                w.drop_first(),
                                            ));
                                            assert(node_at(*old(self), w) == node_at(
                                                t,
                                                w.drop_first(),
                                            ));
                                        },
                                        None => {
                                            assert(!has_path(*self, w));
                                        },
                                    }
                                }
                            }
                            assert(wf_trie(*self));
                        }
                    }
                },
                None => {
                    let ghost ts0 = self.trans@;
                    let mut child = State::new();
                    let ghost blank = child;
                    child.add_path(keyword, from + 1);
                    self.trans.push((c, child));
                    proof {
                        lemma_step_none(ts0, c);
                        lemma_step_first_match(self.trans@, c, ts0.len() as int);
                        assert forall|w: Seq<char>| #[trigger] accepts(*self, w) <==> (accepts(
                            *old(self),
                            w,
                        ) || w == keyword@.skip(from as int)) by {
                            if w.len() == 0 {
                                assert(keyword@.skip(from as int).len() > 0);
                            } else if w[0] == c {
                                lemma_skip_cons(keyword@, from as int, w);
                                assert(accepts(*self, w) == accepts(child, w.drop_first()));
                                assert(!accepts(blank, w.drop_first()));
                            } else {
                                lemma_step_push(ts0, (c, child), w[0]);
                                assert(keyword@.skip(from as int)[0] == c);
                            }
                        }
                        assert forall|w: Seq<char>| #[trigger] has_path(*self, w) <==> (has_path(
                            *old(self),
                            w,
                        ) || is_prefix_of(w, keyword@.skip(from as int))) by {
                            if w.len() == 0 {
                            } else if w[0] == c {
                                lemma_prefix_cons(keyword@, from as int, w);
                                assert(has_path(*self, w) == has_path(child, w.drop_first()));
                                assert(has_path(child, w.drop_first()) <==> (has_path(
                                    blank,
                                    w.drop_first(),
                                ) || is_prefix_of(w.drop_first(), keyword@.skip(from as int + 1))));
                                if w.drop_first().len() == 0 {
                                    lemma_empty_prefix(keyword@.skip(from as int + 1));
                                    assert(w.drop_first() =~= Seq::<char>::empty());
                                }
                                assert(!has_path(*old(self), w));
                            } else {
                                lemma_step_push(ts0, (c, child), w[0]);
                                assert(has_path(*self, w) == has_path(*old(self), w));
                                if is_prefix_of(w, keyword@.skip(from as int)) {
                                    assert(w == keyword@.skip(from as int).subrange(
                                        0,
                                        w.len() as int,
                                    ));
                                    assert(w[0] == keyword@.skip(from as int)[0]);
                                }
                            }
                        }
                        if wf_trie(*old(self)) {
                            assert(wf_trie(blank));
                            assert(wf_trie(child));
                            assert forall|w: Seq<char>| has_path(*self, w) implies entries_unique(
                                node_at(*self, w).trans@,
                            ) by {
                                if w.len() == 0 {
                                    assert(has_path(*old(self), w));
                                    assert(node_at(*old(self), w) == *old(self));
                                    assert(node_at(*self, w) == *self);
                                    assert forall|a: int, b: int|
                                        0 <= a < b < self.trans@.len() implies self.trans@[a].0
                                        != self.trans@[b].0 by {
                                        if b < ts0.len() {
                                            assert(self.trans@[a].0 == ts0[a].0);
                                            assert(self.trans@[b].0 == ts0[b].0);
                                        } else {
                                            assert(self.trans@[b].0 == c);
                                            assert(self.trans@[a].0 == ts0[a].0);
                                            assert(ts0[a].0 != c);
                                        }
                                    }
                                } else if w[0] == c {
                                    assert(has_path(*self, w) == has_path(child, w.drop_first()));
                                    assert(has_path(child, w.drop_first()));
                                    assert(node_at(*self, w) == node_at(child, w.drop_first()));
                                } else {
                                    lemma_step_push(ts0, (c, child), w[0]);
                                    match step(ts0, w[0]) {
                                        Some(t) => {
                                            assert(has_path(*old(self), w));
                                            assert(node_at(*self, w) == node_at(
                                                t,
                                                w.drop_first(),
                                            ));
                                            assert(node_at(*old(self), w) == node_at(
                                                t,
                                                w.drop_first(),
                                            ));
                                        },
                                        None => {
                                            assert(!has_path(*self, w));
                                        },
                                    }
                                }
                            }
                            assert(wf_trie(*self));
                        }
                    }
                },
            }
        }
    }
}

/// Whether the trie rooted at `s` accepts exactly the words in `words`.
pub open spec fn accepts_exactly(s: State, words: Seq<Seq<char>>) -> bool {
    forall|w: Seq<char>| #[trigger] accepts(s, w) <==> words.contains(w)
}

/// Whether the paths of the trie rooted at `s` are exactly the prefixes
/// of the words in `words`: no transition leads anywhere but towards a
/// word of the set.
pub open spec fn paths_exactly(s: State, words: Seq<Seq<char>>) -> bool {
    forall|p: Seq<char>| #[trigger] has_path(s, p) <==> (p.len() == 0 || exists|k: int|
        0 <= k < words.len() && is_prefix_of(p, words[k]))
}

/// Law: building the automaton from a keyword set in any order yields an
/// equivalent automaton.  Two tries that each accept exactly the words of
/// their keyword list accept the same words whenever the two lists hold
/// the same set of keywords, in particular when one permutes the other.
pub proof fn lemma_build_order_irrelevant(
    s1: State,
    s2: State,
    kws1: Seq<Seq<char>>,
    kws2: Seq<Seq<char>>,
)
    requires
        accepts_exactly(s1, kws1),
        accepts_exactly(s2, kws2),
        kws1.to_set() == kws2.to_set(),
    ensures
        forall|w: Seq<char>| #[trigger] accepts(s1, w) <==> accepts(s2, w),
{
    assert forall|w: Seq<char>| #[trigger] accepts(s1, w) <==> accepts(s2, w) by {
        assert(kws1.contains(w) <==> kws1.to_set().contains(w));
        assert(kws2.contains(w) <==> kws2.to_set().contains(w));
    }
}

/// Law: the walk is maximal.  It stops only at the end of the input or at
/// a node with no transition for the next character, never early at an
/// accepting node; whether the match succeeds is judged only there.
pub proof fn lemma_walk_maximal(s: State, text: Seq<char>, pos: int)
    requires
        0 <= pos <= text.len(),
    ensures
        ({
            let (t, p) = walk(s, text, pos);
            pos <= p <= text.len() && (p < text.len() ==> step(t.trans@, text[p]) is None)
        }),
    decreases text.len() - pos,
{
    if pos < text.len() {
        match step(s.trans@, text[pos]) {
            Some(t) => {
                lemma_walk_maximal(t, text, pos + 1);
            },
            None => {},
        }
    }
}

} // verus!

