//! The token scanner.  At the current position it tries four recognizers in
//! a fixed priority order — word run, whitespace run, quoted literal,
//! keyword automaton match — and the first success wins.  Whitespace tokens
//! are skipped silently; any other success is yielded as a token.  If no
//! recognizer matches, the scanner yields the failure offset once and is
//! exhausted from then on.

use vstd::prelude::*;
use vstd::string::StrSliceExecFns;
use vstd::string::StringExecFns;

use crate::chars::is_space_char;
use crate::chars::is_word_char;
use crate::chars::space_char;
use crate::chars::word_char;
use crate::state::State;
use crate::state::accepts;
use crate::state::accepts_exactly;
use crate::state::has_path;
use crate::state::is_prefix_of;
use crate::state::lemma_step_first_match;
use crate::state::lemma_step_none;
use crate::state::lemma_walk_agree;
use crate::state::paths_exactly;
use crate::state::walk;
use crate::state::wf_trie;

verus! {

/// Where the word run beginning at `i` ends: the first position at or
/// after `i` that is past the end or holds no word character.
pub open spec fn word_end(s: Seq<char>, i: int) -> int
    decreases s.len() - i,
{
    if i < s.len() && is_word_char(s[i]) {
        word_end(s, i + 1)
    } else {
        i
    }
}

/// Where the whitespace run beginning at `i` ends.
pub open spec fn space_end(s: Seq<char>, i: int) -> int
    decreases s.len() - i,
{
    if i < s.len() && is_space_char(s[i]) {
        space_end(s, i + 1)
    } else {
        i
    }
}

/// The position just past the first `"` at or after `i`, or the end of the
/// text if there is none: where a literal whose body starts at `i` closes.
pub open spec fn literal_close(s: Seq<char>, i: int) -> int
    decreases s.len() - i,
{
    if i < s.len() {
        if s[i] == '"' {
            i + 1
        } else {
            literal_close(s, i + 1)
        }
    } else {
        i
    }
}

/// One attempt at position `i`: whether some recognizer succeeds there,
/// and the position reached.  The four recognizers are tried in priority
/// order; only the automaton can move the position on failure.
pub open spec fn recognize(st: State, s: Seq<char>, i: int) -> (bool, int) {
    if word_end(s, i) > i {
        (true, word_end(s, i))
    } else if space_end(s, i) > i {
        (true, space_end(s, i))
    } else if i < s.len() && s[i] == '"' {
        (true, literal_close(s, i + 1))
    } else {
        (walk(st, s, i).0.is_end_state, walk(st, s, i).1)
    }
}

/// What one pull of the scanner produces from position `i`: the next
/// yielded token span after skipping whitespace, the failure offset, or
/// the end of the sequence.
pub enum ScanItem {
    Token { start: int, end: int },
    Failure { at: int },
    Finished,
}

/// The scanner's behaviour from position `i`: recognize at `i`; skip a
/// whitespace token and continue after it; otherwise stop with the token
/// found, the failure offset, or the end of the input.  The two bound
/// conjuncts of the skipping guard always hold where the scanner runs
/// (`lemma_recognize_in_range`); they are spelled out for termination.
pub open spec fn scan(st: State, s: Seq<char>, i: int) -> ScanItem
    decreases s.len() - i,
{
    if i >= s.len() {
        ScanItem::Finished
    } else {
        let (ok, end) = recognize(st, s, i);
        if !ok {
            ScanItem::Failure { at: end }
        } else if i < end && end <= s.len() && is_space_char(s[i]) {
            scan(st, s, end)
        } else {
            ScanItem::Token { start: i, end }
        }
    }
}

/// The word run from `i` stays in bounds, holds only word characters, and
/// is maximal.
pub proof fn lemma_word_end_props(s: Seq<char>, i: int)
    requires
        i <= s.len(),
    ensures
        i <= word_end(s, i) <= s.len(),
        forall|j: int| i <= j < word_end(s, i) ==> is_word_char(s[j]),
        word_end(s, i) < s.len() ==> !is_word_char(s[word_end(s, i)]),
    decreases s.len() - i,
{
    if i < s.len() && is_word_char(s[i]) {
        lemma_word_end_props(s, i + 1);
    }
}

/// The word run ends exactly at the first non-word position.
proof fn lemma_word_end_unique(s: Seq<char>, i: int, n: int)
    requires
        i <= n <= s.len(),
        forall|j: int| i <= j < n ==> is_word_char(s[j]),
        n < s.len() ==> !is_word_char(s[n]),
    ensures
        word_end(s, i) == n,
    decreases n - i,
{
    if i < n {
        assert(is_word_char(s[i]));
        lemma_word_end_unique(s, i + 1, n);
    }
}

/// The whitespace run from `i` stays in bounds, holds only whitespace, and
/// is maximal.
pub proof fn lemma_space_end_props(s: Seq<char>, i: int)
    requires
        i <= s.len(),
    ensures
        i <= space_end(s, i) <= s.len(),
        forall|j: int| i <= j < space_end(s, i) ==> is_space_char(s[j]),
        space_end(s, i) < s.len() ==> !is_space_char(s[space_end(s, i)]),
    decreases s.len() - i,
{
    if i < s.len() && is_space_char(s[i]) {
        lemma_space_end_props(s, i + 1);
    }
}

/// The whitespace run ends exactly at the first non-whitespace position.
proof fn lemma_space_end_unique(s: Seq<char>, i: int, n: int)
    requires
        i <= n <= s.len(),
        forall|j: int| i <= j < n ==> is_space_char(s[j]),
        n < s.len() ==> !is_space_char(s[n]),
    ensures
        space_end(s, i) == n,
    decreases n - i,
{
    if i < n {
        assert(is_space_char(s[i]));
        lemma_space_end_unique(s, i + 1, n);
    }
}

/// The close of a literal lies between `i` and the end of the text.
pub proof fn lemma_literal_close_props(s: Seq<char>, i: int)
    requires
        i <= s.len(),
    ensures
        i <= literal_close(s, i) <= s.len(),
    decreases s.len() - i,
{
    if i < s.len() && s[i] != '"' {
        lemma_literal_close_props(s, i + 1);
    }
}

/// The walk never moves the position backwards or past the end.
pub proof fn lemma_walk_in_range(st: State, s: Seq<char>, i: int)
    requires
        i <= s.len(),
    ensures
        i <= walk(st, s, i).1 <= s.len(),
    decreases s.len() - i,
{
    if i < s.len() {
        match crate::state::step(st.trans@, s[i]) {
            Some(t) => {
                lemma_walk_in_range(t, s, i + 1);
            },
            None => {},
        }
    }
}

/// A recognizer attempt never moves the position backwards or past the
/// end of the text.
pub proof fn lemma_recognize_in_range(st: State, s: Seq<char>, i: int)
    requires
        i <= s.len(),
    ensures
        i <= recognize(st, s, i).1 <= s.len(),
{
    lemma_word_end_props(s, i);
    lemma_space_end_props(s, i);
    if i < s.len() {
        lemma_literal_close_props(s, i + 1);
    }
    lemma_walk_in_range(st, s, i);
}

/// Law: whitespace transparency.  Dropping a leading whitespace run does
/// not change what the scanner produces: scanning from `i` and from any
/// position `j` reached from `i` over whitespace alone give the same
/// item.  Since both continue in the same text from the same end, the
/// whole remaining token sequence coincides as well
/// (`lemma_token_list_transparency`); inserting or removing whitespace
/// between tokens therefore leaves the yielded tokens unchanged.
pub proof fn lemma_whitespace_transparency(st: State, s: Seq<char>, i: int, j: int)
    requires
        0 <= i <= j <= s.len(),
        forall|k: int| i <= k < j ==> is_space_char(s[k]),
    ensures
        scan(st, s, i) == scan(st, s, j),
{
    if i < j {
        assert(is_space_char(s[i]));
        assert(!is_word_char(s[i]));
        assert(word_end(s, i) == i);
        lemma_space_end_props(s, i);
        let m = space_end(s, i);
        assert(m > i);
        if m < j {
            assert(is_space_char(s[m]));
            assert(false);
        }
        assert(scan(st, s, i) == scan(st, s, m));
        if j < m {
            assert(is_space_char(s[j]));
            assert(!is_word_char(s[j]));
            assert(word_end(s, j) == j);
            assert forall|k: int| j <= k < m implies is_space_char(s[k]) by {}
            lemma_space_end_unique(s, j, m);
            assert(space_end(s, j) == m);
            assert(scan(st, s, j) == scan(st, s, m));
        }
    }
}

/// The token sequence the scanner yields from position `i` on, for as
/// long as each pull advances the position.
pub open spec fn token_list(st: State, s: Seq<char>, i: int) -> Seq<Seq<char>>
    decreases s.len() - i,
{
    match scan(st, s, i) {
        ScanItem::Token { start, end } => if i < end && end <= s.len() {
            seq![s.subrange(start, end)] + token_list(st, s, end)
        } else {
            seq![s.subrange(start, end)]
        },
        ScanItem::Failure { at } => Seq::empty(),
        ScanItem::Finished => Seq::empty(),
    }
}

/// A walk that does not move stops at its starting node.
proof fn lemma_walk_stationary(st: State, s: Seq<char>, i: int)
    requires
        i <= s.len(),
        walk(st, s, i).1 == i,
    ensures
        walk(st, s, i).0 == st,
{
    if i < s.len() {
        match crate::state::step(st.trans@, s[i]) {
            Some(t) => {
                lemma_walk_in_range(t, s, i + 1);
            },
            None => {},
        }
    }
}

/// When the empty string is not a keyword, every token the scanner finds
/// is nonempty and lies inside the text, at or after the position scanned
/// from.
pub proof fn lemma_scan_token_props(st: State, s: Seq<char>, i: int)
    requires
        0 <= i <= s.len(),
        !st.is_end_state,
        scan(st, s, i) is Token,
    ensures
        i <= scan(st, s, i)->Token_start < scan(st, s, i)->Token_end <= s.len(),
    decreases s.len() - i,
{
    if i < s.len() {
        lemma_recognize_in_range(st, s, i);
        let (ok, end) = recognize(st, s, i);
        if ok && i < end && end <= s.len() && is_space_char(s[i]) {
            lemma_scan_token_props(st, s, end);
        } else {
            if word_end(s, i) > i {
            } else if space_end(s, i) > i {
                assert(is_space_char(s[i]));
                assert(false);
            } else if i < s.len() && s[i] == '"' {
                lemma_literal_close_props(s, i + 1);
            } else {
                if end == i {
                    lemma_walk_stationary(st, s, i);
                    assert(!ok);
                    assert(false);
                }
            }
        }
    }
}

/// Law: whitespace transparency for the whole stream.  For an automaton
/// that does not accept the empty keyword — the degenerate case the data
/// model leaves out — dropping a leading whitespace run leaves the entire
/// remaining token sequence unchanged.
pub proof fn lemma_token_list_transparency(st: State, s: Seq<char>, i: int, j: int)
    requires
        0 <= i <= j <= s.len(),
        !st.is_end_state,
        forall|k: int| i <= k < j ==> is_space_char(s[k]),
    ensures
        token_list(st, s, i) == token_list(st, s, j),
{
    lemma_whitespace_transparency(st, s, i, j);
    match scan(st, s, i) {
        ScanItem::Token { start, end } => {
            lemma_scan_token_props(st, s, j);
            assert(j <= start < end <= s.len());
        },
        _ => {},
    }
}

/// Law: the accepted words and the existing paths determine the scanner.
/// Two automatons that agree on both produce the same item at every
/// position of every text, so nothing about the scan depends on how a
/// trie was laid out beyond those two sets.
pub proof fn lemma_scan_agree(s1: State, s2: State, text: Seq<char>, i: int)
    requires
        forall|w: Seq<char>| #[trigger] accepts(s1, w) == accepts(s2, w),
        forall|w: Seq<char>| #[trigger] has_path(s1, w) == has_path(s2, w),
        0 <= i <= text.len(),
    ensures
        scan(s1, text, i) == scan(s2, text, i),
    decreases text.len() - i,
{
    if i < text.len() {
        lemma_walk_agree(s1, s2, text, i);
        assert(recognize(s1, text, i) == recognize(s2, text, i));
        let (ok, end) = recognize(s1, text, i);
        if ok && i < end && end <= text.len() && is_space_char(text[i]) {
            lemma_scan_agree(s1, s2, text, end);
        }
    }
}

/// Law: construction is deterministic and order-independent.  Automatons
/// built from keyword lists with the same set of keywords — in
/// particular, from permutations of one list — give the scanner the same
/// item at every position and the same token stream on every text.
pub proof fn lemma_build_determines_scan(
    s1: State,
    s2: State,
    kws1: Seq<Seq<char>>,
    kws2: Seq<Seq<char>>,
    text: Seq<char>,
    i: int,
)
    requires
        accepts_exactly(s1, kws1),
        paths_exactly(s1, kws1),
        accepts_exactly(s2, kws2),
        paths_exactly(s2, kws2),
        kws1.to_set() == kws2.to_set(),
        0 <= i <= text.len(),
    ensures
        scan(s1, text, i) == scan(s2, text, i),
        token_list(s1, text, i) == token_list(s2, text, i),
    decreases text.len() - i,
{
    assert forall|w: Seq<char>| #[trigger] accepts(s1, w) == accepts(s2, w) by {
        assert(kws1.contains(w) <==> kws1.to_set().contains(w));
        assert(kws2.contains(w) <==> kws2.to_set().contains(w));
    }
    assert forall|p: Seq<char>| #[trigger] has_path(s1, p) == has_path(s2, p) by {
        if p.len() > 0 {
            if has_path(s1, p) {
                let k1 = choose|k: int| 0 <= k < kws1.len() && is_prefix_of(p, kws1[k]);
                assert(kws1.to_set().contains(kws1[k1]));
                let k2 = choose|k: int| 0 <= k < kws2.len() && kws2[k] == kws1[k1];
                assert(is_prefix_of(p, kws2[k2]));
            }
            if has_path(s2, p) {
                let k2 = choose|k: int| 0 <= k < kws2.len() && is_prefix_of(p, kws2[k]);
                assert(kws2.to_set().contains(kws2[k2]));
                let k1 = choose|k: int| 0 <= k < kws1.len() && kws1[k] == kws2[k2];
                assert(is_prefix_of(p, kws1[k1]));
            }
        }
    }
    lemma_scan_agree(s1, s2, text, i);
    match scan(s1, text, i) {
        ScanItem::Token { start, end } => {
            if i < end && end <= text.len() {
                lemma_build_determines_scan(s1, s2, kws1, kws2, text, end);
            }
        },
        _ => {},
    }
}

/// A lazy, forward-only scanner over one text: the text, the keyword
/// automaton, the position of the next unconsumed character, and whether a
/// failure has already been yielded.  Positions and failure offsets are
/// character offsets into the text.
pub struct TokenIterator {
    pub input: String,
    pub state: State,
    pub cursor: usize,
    pub failed: bool,
}

impl TokenIterator {
    /// The cursor never leaves the text.
    pub open spec fn wf(self) -> bool {
        self.cursor <= self.input@.len()
    }

    /// Consume a quoted literal if one starts at `pos`: the opening quote,
    /// then everything up to and including the closing quote, or to the end
    /// of the input if it never closes.
    pub fn skip_literal(input: &str, pos: &mut usize) -> (r: bool)
        requires
            *old(pos) <= input@.len(),
        ensures
            *old(pos) <= *final(pos) <= input@.len(),
            r == (*old(pos) < input@.len() && input@[*old(pos) as int] == '"'),
            r ==> *final(pos) as int == literal_close(input@, *old(pos) + 1),
            !r ==> *final(pos) == *old(pos),
    {
        let len: usize = input.unicode_len();
        if *pos < len && input.get_char(*pos) == '"' {
            *pos = *pos + 1;
            loop
                invariant
                    *old(pos) as int + 1 <= *pos <= len,
                    len == input@.len(),
                    *old(pos) < input@.len() && input@[*old(pos) as int] == '"',
                    literal_close(input@, *old(pos) as int + 1) == literal_close(
                        input@,
                        *pos as int,
                    ),
                decreases len - *pos,
            {
                if *pos < len {
                    let c = input.get_char(*pos);
                    *pos = *pos + 1;
                    if c == '"' {
                        return true;
                    }
                } else {
                    return true;
                }
            }
        } else {
            false
        }
    }

    /// Consume the maximal run of characters satisfying `condition` from
    /// `pos` on; report whether anything was consumed.
    pub fn skip_with_condition<F: Fn(char) -> bool>(input: &str, pos: &mut usize, condition: F) -> (r:
        bool)
        requires
            *old(pos) <= input@.len(),
            forall|c: char| #[trigger] condition.requires((c,)),
        ensures
            *old(pos) <= *final(pos) <= input@.len(),
            forall|j: int| *old(pos) <= j < *final(pos) ==> condition.ensures((input@[j],), true),
            *final(pos) < input@.len() ==> condition.ensures(
                (input@[*final(pos) as int],),
                false,
            ),
            r == (*final(pos) != *old(pos)),
    {
        let start: usize = *pos;
        let len: usize = input.unicode_len();
        loop
            invariant
                start <= *pos <= len,
                len == input@.len(),
                start == *old(pos),
                forall|j: int| start <= j < *pos ==> condition.ensures((input@[j],), true),
                forall|c: char| #[trigger] condition.requires((c,)),
            decreases len - *pos,
        {
            if *pos < len {
                let c = input.get_char(*pos);
                if condition(c) {
                    *pos = *pos + 1;
                } else {
                    return *pos != start;
                }
            } else {
                return *pos != start;
            }
        }
    }

    /// Consume the maximal word run at `pos`: characters that are
    /// alphanumeric or an underscore.
    pub fn skip_alphanumeric(input: &str, pos: &mut usize) -> (r: bool)
        requires
            *old(pos) <= input@.len(),
        ensures
            *old(pos) <= *final(pos) <= input@.len(),
            *final(pos) as int == word_end(input@, *old(pos) as int),
            r == (*final(pos) != *old(pos)),
    {
        let ghost p0: int = *pos as int;
        let f = |c: char| -> (b: bool)
            ensures
                b == is_word_char(c),
            { word_char(c) };
        let r = Self::skip_with_condition(input, pos, f);
        proof {
            assert forall|j: int| p0 <= j < *pos as int implies is_word_char(input@[j]) by {
                assert(call_ensures(f, (input@[j],), true));
            }
            if (*pos as int) < input@.len() {
                assert(call_ensures(f, (input@[*pos as int],), false));
            }
            lemma_word_end_unique(input@, p0, *pos as int);
        }
        r
    }

    /// Consume the maximal whitespace run at `pos`.
    pub fn skip_whitespace(input: &str, pos: &mut usize) -> (r: bool)
        requires
            *old(pos) <= input@.len(),
        ensures
            *old(pos) <= *final(pos) <= input@.len(),
            *final(pos) as int == space_end(input@, *old(pos) as int),
            r == (*final(pos) != *old(pos)),
    {
        let ghost p0: int = *pos as int;
        let f = |c: char| -> (b: bool)
            ensures
                b == is_space_char(c),
            { space_char(c) };
        let r = Self::skip_with_condition(input, pos, f);
        proof {
            assert forall|j: int| p0 <= j < *pos as int implies is_space_char(input@[j]) by {
                assert(call_ensures(f, (input@[j],), true));
            }
            if (*pos as int) < input@.len() {
                assert(call_ensures(f, (input@[*pos as int],), false));
            }
            lemma_space_end_unique(input@, p0, *pos as int);
        }
        r
    }

    /// Walk the automaton from `pos` as far as transitions exist, moving
    /// `pos` with it; report whether the node reached is an end state.
    pub fn skip_with_state(input: &str, pos: &mut usize, state: &State) -> (r: bool)
        requires
            *old(pos) <= input@.len(),
        ensures
            *old(pos) <= *final(pos) <= input@.len(),
            *final(pos) as int == walk(*state, input@, *old(pos) as int).1,
            r == walk(*state, input@, *old(pos) as int).0.is_end_state,
    {
        let len: usize = input.unicode_len();
        let mut cur: &State = state;
        loop
            invariant
                *old(pos) <= *pos <= len,
                len == input@.len(),
                walk(*state, input@, *old(pos) as int) == walk(*cur, input@, *pos as int),
            decreases len - *pos,
        {
            if *pos < len {
                let c = input.get_char(*pos);
                match cur.find_child(c) {
                    Some(i) => {
                        proof {
                            lemma_step_first_match(cur.trans@, c, i as int);
                        }
                        cur = &cur.trans[i].1;
                        *pos = *pos + 1;
                    },
                    None => {
                        proof {
                            lemma_step_none(cur.trans@, c);
                        }
                        return cur.is_end_state;
                    },
                }
            } else {
                return cur.is_end_state;
            }
        }
    }

    /// Try the four recognizers at `pos` in priority order; the first
    /// success wins.  `pos` ends where the attempt ended.
    pub fn skip_token(input: &str, pos: &mut usize, state: &State) -> (r: bool)
        requires
            *old(pos) <= input@.len(),
        ensures
            *old(pos) <= *final(pos) <= input@.len(),
            r == recognize(*state, input@, *old(pos) as int).0,
            *final(pos) as int == recognize(*state, input@, *old(pos) as int).1,
    {
        if Self::skip_alphanumeric(input, pos) {
            true
        } else if Self::skip_whitespace(input, pos) {
            true
        } else if Self::skip_literal(input, pos) {
            true
        } else {
            Self::skip_with_state(input, pos, state)
        }
    }

    /// One raw pull at `pos`: nothing at the end of the input; otherwise
    /// the recognized span as a token — whitespace included — or the
    /// failure offset.
    pub fn take_token(input: &str, pos: &mut usize, state: &State) -> (r: Option<
        Result<String, usize>,
    >)
        requires
            *old(pos) <= input@.len(),
        ensures
            *old(pos) <= *final(pos) <= input@.len(),
            *old(pos) == input@.len() ==> r is None && *final(pos) == *old(pos),
            *old(pos) < input@.len() ==> ({
                let (ok, end) = recognize(*state, input@, *old(pos) as int);
                *final(pos) as int == end && match r {
                    Some(Ok(tok)) => ok && tok@ == input@.subrange(*old(pos) as int, end),
                    Some(Err(off)) => !ok && off as int == end,
                    None => false,
                }
            }),
    {
        let len: usize = input.unicode_len();
        if *pos >= len {
            return None;
        }
        let start: usize = *pos;
        let ok = Self::skip_token(input, pos, state);
        if ok {
            Some(Ok(input.substring_char(start, *pos).to_owned()))
        } else {
            Some(Err(*pos))
        }
    }

    /// Pull the next token.  Whitespace tokens are skipped and never
    /// yielded, so no yielded token starts with a whitespace character.
    /// The first failed attempt yields the failure offset and exhausts the
    /// scanner: every later pull yields nothing.
    pub fn next(&mut self) -> (r: Option<Result<String, usize>>)
        requires
            old(self).wf(),
        ensures
            final(self).wf(),
            final(self).input == old(self).input,
            final(self).state == old(self).state,
            old(self).failed ==> r is None && *final(self) == *old(self),
            !old(self).failed ==> match scan(
                old(self).state,
                old(self).input@,
                old(self).cursor as int,
            ) {
                ScanItem::Token { start, end } => !final(self).failed && final(self).cursor as int
                    == end && match r {
                    Some(Ok(tok)) => tok@ == old(self).input@.subrange(start, end),
                    _ => false,
                },
                ScanItem::Failure { at } => final(self).failed && match r {
                    Some(Err(off)) => off as int == at,
                    _ => false,
                },
                ScanItem::Finished => r is None && !final(self).failed && old(self).cursor
                    <= final(self).cursor && scan(
                    final(self).state,
                    final(self).input@,
                    final(self).cursor as int,
                ) is Finished,
            },
            match r {
                Some(Ok(tok)) => tok@.len() > 0 ==> !is_space_char(tok@[0]),
                _ => true,
            },
            !old(self).state.is_end_state ==> match r {
                Some(Ok(tok)) => tok@.len() > 0,
                _ => true,
            },
    {
        if self.failed {
            return None;
        }
        loop
            invariant
                self.wf(),
                !self.failed,
                !old(self).failed,
                self.input == old(self).input,
                self.state == old(self).state,
                old(self).cursor <= self.cursor,
                scan(self.state, self.input@, old(self).cursor as int) == scan(
                    self.state,
                    self.input@,
                    self.cursor as int,
                ),
            decreases self.input@.len() - self.cursor,
        {
            let ghost c0: int = self.cursor as int;
            let mut p: usize = self.cursor;
            let t = Self::take_token(self.input.as_str(), &mut p, &self.state);
            match t {
                None => {
                    return None;
                },
                Some(Ok(tok)) => {
                    self.cursor = p;
                    proof {
                        lemma_recognize_in_range(self.state, self.input@, c0);
                    }
                    if tok.as_str().unicode_len() > 0 && space_char(tok.as_str().get_char(0)) {
                        proof {
                            assert(tok@[0] == self.input@[c0]);
                            assert(scan(self.state, self.input@, c0) == scan(
                                self.state,
                                self.input@,
                                self.cursor as int,
                            ));
                        }
                    } else {
                        proof {
                            if !self.state.is_end_state {
                                lemma_scan_token_props(self.state, self.input@, c0);
                            }
                        }
                        return Some(Ok(tok));
                    }
                },
                Some(Err(off)) => {
                    self.cursor = p;
                    self.failed = true;
                    return Some(Err(off));
                },
            }
        }
    }
}

/// The views of a list of keywords: each keyword as its character
/// sequence.
pub open spec fn keyword_views(kws: Seq<String>) -> Seq<Seq<char>> {
    kws.map_values(|k: String| k@)
}

/// Anything that can be scanned: building a tokenizer over it yields a
/// fresh scanner whose automaton accepts exactly the given keywords,
/// holds no transition paths beyond their prefixes, and keeps one entry
/// per character at every node — which pins the scanner's behaviour
/// completely (`lemma_build_determines_scan`).
pub trait Tokenizer {
    /// The text to scan, as a sequence of characters.
    spec fn text(&self) -> Seq<char>;

    /// Build the keyword automaton from `keywords` and bind a fresh
    /// scanner to this text.
    fn tokenize(&self, keywords: &Vec<String>) -> (t: TokenIterator)
        ensures
            t.wf(),
            t.input@ == self.text(),
            t.cursor == 0,
            !t.failed,
            accepts_exactly(t.state, keyword_views(keywords@)),
            paths_exactly(t.state, keyword_views(keywords@)),
            wf_trie(t.state),
    ;
}

impl Tokenizer for str {
    open spec fn text(&self) -> Seq<char> {
        self@
    }

    fn tokenize(&self, keywords: &Vec<String>) -> (t: TokenIterator) {
        let mut state = State::new();
        let mut i: usize = 0;
        while i < keywords.len()
            invariant
                i <= keywords@.len(),
                forall|w: Seq<char>| #[trigger] accepts(state, w) <==> (exists|j: int|
                    0 <= j < i && keywords@[j]@ == w),
                forall|p: Seq<char>| #[trigger] has_path(state, p) <==> (p.len() == 0 || exists|
                    j: int,
                |
                    0 <= j < i && is_prefix_of(p, keywords@[j]@)),
                wf_trie(state),
            decreases keywords@.len() - i,
        {
            let ghost st0 = state;
            let kw: &String = &keywords[i];
            state.add_path(kw.as_str(), 0);
            proof {
                assert(kw@.skip(0) =~= kw@);
                assert forall|w: Seq<char>| #[trigger] accepts(state, w) implies (exists|j: int|
                    0 <= j < i + 1 && keywords@[j]@ == w) by {
                    if w == kw@ {
                        assert(keywords@[i as int]@ == w);
                    }
                }
                assert forall|w: Seq<char>| (exists|j: int| 0 <= j < i + 1 && keywords@[j]@ == w)
                    implies #[trigger] accepts(state, w) by {
                    let j = choose|j: int| 0 <= j < i + 1 && keywords@[j]@ == w;
                    if j < i {
                        assert(accepts(st0, w));
                    } else {
                        assert(w == kw@);
                    }
                }
                assert forall|p: Seq<char>| #[trigger] has_path(state, p) implies (p.len() == 0
                    || exists|j: int| 0 <= j < i + 1 && is_prefix_of(p, keywords@[j]@)) by {
                    if p.len() > 0 && is_prefix_of(p, kw@) {
                        assert(is_prefix_of(p, keywords@[i as int]@));
                    }
                }
                assert forall|p: Seq<char>|
                    (p.len() == 0 || exists|j: int| 0 <= j < i + 1 && is_prefix_of(
                        p,
                        keywords@[j]@,
                    )) implies #[trigger] has_path(state, p) by {
                    if p.len() > 0 {
                        let j = choose|j: int| 0 <= j < i + 1 && is_prefix_of(p, keywords@[j]@);
                        if j < i {
                            assert(has_path(st0, p));
                        } else {
                            assert(is_prefix_of(p, kw@));
                        }
                    }
                }
            }
            i = i + 1;
        }
        proof {
            assert forall|w: Seq<char>| #[trigger] accepts(state, w)
                <==> keyword_views(keywords@).contains(w) by {
                if accepts(state, w) {
                    let j = choose|j: int| 0 <= j < keywords@.len() && keywords@[j]@ == w;
                    assert(keyword_views(keywords@)[j] == w);
                }
                if keyword_views(keywords@).contains(w) {
                    let j = choose|j: int|
                        0 <= j < keyword_views(keywords@).len() && keyword_views(keywords@)[j]
                            == w;
                    assert(keywords@[j]@ == w);
                }
            }
            assert forall|p: Seq<char>| #[trigger] has_path(state, p) <==> (p.len() == 0 || exists|
                k: int,
            |
                0 <= k < keyword_views(keywords@).len() && is_prefix_of(
                    p,
                    keyword_views(keywords@)[k],
                )) by {
                if p.len() > 0 {
                    if has_path(state, p) {
                        let j = choose|j: int|
                            0 <= j < keywords@.len() && is_prefix_of(p, keywords@[j]@);
                        assert(is_prefix_of(p, keyword_views(keywords@)[j]));
                    }
                    if exists|k: int|
                        0 <= k < keyword_views(keywords@).len() && is_prefix_of(
                            p,
                            keyword_views(keywords@)[k],
                        ) {
                        let k = choose|k: int|
                            0 <= k < keyword_views(keywords@).len() && is_prefix_of(
                                p,
                                keyword_views(keywords@)[k],
                            );
                        assert(is_prefix_of(p, keywords@[k]@));
                    }
                }
            }
            assert(paths_exactly(state, keyword_views(keywords@)));
        }
        TokenIterator { input: String::from_str(self), state, cursor: 0, failed: false }
    }
}

} // verus!
