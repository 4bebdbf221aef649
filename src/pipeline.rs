//! The pairing pipeline: candidate pairs, the uniqueness filter, and the
//! ordering of the result.
use vstd::prelude::*;
use crate::charset::{is_disjoint, lemma_charset_sorted, shares_no_char};
use crate::entry::{all_wf, CharsetEntry};

verus! {

/// A state and a word, by their positions in the two entry lists.
#[derive(Clone, Copy, Debug, PartialEq, Eq, Structural)]
pub struct Pair {
    pub state: usize,
    pub word: usize,
}

/// Both positions fall inside their lists.
pub open spec fn in_bounds(states: Seq<CharsetEntry>, words: Seq<CharsetEntry>, p: Pair) -> bool {
    p.state < states.len() && p.word < words.len()
}

/// The state and the word of the pair share no character.
pub open spec fn is_candidate(
    states: Seq<CharsetEntry>,
    words: Seq<CharsetEntry>,
    p: Pair,
) -> bool {
    in_bounds(states, words, p) && shares_no_char(
        states[p.state as int].chars@,
        words[p.word as int].chars@,
    )
}

/// No state whose text differs from the pair's state is disjoint from the
/// pair's word.
pub open spec fn no_other_disjoint_state(
    states: Seq<CharsetEntry>,
    words: Seq<CharsetEntry>,
    p: Pair,
) -> bool {
    forall|k: int|
        0 <= k < states.len() && states[k].original@ != states[p.state as int].original@
            ==> !shares_no_char(#[trigger] states[k].chars@, words[p.word as int].chars@)
}

/// The word is disjoint from the pair's state and from no state of another
/// text.
pub open spec fn is_unique_pair(
    states: Seq<CharsetEntry>,
    words: Seq<CharsetEntry>,
    p: Pair,
) -> bool {
    is_candidate(states, words, p) && no_other_disjoint_state(states, words, p)
}

/// The candidate pairs of state `s` among the first `n` words, in word order.
pub open spec fn state_candidates(
    states: Seq<CharsetEntry>,
    words: Seq<CharsetEntry>,
    s: int,
    n: int,
) -> Seq<Pair>
    decreases n,
{
    if n <= 0 {
        Seq::empty()
    } else {
        let prev = state_candidates(states, words, s, n - 1);
        if shares_no_char(states[s].chars@, words[n - 1].chars@) {
            prev.push(Pair { state: s as usize, word: (n - 1) as usize })
        } else {
            prev
        }
    }
}

/// The candidate pairs of the first `m` states, state by state.
pub open spec fn candidates_upto(
    states: Seq<CharsetEntry>,
    words: Seq<CharsetEntry>,
    m: int,
) -> Seq<Pair>
    decreases m,
{
    if m <= 0 {
        Seq::empty()
    } else {
        candidates_upto(states, words, m - 1) + state_candidates(
            states,
            words,
            m - 1,
            words.len() as int,
        )
    }
}

/// `a` comes before `b` in lexicographic order.
pub open spec fn text_less(a: Seq<char>, b: Seq<char>) -> bool
    decreases a.len(),
{
    if b.len() == 0 {
        false
    } else if a.len() == 0 {
        true
    } else if a[0] != b[0] {
        a[0] < b[0]
    } else {
        text_less(a.drop_first(), b.drop_first())
    }
}

/// The text of the pair's state.
pub open spec fn state_text(states: Seq<CharsetEntry>, p: Pair) -> Seq<char> {
    states[p.state as int].original@
}

/// No pair is followed by one whose state text comes before its own.
pub open spec fn is_text_ordered(states: Seq<CharsetEntry>, ps: Seq<Pair>) -> bool {
    forall|i: int, k: int|
        0 <= i < k < ps.len() ==> !text_less(
            state_text(states, #[trigger] ps[k]),
            state_text(states, #[trigger] ps[i]),
        )
}

/// Whether a pair's state has text `t`.
pub open spec fn has_state_text(states: Seq<CharsetEntry>, t: Seq<char>) -> spec_fn(Pair) -> bool {
    |p: Pair| state_text(states, p) == t
}

/// Whether the pair's word is disjoint from no state of another text.
pub open spec fn keeps_pair(states: Seq<CharsetEntry>, words: Seq<CharsetEntry>) -> spec_fn(
    Pair,
) -> bool {
    |p: Pair| no_other_disjoint_state(states, words, p)
}

/// The unique pairs in the order the two stages find them: state by state,
/// and word by word within a state.
pub open spec fn unique_candidates(states: Seq<CharsetEntry>, words: Seq<CharsetEntry>) -> Seq<
    Pair,
> {
    candidates_upto(states, words, states.len() as int).filter(keeps_pair(states, words))
}

/// Every pair names a state of the list.
pub open spec fn states_in_bounds(states: Seq<CharsetEntry>, ps: Seq<Pair>) -> bool {
    forall|i: int| 0 <= i < ps.len() ==> (#[trigger] ps[i]).state < states.len()
}

/// Every pair names a state and a word of the lists.
pub open spec fn pairs_in_bounds(
    states: Seq<CharsetEntry>,
    words: Seq<CharsetEntry>,
    ps: Seq<Pair>,
) -> bool {
    forall|i: int| 0 <= i < ps.len() ==> in_bounds(states, words, #[trigger] ps[i])
}

/// Tests whether two texts are equal.
pub fn same_text(a: &[char], b: &[char]) -> (r: bool)
    ensures
        r == (a@ == b@),
{
    if a.len() != b.len() {
        return false;
    }
    let mut i: usize = 0;
    while i < a.len()
        invariant
            i <= a.len(),
            a.len() == b.len(),
            a@.take(i as int) == b@.take(i as int),
        decreases a.len() - i,
    {
        if a[i] != b[i] {
            return false;
        }
        assert(a@.take(i as int + 1) == a@.take(i as int).push(a@[i as int]));
        assert(b@.take(i as int + 1) == b@.take(i as int).push(b@[i as int]));
        i = i + 1;
    }
    assert(a@.take(a.len() as int) == a@);
    assert(b@.take(b.len() as int) == b@);
    true
}

/// Tests whether `a` comes before `b` in lexicographic order.
pub fn text_lt(a: &[char], b: &[char]) -> (r: bool)
    ensures
        r == text_less(a@, b@),
{
    let mut i: usize = 0;
    assert(a@.skip(0) == a@);
    assert(b@.skip(0) == b@);
    while i < a.len() && i < b.len() && a[i] == b[i]
        invariant
            i <= a.len(),
            i <= b.len(),
            text_less(a@, b@) == text_less(a@.skip(i as int), b@.skip(i as int)),
        decreases a.len() - i,
    {
        assert(a@.skip(i as int).drop_first() == a@.skip(i as int + 1));
        assert(b@.skip(i as int).drop_first() == b@.skip(i as int + 1));
        i = i + 1;
    }
    if i == b.len() {
        false
    } else if i == a.len() {
        true
    } else {
        a[i] < b[i]
    }
}

/// The candidate pairs of one state: each word disjoint from it, in word
/// order.
pub fn disjoint_words_for_state(
    states: &[CharsetEntry],
    words: &[CharsetEntry],
    s: usize,
) -> (r: Vec<Pair>)
    requires
        s < states@.len(),
        all_wf(states@),
        all_wf(words@),
    ensures
        r@ == state_candidates(states@, words@, s as int, words@.len() as int),
{
    let mut out: Vec<Pair> = Vec::new();
    let mut j: usize = 0;
    while j < words.len()
        invariant
            j <= words@.len(),
            s < states@.len(),
            all_wf(states@),
            all_wf(words@),
            out@ == state_candidates(states@, words@, s as int, j as int),
        decreases words.len() - j,
    {
        proof {
            assert(words@[j as int].wf());
            assert(states@[s as int].wf());
            lemma_charset_sorted(states@[s as int].chars@, states@[s as int].original@);
            lemma_charset_sorted(words@[j as int].chars@, words@[j as int].original@);
        }
        if is_disjoint(states[s].chars.as_slice(), words[j].chars.as_slice()) {
            out.push(Pair { state: s, word: j });
        }
        j = j + 1;
    }
    out
}

/// Every candidate pair: for each state in order, each word disjoint from it.
pub fn find_disjoint_words(states: &[CharsetEntry], words: &[CharsetEntry]) -> (r: Vec<Pair>)
    requires
        all_wf(states@),
        all_wf(words@),
    ensures
        r@ == candidates_upto(states@, words@, states@.len() as int),
{
    let mut out: Vec<Pair> = Vec::new();
    let mut s: usize = 0;
    while s < states.len()
        invariant
            s <= states@.len(),
            all_wf(states@),
            all_wf(words@),
            out@ == candidates_upto(states@, words@, s as int),
        decreases states.len() - s,
    {
        let mut part = disjoint_words_for_state(states, words, s);
        out.append(&mut part);
        s = s + 1;
    }
    out
}

/// Whether the pair's word is disjoint from no state of another text. Stops
/// at the first such state.
pub fn is_unique_disjoint(states: &[CharsetEntry], words: &[CharsetEntry], p: Pair) -> (r: bool)
    requires
        in_bounds(states@, words@, p),
        all_wf(states@),
        all_wf(words@),
    ensures
        r == no_other_disjoint_state(states@, words@, p),
{
    let mut k: usize = 0;
    while k < states.len()
        invariant
            k <= states@.len(),
            in_bounds(states@, words@, p),
            all_wf(states@),
            all_wf(words@),
            forall|x: int|
                0 <= x < k && states@[x].original@ != states@[p.state as int].original@
                    ==> !shares_no_char(#[trigger] states@[x].chars@, words@[p.word as int].chars@),
        decreases states.len() - k,
    {
        proof {
            assert(states@[k as int].wf());
            assert(words@[p.word as int].wf());
            lemma_charset_sorted(states@[k as int].chars@, states@[k as int].original@);
            lemma_charset_sorted(words@[p.word as int].chars@, words@[p.word as int].original@);
        }
        if !same_text(states[k].original.as_slice(), states[p.state].original.as_slice())
            && is_disjoint(states[k].chars.as_slice(), words[p.word].chars.as_slice()) {
            return false;
        }
        k = k + 1;
    }
    true
}

/// Keeps, in order, the candidate pairs whose word is disjoint from no state
/// of another text.
pub fn find_unique_disjoints(
    states: &[CharsetEntry],
    words: &[CharsetEntry],
    candidates: &[Pair],
) -> (r: Vec<Pair>)
    requires
        pairs_in_bounds(states@, words@, candidates@),
        all_wf(states@),
        all_wf(words@),
    ensures
        r@ == candidates@.filter(keeps_pair(states@, words@)),
{
    let ghost keep = keeps_pair(states@, words@);
    let mut out: Vec<Pair> = Vec::new();
    let mut i: usize = 0;
    while i < candidates.len()
        invariant
            i <= candidates@.len(),
            pairs_in_bounds(states@, words@, candidates@),
            all_wf(states@),
            all_wf(words@),
            keep == keeps_pair(states@, words@),
            out@ == candidates@.take(i as int).filter(keep),
        decreases candidates.len() - i,
    {
        let p = candidates[i];
        proof {
            assert(in_bounds(states@, words@, candidates@[i as int]));
            assert(candidates@.take(i as int + 1) == candidates@.take(i as int).push(p));
            candidates@.take(i as int).lemma_filter_push(p, keep);
        }
        if is_unique_disjoint(states, words, p) {
            out.push(p);
        }
        i = i + 1;
    }
    assert(candidates@.take(candidates.len() as int) == candidates@);
    out
}

/// The text lines (state text, word text) of the unique pairs of two lists.
pub open spec fn unique_lines(states: Seq<CharsetEntry>, words: Seq<CharsetEntry>) -> Set<
    (Seq<char>, Seq<char>),
> {
    Set::new(
        |l: (Seq<char>, Seq<char>)|
            exists|p: Pair|
                #[trigger] is_unique_pair(states, words, p) && l == (
                    states[p.state as int].original@,
                    words[p.word as int].original@,
                ),
    )
}

/// The text lines (state text, word text) that a list of pairs stands for.
pub open spec fn lines_of_pairs(
    states: Seq<CharsetEntry>,
    words: Seq<CharsetEntry>,
    ps: Seq<Pair>,
) -> Set<(Seq<char>, Seq<char>)> {
    Set::new(
        |l: (Seq<char>, Seq<char>)|
            exists|k: int|
                0 <= k < ps.len() && l == (
                    states[(#[trigger] ps[k]).state as int].original@,
                    words[ps[k].word as int].original@,
                ),
    )
}

/// The whole computation: every unique pair of the two lists, each once, in
/// the order of the state texts.
pub fn find_unique_disjoint_pairs(
    states: &[CharsetEntry],
    words: &[CharsetEntry],
) -> (r: Vec<Pair>)
    requires
        all_wf(states@),
        all_wf(words@),
    ensures
        forall|p: Pair| #[trigger] r@.contains(p) <==> is_unique_pair(states@, words@, p),
        r@.no_duplicates(),
        is_text_ordered(states@, r@),
        forall|t: Seq<char>|
            r@.filter(#[trigger] has_state_text(states@, t)) == unique_candidates(
                states@,
                words@,
            ).filter(has_state_text(states@, t)),
        lines_of_pairs(states@, words@, r@) == unique_lines(states@, words@),
{
    let candidates = find_disjoint_words(states, words);
    let ghost keep = keeps_pair(states@, words@);
    assert(states@.len() == states.len() && words@.len() == words.len());
    proof {
        lemma_candidates_upto(states@, words@, states@.len() as int);
        assert forall|i: int| 0 <= i < candidates@.len() implies in_bounds(
            states@,
            words@,
            #[trigger] candidates@[i],
        ) by {
            assert(candidates@.contains(candidates@[i]));
        }
    }
    let unique = find_unique_disjoints(states, words, candidates.as_slice());
    let ghost f = candidates@.filter(keep);
    assert(unique@ == f);
    proof {
        lemma_filter_no_duplicates(candidates@, keep);
        assert forall|p: Pair| #[trigger] f.contains(p) <==> is_unique_pair(states@, words@, p) by {
            if f.contains(p) {
                candidates@.lemma_filter_contains_rev(keep, p);
                let k = choose|k: int| 0 <= k < f.len() && f[k] == p;
                candidates@.filter_lemma(keep);
                assert(keep(f[k]));
            }
            if is_unique_pair(states@, words@, p) {
                assert(candidates@.contains(p));
                let k = choose|k: int| 0 <= k < candidates@.len() && candidates@[k] == p;
                candidates@.filter_lemma(keep);
                assert(f.contains(candidates@[k]));
            }
        }
        assert forall|i: int| 0 <= i < f.len() implies (#[trigger] f[i]).state < states@.len() by {
            assert(f.contains(f[i]));
        }
    }
    let r = merge_disjoints(states, unique.as_slice());
    proof {
        f.lemma_multiset_has_no_duplicates();
        assert forall|p: Pair| #[trigger] r@.contains(p) <==> f.contains(p) by {
            vstd::seq_lib::to_multiset_contains(r@, p);
            vstd::seq_lib::to_multiset_contains(f, p);
        }
        assert forall|p: Pair| r@.to_multiset().contains(p) implies r@.to_multiset().count(p)
            == 1 by {
            assert(f.to_multiset().contains(p));
        }
        r@.lemma_multiset_has_no_duplicates_conv();
        let a = lines_of_pairs(states@, words@, r@);
        let b = unique_lines(states@, words@);
        assert forall|l: (Seq<char>, Seq<char>)| a.contains(l) <==> b.contains(l) by {
            if a.contains(l) {
                let k = choose|k: int|
                    0 <= k < r@.len() && l == (
                        states@[(#[trigger] r@[k]).state as int].original@,
                        words@[r@[k].word as int].original@,
                    );
                assert(r@.contains(r@[k]));
                assert(is_unique_pair(states@, words@, r@[k]));
            }
            if b.contains(l) {
                let p = choose|p: Pair|
                    #[trigger] is_unique_pair(states@, words@, p) && l == (
                        states@[p.state as int].original@,
                        words@[p.word as int].original@,
                    );
                assert(r@.contains(p));
                let k = choose|k: int| 0 <= k < r@.len() && r@[k] == p;
                assert(l == (
                    states@[(r@[k]).state as int].original@,
                    words@[r@[k].word as int].original@,
                ));
            }
        }
        assert(a =~= b);
    }
    r
}

/// One half of the law below: lists that hold the same entries give no line
/// in the first case that is missing in the second.
proof fn lemma_unique_lines_subset(
    states1: Seq<CharsetEntry>,
    words1: Seq<CharsetEntry>,
    states2: Seq<CharsetEntry>,
    words2: Seq<CharsetEntry>,
)
    requires
        forall|e: CharsetEntry| states1.contains(e) <==> states2.contains(e),
        forall|e: CharsetEntry| words1.contains(e) <==> words2.contains(e),
        states2.len() <= usize::MAX,
        words2.len() <= usize::MAX,
    ensures
        unique_lines(states1, words1).subset_of(unique_lines(states2, words2)),
{
    assert forall|l: (Seq<char>, Seq<char>)| unique_lines(states1, words1).contains(l) implies
        unique_lines(states2, words2).contains(l) by {
        let p = choose|p: Pair|
            #[trigger] is_unique_pair(states1, words1, p) && l == (
                states1[p.state as int].original@,
                words1[p.word as int].original@,
            );
        let e = states1[p.state as int];
        let w = words1[p.word as int];
        assert(states1.contains(e));
        assert(words1.contains(w));
        let i = choose|i: int| 0 <= i < states2.len() && states2[i] == e;
        let j = choose|j: int| 0 <= j < words2.len() && words2[j] == w;
        let q = Pair { state: i as usize, word: j as usize };
        assert forall|k: int|
            0 <= k < states2.len() && states2[k].original@ != states2[q.state as int].original@
                implies !shares_no_char(#[trigger] states2[k].chars@, words2[q.word as int].chars@) by {
            assert(states2.contains(states2[k]));
            let k1 = choose|k1: int| 0 <= k1 < states1.len() && states1[k1] == states2[k];
            assert(states1[k1].original@ != states1[p.state as int].original@);
            assert(!shares_no_char(states1[k1].chars@, words1[p.word as int].chars@));
        }
        assert(is_unique_pair(states2, words2, q));
    }
}

/// Reordering the lines of either list changes no result line: the set of
/// (state text, word text) lines of the unique pairs stays the same.
pub proof fn lemma_unique_lines_order_invariant(
    states1: Seq<CharsetEntry>,
    words1: Seq<CharsetEntry>,
    states2: Seq<CharsetEntry>,
    words2: Seq<CharsetEntry>,
)
    requires
        states1.to_multiset() == states2.to_multiset(),
        words1.to_multiset() == words2.to_multiset(),
        states1.len() <= usize::MAX,
        words1.len() <= usize::MAX,
    ensures
        unique_lines(states1, words1) == unique_lines(states2, words2),
{
    assert forall|e: CharsetEntry| states1.contains(e) <==> states2.contains(e) by {
        vstd::seq_lib::to_multiset_contains(states1, e);
        vstd::seq_lib::to_multiset_contains(states2, e);
    }
    assert forall|e: CharsetEntry| words1.contains(e) <==> words2.contains(e) by {
        vstd::seq_lib::to_multiset_contains(words1, e);
        vstd::seq_lib::to_multiset_contains(words2, e);
    }
    vstd::seq_lib::to_multiset_len(states1);
    vstd::seq_lib::to_multiset_len(states2);
    vstd::seq_lib::to_multiset_len(words1);
    vstd::seq_lib::to_multiset_len(words2);
    lemma_unique_lines_subset(states1, words1, states2, words2);
    lemma_unique_lines_subset(states2, words2, states1, words1);
    assert(unique_lines(states1, words1) =~= unique_lines(states2, words2));
}

/// The printed lines of a list of pairs, in order: state text, word text.
pub open spec fn result_lines(
    states: Seq<CharsetEntry>,
    words: Seq<CharsetEntry>,
    ps: Seq<Pair>,
) -> Seq<(Seq<char>, Seq<char>)> {
    ps.map_values(
        |p: Pair| (states[p.state as int].original@, words[p.word as int].original@),
    )
}

/// No two pairs of the list have states of the same text.
pub open spec fn state_texts_distinct(states: Seq<CharsetEntry>, ps: Seq<Pair>) -> bool {
    forall|i: int, j: int|
        0 <= i < j < ps.len() ==> states[ps[i].state as int].original@ != states[ps[j].state as int].original@
}

/// Each line comes before the next by its first text.
pub open spec fn lines_strictly_sorted(ls: Seq<(Seq<char>, Seq<char>)>) -> bool {
    forall|i: int, j: int| 0 <= i < j < ls.len() ==> text_less(ls[i].0, ls[j].0)
}

/// Two lists of lines, each strictly sorted by first text, that hold the same
/// lines are equal.
proof fn lemma_sorted_lines_unique(s: Seq<(Seq<char>, Seq<char>)>, t: Seq<(Seq<char>, Seq<char>)>)
    requires
        lines_strictly_sorted(s),
        lines_strictly_sorted(t),
        forall|l: (Seq<char>, Seq<char>)| s.contains(l) <==> t.contains(l),
    ensures
        s == t,
    decreases s.len(),
{
    if s.len() == 0 {
        if t.len() > 0 {
            assert(t.contains(t[0]));
        }
    } else {
        assert(s.contains(s[0]));
        assert(t.contains(t[0]));
        let ks = choose|k: int| 0 <= k < s.len() && s[k] == t[0];
        let kt = choose|k: int| 0 <= k < t.len() && t[k] == s[0];
        if ks > 0 && kt > 0 {
            lemma_text_less_asymmetric(s[0].0, t[0].0);
            assert(text_less(s[0].0, s[ks].0));
            assert(text_less(t[0].0, t[kt].0));
        }
        if ks > 0 && kt == 0 {
            lemma_text_less_asymmetric(s[0].0, s[0].0);
            assert(text_less(s[0].0, s[ks].0));
        }
        if ks == 0 && kt > 0 {
            lemma_text_less_asymmetric(t[0].0, t[0].0);
            assert(text_less(t[0].0, t[kt].0));
        }
        assert(s[0] == t[0]);
        let s1 = s.drop_first();
        let t1 = t.drop_first();
        assert forall|l: (Seq<char>, Seq<char>)| s1.contains(l) <==> t1.contains(l) by {
            if s1.contains(l) {
                let k = choose|k: int| 0 <= k < s1.len() && s1[k] == l;
                assert(s[k + 1] == l && text_less(s[0].0, s[k + 1].0));
                lemma_text_less_asymmetric(s[0].0, s[0].0);
                assert(s.contains(l));
                let m = choose|m: int| 0 <= m < t.len() && t[m] == l;
                assert(m != 0);
                assert(t1[m - 1] == l);
            }
            if t1.contains(l) {
                let k = choose|k: int| 0 <= k < t1.len() && t1[k] == l;
                assert(t[k + 1] == l && text_less(t[0].0, t[k + 1].0));
                lemma_text_less_asymmetric(t[0].0, t[0].0);
                assert(t.contains(l));
                let m = choose|m: int| 0 <= m < s.len() && s[m] == l;
                assert(m != 0);
                assert(s1[m - 1] == l);
            }
        }
        lemma_sorted_lines_unique(s1, t1);
        assert(s == seq![s[0]] + s1);
        assert(t == seq![t[0]] + t1);
    }
}

/// The lines of a full result, in order: strictly sorted by state text when
/// no two pairs share one, and holding exactly the unique lines.
proof fn lemma_result_lines_of_ordered(
    states: Seq<CharsetEntry>,
    words: Seq<CharsetEntry>,
    r: Seq<Pair>,
)
    requires
        forall|p: Pair| #[trigger] r.contains(p) <==> is_unique_pair(states, words, p),
        is_text_ordered(states, r),
        state_texts_distinct(states, r),
    ensures
        lines_strictly_sorted(result_lines(states, words, r)),
        forall|l: (Seq<char>, Seq<char>)|
            result_lines(states, words, r).contains(l) <==> unique_lines(states, words).contains(l),
{
    let ls = result_lines(states, words, r);
    assert forall|i: int, j: int| 0 <= i < j < ls.len() implies text_less(ls[i].0, ls[j].0) by {
        let a = state_text(states, r[i]);
        let b = state_text(states, r[j]);
        assert(!text_less(state_text(states, r[j]), state_text(states, r[i])));
        lemma_text_less_total(a, b);
    }
    assert forall|l: (Seq<char>, Seq<char>)|
        ls.contains(l) <==> unique_lines(states, words).contains(l) by {
        if ls.contains(l) {
            let k = choose|k: int| 0 <= k < ls.len() && ls[k] == l;
            assert(r.contains(r[k]));
            assert(is_unique_pair(states, words, r[k]));
        }
        if unique_lines(states, words).contains(l) {
            let p = choose|p: Pair|
                #[trigger] is_unique_pair(states, words, p) && l == (
                    states[p.state as int].original@,
                    words[p.word as int].original@,
                );
            assert(r.contains(p));
            let k = choose|k: int| 0 <= k < r.len() && r[k] == p;
            assert(ls[k] == l);
        }
    }
}

/// Reordering the lines of either list leaves the printed result as it is,
/// line for line, whenever no two pairs of a result share a state text. (Where
/// two words pair with one state, their lines follow the word order.)
pub proof fn lemma_result_order_invariant(
    states1: Seq<CharsetEntry>,
    words1: Seq<CharsetEntry>,
    r1: Seq<Pair>,
    states2: Seq<CharsetEntry>,
    words2: Seq<CharsetEntry>,
    r2: Seq<Pair>,
)
    requires
        states1.to_multiset() == states2.to_multiset(),
        words1.to_multiset() == words2.to_multiset(),
        states1.len() <= usize::MAX,
        words1.len() <= usize::MAX,
        forall|p: Pair| #[trigger] r1.contains(p) <==> is_unique_pair(states1, words1, p),
        forall|p: Pair| #[trigger] r2.contains(p) <==> is_unique_pair(states2, words2, p),
        is_text_ordered(states1, r1),
        is_text_ordered(states2, r2),
        state_texts_distinct(states1, r1),
        state_texts_distinct(states2, r2),
    ensures
        result_lines(states1, words1, r1) == result_lines(states2, words2, r2),
{
    lemma_unique_lines_order_invariant(states1, words1, states2, words2);
    lemma_result_lines_of_ordered(states1, words1, r1);
    lemma_result_lines_of_ordered(states2, words2, r2);
    let u1 = unique_lines(states1, words1);
    let u2 = unique_lines(states2, words2);
    assert forall|l: (Seq<char>, Seq<char>)|
        result_lines(states1, words1, r1).contains(l) <==> result_lines(
            states2,
            words2,
            r2,
        ).contains(l) by {
        assert(u1.contains(l) == u2.contains(l));
    }
    lemma_sorted_lines_unique(result_lines(states1, words1, r1), result_lines(states2, words2, r2));
}

/// What the candidate list of one state holds, each pair once.
pub proof fn lemma_state_candidates(
    states: Seq<CharsetEntry>,
    words: Seq<CharsetEntry>,
    s: int,
    n: int,
)
    requires
        0 <= s < states.len() <= usize::MAX,
        0 <= n <= words.len() <= usize::MAX,
    ensures
        forall|p: Pair|
            #[trigger] state_candidates(states, words, s, n).contains(p) <==> (p.state == s
                && p.word < n && is_candidate(states, words, p)),
        state_candidates(states, words, s, n).no_duplicates(),
    decreases n,
{
    if n > 0 {
        lemma_state_candidates(states, words, s, n - 1);
        let prev = state_candidates(states, words, s, n - 1);
        let q = Pair { state: s as usize, word: (n - 1) as usize };
        if shares_no_char(states[s].chars@, words[n - 1].chars@) {
            assert forall|p: Pair| #[trigger] prev.push(q).contains(p) <==> (prev.contains(p)
                || p == q) by {
                if prev.push(q).contains(p) && p != q {
                    let k = choose|k: int| 0 <= k < prev.len() + 1 && prev.push(q)[k] == p;
                    assert(prev[k] == p);
                }
                if prev.contains(p) {
                    let k = choose|k: int| 0 <= k < prev.len() && prev[k] == p;
                    assert(prev.push(q)[k] == p);
                }
                if p == q {
                    assert(prev.push(q)[prev.len() as int] == p);
                }
            }
            assert(!prev.contains(q));
            assert forall|i: int, j: int| 0 <= i < j < prev.push(q).len() implies prev.push(q)[i]
                != prev.push(q)[j] by {
                if j == prev.len() {
                    assert(prev.contains(prev[i]));
                } else {
                    assert(prev[i] != prev[j]);
                }
            }
        }
    }
}

/// What the full candidate list of the first `m` states holds, each pair
/// once.
pub proof fn lemma_candidates_upto(states: Seq<CharsetEntry>, words: Seq<CharsetEntry>, m: int)
    requires
        0 <= m <= states.len() <= usize::MAX,
        words.len() <= usize::MAX,
    ensures
        forall|p: Pair|
            #[trigger] candidates_upto(states, words, m).contains(p) <==> (p.state < m
                && is_candidate(states, words, p)),
        candidates_upto(states, words, m).no_duplicates(),
    decreases m,
{
    if m > 0 {
        lemma_candidates_upto(states, words, m - 1);
        lemma_state_candidates(states, words, m - 1, words.len() as int);
        let a = candidates_upto(states, words, m - 1);
        let b = state_candidates(states, words, m - 1, words.len() as int);
        assert forall|i: int, j: int| 0 <= i < a.len() && 0 <= j < b.len() implies a[i]
            != b[j] by {
            assert(a.contains(a[i]));
            assert(b.contains(b[j]));
        }
        vstd::seq_lib::lemma_no_dup_in_concat(a, b);
        assert forall|p: Pair| #[trigger] (a + b).contains(p) <==> (a.contains(p) || b.contains(
            p,
        )) by {
            if (a + b).contains(p) {
                let k = choose|k: int| 0 <= k < (a + b).len() && (a + b)[k] == p;
                if k < a.len() {
                    assert(a[k] == p);
                } else {
                    assert(b[k - a.len()] == p);
                }
            }
            if a.contains(p) {
                let k = choose|k: int| 0 <= k < a.len() && a[k] == p;
                assert((a + b)[k] == p);
            }
            if b.contains(p) {
                let k = choose|k: int| 0 <= k < b.len() && b[k] == p;
                assert((a + b)[k + a.len()] == p);
            }
        }
    }
}

/// Keeping some elements of a list without repeats gives a list without
/// repeats.
pub proof fn lemma_filter_no_duplicates(s: Seq<Pair>, keep: spec_fn(Pair) -> bool)
    requires
        s.no_duplicates(),
    ensures
        s.filter(keep).no_duplicates(),
    decreases s.len(),
{
    reveal(Seq::filter);
    if s.len() > 0 {
        let rest = s.drop_last();
        assert forall|i: int, j: int| 0 <= i < j < rest.len() implies rest[i] != rest[j] by {
            assert(rest[i] == s[i] && rest[j] == s[j]);
        }
        lemma_filter_no_duplicates(rest, keep);
        if keep(s.last()) {
            if rest.filter(keep).contains(s.last()) {
                rest.lemma_filter_contains_rev(keep, s.last());
                let k = choose|k: int| 0 <= k < rest.len() && rest[k] == s.last();
                assert(s[k] == s[s.len() - 1]);
            }
        }
    }
}

/// Lexicographic order is asymmetric, hence irreflexive.
pub proof fn lemma_text_less_asymmetric(a: Seq<char>, b: Seq<char>)
    ensures
        text_less(a, b) ==> !text_less(b, a),
        !text_less(a, a),
    decreases a.len(),
{
    if a.len() > 0 && b.len() > 0 && a[0] == b[0] {
        lemma_text_less_asymmetric(a.drop_first(), b.drop_first());
    }
    if a.len() > 0 {
        lemma_text_less_asymmetric(a.drop_first(), a.drop_first());
    }
}

/// Lexicographic order is transitive.
pub proof fn lemma_text_less_transitive(a: Seq<char>, b: Seq<char>, c: Seq<char>)
    requires
        text_less(a, b),
        text_less(b, c),
    ensures
        text_less(a, c),
    decreases a.len(),
{
    if a.len() > 0 && a[0] == b[0] && b[0] == c[0] {
        lemma_text_less_transitive(a.drop_first(), b.drop_first(), c.drop_first());
    }
}

/// Of two different texts, one comes before the other.
pub proof fn lemma_text_less_total(a: Seq<char>, b: Seq<char>)
    requires
        a != b,
    ensures
        text_less(a, b) || text_less(b, a),
    decreases a.len(),
{
    if a.len() > 0 && b.len() > 0 && a[0] == b[0] {
        if a.drop_first() == b.drop_first() {
            assert(a == seq![a[0]] + a.drop_first());
            assert(b == seq![b[0]] + b.drop_first());
        }
        lemma_text_less_total(a.drop_first(), b.drop_first());
    } else if a.len() == 0 && b.len() == 0 {
        assert(a == b);
    }
}

/// Inserting `x` at position `j` adds it to the kept elements right after
/// those kept before `j`, when none from `j` on would be kept beside it.
proof fn lemma_filter_insert(s: Seq<Pair>, j: int, x: Pair, keep: spec_fn(Pair) -> bool)
    requires
        0 <= j <= s.len(),
        keep(x) ==> forall|k: int| j <= k < s.len() ==> !keep(#[trigger] s[k]),
    ensures
        s.insert(j, x).filter(keep) == if keep(x) {
            s.filter(keep).push(x)
        } else {
            s.filter(keep)
        },
{
    let head = s.take(j);
    let tail = s.skip(j);
    assert(s.insert(j, x) == head.push(x) + tail);
    assert(s == head + tail);
    Seq::filter_distributes_over_add(head.push(x), tail, keep);
    Seq::filter_distributes_over_add(head, tail, keep);
    head.lemma_filter_push(x, keep);
    if keep(x) {
        assert forall|k: int| 0 <= k < tail.len() implies !keep(#[trigger] tail[k]) by {
            assert(tail[k] == s[k + j]);
        }
        tail.lemma_all_neg_filter_empty(keep);
        assert(tail.filter(keep) == Seq::<Pair>::empty());
        assert(head.filter(keep).push(x) + tail.filter(keep) == head.filter(keep).push(x));
        assert(head.filter(keep) + tail.filter(keep) == head.filter(keep));
    }
}

/// Sorts pairs by the text of their state, stably: the result holds the same
/// pairs, each as often, and pairs whose states have one text keep the order
/// they came in.
pub fn merge_disjoints(states: &[CharsetEntry], pairs: &[Pair]) -> (r: Vec<Pair>)
    requires
        states_in_bounds(states@, pairs@),
    ensures
        r@.to_multiset() == pairs@.to_multiset(),
        is_text_ordered(states@, r@),
        forall|t: Seq<char>|
            r@.filter(#[trigger] has_state_text(states@, t)) == pairs@.filter(
                has_state_text(states@, t),
            ),
        states_in_bounds(states@, r@),
{
    let mut out: Vec<Pair> = Vec::new();
    let mut i: usize = 0;
    assert(out@ == pairs@.take(0));
    while i < pairs.len()
        invariant
            i <= pairs@.len(),
            states_in_bounds(states@, pairs@),
            states_in_bounds(states@, out@),
            is_text_ordered(states@, out@),
            out@.to_multiset() == pairs@.take(i as int).to_multiset(),
            forall|t: Seq<char>|
                out@.filter(#[trigger] has_state_text(states@, t)) == pairs@.take(i as int).filter(
                    has_state_text(states@, t),
                ),
        decreases pairs.len() - i,
    {
        let x = pairs[i];
        assert(x.state < states@.len());
        let xt = states[x.state].original.as_slice();
        let mut j: usize = 0;
        while j < out.len() && !text_lt(xt, states[out[j].state].original.as_slice())
            invariant
                j <= out@.len(),
                x.state < states@.len(),
                xt@ == state_text(states@, x),
                states_in_bounds(states@, out@),
                forall|k: int|
                    0 <= k < j ==> !text_less(xt@, state_text(states@, #[trigger] out@[k])),
            decreases out.len() - j,
        {
            assert(out@[j as int].state < states@.len());
            j = j + 1;
        }
        let ghost before = out@;
        let ghost xs = state_text(states@, x);
        proof {
            // Every pair from `j` on has a state text after that of `x`.
            assert forall|k: int| j <= k < before.len() implies text_less(
                xs,
                state_text(states@, #[trigger] before[k]),
            ) by {
                let bj = state_text(states@, before[j as int]);
                let bk = state_text(states@, before[k]);
                if k > j {
                    assert(!text_less(bk, bj));
                    if bj != bk {
                        lemma_text_less_total(bj, bk);
                        lemma_text_less_transitive(xs, bj, bk);
                    }
                }
            }
        }
        out.insert(j, x);
        assert(out@ == before.insert(j as int, x));
        assert(pairs@.take(i as int + 1) == pairs@.take(i as int).push(x));
        proof {
            lemma_text_less_asymmetric(xs, xs);
            assert forall|a: int, k: int| 0 <= a < k < out@.len() implies !text_less(
                state_text(states@, #[trigger] out@[k]),
                state_text(states@, #[trigger] out@[a]),
            ) by {
                if k < j {
                    assert(out@[k] == before[k] && out@[a] == before[a]);
                } else if k == j {
                    assert(out@[a] == before[a]);
                } else if a == j {
                    assert(out@[k] == before[k - 1]);
                    lemma_text_less_asymmetric(xs, state_text(states@, before[k - 1]));
                } else if a < j {
                    assert(out@[k] == before[k - 1] && out@[a] == before[a]);
                } else {
                    assert(out@[k] == before[k - 1] && out@[a] == before[a - 1]);
                }
            }
            assert forall|k: int| 0 <= k < out@.len() implies (#[trigger] out@[k]).state
                < states@.len() by {
                if k < j {
                    assert(out@[k] == before[k]);
                } else if k > j {
                    assert(out@[k] == before[k - 1]);
                }
            }
            vstd::seq_lib::to_multiset_insert(before, j as int, x);
            vstd::seq_lib::to_multiset_build(pairs@.take(i as int), x);
            assert forall|t: Seq<char>|
                out@.filter(#[trigger] has_state_text(states@, t)) == pairs@.take(
                    i as int + 1,
                ).filter(has_state_text(states@, t)) by {
                let keep = has_state_text(states@, t);
                assert forall|k: int| j <= k < before.len() && keep(x) implies !keep(
                    #[trigger] before[k],
                ) by {
                    assert(xs == t);
                    assert(text_less(xs, state_text(states@, before[k])));
                }
                lemma_filter_insert(before, j as int, x, keep);
                pairs@.take(i as int).lemma_filter_push(x, keep);
            }
        }
        i = i + 1;
    }
    assert(pairs@.take(pairs.len() as int) == pairs@);
    out
}

} // verus!
