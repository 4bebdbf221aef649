//! Charsets and the disjointness test on sorted character sequences.
use vstd::prelude::*;

verus! {

/// Every element is at most the ones after it.
pub open spec fn is_sorted(s: Seq<char>) -> bool {
    forall|i: int, j: int| 0 <= i < j < s.len() ==> s[i] <= s[j]
}

/// Every element is below the ones after it (sorted, without repeats).
pub open spec fn is_strictly_sorted(s: Seq<char>) -> bool {
    forall|i: int, j: int| 0 <= i < j < s.len() ==> s[i] < s[j]
}

/// No character occurs in both sequences.
pub open spec fn shares_no_char(a: Seq<char>, b: Seq<char>) -> bool {
    forall|i: int, j: int| 0 <= i < a.len() && 0 <= j < b.len() ==> a[i] != b[j]
}

/// `cs` is the charset of `line`: its characters other than the space, each
/// once, in ascending order.
pub open spec fn is_charset_of(cs: Seq<char>, line: Seq<char>) -> bool {
    &&& is_strictly_sorted(cs)
    &&& forall|c: char| cs.contains(c) <==> (line.contains(c) && c != ' ')
}

/// Tests whether two sorted character sequences share no character.
///
/// One merge scan: the position in `b` only moves forward, so the whole test
/// takes time linear in `a.len() + b.len()`.
/// Both sequences must be sorted, except that an empty side makes any other
/// side acceptable: then the answer is `true`.
pub fn is_disjoint(a: &[char], b: &[char]) -> (r: bool)
    requires
        (is_sorted(a@) && is_sorted(b@)) || a@.len() == 0 || b@.len() == 0,
    ensures
        r == shares_no_char(a@, b@),
        r <==> !(exists|c: char| a@.contains(c) && b@.contains(c)),
{
    let mut skip: usize = 0;
    let mut i: usize = 0;
    while i < a.len()
        invariant
            i <= a.len(),
            skip <= b.len(),
            (is_sorted(a@) && is_sorted(b@)) || a@.len() == 0 || b@.len() == 0,
            forall|x: int, y: int| 0 <= x < i && 0 <= y < b@.len() ==> a@[x] != b@[y],
            forall|x: int, y: int| i <= x < a@.len() && 0 <= y < skip ==> b@[y] < a@[x],
        decreases a.len() - i,
    {
        let c = a[i];
        while skip < b.len() && b[skip] < c
            invariant
                skip <= b.len(),
                i < a.len(),
                c == a@[i as int],
                (is_sorted(a@) && is_sorted(b@)) || b@.len() == 0,
                forall|x: int, y: int| i <= x < a@.len() && 0 <= y < skip ==> b@[y] < a@[x],
            decreases b.len() - skip,
        {
            skip = skip + 1;
        }
        if skip < b.len() && b[skip] == c {
            assert(a@.contains(c) && b@.contains(c));
            return false;
        }
        i = i + 1;
    }
    proof {
        assert forall|c: char| a@.contains(c) implies !b@.contains(c) by {
            if a@.contains(c) && b@.contains(c) {
                let x = choose|x: int| 0 <= x < a@.len() && a@[x] == c;
                let y = choose|y: int| 0 <= y < b@.len() && b@[y] == c;
                assert(a@[x] != b@[y]);
            }
        }
    }
    true
}

/// Builds the charset of a line: each character but the space, once, in
/// ascending order.
pub fn build_charset(line: &[char]) -> (r: Vec<char>)
    ensures
        is_charset_of(r@, line@),
{
    let mut out: Vec<char> = Vec::new();
    let mut i: usize = 0;
    while i < line.len()
        invariant
            i <= line.len(),
            is_strictly_sorted(out@),
            forall|c: char| out@.contains(c) <==> (line@.take(i as int).contains(c) && c != ' '),
        decreases line.len() - i,
    {
        let c = line[i];
        let ghost seen = line@.take(i as int);
        let ghost start = out@;
        assert(line@.take(i as int + 1) == seen.push(c));
        assert forall|d: char| seen.push(c).contains(d) <==> (seen.contains(d) || d == c) by {
            if seen.push(c).contains(d) && d != c {
                let k = choose|k: int| 0 <= k < seen.len() + 1 && seen.push(c)[k] == d;
                assert(seen[k] == d);
            }
            if seen.contains(d) {
                let k = choose|k: int| 0 <= k < seen.len() && seen[k] == d;
                assert(seen.push(c)[k] == d);
            }
            if d == c {
                assert(seen.push(c)[seen.len() as int] == d);
            }
        }
        if c != ' ' {
            let mut j: usize = 0;
            while j < out.len() && out[j] < c
                invariant
                    j <= out.len(),
                    forall|k: int| 0 <= k < j ==> out@[k] < c,
                decreases out.len() - j,
            {
                j = j + 1;
            }
            if j < out.len() && out[j] == c {
                assert(out@.contains(c));
            } else {
                let ghost before = out@;
                out.insert(j, c);
                assert(out@ == before.insert(j as int, c));
                assert forall|x: int, y: int| 0 <= x < y < out@.len() implies out@[x] < out@[y] by {
                    if y < j {
                    } else if y == j {
                    } else if x < j {
                        assert(before[x] < c);
                        assert(c < before[j as int]);
                    } else if x == j {
                        assert(c < before[j as int]);
                    }
                }
                assert forall|d: char| out@.contains(d) <==> (before.contains(d) || d == c) by {
                    if out@.contains(d) {
                        let k = choose|k: int| 0 <= k < out@.len() && out@[k] == d;
                        if k < j {
                            assert(before[k] == d);
                        } else if k > j {
                            assert(before[k - 1] == d);
                        }
                    }
                    if before.contains(d) {
                        let k = choose|k: int| 0 <= k < before.len() && before[k] == d;
                        if k < j {
                            assert(out@[k] == d);
                        } else {
                            assert(out@[k + 1] == d);
                        }
                    }
                    if d == c {
                        assert(out@[j as int] == d);
                    }
                }
            }
        }
        assert forall|d: char| out@.contains(d) <==> (seen.push(c).contains(d) && d != ' ') by {
            assert(seen.push(c).contains(d) <==> (seen.contains(d) || d == c));
            assert(start.contains(d) <==> (seen.contains(d) && d != ' '));
            if c != ' ' {
                assert(out@.contains(d) <==> (start.contains(d) || d == c));
            } else {
                assert(out@ == start);
            }
        }
        assert(line@.take(i as int + 1) == seen.push(c));
        i = i + 1;
    }
    assert(line@.take(line.len() as int) == line@);
    out
}

/// Disjointness does not depend on the order of its two arguments.
pub proof fn lemma_disjoint_symmetric(a: Seq<char>, b: Seq<char>)
    ensures
        shares_no_char(a, b) == shares_no_char(b, a),
{
}

/// A sequence is disjoint from the empty sequence, on either side.
pub proof fn lemma_disjoint_with_empty(a: Seq<char>)
    ensures
        shares_no_char(a, Seq::<char>::empty()),
        shares_no_char(Seq::<char>::empty(), a),
{
}

/// Two strictly sorted sequences that hold the same characters are equal.
pub proof fn lemma_strictly_sorted_unique(s: Seq<char>, t: Seq<char>)
    requires
        is_strictly_sorted(s),
        is_strictly_sorted(t),
        forall|c: char| s.contains(c) <==> t.contains(c),
    ensures
        s == t,
    decreases s.len(),
{
    if s.len() == 0 {
        if t.len() > 0 {
            assert(t.contains(t[0]));
        }
        assert(t.len() == 0);
    } else {
        assert(s.contains(s[0]));
        assert(t.len() > 0);
        assert(t.contains(t[0]));
        let ks = choose|k: int| 0 <= k < s.len() && s[k] == t[0];
        let kt = choose|k: int| 0 <= k < t.len() && t[k] == s[0];
        assert(s[0] == t[0]) by {
            if ks > 0 {
                assert(s[0] < s[ks]);
            }
            if kt > 0 {
                assert(t[0] < t[kt]);
            }
        }
        let s1 = s.drop_first();
        let t1 = t.drop_first();
        assert forall|c: char| s1.contains(c) <==> t1.contains(c) by {
            if s1.contains(c) {
                let k = choose|k: int| 0 <= k < s1.len() && s1[k] == c;
                assert(s[k + 1] == c && s[0] < s[k + 1]);
                assert(s.contains(c));
                let m = choose|m: int| 0 <= m < t.len() && t[m] == c;
                assert(m != 0);
                assert(t1[m - 1] == c);
            }
            if t1.contains(c) {
                let k = choose|k: int| 0 <= k < t1.len() && t1[k] == c;
                assert(t[k + 1] == c && t[0] < t[k + 1]);
                assert(t.contains(c));
                let m = choose|m: int| 0 <= m < s.len() && s[m] == c;
                assert(m != 0);
                assert(s1[m - 1] == c);
            }
        }
        lemma_strictly_sorted_unique(s1, t1);
        assert(s == seq![s[0]] + s1);
        assert(t == seq![t[0]] + t1);
    }
}

/// Building a charset is idempotent: the charset of a charset is itself.
pub proof fn lemma_charset_fixed_point(line: Seq<char>, cs: Seq<char>, again: Seq<char>)
    requires
        is_charset_of(cs, line),
        is_charset_of(again, cs),
    ensures
        again == cs,
{
    assert forall|c: char| again.contains(c) <==> cs.contains(c) by {
        if cs.contains(c) {
            assert(c != ' ');
        }
    }
    lemma_strictly_sorted_unique(again, cs);
}

/// A charset is sorted, so it is a valid argument of the disjointness test.
pub proof fn lemma_charset_sorted(cs: Seq<char>, line: Seq<char>)
    requires
        is_charset_of(cs, line),
    ensures
        is_sorted(cs),
{
}

} // verus!
