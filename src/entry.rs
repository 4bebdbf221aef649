//! Charset entries: a line of text beside its charset, and the split of a
//! text into such entries.
use vstd::prelude::*;
use crate::charset::{build_charset, is_charset_of};

verus! {

/// A line of text and its charset, computed once.
pub struct CharsetEntry {
    pub original: Vec<char>,
    pub chars: Vec<char>,
}

impl CharsetEntry {
    /// `chars` is the charset of `original`.
    pub open spec fn wf(&self) -> bool {
        is_charset_of(self.chars@, self.original@)
    }

    /// Makes the entry of one line.
    pub fn new(original: Vec<char>) -> (r: CharsetEntry)
        ensures
            r.original@ == original@,
            r.wf(),
    {
        let chars = build_charset(original.as_slice());
        CharsetEntry { original, chars }
    }

    /// The line as a `String`.
    pub fn original_text(&self) -> (r: String)
        ensures
            r@ == self.original@,
    {
        string_of(self.original.as_slice())
    }
}

/// Every entry of the list is well formed.
pub open spec fn all_wf(es: Seq<CharsetEntry>) -> bool {
    forall|k: int| 0 <= k < es.len() ==> #[trigger] es[k].wf()
}

/// A line that ended in a line feed loses one carriage return before it.
pub open spec fn strip_cr(l: Seq<char>) -> Seq<char> {
    if l.len() > 0 && l.last() == '\r' {
        l.drop_last()
    } else {
        l
    }
}

/// Reads a text left to right: the lines that a line feed has closed, and
/// the characters of the line still open.
pub open spec fn line_scan(s: Seq<char>) -> (Seq<Seq<char>>, Seq<char>)
    decreases s.len(),
{
    if s.len() == 0 {
        (Seq::empty(), Seq::empty())
    } else {
        let (done, cur) = line_scan(s.drop_last());
        if s.last() == '\n' {
            (done.push(strip_cr(cur)), Seq::empty())
        } else {
            (done, cur.push(s.last()))
        }
    }
}

/// The lines of a text: split at each line feed (with a carriage return just
/// before it dropped); a last line without a line feed counts when it is not
/// empty.
pub open spec fn lines_of(s: Seq<char>) -> Seq<Seq<char>> {
    let (done, cur) = line_scan(s);
    if cur.len() == 0 {
        done
    } else {
        done.push(cur)
    }
}

/// Relies on `str::chars`, collected: the characters of the text in order.
#[verifier::external_body]
fn text_chars(s: &str) -> (r: Vec<char>)
    ensures
        r@ == s@,
{
    s.chars().collect()
}

/// Relies on collecting characters into a `String`: the same characters in
/// order.
#[verifier::external_body]
fn string_of(cs: &[char]) -> (r: String)
    ensures
        r@ == cs@,
{
    cs.iter().collect()
}

/// Splits a text into its lines and makes the entry of each, in order.
/// Empty lines are kept, as entries with an empty charset.
pub fn generate_list_of_characters(text: &str) -> (r: Vec<CharsetEntry>)
    ensures
        r@.len() == lines_of(text@).len(),
        forall|k: int|
            0 <= k < r@.len() ==> #[trigger] r@[k].original@ == lines_of(text@)[k]
                && r@[k].wf(),
{
    let cs = text_chars(text);
    let mut entries: Vec<CharsetEntry> = Vec::new();
    let mut cur: Vec<char> = Vec::new();
    let mut i: usize = 0;
    while i < cs.len()
        invariant
            i <= cs.len(),
            cs@ == text@,
            entries@.len() == line_scan(cs@.take(i as int)).0.len(),
            cur@ == line_scan(cs@.take(i as int)).1,
            forall|k: int|
                0 <= k < entries@.len() ==> #[trigger] entries@[k].original@ == line_scan(
                    cs@.take(i as int),
                ).0[k] && entries@[k].wf(),
        decreases cs.len() - i,
    {
        let c = cs[i];
        let ghost prev = line_scan(cs@.take(i as int));
        assert(cs@.take(i as int + 1).drop_last() == cs@.take(i as int));
        if c == '\n' {
            if cur.len() > 0 && cur[cur.len() - 1] == '\r' {
                cur.pop();
            }
            assert(cur@ == strip_cr(prev.1));
            let line = cur;
            cur = Vec::new();
            entries.push(CharsetEntry::new(line));
        } else {
            cur.push(c);
        }
        i = i + 1;
    }
    assert(cs@.take(cs.len() as int) == cs@);
    if cur.len() > 0 {
        entries.push(CharsetEntry::new(cur));
    }
    entries
}

} // verus!
