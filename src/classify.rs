use vstd::prelude::*;
use crate::record::{Record, Source};

verus! {

/// The substring that marks a record as coming from the game process.
pub const MARKER: &'static str = "[__GAME__]";

/// The characters of the marker.
pub open spec fn marker() -> Seq<char> {
    seq!['[', '_', '_', 'G', 'A', 'M', 'E', '_', '_', ']']
}

/// `p` occurs in `s` starting at position `i`.
pub open spec fn occurs_at(s: Seq<char>, p: Seq<char>, i: int) -> bool {
    0 <= i && i + p.len() <= s.len() && s.subrange(i, i + p.len()) == p
}

/// `p` occurs somewhere in `s`.
pub open spec fn has_occurrence(s: Seq<char>, p: Seq<char>) -> bool {
    exists|i: int| occurs_at(s, p, i)
}

/// `s` with every occurrence of `p` replaced by `t`, matching left to right
/// without overlap.
pub open spec fn replace_all(s: Seq<char>, p: Seq<char>, t: Seq<char>) -> Seq<char>
    decreases s.len(),
{
    if p.len() == 0 || s.len() < p.len() {
        s
    } else if s.subrange(0, p.len() as int) == p {
        t + replace_all(s.subrange(p.len() as int, s.len() as int), p, t)
    } else {
        seq![s[0]] + replace_all(s.subrange(1, s.len() as int), p, t)
    }
}

/// Relies on str::contains with a string pattern: true iff `pat` is a
/// substring of `s` (the empty pattern is a substring of every string).
#[verifier::external_body]
fn str_contains(s: &str, pat: &str) -> (r: bool)
    ensures
        r == has_occurrence(s@, pat@),
{
    s.contains(pat)
}

/// Relies on str::replace: every non-overlapping match of a non-empty `from`,
/// found left to right, is replaced by `to`.
#[verifier::external_body]
fn str_replace(s: &str, from: &str, to: &str) -> (r: String)
    requires
        from@.len() > 0,
    ensures
        r@ == replace_all(s@, from@, to@),
{
    s.replace(from, to)
}

/// `s` with the marker removed again and again until none is left.
pub open spec fn strip_markers(s: Seq<char>) -> Seq<char>
    decreases s.len(),
{
    if has_occurrence(s, marker()) {
        let r = replace_all(s, marker(), Seq::empty());
        if r.len() < s.len() {
            strip_markers(r)
        } else {
            r
        }
    } else {
        s
    }
}

/// The source that a content designates, and the content to store.
pub open spec fn classify_spec(content: Seq<char>) -> (Source, Seq<char>) {
    if has_occurrence(content, marker()) {
        (Source::Game, strip_markers(content))
    } else {
        (Source::Engine, content)
    }
}

/// Removing a non-empty pattern that occurs makes a string shorter.
proof fn lemma_replace_shrinks(s: Seq<char>, p: Seq<char>)
    requires
        p.len() > 0,
    ensures
        replace_all(s, p, Seq::empty()).len() <= s.len(),
        has_occurrence(s, p) ==> replace_all(s, p, Seq::empty()).len() < s.len(),
    decreases s.len(),
{
    if s.len() >= p.len() {
        if s.subrange(0, p.len() as int) == p {
            let rest = s.subrange(p.len() as int, s.len() as int);
            lemma_replace_shrinks(rest, p);
            assert(Seq::<char>::empty() + replace_all(rest, p, Seq::empty()) =~= replace_all(
                rest,
                p,
                Seq::empty(),
            ));
        } else {
            let tail = s.subrange(1, s.len() as int);
            lemma_replace_shrinks(tail, p);
            if has_occurrence(s, p) {
                let i = choose|i: int| occurs_at(s, p, i);
                assert(i != 0);
                assert(tail.subrange(i - 1, i - 1 + p.len()) =~= s.subrange(i, i + p.len()));
                assert(occurs_at(tail, p, i - 1));
            }
        }
    } else {
        if has_occurrence(s, p) {
            let i = choose|i: int| occurs_at(s, p, i);
        }
    }
}

/// Repeated stripping leaves no marker.
pub proof fn lemma_strip_leaves_no_marker(s: Seq<char>)
    ensures
        !has_occurrence(strip_markers(s), marker()),
    decreases s.len(),
{
    if has_occurrence(s, marker()) {
        lemma_replace_shrinks(s, marker());
        lemma_strip_leaves_no_marker(replace_all(s, marker(), Seq::empty()));
    }
}

/// Routes a record by the marker in its content; a game record has the marker
/// removed until none is left.
pub fn classify(record: Record) -> (r: (Source, Record))
    ensures
        r.1.kind == record.kind,
        (r.0, r.1.content@) == classify_spec(record.content@),
        r.0 == Source::Game ==> !has_occurrence(r.1.content@, marker()),
{
    proof {
        reveal_strlit("[__GAME__]");
        reveal_strlit("");
        assert(MARKER@ =~= marker());
        assert(""@ =~= Seq::<char>::empty());
        lemma_strip_leaves_no_marker(record.content@);
    }
    if str_contains(record.content.as_str(), MARKER) {
        let mut content = str_replace(record.content.as_str(), MARKER, "");
        proof {
            lemma_replace_shrinks(record.content@, marker());
        }
        while str_contains(content.as_str(), MARKER)
            invariant
                MARKER@ == marker(),
                ""@ == Seq::<char>::empty(),
                strip_markers(content@) == strip_markers(record.content@),
            decreases content@.len(),
        {
            proof {
                lemma_replace_shrinks(content@, marker());
            }
            content = str_replace(content.as_str(), MARKER, "");
        }
        (Source::Game, Record { kind: record.kind, content })
    } else {
        (Source::Engine, record)
    }
}

} // verus!
