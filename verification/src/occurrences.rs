//! Counting the places at which a directive stands in markup.
//!
//! Every directive begins with a marker, NUL or a backslash, and holds no
//! other marker. Text between directives may hold anything, markers and
//! whole directives too, so what the encoder adds is told apart from what the
//! text brought by counting: the encoded form of a run holds a directive as
//! often as the text of the run holds it, and once more where the encoder
//! wrote it.

use vstd::prelude::*;

verus! {

/// Whether `s` begins with `pat`.
pub open spec fn starts_with(s: Seq<char>, pat: Seq<char>) -> bool {
    pat.len() <= s.len() && forall|j: int| 0 <= j < pat.len() ==> s[j] == pat[j]
}

/// Whether `pat` stands somewhere in `s`.
pub open spec fn holds(s: Seq<char>, pat: Seq<char>) -> bool {
    exists|i: int| 0 <= i < s.len() && starts_with(#[trigger] s.skip(i), pat)
}

/// The number of positions of `s` at which `pat` stands.
pub open spec fn occurrences(s: Seq<char>, pat: Seq<char>) -> nat
    decreases s.len(),
{
    if s.len() == 0 {
        0
    } else {
        (if starts_with(s, pat) {
            1nat
        } else {
            0nat
        }) + occurrences(s.drop_first(), pat)
    }
}

/// Whether `c` is one of the two characters that begin a directive.
pub open spec fn is_marker(c: char) -> bool {
    c == '\0' || c == '\\'
}

/// Whether no character of `s` is a marker.
pub open spec fn marker_free(s: Seq<char>) -> bool {
    forall|i: int| 0 <= i < s.len() ==> !is_marker(#[trigger] s[i])
}

/// Whether `c` is a marker or part of a line terminator: a character that no
/// head holds after its first.
pub open spec fn stops_a_head(c: char) -> bool {
    is_marker(c) || c == '\n' || c == '\r'
}

/// Whether `pat` has the shape of the head of a directive: a marker, then at
/// least one more character, none of them a marker, a carriage return or a
/// line feed.
pub open spec fn is_head(pat: Seq<char>) -> bool {
    &&& pat.len() >= 2
    &&& is_marker(pat[0])
    &&& forall|j: int| 1 <= j < pat.len() ==> !stops_a_head(#[trigger] pat[j])
}

/// `pat` stands somewhere in `s` just when it stands there at least once.
pub proof fn lemma_holds_is_counted(s: Seq<char>, pat: Seq<char>)
    ensures
        holds(s, pat) <==> occurrences(s, pat) > 0,
    decreases s.len(),
{
    if s.len() > 0 {
        let tail = s.drop_first();
        lemma_holds_is_counted(tail, pat);
        assert(s.skip(0) =~= s);
        if holds(s, pat) {
            let i = choose|i: int| 0 <= i < s.len() && starts_with(#[trigger] s.skip(i), pat);
            if i > 0 {
                assert(tail.skip(i - 1) =~= s.skip(i));
            }
        }
        if holds(tail, pat) {
            let i = choose|i: int| 0 <= i < tail.len() && starts_with(#[trigger] tail.skip(i), pat);
            assert(s.skip(i + 1) =~= tail.skip(i));
        }
    }
}

/// No head stands at a position of marker-free text, whatever follows it.
pub proof fn lemma_none_in_marker_free(a: Seq<char>, rest: Seq<char>, pat: Seq<char>)
    requires
        marker_free(a),
        is_head(pat),
    ensures
        occurrences(a + rest, pat) == occurrences(rest, pat),
    decreases a.len(),
{
    if a.len() == 0 {
        assert(a + rest =~= rest);
    } else {
        let s = a + rest;
        assert(s[0] == a[0]);
        assert(s.drop_first() =~= a.drop_first() + rest);
        lemma_none_in_marker_free(a.drop_first(), rest, pat);
    }
}

/// A head stands in a directive at its start or not at all: the count for a
/// directive and what follows it is the count for what follows, and one more
/// where the two together begin with the head.
pub proof fn lemma_count_directive(d: Seq<char>, rest: Seq<char>, pat: Seq<char>)
    requires
        d.len() > 0,
        marker_free(d.drop_first()),
        is_head(pat),
    ensures
        occurrences(d + rest, pat) == occurrences(rest, pat) + (if starts_with(d + rest, pat) {
            1nat
        } else {
            0nat
        }),
{
    assert((d + rest).drop_first() =~= d.drop_first() + rest);
    lemma_none_in_marker_free(d.drop_first(), rest, pat);
}

/// Where what follows a text begins with a character that stops a head, or
/// nothing follows, no head reaches from the text into it: the counts add up.
pub proof fn lemma_count_text(t: Seq<char>, rest: Seq<char>, pat: Seq<char>)
    requires
        is_head(pat),
        rest.len() == 0 || stops_a_head(rest[0]),
    ensures
        occurrences(t + rest, pat) == occurrences(t, pat) + occurrences(rest, pat),
    decreases t.len(),
{
    if t.len() == 0 {
        assert(t + rest =~= rest);
    } else {
        let s = t + rest;
        assert(s.drop_first() =~= t.drop_first() + rest);
        lemma_count_text(t.drop_first(), rest, pat);
        assert(starts_with(s, pat) <==> starts_with(t, pat)) by {
            assert(forall|j: int| 0 <= j < t.len() ==> s[j] == t[j]);
            if starts_with(s, pat) && pat.len() > t.len() {
                // the head would hold, after its first character, the one that stops it
                assert(pat[t.len() as int] == s[t.len() as int]);
                assert(s[t.len() as int] == rest[0]);
            }
        }
    }
}

} // verus!
