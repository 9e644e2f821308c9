//! Cutting a text into lines at a delimiter and joining lines with it.

use crate::text::{
    contains, copy_range, find_from, first_occurrence, first_occurrence_from,
    lemma_first_occurrence_from, lemma_first_occurrence_is, occurs_at, views,
};
use vstd::prelude::*;

verus! {

/// The pieces into which `delimiter` cuts `text`. The occurrences of the
/// delimiter are taken from left to right, each search starting behind the
/// occurrence before it. An empty delimiter cuts before and after every
/// character.
pub open spec fn pieces(text: Seq<char>, delimiter: Seq<char>) -> Seq<Seq<char>>
    decreases text.len(),
    via pieces_decreases
{
    if delimiter.len() == 0 {
        seq![Seq::<char>::empty()] + singles(text) + seq![Seq::<char>::empty()]
    } else {
        match first_occurrence(text, delimiter) {
            None => seq![text],
            Some(at) => seq![text.take(at)] + pieces(text.skip(at + delimiter.len()), delimiter),
        }
    }
}

/// Each character of `text` as a text of its own.
pub open spec fn singles(text: Seq<char>) -> Seq<Seq<char>> {
    text.map_values(|c: char| seq![c])
}

#[via_fn]
proof fn pieces_decreases(text: Seq<char>, delimiter: Seq<char>) {
    lemma_first_occurrence_from(text, delimiter, 0);
}

/// The lines of `lines` in order, with `delimiter` between each two of them.
pub open spec fn joined(lines: Seq<Seq<char>>, delimiter: Seq<char>) -> Seq<char>
    decreases lines.len(),
{
    if lines.len() == 0 {
        Seq::<char>::empty()
    } else if lines.len() == 1 {
        lines[0]
    } else {
        joined(lines.drop_last(), delimiter) + delimiter + lines.last()
    }
}

/// No proper, non-empty prefix of `delimiter` is also its suffix, so that two
/// occurrences of it in a text never overlap.
pub open spec fn unbordered(delimiter: Seq<char>) -> bool {
    forall|k: int|
        0 < k < delimiter.len() ==> #[trigger] delimiter.take(k) != delimiter.skip(
            delimiter.len() - k,
        )
}

/// No line of `lines` holds `delimiter`.
pub open spec fn free_of(lines: Seq<Seq<char>>, delimiter: Seq<char>) -> bool {
    forall|i: int| 0 <= i < lines.len() ==> !contains(#[trigger] lines[i], delimiter)
}

/// A pattern stands in the rest of a text behind `k` characters where it
/// stands in the text `k` positions later.
proof fn lemma_occurs_at_skip(text: Seq<char>, pattern: Seq<char>, k: int, at: int)
    requires
        0 <= k <= text.len(),
        0 <= at,
    ensures
        occurs_at(text.skip(k), pattern, at) == occurs_at(text, pattern, at + k),
{
    if at + pattern.len() <= text.len() - k {
        assert(text.skip(k).subrange(at, at + pattern.len()) =~= text.subrange(
            at + k,
            at + k + pattern.len(),
        ));
    }
}

/// Searching the rest of a text behind `k` characters finds what searching
/// the text from `k` finds, `k` positions earlier.
proof fn lemma_first_occurrence_skip(text: Seq<char>, pattern: Seq<char>, k: int)
    requires
        0 <= k <= text.len(),
    ensures
        first_occurrence(text.skip(k), pattern) == match first_occurrence_from(text, pattern, k) {
            Some(at) => Some(at - k),
            None => None,
        },
{
    lemma_first_occurrence_from(text, pattern, k);
    lemma_first_occurrence_from(text.skip(k), pattern, 0);
    assert forall|q: int| 0 <= q implies occurs_at(text.skip(k), pattern, q) == occurs_at(
        text,
        pattern,
        q + k,
    ) by {
        lemma_occurs_at_skip(text, pattern, k, q);
    }
    match first_occurrence_from(text, pattern, k) {
        Some(at) => {
            assert(occurs_at(text.skip(k), pattern, at - k));
            assert forall|q: int| 0 <= q < at - k implies !occurs_at(text.skip(k), pattern, q) by {
                assert(!occurs_at(text, pattern, q + k));
            }
            lemma_first_occurrence_is(text.skip(k), pattern, 0, at - k);
        },
        None => {
            match first_occurrence(text.skip(k), pattern) {
                Some(p) => {
                    assert(occurs_at(text, pattern, p + k));
                },
                None => {},
            }
        },
    }
}

/// Joining a line in front of others puts the line and the delimiter in
/// front of the others joined.
pub proof fn lemma_joined_front(first: Seq<char>, rest: Seq<Seq<char>>, delimiter: Seq<char>)
    requires
        rest.len() >= 1,
    ensures
        joined(seq![first] + rest, delimiter) == first + delimiter + joined(rest, delimiter),
    decreases rest.len(),
{
    let all = seq![first] + rest;
    if rest.len() == 1 {
        assert(all.drop_last() =~= seq![first]);
        assert(joined(seq![first], delimiter) == first);
        assert(joined(rest, delimiter) == rest[0]);
    } else {
        assert(all.drop_last() =~= seq![first] + rest.drop_last());
        lemma_joined_front(first, rest.drop_last(), delimiter);
        assert(joined(all, delimiter) =~= first + delimiter + joined(rest, delimiter));
    }
}

/// A non-empty delimiter cuts a text into at least one piece, and stands in
/// none of the pieces.
pub proof fn lemma_pieces_free(text: Seq<char>, delimiter: Seq<char>)
    requires
        delimiter.len() > 0,
    ensures
        pieces(text, delimiter).len() >= 1,
        free_of(pieces(text, delimiter), delimiter),
    decreases text.len(),
{
    lemma_first_occurrence_from(text, delimiter, 0);
    match first_occurrence(text, delimiter) {
        None => {},
        Some(at) => {
            let head = text.take(at);
            let rest = pieces(text.skip(at + delimiter.len()), delimiter);
            lemma_pieces_free(text.skip(at + delimiter.len()), delimiter);
            assert forall|q: int| !occurs_at(head, delimiter, q) by {
                if occurs_at(head, delimiter, q) {
                    assert(text.subrange(q, q + delimiter.len()) =~= head.subrange(
                        q,
                        q + delimiter.len(),
                    ));
                    assert(occurs_at(text, delimiter, q));
                }
            }
            let all = seq![head] + rest;
            assert forall|i: int| 0 <= i < all.len() implies !contains(
                #[trigger] all[i],
                delimiter,
            ) by {
                if i > 0 {
                    assert(all[i] == rest[i - 1]);
                }
            }
        },
    }
}

/// Lines that are free of an unbordered delimiter are the pieces into which
/// the delimiter cuts their joined text.
pub proof fn lemma_pieces_of_joined(lines: Seq<Seq<char>>, delimiter: Seq<char>)
    requires
        delimiter.len() > 0,
        unbordered(delimiter),
        lines.len() > 0,
        free_of(lines, delimiter),
    ensures
        pieces(joined(lines, delimiter), delimiter) == lines,
    decreases lines.len(),
{
    let first = lines[0];
    assert(!contains(first, delimiter));
    if lines.len() == 1 {
        lemma_first_occurrence_from(first, delimiter, 0);
        assert(first_occurrence(first, delimiter) is None);
        assert(seq![first] =~= lines);
    } else {
        let rest = lines.drop_first();
        let n = first.len() as int;
        let d = delimiter.len() as int;
        assert(lines =~= seq![first] + rest);
        lemma_joined_front(first, rest, delimiter);
        let text = first + delimiter + joined(rest, delimiter);
        assert(text.subrange(n, n + d) =~= delimiter);
        assert forall|q: int| 0 <= q < n implies !occurs_at(text, delimiter, q) by {
            if occurs_at(text, delimiter, q) {
                if q + d <= n {
                    assert(first.subrange(q, q + d) =~= text.subrange(q, q + d));
                    assert(occurs_at(first, delimiter, q));
                } else {
                    let k = q + d - n;
                    assert(delimiter.take(k) =~= delimiter.skip(d - k)) by {
                        assert forall|j: int| 0 <= j < k implies delimiter.take(k)[j]
                            == delimiter.skip(d - k)[j] by {
                            assert(delimiter[j] == text[n + j]);
                            assert(text.subrange(q, q + d)[d - k + j] == text[n + j]);
                        }
                    }
                }
            }
        }
        lemma_first_occurrence_is(text, delimiter, 0, n);
        assert(text.take(n) =~= first);
        assert(text.skip(n + d) =~= joined(rest, delimiter));
        assert forall|i: int| 0 <= i < rest.len() implies !contains(
            #[trigger] rest[i],
            delimiter,
        ) by {
            assert(rest[i] == lines[i + 1]);
        }
        lemma_pieces_of_joined(rest, delimiter);
    }
}

/// Cuts `text` into the pieces between the occurrences of `delimiter`.
pub fn split(text: &Vec<char>, delimiter: &Vec<char>) -> (out: Vec<Vec<char>>)
    ensures
        views(out@) == pieces(text@, delimiter@),
{
    let mut out: Vec<Vec<char>> = Vec::new();
    if delimiter.len() == 0 {
        out.push(Vec::new());
        let mut i: usize = 0;
        while i < text.len()
            invariant
                i <= text.len(),
                views(out@) == seq![Seq::<char>::empty()] + singles(text@.take(i as int)),
            decreases text.len() - i,
        {
            let ghost before = views(out@);
            let mut one: Vec<char> = Vec::new();
            one.push(text[i]);
            out.push(one);
            assert(one@ =~= seq![text@[i as int]]);
            assert(views(out@) =~= before.push(one@));
            assert(singles(text@.take(i + 1)) =~= singles(text@.take(i as int)).push(one@));
            i += 1;
        }
        let ghost before = views(out@);
        out.push(Vec::new());
        assert(views(out@) =~= before.push(Seq::<char>::empty()));
        assert(text@.take(text.len() as int) == text@);
        assert(views(out@) =~= pieces(text@, delimiter@));
        return out;
    }
    let mut start: usize = 0;
    assert(text@.skip(0) == text@);
    assert(views(out@) + pieces(text@, delimiter@) =~= pieces(text@, delimiter@));
    loop
        invariant
            delimiter.len() > 0,
            start <= text.len(),
            pieces(text@, delimiter@) == views(out@) + pieces(
                text@.skip(start as int),
                delimiter@,
            ),
        decreases text.len() - start,
    {
        proof {
            lemma_first_occurrence_skip(text@, delimiter@, start as int);
            lemma_first_occurrence_from(text@, delimiter@, start as int);
        }
        let ghost before = views(out@);
        match find_from(text, delimiter, start) {
            None => {
                out.push(copy_range(text, start, text.len()));
                assert(views(out@) == before + seq![text@.skip(start as int)]);
                return out;
            },
            Some(at) => {
                out.push(copy_range(text, start, at));
                assert(text@.skip(start as int).take(at - start) == text@.subrange(
                    start as int,
                    at as int,
                ));
                assert(text@.skip(start as int).skip(at - start + delimiter.len()) == text@.skip(
                    at + delimiter.len(),
                ));
                assert(views(out@) == before + seq![text@.subrange(start as int, at as int)]);
                start = at + delimiter.len();
            },
        }
    }
}

/// Joins `lines` with `delimiter` between each two of them.
pub fn join(lines: &Vec<Vec<char>>, delimiter: &Vec<char>) -> (out: Vec<char>)
    ensures
        out@ == joined(views(lines@), delimiter@),
{
    let mut out: Vec<char> = Vec::new();
    let mut i: usize = 0;
    while i < lines.len()
        invariant
            i <= lines.len(),
            out@ == joined(views(lines@).take(i as int), delimiter@),
        decreases lines.len() - i,
    {
        if i > 0 {
            append(&mut out, delimiter);
        }
        append(&mut out, &lines[i]);
        proof {
            let now = views(lines@).take(i + 1);
            assert(now.drop_last() == views(lines@).take(i as int));
            assert(now.last() == lines@[i as int]@);
        }
        i += 1;
    }
    assert(views(lines@).take(lines.len() as int) == views(lines@));
    out
}

/// Appends the characters of `more` to `out`.
pub fn append(out: &mut Vec<char>, more: &Vec<char>)
    ensures
        final(out)@ == old(out)@ + more@,
{
    let mut i: usize = 0;
    while i < more.len()
        invariant
            i <= more.len(),
            out@ == old(out)@ + more@.take(i as int),
        decreases more.len() - i,
    {
        out.push(more[i]);
        i += 1;
    }
    assert(more@.take(more.len() as int) == more@);
}

} // verus!
