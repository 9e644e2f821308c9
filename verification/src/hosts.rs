//! The managed block of a hosts file: the lines that an earlier run left are
//! taken out, and one block with the current addresses is put at the end.

use crate::lines::{
    append, join, joined, lemma_pieces_free, lemma_pieces_of_joined, pieces, split, unbordered,
};
use crate::resolution::{same_chars, Entries, ResolutionMap};
use crate::text::{
    chars_of, contains, copy_range, is_whitespace, leading_whitespace, matches_at, occurs_at,
    string_of, trimmed_start, views, white_space,
};
use vstd::prelude::*;

verus! {

/// The line that opens and closes the managed block.
pub const MARKER: &'static str = "# ----Generated By githubdns ---";

/// The marker line.
pub open spec fn marker() -> Seq<char> {
    "# ----Generated By githubdns ---"@
}

/// The line is a comment: behind its leading white space stands `#`.
pub open spec fn is_comment(line: Seq<char>) -> bool {
    let rest = trimmed_start(line);
    rest.len() > 0 && rest[0] == '#'
}

/// `domain` is not empty and stands in `line` at `at`, at the start of the
/// line or behind a white-space character.
pub open spec fn token_at(line: Seq<char>, domain: Seq<char>, at: int) -> bool {
    &&& domain.len() > 0
    &&& occurs_at(line, domain, at)
    &&& (at == 0 || white_space(line[at - 1]))
}

/// `domain` stands in `line` as a whole token.
pub open spec fn token_match(line: Seq<char>, domain: Seq<char>) -> bool {
    exists|at: int| token_at(line, domain, at)
}

/// The entry has an address.
pub open spec fn active(entry: (Seq<char>, Seq<char>)) -> bool {
    entry.1.len() > 0
}

/// The line names, as a whole token, a domain that has an address.
pub open spec fn references(line: Seq<char>, entries: Entries) -> bool {
    exists|i: int|
        0 <= i < entries.len() && active(#[trigger] entries[i]) && token_match(line, entries[i].0)
}

/// The line is left over from an earlier run: it is the marker, or it is no
/// comment and names a domain that has an address.
pub open spec fn stale(line: Seq<char>, entries: Entries) -> bool {
    line == marker() || (!is_comment(line) && references(line, entries))
}

/// The test that a line passes where it is not stale.
pub open spec fn fresh(entries: Entries) -> spec_fn(Seq<char>) -> bool {
    |line: Seq<char>| !stale(line, entries)
}

/// The test that an entry passes where it has an address.
pub open spec fn with_address() -> spec_fn((Seq<char>, Seq<char>)) -> bool {
    |entry: (Seq<char>, Seq<char>)| active(entry)
}

/// The lines that are not stale, in their order.
pub open spec fn kept_lines(lines: Seq<Seq<char>>, entries: Entries) -> Seq<Seq<char>> {
    lines.filter(fresh(entries))
}

/// The line written for an entry: the address, a tab, a space, the domain.
pub open spec fn entry_line(entry: (Seq<char>, Seq<char>)) -> Seq<char> {
    entry.1 + seq!['\t', ' '] + entry.0
}

/// The lines of the entries that have an address, in the order of the entries.
pub open spec fn entry_lines(entries: Entries) -> Seq<Seq<char>> {
    entries.filter(with_address()).map_values(|entry: (Seq<char>, Seq<char>)| entry_line(entry))
}

/// The managed block: the entry lines between two marker lines.
pub open spec fn managed_block(entries: Entries) -> Seq<Seq<char>> {
    seq![marker()] + entry_lines(entries) + seq![marker()]
}

/// The lines of a content: the pieces into which the delimiter cuts it. An
/// empty content has no line.
pub open spec fn content_lines(content: Seq<char>, delimiter: Seq<char>) -> Seq<Seq<char>> {
    if content.len() == 0 {
        Seq::<Seq<char>>::empty()
    } else {
        pieces(content, delimiter)
    }
}

/// The lines of the new content: the lines of the old content that are not
/// stale, then the managed block.
pub open spec fn reconciled_lines(
    content: Seq<char>,
    delimiter: Seq<char>,
    entries: Entries,
) -> Seq<Seq<char>> {
    kept_lines(content_lines(content, delimiter), entries) + managed_block(entries)
}

/// The new content of the hosts file.
pub open spec fn reconciled(content: Seq<char>, delimiter: Seq<char>, entries: Entries) -> Seq<
    char,
> {
    joined(reconciled_lines(content, delimiter, entries), delimiter)
}

/// Whether the line is a comment.
pub fn is_comment_line(line: &Vec<char>) -> (b: bool)
    ensures
        b == is_comment(line@),
{
    let n = leading_whitespace(line);
    n < line.len() && line[n] == '#'
}

/// Whether `domain` stands in `line` as a whole token.
pub fn has_token(line: &Vec<char>, domain: &Vec<char>) -> (b: bool)
    ensures
        b == token_match(line@, domain@),
{
    if domain.len() == 0 || domain.len() > line.len() {
        assert forall|at: int| !token_at(line@, domain@, at) by {}
        return false;
    }
    let last: usize = line.len() - domain.len();
    let mut at: usize = 0;
    loop
        invariant
            at <= last,
            last == line.len() - domain.len(),
            domain.len() > 0,
            forall|q: int| 0 <= q < at ==> !token_at(line@, domain@, q),
        decreases last - at,
    {
        if (at == 0 || is_whitespace(line[at - 1])) && matches_at(line, domain, at) {
            assert(token_at(line@, domain@, at as int));
            return true;
        }
        if at == last {
            assert forall|q: int| !token_at(line@, domain@, q) by {}
            return false;
        }
        at += 1;
    }
}

/// Whether the line names, as a whole token, a domain that has an address.
pub fn refers_to(line: &Vec<char>, resolved: &ResolutionMap) -> (b: bool)
    ensures
        b == references(line@, resolved@),
{
    let mut i: usize = 0;
    while i < resolved.len()
        invariant
            i <= resolved@.len(),
            forall|k: int|
                0 <= k < i ==> !(active(#[trigger] resolved@[k]) && token_match(
                    line@,
                    resolved@[k].0,
                )),
        decreases resolved@.len() - i,
    {
        if resolved.address_at(i).len() > 0 && has_token(line, resolved.domain_at(i)) {
            assert(active(resolved@[i as int]));
            return true;
        }
        i += 1;
    }
    false
}

/// Whether the line is left over from an earlier run.
pub fn is_stale(line: &Vec<char>, resolved: &ResolutionMap) -> (b: bool)
    ensures
        b == stale(line@, resolved@),
{
    let flag = chars_of(MARKER);
    same_chars(line, &flag) || (!is_comment_line(line) && refers_to(line, resolved))
}

/// The old lines that stay.
fn keep_lines(lines: &Vec<Vec<char>>, resolved: &ResolutionMap) -> (kept: Vec<Vec<char>>)
    ensures
        views(kept@) == kept_lines(views(lines@), resolved@),
{
    let mut kept: Vec<Vec<char>> = Vec::new();
    let mut i: usize = 0;
    proof {
        reveal(Seq::filter);
        assert(views(kept@) =~= kept_lines(views(lines@).take(0), resolved@));
    }
    while i < lines.len()
        invariant
            i <= lines.len(),
            views(kept@) == kept_lines(views(lines@).take(i as int), resolved@),
        decreases lines.len() - i,
    {
        let ghost before = views(kept@);
        let ghost next = views(lines@).take(i + 1);
        proof {
            reveal(Seq::filter);
            assert(next.drop_last() == views(lines@).take(i as int));
            assert(next.last() == lines@[i as int]@);
        }
        if !is_stale(&lines[i], resolved) {
            kept.push(copy_range(&lines[i], 0, lines[i].len()));
            assert(lines@[i as int]@.subrange(0, lines@[i as int]@.len() as int)
                == lines@[i as int]@);
            assert(views(kept@) =~= before.push(lines@[i as int]@));
        }
        i += 1;
    }
    assert(views(lines@).take(lines.len() as int) == views(lines@));
    kept
}

/// Puts the lines of the entries that have an address behind `lines`.
fn push_entry_lines(lines: &mut Vec<Vec<char>>, resolved: &ResolutionMap)
    ensures
        views(final(lines)@) == views(old(lines)@) + entry_lines(resolved@),
{
    let mut i: usize = 0;
    proof {
        reveal(Seq::filter);
        assert(entry_lines(resolved@.take(0)) =~= Seq::<Seq<char>>::empty());
        assert(views(lines@) =~= views(old(lines)@) + entry_lines(resolved@.take(0)));
    }
    while i < resolved.len()
        invariant
            i <= resolved@.len(),
            views(lines@) == views(old(lines)@) + entry_lines(resolved@.take(i as int)),
        decreases resolved@.len() - i,
    {
        let ghost before = views(lines@);
        let ghost entry = resolved@[i as int];
        let ghost next = resolved@.take(i + 1);
        proof {
            reveal(Seq::filter);
            assert(next.drop_last() == resolved@.take(i as int));
            assert(next.last() == entry);
        }
        if resolved.address_at(i).len() > 0 {
            let mut line: Vec<char> = Vec::new();
            append(&mut line, resolved.address_at(i));
            line.push('\t');
            line.push(' ');
            append(&mut line, resolved.domain_at(i));
            assert(line@ =~= entry_line(entry));
            lines.push(line);
            assert(views(lines@) =~= before.push(entry_line(entry)));
            assert(entry_lines(next) =~= entry_lines(resolved@.take(i as int)).push(
                entry_line(entry),
            ));
        }
        i += 1;
    }
    assert(resolved@.take(resolved@.len() as int) == resolved@);
}

/// The new content of the hosts file: the lines of `content`, cut at
/// `delimiter`, without the stale ones, then the managed block for
/// `resolved`, all joined with `delimiter`.
pub fn reconcile(content: &str, delimiter: &str, resolved: &ResolutionMap) -> (out: String)
    ensures
        out@ == reconciled(content@, delimiter@, resolved@),
{
    let text = chars_of(content);
    let cut = chars_of(delimiter);
    let old_lines = if text.len() == 0 {
        Vec::new()
    } else {
        split(&text, &cut)
    };
    assert(views(old_lines@) =~= content_lines(content@, delimiter@));
    let mut lines = keep_lines(&old_lines, resolved);
    let ghost kept = views(lines@);
    lines.push(chars_of(MARKER));
    assert(views(lines@) =~= kept + seq![marker()]);
    push_entry_lines(&mut lines, resolved);
    let ghost body = views(lines@);
    lines.push(chars_of(MARKER));
    assert(views(lines@) =~= body + seq![marker()]);
    assert(views(lines@) =~= reconciled_lines(content@, delimiter@, resolved@));
    string_of(&join(&lines, &cut))
}

/// A sequence whose members all pass a test is what the test lets through.
proof fn lemma_filter_all<A>(s: Seq<A>, pred: spec_fn(A) -> bool)
    requires
        forall|i: int| 0 <= i < s.len() ==> pred(#[trigger] s[i]),
    ensures
        s.filter(pred) == s,
    decreases s.len(),
{
    reveal(Seq::filter);
    if s.len() > 0 {
        assert forall|i: int| 0 <= i < s.drop_last().len() implies pred(
            #[trigger] s.drop_last()[i],
        ) by {
            assert(s.drop_last()[i] == s[i]);
        }
        lemma_filter_all(s.drop_last(), pred);
        assert(pred(s[s.len() - 1]));
        assert(s.drop_last().push(s.last()) =~= s);
    }
}

/// A test that no member of a sequence passes lets nothing through.
proof fn lemma_filter_none<A>(s: Seq<A>, pred: spec_fn(A) -> bool)
    requires
        forall|i: int| 0 <= i < s.len() ==> !pred(#[trigger] s[i]),
    ensures
        s.filter(pred) == Seq::<A>::empty(),
    decreases s.len(),
{
    reveal(Seq::filter);
    if s.len() > 0 {
        assert forall|i: int| 0 <= i < s.drop_last().len() implies !pred(
            #[trigger] s.drop_last()[i],
        ) by {
            assert(s.drop_last()[i] == s[i]);
        }
        lemma_filter_none(s.drop_last(), pred);
        assert(!pred(s[s.len() - 1]));
    } else {
        assert(s =~= Seq::<A>::empty());
    }
}

/// The line written for an entry names the domain of the entry as a whole
/// token, unless the domain is empty.
pub proof fn lemma_entry_line_names_domain(entry: (Seq<char>, Seq<char>))
    requires
        entry.0.len() > 0,
    ensures
        token_match(entry_line(entry), entry.0),
{
    let line = entry_line(entry);
    let at = entry.1.len() as int + 2;
    assert(line.subrange(at, at + entry.0.len()) =~= entry.0);
    assert(line[at - 1] == ' ');
    assert(token_at(line, entry.0, at));
}

/// Each line of the managed block is the marker or the line of an entry
/// that has an address.
pub proof fn lemma_block_lines(entries: Entries)
    ensures
        forall|k: int|
            0 <= k < managed_block(entries).len() ==> {
                let line = #[trigger] managed_block(entries)[k];
                line == marker() || exists|i: int|
                    0 <= i < entries.len() && active(#[trigger] entries[i]) && line == entry_line(
                        entries[i],
                    )
            },
{
    let chosen = entries.filter(with_address());
    assert forall|k: int| 0 <= k < managed_block(entries).len() implies {
        let line = #[trigger] managed_block(entries)[k];
        line == marker() || exists|i: int|
            0 <= i < entries.len() && active(#[trigger] entries[i]) && line == entry_line(
                entries[i],
            )
    } by {
        let line = managed_block(entries)[k];
        if 1 <= k <= chosen.len() {
            let entry = chosen[k - 1];
            assert(line == entry_line(entry));
            entries.lemma_filter_pred(with_address(), k - 1);
            assert(chosen.contains(entry));
            entries.lemma_filter_contains_rev(with_address(), entry);
            let i = choose|i: int| 0 <= i < entries.len() && entries[i] == entry;
            assert(active(entries[i]) && line == entry_line(entries[i]));
        }
    }
}

/// No line that is kept is stale: neither a marker nor a line that names a
/// domain with an address is left of an earlier block.
pub proof fn lemma_kept_lines_fresh(lines: Seq<Seq<char>>, entries: Entries)
    ensures
        forall|k: int|
            0 <= k < kept_lines(lines, entries).len() ==> !stale(
                #[trigger] kept_lines(lines, entries)[k],
                entries,
            ),
{
    assert forall|k: int| 0 <= k < kept_lines(lines, entries).len() implies !stale(
        #[trigger] kept_lines(lines, entries)[k],
        entries,
    ) by {
        lines.lemma_filter_pred(fresh(entries), k);
    }
}

/// An empty line is never stale.
pub proof fn lemma_empty_line_fresh(entries: Entries)
    ensures
        !stale(Seq::<char>::empty(), entries),
{
    reveal_strlit("# ----Generated By githubdns ---");
    let line = Seq::<char>::empty();
    assert(marker().len() > 0);
    assert forall|domain: Seq<char>, at: int| !token_at(line, domain, at) by {}
}

/// A line of the old content that is a comment, or is empty, or names no
/// domain that has an address, is kept unchanged, unless it is the marker:
/// it stands in the new lines at the position that counts the lines kept
/// before it.
pub proof fn lemma_fresh_line_kept(
    content: Seq<char>,
    delimiter: Seq<char>,
    entries: Entries,
    i: int,
)
    requires
        0 <= i < content_lines(content, delimiter).len(),
        content_lines(content, delimiter)[i] != marker(),
        ({
            let line = content_lines(content, delimiter)[i];
            is_comment(line) || line.len() == 0 || !references(line, entries)
        }),
    ensures
        ({
            let lines = content_lines(content, delimiter);
            let at = kept_lines(lines.take(i), entries).len() as int;
            &&& at < kept_lines(lines, entries).len()
            &&& reconciled_lines(content, delimiter, entries)[at] == lines[i]
        }),
{
    let lines = content_lines(content, delimiter);
    let upto = lines.take(i + 1);
    lemma_empty_line_fresh(entries);
    assert(!stale(lines[i], entries)) by {
        if lines[i].len() == 0 {
            assert(lines[i] =~= Seq::<char>::empty());
        }
    }
    reveal(Seq::filter);
    assert(upto.drop_last() == lines.take(i));
    assert(upto.last() == lines[i]);
    assert(kept_lines(upto, entries) == kept_lines(lines.take(i), entries).push(lines[i]));
    assert(lines =~= upto + lines.skip(i + 1));
    Seq::filter_distributes_over_add(upto, lines.skip(i + 1), fresh(entries));
}

/// Lines that are kept stay in their order: of two lines that are not
/// stale, the earlier one stands earlier in the new lines.
pub proof fn lemma_fresh_lines_in_order(lines: Seq<Seq<char>>, entries: Entries, i: int, j: int)
    requires
        0 <= i < j < lines.len(),
        !stale(lines[i], entries),
    ensures
        kept_lines(lines.take(i), entries).len() < kept_lines(lines.take(j), entries).len(),
{
    let upto = lines.take(i + 1);
    reveal(Seq::filter);
    assert(upto.drop_last() == lines.take(i));
    assert(upto.last() == lines[i]);
    assert(lines.take(j) =~= upto + lines.subrange(i + 1, j));
    Seq::filter_distributes_over_add(upto, lines.subrange(i + 1, j), fresh(entries));
}

/// The delimiter is one of the three line breaks in use: a line feed, a
/// carriage return, or a carriage return and a line feed.
pub open spec fn line_break(delimiter: Seq<char>) -> bool {
    delimiter == seq!['\n'] || delimiter == seq!['\r'] || delimiter == seq!['\r', '\n']
}

/// A line break is not empty, does not overlap itself and does not stand in
/// the marker.
pub proof fn lemma_line_break(delimiter: Seq<char>)
    requires
        line_break(delimiter),
    ensures
        delimiter.len() > 0,
        unbordered(delimiter),
        !contains(marker(), delimiter),
{
    reveal_strlit("# ----Generated By githubdns ---");
    assert forall|k: int| 0 < k < delimiter.len() implies #[trigger] delimiter.take(k)
        != delimiter.skip(delimiter.len() - k) by {
        assert(delimiter.take(k)[0] == '\r');
        assert(delimiter.skip(delimiter.len() - k)[0] == '\n');
    }
    assert forall|at: int| !occurs_at(marker(), delimiter, at) by {
        if occurs_at(marker(), delimiter, at) {
            assert(marker().subrange(at, at + delimiter.len())[0] == delimiter[0]);
            assert(marker()[at] == '\n' || marker()[at] == '\r');
        }
    }
}

/// The joined text of lines is at least as long as the last of them.
proof fn lemma_joined_holds_last(lines: Seq<Seq<char>>, delimiter: Seq<char>)
    requires
        lines.len() > 0,
    ensures
        joined(lines, delimiter).len() >= lines.last().len(),
{
}

/// The lines of the new content are the lines it was joined from, where the
/// delimiter is not empty, does not overlap itself, and stands neither in
/// the marker nor in an entry line.
pub proof fn lemma_reconciled_cuts_back(content: Seq<char>, delimiter: Seq<char>, entries: Entries)
    requires
        delimiter.len() > 0,
        unbordered(delimiter),
        !contains(marker(), delimiter),
        forall|i: int|
            0 <= i < entries.len() && active(#[trigger] entries[i]) ==> !contains(
                entry_line(entries[i]),
                delimiter,
            ),
    ensures
        content_lines(reconciled(content, delimiter, entries), delimiter) == reconciled_lines(
            content,
            delimiter,
            entries,
        ),
{
    let old_lines = content_lines(content, delimiter);
    let kept = kept_lines(old_lines, entries);
    let block = managed_block(entries);
    let lines = kept + block;
    if content.len() > 0 {
        lemma_pieces_free(content, delimiter);
    }
    lemma_block_lines(entries);
    assert forall|k: int| 0 <= k < lines.len() implies !contains(
        #[trigger] lines[k],
        delimiter,
    ) by {
        if k < kept.len() {
            assert(kept.contains(kept[k]));
            old_lines.lemma_filter_contains_rev(fresh(entries), kept[k]);
            let j = choose|j: int| 0 <= j < old_lines.len() && old_lines[j] == kept[k];
            assert(!contains(old_lines[j], delimiter));
        } else {
            assert(lines[k] == block[k - kept.len()]);
        }
    }
    lemma_pieces_of_joined(lines, delimiter);
    assert(lines.last() == marker());
    lemma_joined_holds_last(lines, delimiter);
    reveal_strlit("# ----Generated By githubdns ---");
}

/// The line of an entry is stale where the entry has an address and a
/// domain and the line is no comment.
pub proof fn lemma_entry_line_stale(entries: Entries, i: int)
    requires
        0 <= i < entries.len(),
        active(entries[i]),
        entries[i].0.len() > 0,
        !is_comment(entry_line(entries[i])),
    ensures
        stale(entry_line(entries[i]), entries),
{
    lemma_entry_line_names_domain(entries[i]);
}

/// Reconciling a second time with the same entries changes nothing, where
/// the lines of the new content are the lines it was joined from and every
/// entry line is stale.
pub proof fn lemma_reconcile_idempotent(content: Seq<char>, delimiter: Seq<char>, entries: Entries)
    requires
        content_lines(reconciled(content, delimiter, entries), delimiter) == reconciled_lines(
            content,
            delimiter,
            entries,
        ),
        forall|i: int|
            0 <= i < entries.len() && active(#[trigger] entries[i]) ==> stale(
                entry_line(entries[i]),
                entries,
            ),
    ensures
        reconciled(reconciled(content, delimiter, entries), delimiter, entries) == reconciled(
            content,
            delimiter,
            entries,
        ),
{
    let old_lines = content_lines(content, delimiter);
    let kept = kept_lines(old_lines, entries);
    let block = managed_block(entries);
    lemma_block_lines(entries);
    lemma_kept_lines_fresh(old_lines, entries);
    Seq::filter_distributes_over_add(kept, block, fresh(entries));
    lemma_filter_all(kept, fresh(entries));
    lemma_filter_none(block, fresh(entries));
    assert(kept + Seq::<Seq<char>>::empty() =~= kept);
}

} // verus!
