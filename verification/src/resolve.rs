//! Gathering what the lookups of a run gave into one resolution map. A
//! lookup that failed leaves no trace, whatever the others did.

use crate::extract::{address_on, get_address};
use crate::lines::{pieces, split};
use crate::lookup::FetchError;
use crate::resolution::{
    inserted, lemma_lookup_inserted, lemma_lookup_other, lookup, Entries, ResolutionMap,
};
use crate::text::{chars_of, string_of, string_views, views};
use vstd::prelude::*;

verus! {

/// The domains that are looked up where none are named.
pub const DEFAULT_DOMAINS: &'static str =
    "github.com,github.global.ssl.fastly.net,codeload.github.com,assets-cdn.github.com";

/// The comma that stands between two domains of a list.
pub open spec fn comma() -> Seq<char> {
    seq![',']
}

/// The domains of a list in which commas stand between them.
pub fn domain_list(list: &str) -> (domains: Vec<String>)
    ensures
        string_views(domains@) == pieces(list@, comma()),
{
    let mut cut: Vec<char> = Vec::new();
    cut.push(',');
    assert(cut@ =~= comma());
    let parts = split(&chars_of(list), &cut);
    let mut domains: Vec<String> = Vec::new();
    let mut i: usize = 0;
    while i < parts.len()
        invariant
            i <= parts.len(),
            string_views(domains@) == views(parts@).take(i as int),
        decreases parts.len() - i,
    {
        let ghost before = string_views(domains@);
        domains.push(string_of(&parts[i]));
        assert(string_views(domains@) =~= before.push(parts@[i as int]@));
        i += 1;
    }
    assert(views(parts@).take(parts.len() as int) == views(parts@));
    domains
}

/// What the lookup of one domain gave: the page, or why there is none.
pub struct Lookup {
    /// The domain that was looked up.
    pub domain: String,
    /// The body of the lookup service's answer.
    pub page: Result<String, FetchError>,
}

/// The entries after one lookup is taken in: the address on its page is
/// entered for its domain; a failed lookup changes nothing.
pub open spec fn recorded(entries: Entries, outcome: Lookup) -> Entries {
    match outcome.page {
        Ok(page) => inserted(entries, outcome.domain@, address_on(page@)),
        Err(_) => entries,
    }
}

/// The entries after the lookups are taken in, one after the other.
pub open spec fn collected(outcomes: Seq<Lookup>) -> Entries
    decreases outcomes.len(),
{
    if outcomes.len() == 0 {
        Seq::<(Seq<char>, Seq<char>)>::empty()
    } else {
        recorded(collected(outcomes.drop_last()), outcomes.last())
    }
}

/// Takes one lookup into the map.
pub fn record(map: &mut ResolutionMap, outcome: &Lookup)
    requires
        old(map).wf(),
    ensures
        final(map).wf(),
        final(map)@ == recorded(old(map)@, *outcome),
        outcome.page is Err ==> final(map)@ == old(map)@,
{
    match &outcome.page {
        Ok(body) => {
            let domain = outcome.domain.as_str().to_owned();
            let address = get_address(body.as_str(), outcome.domain.as_str().to_owned());
            map.insert(domain, address);
        },
        Err(_) => {},
    }
}

/// The resolution map of a run, from what its lookups gave, in their order.
pub fn resolve_all(outcomes: &Vec<Lookup>) -> (map: ResolutionMap)
    ensures
        map.wf(),
        map@ == collected(outcomes@),
{
    let mut map = ResolutionMap::new();
    let mut i: usize = 0;
    assert(outcomes@.take(0) =~= Seq::<Lookup>::empty());
    while i < outcomes.len()
        invariant
            i <= outcomes.len(),
            map.wf(),
            map@ == collected(outcomes@.take(i as int)),
        decreases outcomes.len() - i,
    {
        proof {
            let upto = outcomes@.take(i + 1);
            assert(upto.drop_last() == outcomes@.take(i as int));
            assert(upto.last() == outcomes@[i as int]);
        }
        record(&mut map, &outcomes[i]);
        i += 1;
    }
    assert(outcomes@.take(outcomes.len() as int) == outcomes@);
    map
}

/// A lookup that gave a page decides the address of its domain, unless a
/// later lookup of the same domain gave a page too; no failed lookup and no
/// lookup of another domain changes that.
pub proof fn lemma_resolved_address(outcomes: Seq<Lookup>, i: int)
    requires
        0 <= i < outcomes.len(),
        outcomes[i].page is Ok,
        forall|j: int|
            i < j < outcomes.len() && (#[trigger] outcomes[j]).page is Ok ==> outcomes[j].domain@
                != outcomes[i].domain@,
    ensures
        lookup(collected(outcomes), outcomes[i].domain@) == Some(
            address_on(outcomes[i].page->Ok_0@),
        ),
    decreases outcomes.len(),
{
    let before = outcomes.drop_last();
    let last = outcomes.last();
    if i == outcomes.len() - 1 {
        lemma_lookup_inserted(collected(before), last.domain@, address_on(last.page->Ok_0@));
    } else {
        assert(before[i] == outcomes[i]);
        assert forall|j: int| i < j < before.len() && (#[trigger] before[j]).page is Ok implies before[j].domain@
            != before[i].domain@ by {
            assert(before[j] == outcomes[j]);
        }
        lemma_resolved_address(before, i);
        match last.page {
            Ok(page) => {
                lemma_lookup_other(
                    collected(before),
                    last.domain@,
                    address_on(page@),
                    outcomes[i].domain@,
                );
            },
            Err(_) => {},
        }
    }
}

} // verus!
