//! The address on a lookup page: the first IPv4 address among the entries of
//! the page's list of addresses.

use crate::ipv4::{is_ipv4, is_ipv4_text};
use crate::text::{chars_of, string_of, string_views, trim, trimmed};
use scraper::{Html, Selector};
use vstd::prelude::*;

verus! {

/// The selector of the list that holds the addresses.
pub const LIST_SELECTOR: &'static str = "ul.comma-separated";

/// The selector of the entries of a list, as seen from the list.
pub const ENTRY_SELECTOR: &'static str = ":scope > li";

/// What the HTML parser and the selector engine make of a document: `None`
/// where one of the two selectors is not a selector; `Some(None)` where no
/// element of the document matches `list`; else the text content of each
/// element that matches `entry` below the first element that matches `list`,
/// in the order in which the engine finds them.
pub uninterp spec fn selected_texts(document: Seq<char>, list: Seq<char>, entry: Seq<char>) -> Option<
    Option<Seq<Seq<char>>>,
>;

/// The model of a selection.
pub open spec fn selection_view(found: Option<Option<Vec<String>>>) -> Option<
    Option<Seq<Seq<char>>>,
> {
    match found {
        None => None,
        Some(None) => Some(None),
        Some(Some(items)) => Some(Some(string_views(items@))),
    }
}

/// Parses `document` with `scraper::Html::parse_document` and the two
/// selectors with `scraper::Selector::parse`, takes the first element that
/// `Html::select` finds for `list`, and collects what `ElementRef::text`
/// yields for each element that `ElementRef::select` finds for `entry` below
/// it. The result is the crate's answer for these three texts, whatever it
/// is: nothing is claimed of what a given document holds.
#[verifier::external_body]
fn select_texts(document: &str, list: &str, entry: &str) -> (found: Option<Option<Vec<String>>>)
    ensures
        selection_view(found) == selected_texts(document@, list@, entry@),
{
    let outer = match Selector::parse(list) {
        Ok(selector) => selector,
        Err(_) => return None,
    };
    let inner = match Selector::parse(entry) {
        Ok(selector) => selector,
        Err(_) => return None,
    };
    let page = Html::parse_document(document);
    Some(page.select(&outer).next().map(|ul| ul.select(&inner).map(|li| li.text().collect()).collect()))
}

/// The first of `items` that, without the white space around it, is an IPv4
/// address in dotted-quad form; the empty text where none is.
pub open spec fn first_address(items: Seq<Seq<char>>) -> Seq<char>
    decreases items.len(),
{
    if items.len() == 0 {
        Seq::<char>::empty()
    } else if is_ipv4(trimmed(items[0])) {
        trimmed(items[0])
    } else {
        first_address(items.drop_first())
    }
}

/// The address that a selection gives: the first address of its items, the
/// empty text where it has none.
pub open spec fn extracted(found: Option<Option<Seq<Seq<char>>>>) -> Seq<char> {
    match found {
        Some(Some(items)) => first_address(items),
        _ => Seq::<char>::empty(),
    }
}

/// The address on the lookup page `page`.
pub open spec fn address_on(page: Seq<char>) -> Seq<char> {
    extracted(selected_texts(page, LIST_SELECTOR@, ENTRY_SELECTOR@))
}

/// Where no item is an address, `first_address` is empty.
pub proof fn lemma_no_address(items: Seq<Seq<char>>)
    requires
        forall|i: int| 0 <= i < items.len() ==> !is_ipv4(trimmed(#[trigger] items[i])),
    ensures
        first_address(items).len() == 0,
    decreases items.len(),
{
    if items.len() > 0 {
        let rest = items.drop_first();
        assert forall|i: int| 0 <= i < rest.len() implies !is_ipv4(trimmed(#[trigger] rest[i])) by {
            assert(rest[i] == items[i + 1]);
        }
        lemma_no_address(rest);
        assert(!is_ipv4(trimmed(items[0])));
    }
}

/// Where the item at `at` is an address and none before it is one,
/// `first_address` is that item without the white space around it.
pub proof fn lemma_first_address_at(items: Seq<Seq<char>>, at: int)
    requires
        0 <= at < items.len(),
        is_ipv4(trimmed(items[at])),
        forall|j: int| 0 <= j < at ==> !is_ipv4(trimmed(#[trigger] items[j])),
    ensures
        first_address(items) == trimmed(items[at]),
    decreases items.len(),
{
    if at > 0 {
        let rest = items.drop_first();
        assert(!is_ipv4(trimmed(items[0])));
        assert(rest[at - 1] == items[at]);
        assert forall|j: int| 0 <= j < at - 1 implies !is_ipv4(trimmed(#[trigger] rest[j])) by {
            assert(rest[j] == items[j + 1]);
        }
        lemma_first_address_at(rest, at - 1);
    }
}

/// Goes through `items` up to the first address.
fn scan(items: &Vec<String>) -> (address: String)
    ensures
        address@ == first_address(string_views(items@)),
{
    let ghost all = string_views(items@);
    let mut i: usize = 0;
    assert(all.skip(0) == all);
    while i < items.len()
        invariant
            i <= items.len(),
            all == string_views(items@),
            first_address(all) == first_address(all.skip(i as int)),
        decreases items.len() - i,
    {
        let item = trim(&chars_of(items[i].as_str()));
        assert(all.skip(i as int)[0] == items@[i as int]@);
        if is_ipv4_text(&item) {
            return string_of(&item);
        }
        assert(all.skip(i as int).drop_first() == all.skip(i + 1));
        i += 1;
    }
    String::new()
}

/// The first of `items` that, without the white space around it, is an IPv4
/// address in dotted-quad form, and the empty string where none is.
pub fn first_ipv4(items: &Vec<String>) -> (address: String)
    ensures
        address@ == first_address(string_views(items@)),
        (forall|i: int| 0 <= i < items.len() ==> !is_ipv4(trimmed(#[trigger] items@[i]@)))
            ==> address@.len() == 0,
        forall|i: int|
            0 <= i < items.len() && is_ipv4(trimmed(#[trigger] items@[i]@)) && (forall|j: int|
                0 <= j < i ==> !is_ipv4(trimmed(#[trigger] items@[j]@))) ==> address@ == trimmed(
                items@[i]@,
            ),
{
    let address = scan(items);
    proof {
        let all = string_views(items@);
        if forall|i: int| 0 <= i < items.len() ==> !is_ipv4(trimmed(#[trigger] items@[i]@)) {
            assert forall|i: int| 0 <= i < all.len() implies !is_ipv4(trimmed(#[trigger] all[i])) by {
                assert(all[i] == items@[i]@);
            }
            lemma_no_address(all);
        }
        assert forall|i: int|
            0 <= i < items.len() && is_ipv4(trimmed(#[trigger] items@[i]@)) && (forall|j: int|
                0 <= j < i ==> !is_ipv4(trimmed(#[trigger] items@[j]@))) implies address@
            == trimmed(items@[i]@) by {
            assert(all[i] == items@[i]@);
            assert forall|j: int| 0 <= j < i implies !is_ipv4(trimmed(#[trigger] all[j])) by {
                assert(all[j] == items@[j]@);
            }
            lemma_first_address_at(all, i);
        }
    }
    address
}

/// The address that a selection gives.
pub fn address_from(found: &Option<Option<Vec<String>>>) -> (address: String)
    ensures
        address@ == extracted(selection_view(*found)),
{
    match found {
        Some(Some(items)) => first_ipv4(items),
        _ => String::new(),
    }
}

/// The first IPv4 address in the list of addresses of the lookup page
/// `data`, and the empty string where the page has no such list or the list
/// no such address. `domain` names the page for the caller's messages.
#[allow(unused_variables)]
pub fn get_address(data: &str, domain: String) -> (address: String)
    ensures
        address@ == address_on(data@),
{
    let found = select_texts(data, LIST_SELECTOR, ENTRY_SELECTOR);
    address_from(&found)
}

} // verus!
