//! The map from domains to the addresses found for them, in the order in
//! which the domains were first entered.

use crate::text::{chars_of, string_of};
use vstd::prelude::*;

verus! {

/// The model of a resolution map: pairs of a domain and its address.
pub type Entries = Seq<(Seq<char>, Seq<char>)>;

/// The views of pairs of texts.
pub open spec fn entry_views(entries: Seq<(Vec<char>, Vec<char>)>) -> Entries {
    entries.map_values(|entry: (Vec<char>, Vec<char>)| (entry.0@, entry.1@))
}

/// No domain stands in two entries.
pub open spec fn distinct_domains(entries: Entries) -> bool {
    forall|i: int, j: int|
        0 <= i < j < entries.len() ==> (#[trigger] entries[i]).0 != (#[trigger] entries[j]).0
}

/// The position of the first entry for `domain`.
pub open spec fn position(entries: Entries, domain: Seq<char>) -> Option<int>
    decreases entries.len(),
{
    if entries.len() == 0 {
        None
    } else {
        match position(entries.drop_last(), domain) {
            Some(at) => Some(at),
            None => if entries.last().0 == domain {
                Some(entries.len() - 1)
            } else {
                None
            },
        }
    }
}

/// The address entered for `domain`.
pub open spec fn lookup(entries: Entries, domain: Seq<char>) -> Option<Seq<char>> {
    match position(entries, domain) {
        Some(at) => Some(entries[at].1),
        None => None,
    }
}

/// The entries after `address` is entered for `domain`: the entry of the
/// domain is replaced where it stands, a new domain goes to the end.
pub open spec fn inserted(entries: Entries, domain: Seq<char>, address: Seq<char>) -> Entries {
    match position(entries, domain) {
        Some(at) => entries.update(at, (domain, address)),
        None => entries.push((domain, address)),
    }
}

/// `position` gives the first entry of the domain, or `None` where the domain
/// has none.
pub proof fn lemma_position(entries: Entries, domain: Seq<char>)
    ensures
        match position(entries, domain) {
            Some(at) => {
                &&& 0 <= at < entries.len()
                &&& entries[at].0 == domain
                &&& forall|i: int| 0 <= i < at ==> (#[trigger] entries[i]).0 != domain
            },
            None => forall|i: int| 0 <= i < entries.len() ==> (#[trigger] entries[i]).0 != domain,
        },
    decreases entries.len(),
{
    if entries.len() > 0 {
        lemma_position(entries.drop_last(), domain);
        assert forall|i: int| 0 <= i < entries.len() - 1 implies entries[i]
            == entries.drop_last()[i] by {}
    }
}

/// After `address` is entered for `domain`, it is the address of the domain.
pub proof fn lemma_lookup_inserted(entries: Entries, domain: Seq<char>, address: Seq<char>)
    ensures
        lookup(inserted(entries, domain, address), domain) == Some(address),
{
    let after = inserted(entries, domain, address);
    lemma_position(entries, domain);
    lemma_position(after, domain);
    match position(entries, domain) {
        Some(at) => {
            assert(after[at].0 == domain);
            assert forall|i: int| 0 <= i < at implies (#[trigger] after[i]).0 != domain by {
                assert(after[i] == entries[i]);
            }
        },
        None => {
            assert(after[entries.len() as int].0 == domain);
            assert forall|i: int| 0 <= i < entries.len() implies (#[trigger] after[i]).0
                != domain by {
                assert(after[i] == entries[i]);
            }
        },
    }
}

/// Entering an address for one domain leaves the address of every other
/// domain as it was.
pub proof fn lemma_lookup_other(
    entries: Entries,
    domain: Seq<char>,
    address: Seq<char>,
    other: Seq<char>,
)
    requires
        other != domain,
    ensures
        lookup(inserted(entries, domain, address), other) == lookup(entries, other),
{
    let after = inserted(entries, domain, address);
    lemma_position(entries, domain);
    lemma_position(entries, other);
    lemma_position(after, other);
    assert forall|i: int| 0 <= i < entries.len() implies ((#[trigger] after[i]).0 == other) == (
    entries[i].0 == other) by {}
    match position(entries, other) {
        Some(at) => {
            assert(after[at].0 == other);
            assert(after[at] == entries[at]);
            match position(after, other) {
                Some(now) => {
                    if now < at {
                        assert(entries[now].0 != other);
                    } else if at < now {
                        assert(after[at].0 != other);
                    }
                },
                None => {},
            }
        },
        None => {
            match position(after, other) {
                Some(now) => {
                    if now < entries.len() {
                        assert(entries[now].0 != other);
                    }
                },
                None => {},
            }
        },
    }
}

/// The addresses found for the domains of one run.
pub struct ResolutionMap {
    entries: Vec<(Vec<char>, Vec<char>)>,
}

impl View for ResolutionMap {
    type V = Entries;

    closed spec fn view(&self) -> Entries {
        entry_views(self.entries@)
    }
}

impl ResolutionMap {
    /// No domain has two entries.
    pub open spec fn wf(&self) -> bool {
        distinct_domains(self@)
    }

    /// A map without entries.
    pub fn new() -> (map: Self)
        ensures
            map@ == Seq::<(Seq<char>, Seq<char>)>::empty(),
            map.wf(),
    {
        let map = ResolutionMap { entries: Vec::new() };
        assert(map@ =~= Seq::<(Seq<char>, Seq<char>)>::empty());
        map
    }

    /// The number of entries.
    pub fn len(&self) -> (n: usize)
        ensures
            n == self@.len(),
    {
        self.entries.len()
    }

    /// The domain of the entry at `index`.
    pub fn domain_at(&self, index: usize) -> (domain: &Vec<char>)
        requires
            index < self@.len(),
        ensures
            domain@ == self@[index as int].0,
    {
        &self.entries[index].0
    }

    /// The address of the entry at `index`.
    pub fn address_at(&self, index: usize) -> (address: &Vec<char>)
        requires
            index < self@.len(),
        ensures
            address@ == self@[index as int].1,
    {
        &self.entries[index].1
    }

    /// The position of the entry for `domain`.
    fn find(&self, domain: &Vec<char>) -> (found: Option<usize>)
        ensures
            match found {
                Some(at) => at < self@.len() && position(self@, domain@) == Some(at as int),
                None => position(self@, domain@) is None,
            },
    {
        let mut i: usize = 0;
        while i < self.entries.len()
            invariant
                i <= self.entries.len(),
                position(self@.take(i as int), domain@) is None,
            decreases self.entries.len() - i,
        {
            let ghost next = self@.take(i + 1);
            assert(next.drop_last() == self@.take(i as int));
            if same_chars(&self.entries[i].0, domain) {
                proof {
                    lemma_position_prefix(self@, domain@, i + 1);
                }
                return Some(i);
            }
            i += 1;
        }
        assert(self@.take(self.entries.len() as int) == self@);
        None
    }

    /// Enters `address` for `domain` and gives back the address that the
    /// domain had before.
    pub fn insert(&mut self, domain: String, address: String) -> (previous: Option<String>)
        requires
            old(self).wf(),
        ensures
            final(self).wf(),
            final(self)@ == inserted(old(self)@, domain@, address@),
            match previous {
                Some(was) => lookup(old(self)@, domain@) == Some(was@),
                None => lookup(old(self)@, domain@) is None,
            },
    {
        let name = chars_of(domain.as_str());
        let value = chars_of(address.as_str());
        proof {
            lemma_position(self@, domain@);
        }
        match self.find(&name) {
            Some(at) => {
                let was = string_of(&self.entries[at].1);
                self.entries.set(at, (name, value));
                assert(self@ =~= inserted(old(self)@, domain@, address@));
                Some(was)
            },
            None => {
                self.entries.push((name, value));
                assert(self@ =~= inserted(old(self)@, domain@, address@));
                None
            },
        }
    }

    /// The address entered for `domain`.
    pub fn get(&self, domain: &str) -> (address: Option<String>)
        ensures
            match address {
                Some(found) => lookup(self@, domain@) == Some(found@),
                None => lookup(self@, domain@) is None,
            },
    {
        let name = chars_of(domain);
        match self.find(&name) {
            Some(at) => Some(string_of(&self.entries[at].1)),
            None => None,
        }
    }
}

/// Where a prefix of the entries holds the domain, the first entry of the
/// domain in all of them is the one in the prefix.
proof fn lemma_position_prefix(entries: Entries, domain: Seq<char>, n: int)
    requires
        0 <= n <= entries.len(),
        position(entries.take(n), domain) is Some,
    ensures
        position(entries, domain) == position(entries.take(n), domain),
    decreases entries.len() - n,
{
    if n < entries.len() {
        assert(entries.drop_last().take(n) == entries.take(n));
        lemma_position_prefix(entries.drop_last(), domain, n);
    } else {
        assert(entries.take(n) == entries);
    }
}

/// Whether two texts hold the same characters.
pub fn same_chars(a: &Vec<char>, b: &Vec<char>) -> (same: bool)
    ensures
        same == (a@ == b@),
{
    if a.len() != b.len() {
        return false;
    }
    let mut i: usize = 0;
    while i < a.len()
        invariant
            i <= a.len(),
            a.len() == b.len(),
            forall|j: int| 0 <= j < i ==> a@[j] == b@[j],
        decreases a.len() - i,
    {
        if a[i] != b[i] {
            return false;
        }
        i += 1;
    }
    assert(a@ =~= b@);
    true
}

} // verus!
