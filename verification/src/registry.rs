//! The page registry: a deduplicating store of already-processed pages keyed
//! by their content identity. Its view is a map from digest bytes to the
//! page's (title, content) text.

use vstd::prelude::*;
use crate::ident::PageId;

verus! {

/// Describes a page to be rendered: its extracted title and its serialized,
/// rewritten body fragment.
#[derive(Debug, Clone, PartialEq, Eq, Hash)]
pub struct PageWrapping {
    pub title: String,
    pub content: String,
}

/// The mathematical content of an entry list: a map from digest to page
/// text, later entries winning.
pub open spec fn map_of(items: Seq<(PageId, PageWrapping)>) -> Map<Seq<u8>, (Seq<char>, Seq<char>)>
    decreases items.len(),
{
    if items.len() == 0 {
        Map::empty()
    } else {
        map_of(items.drop_last()).insert(
            items.last().0@,
            (items.last().1.title@, items.last().1.content@),
        )
    }
}

/// Deduplicating map from page identity to rendered page; insertion order is
/// irrelevant to correctness.
pub struct PageRegistry {
    items: Vec<(PageId, PageWrapping)>,
}

proof fn lemma_map_of_contains(items: Seq<(PageId, PageWrapping)>, key: Seq<u8>)
    ensures
        map_of(items).contains_key(key) <==> exists|i: int|
            0 <= i < items.len() && #[trigger] items[i].0@ == key,
    decreases items.len(),
{
    if items.len() > 0 {
        lemma_map_of_contains(items.drop_last(), key);
        if map_of(items).contains_key(key) {
            if items.last().0@ == key {
                assert(items[items.len() - 1].0@ == key);
            } else {
                let i = choose|i: int| 0 <= i < items.drop_last().len() && #[trigger] items.drop_last()[i].0@ == key;
                assert(items[i].0@ == key);
            }
        }
        if exists|i: int| 0 <= i < items.len() && #[trigger] items[i].0@ == key {
            let i = choose|i: int| 0 <= i < items.len() && #[trigger] items[i].0@ == key;
            if i < items.len() - 1 {
                assert(items.drop_last()[i].0@ == key);
            }
        }
    }
}

proof fn lemma_map_of_finite(items: Seq<(PageId, PageWrapping)>)
    ensures
        map_of(items).dom().finite(),
    decreases items.len(),
{
    if items.len() > 0 {
        lemma_map_of_finite(items.drop_last());
    }
}

impl PageRegistry {
    /// The registry as a map from digest bytes to (title, content).
    pub closed spec fn view(&self) -> Map<Seq<u8>, (Seq<char>, Seq<char>)> {
        map_of(self.items@)
    }

    /// Entries carry pairwise distinct identities.
    pub closed spec fn wf(&self) -> bool {
        forall|i: int, j: int|
            0 <= i < j < self.items@.len() ==> #[trigger] self.items@[i].0@ != #[trigger] self.items@[j].0@
    }

    /// An empty registry.
    pub fn new() -> (r: PageRegistry)
        ensures
            r@ == Map::<Seq<u8>, (Seq<char>, Seq<char>)>::empty(),
            r.wf(),
    {
        PageRegistry { items: Vec::new() }
    }

    /// Whether a page with this identity is already registered.
    pub fn contains(&self, id: &PageId) -> (r: bool)
        ensures
            r == self@.contains_key(id@),
    {
        let mut i: usize = 0;
        while i < self.items.len()
            invariant
                i <= self.items@.len(),
                forall|j: int| 0 <= j < i ==> #[trigger] self.items@[j].0@ != id@,
            decreases self.items@.len() - i,
        {
            if self.items[i].0.eq_id(&id) {
                proof {
                    lemma_map_of_contains(self.items@, id@);
                    assert(self.items@[i as int].0@ == id@);
                }
                return true;
            }
            i += 1;
        }
        proof {
            lemma_map_of_contains(self.items@, id@);
        }
        false
    }

    /// The number of registered pages.
    pub fn len(&self) -> (r: usize)
        requires
            self.wf(),
        ensures
            r == self@.dom().len(),
    {
        proof {
            lemma_len(self.items@);
        }
        self.items.len()
    }

    /// The registered page for an identity.
    pub fn get(&self, id: &PageId) -> (r: Option<&PageWrapping>)
        requires
            self.wf(),
        ensures
            r is Some <==> self@.contains_key(id@),
            r is Some ==> (r->0.title@, r->0.content@) == self@[id@],
    {
        let mut i: usize = 0;
        while i < self.items.len()
            invariant
                self.wf(),
                i <= self.items@.len(),
                forall|j: int| 0 <= j < i ==> #[trigger] self.items@[j].0@ != id@,
            decreases self.items@.len() - i,
        {
            if self.items[i].0.eq_id(&id) {
                proof {
                    lemma_entry_value(self.items@, i as int);
                }
                return Some(&self.items[i].1);
            }
            i += 1;
        }
        proof {
            lemma_map_of_contains(self.items@, id@);
        }
        None
    }

    /// The registered pages, identity and page together, handed to the
    /// document assembler; their order carries no meaning.
    pub fn into_items(self) -> (r: Vec<(PageId, PageWrapping)>)
        requires
            self.wf(),
        ensures
            r@.len() == self@.dom().len(),
            forall|i: int|
                0 <= i < r@.len() ==> self@.contains_key(#[trigger] r@[i].0@) && self@[r@[i].0@]
                    == (r@[i].1.title@, r@[i].1.content@),
    {
        proof {
            lemma_len(self.items@);
            assert forall|i: int|
                0 <= i < self.items@.len() implies self@.contains_key(
                #[trigger] self.items@[i].0@,
            ) && self@[self.items@[i].0@] == (
                self.items@[i].1.title@,
                self.items@[i].1.content@,
            ) by {
                lemma_entry_value(self.items@, i);
            }
        }
        self.items
    }

    /// Register (or replace) the page under this identity.
    pub fn insert(&mut self, id: PageId, page: PageWrapping)
        requires
            old(self).wf(),
        ensures
            final(self).wf(),
            final(self)@ == old(self)@.insert(id@, (page.title@, page.content@)),
    {
        let ghost items0 = self.items@;
        let mut i: usize = 0;
        while i < self.items.len()
            invariant
                self.wf(),
                self.items@ == items0,
                items0 == old(self).items@,
                i <= items0.len(),
                forall|j: int| 0 <= j < i ==> #[trigger] items0[j].0@ != id@,
            decreases items0.len() - i,
        {
            if self.items[i].0.eq_id(&id) {
                let ghost entry: (PageId, PageWrapping) = (id, page);
                proof {
                    assert(items0[i as int].0@ == id@);
                    lemma_update(items0, i as int, entry);
                }
                self.items[i] = (id, page);
                proof {
                    assert(self.items@ == items0.update(i as int, entry));
                    assert(map_of(self.items@) == map_of(items0).insert(
                        id@,
                        (page.title@, page.content@),
                    ));
                    assert forall|j1: int, j2: int|
                        0 <= j1 < j2 < self.items@.len() implies #[trigger] self.items@[j1].0@
                        != #[trigger] self.items@[j2].0@ by {
                        assert(items0[j1].0@ != items0[j2].0@);
                    }
                }
                return ;
            }
            i += 1;
        }
        self.items.push((id, page));
        proof {
            assert(self.items@.drop_last() =~= items0);
            assert(self.items@.last() == (id, page));
            assert forall|j1: int, j2: int|
                0 <= j1 < j2 < self.items@.len() implies #[trigger] self.items@[j1].0@
                != #[trigger] self.items@[j2].0@ by {
                if j2 == self.items@.len() - 1 {
                    assert(items0[j1].0@ != id@);
                } else {
                    assert(items0[j1].0@ != items0[j2].0@);
                }
            }
        }
    }
}

proof fn lemma_entry_value(items: Seq<(PageId, PageWrapping)>, i: int)
    requires
        0 <= i < items.len(),
        forall|j: int| i < j < items.len() ==> #[trigger] items[j].0@ != items[i].0@,
    ensures
        map_of(items).contains_key(items[i].0@),
        map_of(items)[items[i].0@] == (items[i].1.title@, items[i].1.content@),
    decreases items.len(),
{
    if i < items.len() - 1 {
        assert(forall|j: int|
            i < j < items.drop_last().len() ==> #[trigger] items.drop_last()[j].0@
                != items.drop_last()[i].0@);
        lemma_entry_value(items.drop_last(), i);
    }
}

proof fn lemma_len(items: Seq<(PageId, PageWrapping)>)
    requires
        forall|i: int, j: int|
            0 <= i < j < items.len() ==> #[trigger] items[i].0@ != #[trigger] items[j].0@,
    ensures
        map_of(items).dom().finite(),
        map_of(items).dom().len() == items.len(),
    decreases items.len(),
{
    lemma_map_of_finite(items);
    if items.len() > 0 {
        lemma_len(items.drop_last());
        lemma_map_of_contains(items.drop_last(), items.last().0@);
        assert(!map_of(items.drop_last()).contains_key(items.last().0@)) by {
            if map_of(items.drop_last()).contains_key(items.last().0@) {
                let i = choose|i: int|
                    0 <= i < items.drop_last().len() && #[trigger] items.drop_last()[i].0@
                        == items.last().0@;
                assert(items[i].0@ == items[items.len() - 1].0@);
            }
        }
        assert(map_of(items).dom() =~= map_of(items.drop_last()).dom().insert(items.last().0@));
    }
}

proof fn lemma_update(items: Seq<(PageId, PageWrapping)>, i: int, entry: (PageId, PageWrapping))
    requires
        0 <= i < items.len(),
        entry.0@ == items[i].0@,
        forall|j1: int, j2: int|
            0 <= j1 < j2 < items.len() ==> #[trigger] items[j1].0@ != #[trigger] items[j2].0@,
    ensures
        map_of(items.update(i, entry)) == map_of(items).insert(
            entry.0@,
            (entry.1.title@, entry.1.content@),
        ),
    decreases items.len(),
{
    let items2 = items.update(i, entry);
    if i == items.len() - 1 {
        assert(items2.drop_last() =~= items.drop_last());
        assert(items2.last() == entry);
        assert(map_of(items2) == map_of(items.drop_last()).insert(
            entry.0@,
            (entry.1.title@, entry.1.content@),
        ));
        assert(map_of(items.drop_last()).insert(entry.0@, (entry.1.title@, entry.1.content@)) =~= map_of(
            items,
        ).insert(entry.0@, (entry.1.title@, entry.1.content@)));
    } else {
        assert(items2.drop_last() =~= items.drop_last().update(i, entry));
        assert(items2.last() == items.last());
        assert(forall|j1: int, j2: int|
            0 <= j1 < j2 < items.drop_last().len() ==> #[trigger] items.drop_last()[j1].0@
                != #[trigger] items.drop_last()[j2].0@);
        lemma_update(items.drop_last(), i, entry);
        assert(items.last().0@ != entry.0@) by {
            assert(items[i].0@ != items[items.len() - 1].0@);
        }
        assert(map_of(items.drop_last()).insert(entry.0@, (entry.1.title@, entry.1.content@)).insert(
            items.last().0@,
            (items.last().1.title@, items.last().1.content@),
        ) =~= map_of(items).insert(entry.0@, (entry.1.title@, entry.1.content@)));
    }
}

} // verus!
