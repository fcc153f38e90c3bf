//! One book for each asset.

use crate::text::same_text;
use vstd::prelude::*;

verus! {

/// The books of a session, each under the id of its asset. No id occurs twice.
#[derive(Debug)]
pub struct Orderbooks<B> {
    ids: Vec<String>,
    books: Vec<B>,
}

/// Where an id stands in a list of ids, or the number of ids.
pub open spec fn id_at(ids: Seq<String>, id: Seq<char>) -> nat
    decreases ids.len(),
{
    if ids.len() == 0 {
        0
    } else if ids[0]@ == id {
        0
    } else {
        1 + id_at(ids.drop_first(), id)
    }
}

/// No id occurs twice.
pub open spec fn distinct_ids(ids: Seq<String>) -> bool {
    forall|i: int, j: int| 0 <= i < j < ids.len() ==> ids[i]@ != ids[j]@
}

/// The books under their ids.
pub open spec fn book_map<B>(ids: Seq<String>, books: Seq<B>) -> Map<Seq<char>, B> {
    Map::new(
        |id: Seq<char>| id_at(ids, id) < ids.len(),
        |id: Seq<char>| books[id_at(ids, id) as int],
    )
}

/// One of the assets has the id.
pub open spec fn listed<B>(assets: Seq<(&String, &B)>, id: Seq<char>) -> bool {
    exists|i: int| 0 <= i < assets.len() && (#[trigger] assets[i]).0@ == id
}

pub proof fn lemma_id_at(ids: Seq<String>, id: Seq<char>)
    ensures
        id_at(ids, id) <= ids.len(),
        forall|i: int| 0 <= i < id_at(ids, id) ==> (#[trigger] ids[i])@ != id,
        id_at(ids, id) < ids.len() ==> ids[id_at(ids, id) as int]@ == id,
    decreases ids.len(),
{
    if ids.len() > 0 && ids[0]@ != id {
        let rest = ids.drop_first();
        lemma_id_at(rest, id);
        assert(forall|i: int| 0 < i < ids.len() ==> #[trigger] ids[i] == rest[i - 1]);
    }
}

proof fn lemma_update<B>(ids: Seq<String>, books: Seq<B>, i: int, book: B)
    requires
        ids.len() == books.len(),
        0 <= i < ids.len(),
        id_at(ids, ids[i]@) == i,
    ensures
        book_map(ids, books.update(i, book)) == book_map(ids, books).insert(ids[i]@, book),
{
    let after = book_map(ids, books.update(i, book));
    let want = book_map(ids, books).insert(ids[i]@, book);
    assert forall|id: Seq<char>| after.contains_key(id) implies #[trigger] after[id] == want[id] by {
        lemma_id_at(ids, id);
    }
    assert(after =~= want);
}

proof fn lemma_push<B>(ids: Seq<String>, books: Seq<B>, id: String, book: B)
    requires
        ids.len() == books.len(),
        id_at(ids, id@) == ids.len(),
        distinct_ids(ids),
    ensures
        distinct_ids(ids.push(id)),
        id_at(ids.push(id), id@) == ids.len(),
        book_map(ids.push(id), books.push(book)) == book_map(ids, books).insert(id@, book),
{
    let more = ids.push(id);
    assert forall|key: Seq<char>| #[trigger]
        id_at(more, key) == (if key == id@ {
            ids.len()
        } else if id_at(ids, key) < ids.len() {
            id_at(ids, key)
        } else {
            more.len()
        }) by {
        lemma_id_at(ids, id@);
        lemma_id_at(ids, key);
        lemma_id_at(more, key);
        assert(forall|i: int| 0 <= i < ids.len() ==> #[trigger] more[i] == ids[i]);
        assert(more[ids.len() as int] == id);
        let j = id_at(ids, key) as int;
        assert(j < ids.len() ==> more[j] == ids[j]);
    }
    lemma_id_at(ids, id@);
    assert(book_map(more, books.push(book)) =~= book_map(ids, books).insert(id@, book));
}

impl<B> Orderbooks<B> {
    #[verifier::type_invariant]
    spec fn inv(self) -> bool {
        &&& self.ids@.len() == self.books@.len()
        &&& distinct_ids(self.ids@)
    }
}

impl<B> View for Orderbooks<B> {
    type V = Map<Seq<char>, B>;

    /// The book of each asset.
    closed spec fn view(&self) -> Map<Seq<char>, B> {
        book_map(self.ids@, self.books@)
    }
}

impl<B: Default> Orderbooks<B> {
    pub fn new() -> (r: Self)
        ensures
            r@ == Map::<Seq<char>, B>::empty(),
    {
        let r = Self { ids: Vec::new(), books: Vec::new() };
        assert(r@ =~= Map::<Seq<char>, B>::empty());
        r
    }

    fn place(&self, asset_id: &str) -> (r: usize)
        ensures
            r == id_at(self.ids@, asset_id@),
    {
        proof {
            lemma_id_at(self.ids@, asset_id@);
        }
        let mut i: usize = 0;
        while i < self.ids.len()
            invariant
                i <= id_at(self.ids@, asset_id@) <= self.ids@.len(),
                id_at(self.ids@, asset_id@) < self.ids@.len() ==> self.ids@[id_at(
                    self.ids@,
                    asset_id@,
                ) as int]@ == asset_id@,
                forall|k: int|
                    0 <= k < id_at(self.ids@, asset_id@) ==> (#[trigger] self.ids@[k])@
                        != asset_id@,
            decreases self.ids@.len() - i,
        {
            if same_text(self.ids[i].as_str(), asset_id) {
                return i;
            }
            i += 1;
        }
        i
    }

    /// The book of an asset; a new one if there was none.
    pub fn book_mut(&mut self, asset_id: &str) -> (r: &mut B)
        ensures
            old(self)@.contains_key(asset_id@) ==> *r == old(self)@[asset_id@],
            !old(self)@.contains_key(asset_id@) ==> call_ensures(B::default, (), *r),
            final(self)@ == old(self)@.insert(asset_id@, *final(r)),
    {
        proof {
            use_type_invariant(&*self);
            lemma_id_at(self.ids@, asset_id@);
        }
        let i = self.place(asset_id);
        if i == self.ids.len() {
            let book = B::default();
            let ghost ids = self.ids@;
            let ghost books = self.books@;
            let id = asset_id.to_owned();
            proof {
                lemma_push(ids, books, id, book);
                assert forall|b: B| #[trigger]
                    book_map(ids.push(id), books.push(book).update(i as int, b)) == book_map(
                        ids,
                        books,
                    ).insert(asset_id@, b) by {
                    assert(books.push(book).update(i as int, b) =~= books.push(b));
                    lemma_push(ids, books, id, b);
                }
            }
            let mut all = Orderbooks { ids: Vec::new(), books: Vec::new() };
            core::mem::swap(self, &mut all);
            let Orderbooks { ids: mut all_ids, books: mut all_books } = all;
            all_ids.push(id);
            all_books.push(book);
            *self = Orderbooks { ids: all_ids, books: all_books };
        } else {
            proof {
                assert forall|b: B| #[trigger]
                    book_map(self.ids@, self.books@.update(i as int, b)) == self@.insert(
                        asset_id@,
                        b,
                    ) by {
                    lemma_update(self.ids@, self.books@, i as int, b);
                }
            }
        }
        &mut self.books[i]
    }

    pub fn get(&self, asset_id: &str) -> (r: Option<&B>)
        ensures
            r == (if self@.contains_key(asset_id@) {
                Some(&self@[asset_id@])
            } else {
                None
            }),
    {
        proof {
            use_type_invariant(self);
        }
        let i = self.place(asset_id);
        if i < self.ids.len() {
            Some(&self.books[i])
        } else {
            None
        }
    }

    pub fn get_mut(&mut self, asset_id: &str) -> (r: Option<&mut B>)
        ensures
            match r {
                Some(book) => {
                    &&& old(self)@.contains_key(asset_id@)
                    &&& *book == old(self)@[asset_id@]
                    &&& final(self)@ == old(self)@.insert(asset_id@, *final(book))
                },
                None => {
                    &&& !old(self)@.contains_key(asset_id@)
                    &&& final(self)@ == old(self)@
                },
            },
    {
        proof {
            use_type_invariant(&*self);
            lemma_id_at(self.ids@, asset_id@);
        }
        let i = self.place(asset_id);
        if i < self.ids.len() {
            proof {
                assert forall|b: B| #[trigger]
                    book_map(self.ids@, self.books@.update(i as int, b)) == self@.insert(
                        asset_id@,
                        b,
                    ) by {
                    lemma_update(self.ids@, self.books@, i as int, b);
                }
            }
            Some(&mut self.books[i])
        } else {
            None
        }
    }

    /// Every asset with its book, each once.
    pub fn assets(&self) -> (r: Vec<(&String, &B)>)
        ensures
            forall|i: int|
                0 <= i < r@.len() ==> self@.contains_key((#[trigger] r@[i]).0@) && *r@[i].1
                    == self@[r@[i].0@],
            forall|i: int, j: int| 0 <= i < j < r@.len() ==> r@[i].0@ != r@[j].0@,
            forall|id: Seq<char>|
                #![trigger self@.contains_key(id)]
                #![trigger listed(r@, id)]
                self@.contains_key(id) ==> listed(r@, id),
    {
        proof {
            use_type_invariant(self);
        }
        let mut r: Vec<(&String, &B)> = Vec::new();
        let mut i: usize = 0;
        while i < self.ids.len()
            invariant
                i <= self.ids@.len() == self.books@.len(),
                r@.len() == i,
                forall|k: int|
                    0 <= k < i ==> *(#[trigger] r@[k]).0 == self.ids@[k] && *r@[k].1
                        == self.books@[k],
            decreases self.ids@.len() - i,
        {
            r.push((&self.ids[i], &self.books[i]));
            i += 1;
        }
        proof {
            assert forall|k: int| 0 <= k < r@.len() implies self@.contains_key(
                (#[trigger] r@[k]).0@,
            ) && *r@[k].1 == self@[r@[k].0@] by {
                lemma_id_at(self.ids@, self.ids@[k]@);
            }
            assert forall|id: Seq<char>| #[trigger] self@.contains_key(id) implies listed(
                r@,
                id,
            ) by {
                lemma_id_at(self.ids@, id);
                assert(r@[id_at(self.ids@, id) as int].0@ == id);
            }
        }
        r
    }
}

impl<B: Default> Default for Orderbooks<B> {
    fn default() -> (r: Self)
        ensures
            r@ == Map::<Seq<char>, B>::empty(),
    {
        Self::new()
    }
}

} // verus!
