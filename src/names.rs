//! Display names: resolved once per user id, then kept for the life of the
//! process. Names are stored in upper case, as the transcripts show them.

use crate::keyed::{keys_unique, lemma_map_at, lemma_map_insert, lemma_map_update, map_of, position, Keyed};
use vstd::prelude::*;

verus! {

/// What `str::to_uppercase` makes of `s`.
pub uninterp spec fn upper_of(s: Seq<char>) -> Seq<char>;

/// Relies on `str::to_uppercase`: the result depends on the characters alone.
#[verifier::external_body]
fn uppercase(s: &str) -> (r: String)
    ensures
        r@ == upper_of(s@),
{
    s.to_uppercase()
}

/// The name a profile goes by: its display name, or its real name where the
/// display name is empty.
pub fn preferred_name(display_name: String, real_name: String) -> (r: String)
    ensures
        r@ == if display_name@.len() == 0 {
            real_name@
        } else {
            display_name@
        },
{
    if display_name.as_str().is_empty() {
        real_name
    } else {
        display_name
    }
}

/// Display names by user id: one entry per id, never invalidated.
#[derive(Debug)]
pub struct UserCache {
    id_map: Vec<Keyed<String>>,
}

impl View for UserCache {
    type V = Map<Seq<char>, Seq<char>>;

    closed spec fn view(&self) -> Map<Seq<char>, Seq<char>> {
        map_of(self.id_map@)
    }
}

impl UserCache {
    /// No id is stored twice.
    pub closed spec fn wf(&self) -> bool {
        keys_unique(self.id_map@)
    }

    pub fn new() -> (r: UserCache)
        ensures
            r.wf(),
            r@ == Map::<Seq<char>, Seq<char>>::empty(),
    {
        let r = UserCache { id_map: Vec::new() };
        assert(r@ =~= Map::<Seq<char>, Seq<char>>::empty());
        r
    }

    /// The cached name of `id`, if any.
    pub fn read(&self, id: &str) -> (r: Option<String>)
        requires
            self.wf(),
        ensures
            match r {
                Some(name) => self@.contains_key(id@) && name@ == self@[id@],
                None => !self@.contains_key(id@),
            },
    {
        match position(&self.id_map, id) {
            Some(i) => {
                proof {
                    lemma_map_at(self.id_map@, i as int);
                }
                Some(self.id_map[i].value.clone())
            },
            None => None,
        }
    }

    /// Stores `name` for `id`; a later store for the same id wins.
    pub fn insert(&mut self, id: String, name: String)
        requires
            old(self).wf(),
        ensures
            final(self).wf(),
            final(self)@ == old(self)@.insert(id@, name@),
    {
        let ghost s = self.id_map@;
        match position(&self.id_map, id.as_str()) {
            Some(i) => {
                let entry = Keyed { key: id, value: name };
                proof {
                    lemma_map_update(s, i as int, entry);
                }
                self.id_map.set(i, entry);
            },
            None => {
                let entry = Keyed { key: id, value: name };
                proof {
                    lemma_map_insert(s, s.len() as int, entry);
                }
                self.id_map.push(entry);
                assert(self.id_map@ =~= s.insert(s.len() as int, entry));
            },
        }
    }

    /// Stores the name fetched for an uncached `id`, in its canonical upper
    /// case, and returns it.
    pub fn resolve(&mut self, id: String, fetched: &str) -> (name: String)
        requires
            old(self).wf(),
        ensures
            final(self).wf(),
            name@ == upper_of(fetched@),
            final(self)@ == old(self)@.insert(id@, upper_of(fetched@)),
    {
        let name = uppercase(fetched);
        self.insert(id, name.clone());
        name
    }
}

/// Two lookups of one uncached id that both fetch it, and store what they
/// fetched, return the same name and leave one entry for the id: the cache
/// after both equals the cache after one.
pub proof fn lemma_resolve_twice(cache: Map<Seq<char>, Seq<char>>, id: Seq<char>, fetched: Seq<char>)
    ensures
        cache.insert(id, upper_of(fetched)).insert(id, upper_of(fetched)) == cache.insert(id, upper_of(fetched)),
        cache.insert(id, upper_of(fetched)).insert(id, upper_of(fetched))[id] == upper_of(fetched),
{
    assert(cache.insert(id, upper_of(fetched)).insert(id, upper_of(fetched)) =~= cache.insert(id, upper_of(fetched)));
}

} // verus!
