use vstd::prelude::*;

use crate::search::{first_match, lemma_first_match_facts, lemma_first_match_unique};
use crate::text::str_eq;

verus! {

/// Texture ids by name.
pub struct TextureManager {
    textures: Vec<(String, usize)>,
}

pub open spec fn entry_named(name: Seq<char>) -> spec_fn((String, usize)) -> bool {
    |e: (String, usize)| e.0@ == name
}

impl TextureManager {
    pub closed spec fn entries(&self) -> Seq<(String, usize)> {
        self.textures@
    }

    /// The texture id of each name.
    pub open spec fn textures(&self) -> Map<Seq<char>, usize> {
        Map::new(
            |k: Seq<char>| first_match(self.entries(), entry_named(k)) is Some,
            |k: Seq<char>| self.entries()[first_match(self.entries(), entry_named(k))->0].1,
        )
    }

    pub fn new() -> (r: TextureManager)
        ensures
            r.textures() == Map::<Seq<char>, usize>::empty(),
    {
        let r = TextureManager { textures: Vec::new() };
        assert(r.textures() =~= Map::<Seq<char>, usize>::empty());
        r
    }

    fn position(&self, name: &str) -> (r: Option<usize>)
        ensures
            match r {
                Some(i) => i < self.entries().len() && first_match(self.entries(), entry_named(name@))
                    == Some(i as int),
                None => first_match(self.entries(), entry_named(name@)) is None,
            },
    {
        let n = self.textures.len();
        let mut i: usize = 0;
        while i < n
            invariant
                n == self.textures@.len(),
                i <= n,
                forall|j: int| 0 <= j < i ==> !entry_named(name@)(#[trigger] self.textures@[j]),
            decreases n - i,
        {
            if str_eq(self.textures[i].0.as_str(), name) {
                proof {
                    lemma_first_match_unique(self.textures@, entry_named(name@), Some(i as int));
                }
                return Some(i);
            }
            i = i + 1;
        }
        proof {
            lemma_first_match_unique(self.textures@, entry_named(name@), None);
        }
        None
    }

    /// Records that texture `id` is called `name`, replacing an earlier one so called.
    pub fn insert(&mut self, name: &str, id: usize)
        ensures
            final(self).textures() == old(self).textures().insert(name@, id),
    {
        let ghost before = self.textures@;
        match self.position(name) {
            Some(i) => {
                let entry_name = self.textures[i].0.clone();
                self.textures.set(i, (entry_name, id));
                proof {
                    lemma_first_match_facts(before, entry_named(name@));
                    assert forall|k: Seq<char>|
                        first_match(self.textures@, entry_named(k)) == first_match(
                            before,
                            entry_named(k),
                        ) by {
                        lemma_first_match_facts(before, entry_named(k));
                        assert forall|j: int| 0 <= j < before.len() implies entry_named(k)(
                            #[trigger] self.textures@[j],
                        ) == entry_named(k)(before[j]) by {}
                        match first_match(before, entry_named(k)) {
                            Some(m) => lemma_first_match_unique(self.textures@, entry_named(k), Some(m)),
                            None => lemma_first_match_unique(self.textures@, entry_named(k), None),
                        }
                    }
                    assert forall|k: Seq<char>| #[trigger] self.textures().contains_key(k) implies self.textures()[k]
                        == old(self).textures().insert(name@, id)[k] by {
                        let m = first_match(before, entry_named(k))->0;
                        lemma_first_match_facts(before, entry_named(k));
                        if k != name@ {
                            assert(m != i);
                            assert(self.textures@[m] == before[m]);
                        } else {
                            assert(m == i);
                        }
                    }
                    assert(self.textures() =~= old(self).textures().insert(name@, id));
                }
            },
            None => {
                self.textures.push((name.to_owned(), id));
                proof {
                    lemma_first_match_facts(before, entry_named(name@));
                    lemma_first_match_unique(self.textures@, entry_named(name@), Some(before.len() as int));
                    assert forall|k: Seq<char>| k != name@ implies first_match(
                        self.textures@,
                        entry_named(k),
                    ) == first_match(before, entry_named(k)) by {
                        lemma_first_match_facts(before, entry_named(k));
                        match first_match(before, entry_named(k)) {
                            Some(m) => lemma_first_match_unique(self.textures@, entry_named(k), Some(m)),
                            None => lemma_first_match_unique(self.textures@, entry_named(k), None),
                        }
                    }
                    assert forall|k: Seq<char>| #[trigger] self.textures().contains_key(k) implies self.textures()[k]
                        == old(self).textures().insert(name@, id)[k] by {
                        if k != name@ {
                            let m = first_match(before, entry_named(k))->0;
                            lemma_first_match_facts(before, entry_named(k));
                            assert(self.textures@[m] == before[m]);
                        }
                    }
                    assert(self.textures() =~= old(self).textures().insert(name@, id));
                }
            },
        }
    }

    /// Whether a texture is called `name`.
    pub fn contains(&self, name: &str) -> (r: bool)
        ensures
            r == self.textures().contains_key(name@),
    {
        self.position(name).is_some()
    }

    /// The texture id called `name`.
    pub fn get(&self, name: &str) -> (r: usize)
        requires
            self.textures().contains_key(name@),
        ensures
            r == self.textures()[name@],
    {
        match self.position(name) {
            Some(i) => self.textures[i].1,
            None => {
                proof {
                    assert(false);
                }
                0
            },
        }
    }
}

/// A texture recorded under `name` is found under it, and recording it
/// leaves every other name as it was.
pub proof fn lemma_recorded_texture_found(
    before: TextureManager,
    after: TextureManager,
    name: Seq<char>,
    id: usize,
    other: Seq<char>,
)
    requires
        after.textures() == before.textures().insert(name, id),
    ensures
        after.textures().contains_key(name),
        after.textures()[name] == id,
        other != name ==> after.textures().contains_key(other) == before.textures().contains_key(
            other,
        ),
        other != name && before.textures().contains_key(other) ==> after.textures()[other]
            == before.textures()[other],
{
}

} // verus!
