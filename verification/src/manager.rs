use crate::data::Character;
use crate::error::CodecError;
use crate::sprite::Spritesheet;
use crate::store::{lemma_same_names_same_contains, lemma_unique_lookup};
use vstd::prelude::*;

verus! {

/// Keeper of the decoded spritesheets, keyed by character name.
pub struct SpriteManager {
    spritesheets: Vec<(String, Spritesheet)>,
}

impl SpriteManager {
    /// The stored spritesheets as (name, sheet) pairs.
    pub closed spec fn entries(self) -> Seq<(Seq<char>, Seq<Seq<Seq<Seq<u8>>>>)> {
        self.spritesheets@.map_values(|p: (String, Spritesheet)| (p.0@, p.1@))
    }

    /// Names are unique.
    pub open spec fn wf(self) -> bool {
        forall|i: int, j: int|
            0 <= i < j < self.entries().len() ==> (#[trigger] self.entries()[i]).0 != (
            #[trigger] self.entries()[j]).0
    }

    /// A spritesheet is stored under `name`.
    pub open spec fn spec_contains(self, name: Seq<char>) -> bool {
        exists|i: int| 0 <= i < self.entries().len() && (#[trigger] self.entries()[i]).0 == name
    }

    /// The spritesheet stored under `name`.
    pub open spec fn spec_sheet(self, name: Seq<char>) -> Seq<Seq<Seq<Seq<u8>>>> {
        let i = choose|i: int|
            0 <= i < self.entries().len() && (#[trigger] self.entries()[i]).0 == name;
        self.entries()[i].1
    }

    pub fn new() -> (manager: SpriteManager)
        ensures
            manager.wf(),
            manager.entries().len() == 0,
    {
        SpriteManager { spritesheets: Vec::new() }
    }

    /// The index at which `name` is stored, if any.
    fn find(&self, name: &String) -> (r: Option<usize>)
        ensures
            match r {
                Some(i) => i < self.entries().len() && self.entries()[i as int].0 == name@,
                None => !self.spec_contains(name@),
            },
    {
        let n = self.spritesheets.len();
        let mut i: usize = 0;
        while i < n
            invariant
                i <= n,
                n == self.spritesheets@.len(),
                forall|j: int| 0 <= j < i ==> (#[trigger] self.entries()[j]).0 != name@,
            decreases n - i,
        {
            if self.spritesheets[i].0 == *name {
                assert(self.entries()[i as int].0 == name@);
                return Some(i);
            }
            assert(self.entries()[i as int].0 != name@);
            i = i + 1;
        }
        None
    }

    /// Store a spritesheet under `name`, replacing any sheet already stored
    /// there.
    pub fn store_spritesheet(&mut self, name: String, sheet: Spritesheet)
        requires
            old(self).wf(),
        ensures
            final(self).wf(),
            final(self).spec_contains(name@),
            final(self).spec_sheet(name@) == sheet@,
            forall|n2: Seq<char>|
                n2 != name@ ==> final(self).spec_contains(n2) == old(self).spec_contains(n2),
            forall|n2: Seq<char>|
                n2 != name@ && old(self).spec_contains(n2) ==> final(self).spec_sheet(n2) == old(
                    self,
                ).spec_sheet(n2),
    {
        let found = self.find(&name);
        match found {
            Some(i) => {
                self.spritesheets[i] = (name, sheet);
                proof {
                    assert(self.entries() =~= old(self).entries().update(
                        i as int,
                        (old(self).entries()[i as int].0, self.spritesheets@[i as int].1@),
                    ));
                    assert forall|j: int| 0 <= j < self.entries().len() implies (
                    #[trigger] self.entries()[j]).0 == old(self).entries()[j].0 by {}
                    lemma_unique_lookup(self.entries(), i as int);
                    assert forall|n2: Seq<char>| n2 != name@ implies self.spec_contains(n2) == old(
                        self,
                    ).spec_contains(n2) by {
                        lemma_same_names_same_contains(old(self).entries(), self.entries(), n2);
                    }
                    assert forall|n2: Seq<char>|
                        n2 != name@ && old(self).spec_contains(n2) implies self.spec_sheet(n2)
                        == old(self).spec_sheet(n2) by {
                        let j = choose|j: int|
                            0 <= j < old(self).entries().len() && (#[trigger] old(
                                self,
                            ).entries()[j]).0 == n2;
                        lemma_unique_lookup(old(self).entries(), j);
                        assert(j != i);
                        assert(self.entries()[j] == old(self).entries()[j]);
                        lemma_unique_lookup(self.entries(), j);
                    }
                }
            },
            None => {
                self.spritesheets.push((name, sheet));
                proof {
                    assert(self.entries() =~= old(self).entries().push(
                        (name@, self.spritesheets@.last().1@),
                    ));
                    assert forall|j: int| 0 <= j < old(self).entries().len() implies (
                    #[trigger] self.entries()[j]).0 != name@ by {
                        assert(old(self).entries()[j].0 != name@);
                    }
                    lemma_unique_lookup(self.entries(), old(self).entries().len() as int);
                    assert forall|n2: Seq<char>| n2 != name@ implies self.spec_contains(n2) == old(
                        self,
                    ).spec_contains(n2) by {
                        if self.spec_contains(n2) {
                            let j = choose|j: int|
                                0 <= j < self.entries().len() && (#[trigger] self.entries()[j]).0
                                    == n2;
                            assert(j < old(self).entries().len());
                            assert(old(self).entries()[j].0 == n2);
                        }
                        if old(self).spec_contains(n2) {
                            let j = choose|j: int|
                                0 <= j < old(self).entries().len() && (#[trigger] old(
                                    self,
                                ).entries()[j]).0 == n2;
                            assert(self.entries()[j].0 == n2);
                        }
                    }
                    assert forall|n2: Seq<char>|
                        n2 != name@ && old(self).spec_contains(n2) implies self.spec_sheet(n2)
                        == old(self).spec_sheet(n2) by {
                        let j = choose|j: int|
                            0 <= j < old(self).entries().len() && (#[trigger] old(
                                self,
                            ).entries()[j]).0 == n2;
                        lemma_unique_lookup(old(self).entries(), j);
                        assert(self.entries()[j] == old(self).entries()[j]);
                        lemma_unique_lookup(self.entries(), j);
                    }
                }
            },
        }
    }

    /// Borrow the spritesheet stored for a character, or report that none
    /// is stored.
    pub fn load_spritesheet(&self, character: &Character) -> (r: Result<&Spritesheet, CodecError>)
        requires
            self.wf(),
        ensures
            match r {
                Ok(sheet) => self.spec_contains(character.name@) && sheet@ == self.spec_sheet(
                    character.name@,
                ),
                Err(e) => !self.spec_contains(character.name@) && e
                    == CodecError::SpritesheetNotFound,
            },
    {
        match self.find(&character.name) {
            Some(i) => {
                proof {
                    lemma_unique_lookup(self.entries(), i as int);
                }
                Ok(&self.spritesheets[i].1)
            },
            None => Err(CodecError::SpritesheetNotFound),
        }
    }
}

} // verus!
