//! The content-addressed change-detection cache: one stored digest per
//! package path, deciding whether a package's tree has changed since it
//! was last processed.
//!
//! Computing a digest walks the filesystem, so the runner computes it
//! and hands the resulting hex string in; the cache itself only stores
//! and compares.  Note the deliberately preserved polarity: the check
//! below answers true when the tree is unchanged.
use vstd::prelude::*;

verus! {

/// The digest store: path -> content digest of the last recorded state.
pub struct _Cache {
    last_updated_version: Vec<(String, String)>,
}

impl _Cache {
    /// The stored digests as a map from path to digest text.
    pub closed spec fn as_map(&self) -> Map<Seq<char>, Seq<char>> {
        Self::entries_map(self.last_updated_version@)
    }

    /// The map a list of entries denotes, later entries overriding.
    pub closed spec fn entries_map(es: Seq<(String, String)>) -> Map<Seq<char>, Seq<char>>
        decreases es.len(),
    {
        if es.len() == 0 {
            Map::empty()
        } else {
            Self::entries_map(es.drop_last()).insert(es.last().0@, es.last().1@)
        }
    }

    /// An empty cache.
    pub fn _new() -> (c: _Cache)
        ensures
            c.as_map() == Map::<Seq<char>, Seq<char>>::empty(),
    {
        _Cache { last_updated_version: Vec::new() }
    }

    /// Whether the tree at `path` is unchanged since the last recording:
    /// true exactly when a digest is stored for the path and the freshly
    /// computed digest matches it.  (Deliberately kept with this name
    /// despite the inverted polarity: true means "no change".)  A digest
    /// the runner could not compute — `None` — counts as changed.
    #[verifier::loop_isolation(false)]
    pub fn _has_changed(&self, path: &str, current_digest: Option<&String>) -> (r: bool)
        ensures
            r == match current_digest {
                Some(d) => self.as_map().contains_key(path@) && self.as_map()[path@] == d@,
                None => false,
            },
    {
        let d = match current_digest {
            Some(d) => d,
            None => {
                return false;
            },
        };
        let mut i: usize = self.last_updated_version.len();
        proof {
            Self::lemma_entries_map_prefix(self.last_updated_version@, i as int, path@);
        }
        while i > 0
            invariant
                i <= self.last_updated_version@.len(),
                Self::entries_map(self.last_updated_version@.take(i as int)).contains_key(path@)
                    == self.as_map().contains_key(path@),
                Self::entries_map(self.last_updated_version@.take(i as int)).contains_key(path@)
                    ==> Self::entries_map(self.last_updated_version@.take(i as int))[path@]
                    == self.as_map()[path@],
            decreases i,
        {
            let entry_path = &self.last_updated_version[i - 1].0;
            proof {
                assert(self.last_updated_version@.take(i as int).drop_last()
                    =~= self.last_updated_version@.take(i - 1));
                assert(self.last_updated_version@.take(i as int).last()
                    == self.last_updated_version@[i - 1]);
            }
            if crate::util::str_eq(entry_path.as_str(), path) {
                let stored = &self.last_updated_version[i - 1].1;
                proof {
                    assert(Self::entries_map(self.last_updated_version@.take(i as int))[path@]
                        == stored@);
                    assert(self.as_map().contains_key(path@));
                    assert(self.as_map()[path@] == stored@);
                }
                return crate::util::str_eq(stored.as_str(), d.as_str());
            }
            i = i - 1;
        }
        proof {
            assert(self.last_updated_version@.take(0) =~= Seq::<(String, String)>::empty());
        }
        false
    }

    /// Records the freshly computed digest for `path`, to be called
    /// after a successful build so later change checks stay correct.
    pub fn _update(&mut self, path: &str, digest: String)
        ensures
            final(self).as_map() == old(self).as_map().insert(path@, digest@),
    {
        let ghost before = self.last_updated_version@;
        self.last_updated_version.push((path.to_owned(), digest));
        proof {
            assert(self.last_updated_version@.drop_last() =~= before);
        }
    }

    /// Truncating nothing changes nothing: the full prefix denotes the
    /// whole map.
    proof fn lemma_entries_map_prefix(es: Seq<(String, String)>, i: int, key: Seq<char>)
        requires
            i == es.len(),
        ensures
            Self::entries_map(es.take(i)) == Self::entries_map(es),
    {
        assert(es.take(i) =~= es);
    }
}

} // verus!
