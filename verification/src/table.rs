//! The table of recorded hashes: for each file, the hash it had when last seen.
use vstd::hash_map::StringHashMap;
use vstd::prelude::*;

verus! {

/// One recorded file.
struct HashEntry {
    path: String,
    hash: String,
}

/// Maps the path of each recorded file to its hash. The entries stand in a row, so that
/// they can be gone through; an index leads from a path to its place in the row.
pub struct HashTable {
    entries: Vec<HashEntry>,
    index: StringHashMap<usize>,
}

/// `keys` names each file of `table`, and each one once.
pub open spec fn lists_keys(keys: Seq<Seq<char>>, table: Map<Seq<char>, Seq<char>>) -> bool {
    &&& keys.no_duplicates()
    &&& forall|i: int| 0 <= i < keys.len() ==> table.contains_key(#[trigger] keys[i])
    &&& forall|k: Seq<char>| #[trigger] table.contains_key(k) ==> keys.contains(k)
}

impl View for HashTable {
    type V = Map<Seq<char>, Seq<char>>;

    closed spec fn view(&self) -> Map<Seq<char>, Seq<char>> {
        Map::new(
            |k: Seq<char>| self.index@.contains_key(k),
            |k: Seq<char>| self.entries@[self.index@[k] as int].hash@,
        )
    }
}

impl HashTable {
    /// Each path of the index leads to its own entry, and each entry is led to.
    #[verifier::type_invariant]
    closed spec fn indexed(self) -> bool {
        &&& forall|k: Seq<char>| #[trigger]
            self.index@.contains_key(k) ==> self.index@[k] < self.entries@.len()
                && self.entries@[self.index@[k] as int].path@ == k
        &&& forall|i: int|
            0 <= i < self.entries@.len() ==> self.index@.contains_key(
                (#[trigger] self.entries@[i]).path@,
            ) && self.index@[self.entries@[i].path@] == i
    }

    /// The recorded paths, in the order in which the table goes through them.
    pub closed spec fn keys(&self) -> Seq<Seq<char>> {
        self.entries@.map_values(|e: HashEntry| e.path@)
    }

    /// A table without entries.
    pub fn new() -> (r: HashTable)
        ensures
            r@ == Map::<Seq<char>, Seq<char>>::empty(),
            r.keys() == Seq::<Seq<char>>::empty(),
    {
        let r = HashTable { entries: Vec::new(), index: StringHashMap::new() };
        assert(r@ =~= Map::<Seq<char>, Seq<char>>::empty());
        assert(r.keys() =~= Seq::<Seq<char>>::empty());
        r
    }

    /// How many files are recorded.
    pub fn len(&self) -> (r: usize)
        ensures
            r == self.keys().len(),
            lists_keys(self.keys(), self@),
    {
        proof {
            use_type_invariant(self);
            let keys = self.keys();
            assert forall|i: int| 0 <= i < keys.len() implies self@.contains_key(
                #[trigger] keys[i],
            ) by {
                assert(keys[i] == self.entries@[i].path@);
            }
            assert forall|k: Seq<char>| #[trigger] self@.contains_key(k) implies keys.contains(
                k,
            ) by {
                assert(self.index@.contains_key(k));
                assert(keys[self.index@[k] as int] == k);
            }
            assert(keys.no_duplicates()) by {
                assert forall|i: int, j: int|
                    0 <= i < keys.len() && 0 <= j < keys.len() && i != j implies keys[i]
                    != keys[j] by {
                    assert(keys[i] == self.entries@[i].path@);
                    assert(keys[j] == self.entries@[j].path@);
                }
            }
        }
        self.entries.len()
    }

    /// The path at a place of the row.
    pub fn path_at(&self, i: usize) -> (r: &String)
        requires
            i < self.keys().len(),
        ensures
            r@ == self.keys()[i as int],
    {
        &self.entries[i].path
    }

    /// The hash at a place of the row.
    pub fn hash_at(&self, i: usize) -> (r: &String)
        requires
            i < self.keys().len(),
        ensures
            self@.contains_key(self.keys()[i as int]),
            r@ == self@[self.keys()[i as int]],
    {
        proof {
            use_type_invariant(self);
            assert(self.keys()[i as int] == self.entries@[i as int].path@);
        }
        &self.entries[i].hash
    }

    /// The recorded hash of a file.
    pub fn get(&self, path: &str) -> (r: Option<&String>)
        ensures
            match r {
                Some(hash) => self@.contains_key(path@) && hash@ == self@[path@],
                None => !self@.contains_key(path@),
            },
    {
        proof {
            use_type_invariant(self);
        }
        match self.index.get(path) {
            Some(i) => Some(&self.entries[*i].hash),
            None => None,
        }
    }

    /// Whether a file is recorded.
    pub fn contains_key(&self, path: &str) -> (r: bool)
        ensures
            r == self@.contains_key(path@),
    {
        self.index.contains_key(path)
    }

    /// Records a file, in place of what was recorded of it. A path that was not
    /// recorded before comes last in the row.
    pub fn insert(&mut self, path: String, hash: String)
        ensures
            final(self)@ == old(self)@.insert(path@, hash@),
            final(self).keys() == (if old(self)@.contains_key(path@) {
                old(self).keys()
            } else {
                old(self).keys().push(path@)
            }),
    {
        let mut table = HashTable::new();
        std::mem::swap(self, &mut table);
        proof {
            use_type_invariant(&table);
        }
        let ghost before = table;
        let ghost entry = HashEntry { path, hash };
        let HashTable { mut entries, mut index } = table;
        let found: Option<usize> = match index.get(path.as_str()) {
            Some(i) => Some(*i),
            None => None,
        };
        match found {
            Some(i) => {
                entries.set(i, HashEntry { path, hash });
            },
            None => {
                index.insert(path.clone(), entries.len());
                entries.push(HashEntry { path, hash });
            },
        }
        proof {
            assert forall|i: int| 0 <= i < entries@.len() implies index@.contains_key(
                (#[trigger] entries@[i]).path@,
            ) && index@[entries@[i].path@] == i by {
                if i < before.entries@.len() {
                    assert(before.index@[before.entries@[i].path@] == i);
                }
            }
        }
        *self = HashTable { entries, index };
        proof {
            assert(self@ =~= before@.insert(entry.path@, entry.hash@));
            assert(self.keys() =~= (if before@.contains_key(entry.path@) {
                before.keys()
            } else {
                before.keys().push(entry.path@)
            }));
        }
    }

    /// Forgets a file and returns what was recorded of it.
    pub fn remove(&mut self, path: &str) -> (r: Option<String>)
        ensures
            match r {
                Some(hash) => old(self)@.contains_key(path@) && hash@ == old(self)@[path@],
                None => !old(self)@.contains_key(path@),
            },
            final(self)@ == old(self)@.remove(path@),
    {
        let mut table = HashTable::new();
        std::mem::swap(self, &mut table);
        proof {
            use_type_invariant(&table);
        }
        let ghost before = table;
        let HashTable { mut entries, mut index } = table;
        let found: Option<usize> = match index.get(path) {
            Some(i) => Some(*i),
            None => None,
        };
        let removed = match found {
            Some(i) => {
                let entry = entries.swap_remove(i);
                index.remove(path);
                if i < entries.len() {
                    index.insert(entries[i].path.clone(), i);
                }
                Some(entry.hash)
            },
            None => None,
        };
        proof {
            if found is Some {
                let n = before.entries@.len() - 1;
                let at = found->0 as int;
                assert forall|k: Seq<char>| #[trigger] index@.contains_key(k) implies index@[k]
                    < entries@.len() && entries@[index@[k] as int].path@ == k by {
                    if at < n {
                        assert(entries@[at] == before.entries@[n]);
                    }
                    assert(before.index@.contains_key(k));
                }
                assert forall|i: int| 0 <= i < entries@.len() implies index@.contains_key(
                    (#[trigger] entries@[i]).path@,
                ) && index@[entries@[i].path@] == i by {
                    let j = if i == at {
                        n
                    } else {
                        i
                    };
                    assert(entries@[i] == before.entries@[j]);
                    assert(before.index@[before.entries@[j].path@] == j);
                    assert(before.index@[before.entries@[at].path@] == at);
                    assert(before.index@[before.entries@[n].path@] == n);
                }
            }
        }
        *self = HashTable { entries, index };
        proof {
            assert(self@ =~= before@.remove(path@));
        }
        removed
    }

    /// Whether two tables record the same files with the same hashes.
    pub fn same_as(&self, other: &HashTable) -> (r: bool)
        ensures
            r == (self@ == other@),
    {
        let r = self.within(other) && other.within(self);
        proof {
            if r {
                assert(self@ =~= other@);
            }
        }
        r
    }

    /// Whether `other` records all files of this table, with the same hashes.
    fn within(&self, other: &HashTable) -> (r: bool)
        ensures
            r == (forall|k: Seq<char>| #[trigger]
                self@.contains_key(k) ==> other@.contains_key(k) && other@[k] == self@[k]),
    {
        let n: usize = self.len();
        let mut i: usize = 0;
        while i < n
            invariant
                i <= n,
                n == self.keys().len(),
                lists_keys(self.keys(), self@),
                forall|j: int|
                    0 <= j < i ==> other@.contains_key(#[trigger] self.keys()[j])
                        && other@[self.keys()[j]] == self@[self.keys()[j]],
            decreases n - i,
        {
            let same = match other.get(self.path_at(i).as_str()) {
                Some(hash) => *hash == *self.hash_at(i),
                None => false,
            };
            if !same {
                assert(self@.contains_key(self.keys()[i as int]));
                return false;
            }
            i = i + 1;
        }
        assert forall|k: Seq<char>| #[trigger] self@.contains_key(k) implies other@.contains_key(k)
            && other@[k] == self@[k] by {
            assert(self.keys().contains(k));
        }
        true
    }
}

impl Clone for HashTable {
    fn clone(&self) -> (r: Self)
        ensures
            r@ == self@,
            r.keys() == self.keys(),
    {
        let mut copy = HashTable::new();
        let n: usize = self.len();
        let mut i: usize = 0;
        while i < n
            invariant
                i <= n,
                n == self.keys().len(),
                lists_keys(self.keys(), self@),
                copy.keys() == self.keys().take(i as int),
                forall|j: int| 0 <= j < i ==> copy@.contains_key(#[trigger] self.keys()[j]),
                forall|k: Seq<char>| #[trigger]
                    copy@.contains_key(k) ==> self@.contains_key(k) && copy@[k] == self@[k]
                        && self.keys().take(i as int).contains(k),
            decreases n - i,
        {
            let ghost before = copy@;
            let ghost key = self.keys()[i as int];
            proof {
                assert(self.keys().take(i + 1) =~= self.keys().take(i as int).push(key));
                if before.contains_key(key) {
                    let j = choose|j: int|
                        0 <= j < i && self.keys().take(i as int)[j] == key;
                    assert(self.keys()[j] == self.keys()[i as int]);
                }
            }
            copy.insert(self.path_at(i).clone(), self.hash_at(i).clone());
            proof {
                assert forall|k: Seq<char>| #[trigger] copy@.contains_key(k) implies self.keys().take(
                    i + 1,
                ).contains(k) by {
                    let next = self.keys().take(i + 1);
                    if k == key {
                        assert(next[i as int] == k);
                    } else {
                        assert(before.contains_key(k));
                        let j = choose|j: int|
                            0 <= j < i && self.keys().take(i as int)[j] == k;
                        assert(next[j] == k);
                    }
                }
            }
            i = i + 1;
        }
        proof {
            assert(self.keys().take(n as int) =~= self.keys());
            assert(copy@ =~= self@);
        }
        copy
    }
}

} // verus!
