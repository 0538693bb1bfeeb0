//! Content hashes by file path, for incremental indexing.

use crate::path;
use vstd::hash_map::StringHashMap;
use vstd::prelude::*;

verus! {

/// A content hash for each indexed file. Two texts of the same path share one
/// entry; the text that came first is kept.
pub struct FileHashes {
    paths: Vec<String>,
    hashes: StringHashMap<u64>,
}

/// Every path has a hash, every hash has a path, and no two paths are the same.
spec fn linked(paths: Seq<String>, hashes: Map<Seq<char>, u64>) -> bool {
    &&& forall|i: int|
        0 <= i < paths.len() ==> hashes.contains_key(path::canonical(#[trigger] paths[i]@))
    &&& forall|k: Seq<char>| #[trigger]
        hashes.contains_key(k) ==> exists|i: int|
            0 <= i < paths.len() && path::canonical(#[trigger] paths[i]@) == k
    &&& forall|i: int, j: int|
        0 <= i < j < paths.len() ==> path::canonical(#[trigger] paths[i]@) != path::canonical(
            #[trigger] paths[j]@,
        )
}

impl View for FileHashes {
    type V = Map<Seq<char>, u64>;

    /// The hashes by normal form of the path.
    closed spec fn view(&self) -> Map<Seq<char>, u64> {
        self.hashes@
    }
}

impl FileHashes {
    #[verifier::type_invariant]
    spec fn inv(self) -> bool {
        linked(self.paths@, self.hashes@)
    }

    /// The texts under which the files were entered.
    pub closed spec fn path_texts(self) -> Seq<String> {
        self.paths@
    }

    pub fn new() -> (r: Self)
        ensures
            r@ == Map::<Seq<char>, u64>::empty(),
            r.path_texts() == Seq::<String>::empty(),
    {
        FileHashes { paths: Vec::new(), hashes: StringHashMap::new() }
    }

    /// Number of distinct files.
    pub fn len(&self) -> (r: usize)
        ensures
            r == self@.len(),
    {
        self.hashes.len()
    }

    pub fn contains(&self, file: &str) -> (r: bool)
        ensures
            r == self@.contains_key(path::canonical(file@)),
    {
        let key = path::canonical_text(file);
        self.hashes.contains_key(key.as_str())
    }

    pub fn get(&self, file: &str) -> (r: Option<u64>)
        ensures
            match r {
                Some(h) => self@.contains_key(path::canonical(file@))
                    && self@[path::canonical(file@)] == h,
                None => !self@.contains_key(path::canonical(file@)),
            },
    {
        let key = path::canonical_text(file);
        match self.hashes.get(key.as_str()) {
            Some(h) => Some(*h),
            None => None,
        }
    }

    /// The texts of all files: each file once, and no other.
    pub fn paths(&self) -> (r: &Vec<String>)
        ensures
            r@ == self.path_texts(),
            forall|i: int|
                0 <= i < r@.len() ==> self@.contains_key(path::canonical(#[trigger] r@[i]@)),
            forall|k: Seq<char>| #[trigger]
                self@.contains_key(k) ==> exists|i: int|
                    0 <= i < r@.len() && path::canonical(#[trigger] r@[i]@) == k,
            forall|i: int, j: int|
                0 <= i < j < r@.len() ==> path::canonical(#[trigger] r@[i]@) != path::canonical(
                    #[trigger] r@[j]@,
                ),
    {
        proof {
            use_type_invariant(self);
        }
        &self.paths
    }

    pub fn insert(&mut self, file: String, hash: u64)
        ensures
            final(self)@ == old(self)@.insert(path::canonical(file@), hash),
            final(self).path_texts() == if old(self)@.contains_key(path::canonical(file@)) {
                old(self).path_texts()
            } else {
                old(self).path_texts().push(file)
            },
    {
        proof {
            use_type_invariant(&*self);
        }
        let mut taken = FileHashes::new();
        std::mem::swap(self, &mut taken);
        let FileHashes { mut paths, mut hashes } = taken;
        let ghost before = paths@;
        let ghost known = hashes@;
        let key = path::canonical_text(file.as_str());
        let ghost k = key@;
        if !hashes.contains_key(key.as_str()) {
            paths.push(file);
        }
        hashes.insert(key, hash);
        proof {
            assert forall|x: Seq<char>| #[trigger] hashes@.contains_key(x) implies exists|i: int|
                0 <= i < paths@.len() && path::canonical(#[trigger] paths@[i]@) == x by {
                if x == k && !known.contains_key(k) {
                    assert(path::canonical(paths@[paths@.len() - 1]@) == x);
                } else {
                    assert(known.contains_key(x));
                    let i = choose|i: int|
                        0 <= i < before.len() && path::canonical(#[trigger] before[i]@) == x;
                    assert(paths@[i] == before[i]);
                }
            }
            assert forall|i: int| 0 <= i < paths@.len() implies hashes@.contains_key(
                path::canonical(#[trigger] paths@[i]@),
            ) by {
                if i < before.len() {
                    assert(paths@[i] == before[i]);
                }
            }
            assert forall|i: int, j: int| 0 <= i < j < paths@.len() implies path::canonical(
                #[trigger] paths@[i]@,
            ) != path::canonical(#[trigger] paths@[j]@) by {
                assert(paths@[i] == before[i]);
                if j < before.len() {
                    assert(paths@[j] == before[j]);
                } else {
                    assert(known.contains_key(path::canonical(before[i]@)));
                }
            }
        }
        assert(linked(paths@, hashes@));
        *self = FileHashes { paths, hashes };
    }

    pub fn remove(&mut self, file: &str)
        ensures
            final(self)@ == old(self)@.remove(path::canonical(file@)),
            final(self).path_texts() == old(self).path_texts().filter(
                |p: String| !path::same_path(p@, file@),
            ),
    {
        proof {
            use_type_invariant(&*self);
        }
        let mut taken = FileHashes::new();
        std::mem::swap(self, &mut taken);
        let FileHashes { paths, mut hashes } = taken;
        let ghost known = hashes@;
        let ghost keep = |p: String| !path::same_path(p@, file@);
        let key = path::canonical_text(file);
        let ghost k = key@;
        let mut kept: Vec<String> = Vec::new();
        let mut i: usize = 0;
        proof {
            reveal(Seq::filter);
        }
        assert(paths@.take(0).filter(keep) =~= seq![]);
        while i < paths.len()
            invariant
                i <= paths.len(),
                k == path::canonical(file@),
                keep == (|p: String| !path::same_path(p@, file@)),
                kept@ == paths@.take(i as int).filter(keep),
            decreases paths.len() - i,
        {
            proof {
                reveal(Seq::filter);
                assert(paths@.take(i + 1).drop_last() =~= paths@.take(i as int));
            }
            if !path::is_same_path(paths[i].as_str(), file) {
                kept.push(paths[i].clone());
            }
            i += 1;
        }
        hashes.remove(key.as_str());
        proof {
            assert(paths@.take(paths@.len() as int) =~= paths@);
            lemma_kept(paths@, keep);
            assert forall|j: int| 0 <= j < kept@.len() implies hashes@.contains_key(
                path::canonical(#[trigger] kept@[j]@),
            ) by {
                paths@.lemma_filter_pred(keep, j);
                paths@.lemma_filter_contains_rev(keep, kept@[j]);
                let n = choose|n: int| 0 <= n < paths@.len() && paths@[n] == kept@[j];
                assert(known.contains_key(path::canonical(paths@[n]@)));
            }
            assert forall|x: Seq<char>| #[trigger] hashes@.contains_key(x) implies exists|j: int|
                0 <= j < kept@.len() && path::canonical(#[trigger] kept@[j]@) == x by {
                assert(known.contains_key(x));
                let n = choose|n: int|
                    0 <= n < paths@.len() && path::canonical(#[trigger] paths@[n]@) == x;
                assert(keep(paths@[n]));
                paths@.lemma_filter_contains(keep, n);
                let j = choose|j: int| 0 <= j < kept@.len() && kept@[j] == paths@[n];
                assert(path::canonical(kept@[j]@) == x);
            }
        }
        assert(linked(kept@, hashes@));
        *self = FileHashes { paths: kept, hashes };
    }
}

/// Filtering keeps distinct paths distinct.
proof fn lemma_kept(paths: Seq<String>, keep: spec_fn(String) -> bool)
    requires
        forall|i: int, j: int|
            0 <= i < j < paths.len() ==> path::canonical(#[trigger] paths[i]@) != path::canonical(
                #[trigger] paths[j]@,
            ),
    ensures
        forall|i: int, j: int|
            0 <= i < j < paths.filter(keep).len() ==> path::canonical(
                #[trigger] paths.filter(keep)[i]@,
            ) != path::canonical(#[trigger] paths.filter(keep)[j]@),
    decreases paths.len(),
{
    reveal(Seq::filter);
    if paths.len() > 0 {
        let init = paths.drop_last();
        let last = paths.last();
        lemma_kept(init, keep);
        let out = paths.filter(keep);
        assert forall|i: int, j: int| 0 <= i < j < out.len() implies path::canonical(
            #[trigger] out[i]@,
        ) != path::canonical(#[trigger] out[j]@) by {
            let inner = init.filter(keep);
            assert(out[i] == inner[i]);
            if j < inner.len() {
                assert(out[j] == inner[j]);
            } else {
                init.lemma_filter_contains_rev(keep, inner[i]);
                let n = choose|n: int| 0 <= n < init.len() && init[n] == inner[i];
                assert(paths[n] == inner[i]);
                assert(out[j] == paths[paths.len() - 1]);
            }
        }
    }
}

} // verus!
