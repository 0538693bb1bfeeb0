//! Content-addressed cache of embeddings.
//!
//! Vectors are kept by a key that binds the embedded text to the ingest settings, so
//! that a chunk that was embedded before, in this project or another, is not
//! embedded again. There is one cache for each model and dimension. The cache is
//! an optimization: nothing that is wrong with its file is an error.

use crate::float::FloatBits;
use crate::order;
use crate::path;
use crate::text;
use std::collections::HashMap;
use vstd::prelude::*;

verus! {

/// The embeddings of one model and dimension, backed by a file.
pub struct EmbeddingCache {
    dim: usize,
    path: Option<String>,
    entries: HashMap<u64, Vec<FloatBits>>,
    dirty: bool,
}

/// One stored embedding.
#[derive(Debug, Clone)]
pub struct CacheEntry {
    pub key: u64,
    pub vector: Vec<FloatBits>,
}

/// What a cache file holds.
#[derive(Debug, Clone)]
pub struct Persisted {
    pub dim: usize,
    pub entries: Vec<CacheEntry>,
}

/// The vectors of a map of entries.
pub open spec fn vectors_of(entries: Map<u64, Vec<FloatBits>>) -> Map<u64, Seq<FloatBits>> {
    entries.map_values(|v: Vec<FloatBits>| v@)
}

/// A map with one more vector, if that has the right length.
pub open spec fn with_vector(
    entries: Map<u64, Seq<FloatBits>>,
    dim: nat,
    key: u64,
    vector: Seq<FloatBits>,
) -> Map<u64, Seq<FloatBits>> {
    if vector.len() == dim {
        entries.insert(key, vector)
    } else {
        entries
    }
}

/// The stored embeddings of the right length; of two for one key, the later.
pub open spec fn fitting_entries(list: Seq<CacheEntry>, dim: nat) -> Map<u64, Seq<FloatBits>>
    decreases list.len(),
{
    if list.len() == 0 {
        Map::empty()
    } else {
        with_vector(
            fitting_entries(list.drop_last(), dim),
            dim,
            list.last().key,
            list.last().vector@,
        )
    }
}

impl EmbeddingCache {
    /// Every vector has the dimension of the cache.
    #[verifier::type_invariant]
    spec fn inv(self) -> bool {
        forall|k: u64| #[trigger]
            self.entries@.contains_key(k) ==> self.entries@[k]@.len() == self.dim
    }

    pub closed spec fn dimension(self) -> usize {
        self.dim
    }

    pub closed spec fn file(self) -> Option<String> {
        self.path
    }

    /// The vectors by key.
    pub closed spec fn vectors(self) -> Map<u64, Seq<FloatBits>> {
        vectors_of(self.entries@)
    }

    /// Whether the cache differs from its file.
    pub closed spec fn changed(self) -> bool {
        self.dirty
    }

    /// An empty cache without a file.
    pub fn empty(dim: usize) -> (r: Self)
        ensures
            r.dimension() == dim,
            r.file() is None,
            r.vectors() == Map::<u64, Seq<FloatBits>>::empty(),
            !r.changed(),
    {
        let r = EmbeddingCache { dim, path: None, entries: HashMap::new(), dirty: false };
        assert(vectors_of(r.entries@) =~= Map::<u64, Seq<FloatBits>>::empty());
        r
    }

    /// The vector for a key.
    pub fn get(&self, key: u64) -> (r: Option<&Vec<FloatBits>>)
        ensures
            match r {
                Some(v) => self.vectors().contains_key(key) && self.vectors()[key] == v@ && v@.len()
                    == self.dimension(),
                None => !self.vectors().contains_key(key),
            },
    {
        proof {
            use_type_invariant(self);
        }
        self.entries.get(&key)
    }

    /// Adds a vector. One of another dimension is not taken.
    pub fn insert(&mut self, key: u64, vector: Vec<FloatBits>)
        ensures
            final(self).vectors() == with_vector(
                old(self).vectors(),
                old(self).dimension() as nat,
                key,
                vector@,
            ),
            final(self).changed() == (old(self).changed() || vector@.len() == old(
                self,
            ).dimension()),
            final(self).dimension() == old(self).dimension(),
            final(self).file() == old(self).file(),
    {
        proof {
            use_type_invariant(&*self);
        }
        if vector.len() != self.dim {
            return;
        }
        let mut taken = EmbeddingCache::empty(self.dim);
        std::mem::swap(self, &mut taken);
        let EmbeddingCache { dim, path, mut entries, dirty: _ } = taken;
        let ghost before = entries@;
        entries.insert(key, vector);
        assert(vectors_of(entries@) =~= vectors_of(before).insert(key, vector@));
        *self = EmbeddingCache { dim, path, entries, dirty: true };
    }

    /// The cache that is kept in `path`. `read` gives the bytes of the file, and `parse`
    /// decodes what stands behind the magic. A file that is missing, foreign, corrupt,
    /// or of another dimension gives an empty cache, and single vectors of another
    /// dimension are left out.
    pub fn load<R: FnOnce(&String) -> Option<Vec<u8>>, P: FnOnce(&Vec<u8>) -> Option<Persisted>>(
        path: Option<String>,
        dim: usize,
        read: R,
        parse: P,
    ) -> (r: Self)
        requires
            path is Some ==> read.requires((&path->0,)),
            path is Some ==> forall|out: Option<Vec<u8>>, b: &Vec<u8>| #[trigger]
                read.ensures((&path->0,), out) && framed_body(out) == Some(b@)
                    ==> #[trigger] parse.requires((b,)),
        ensures
            r.dimension() == dim,
            r.file() == path,
            !r.changed(),
            path is None ==> r.vectors() == Map::<u64, Seq<FloatBits>>::empty(),
            path is Some ==> exists|out: Option<Vec<u8>>| #[trigger]
                read.ensures((&path->0,), out) && loaded_vectors(out, dim as nat, parse, r.vectors()),
    {
        let file = match path {
            Some(p) => p,
            None => {
                return EmbeddingCache::empty(dim);
            },
        };
        let out = read(&file);
        let ghost given = out;
        let entries = read_entries(out, dim, parse);
        let r = EmbeddingCache { dim, path: Some(file), entries, dirty: false };
        assert(read.ensures((&path->0,), given));
        r
    }

    /// Whether `out` came from handing the file, the dimension and the vectors of this
    /// cache to `write`.
    pub open spec fn written_by<
        W: FnOnce(&String, usize, &HashMap<u64, Vec<FloatBits>>) -> Result<(), String>,
    >(&self, write: W, out: Result<(), String>) -> bool {
        exists|p: &String, m: &HashMap<u64, Vec<FloatBits>>| #[trigger]
            write.ensures((p, self.dimension(), m), out) && self.file() == Some(*p) && vectors_of(
                m@,
            ) == self.vectors()
    }

    /// Writes the cache through `write`, if it has a file and differs from it. `None`
    /// if there is nothing to write.
    pub fn save<W: FnOnce(&String, usize, &HashMap<u64, Vec<FloatBits>>) -> Result<(), String>>(
        &self,
        write: W,
    ) -> (r: Option<Result<(), String>>)
        requires
            forall|p: &String, m: &HashMap<u64, Vec<FloatBits>>|
                self.changed() && self.file() == Some(*p) && vectors_of(m@) == self.vectors()
                    ==> #[trigger] write.requires((p, self.dimension(), m)),
        ensures
            r is Some <==> self.file() is Some && self.changed(),
            r is Some ==> self.written_by(write, r->0),
    {
        match &self.path {
            Some(p) => {
                if self.dirty {
                    let out = write(p, self.dim, &self.entries);
                    assert(write.ensures((p, self.dimension(), &self.entries), out));
                    assert(self.written_by(write, out));
                    Some(out)
                } else {
                    None
                }
            },
            None => None,
        }
    }
}

/// The first bytes of every cache file.
pub open spec fn cache_magic() -> Seq<u8> {
    seq![82u8, 65, 71, 66, 69, 77, 66, 0]
}

/// The file that a body is stored as.
pub open spec fn framed(body: Seq<u8>) -> Seq<u8> {
    cache_magic() + body
}

/// What stands behind the magic of a file, if it starts with it.
pub open spec fn unframed(bytes: Seq<u8>) -> Option<Seq<u8>> {
    if bytes.len() >= 8 && bytes.take(8) == cache_magic() {
        Some(bytes.skip(8))
    } else {
        None
    }
}

/// Puts the magic before a body.
pub fn frame(body: &Vec<u8>) -> (r: Vec<u8>)
    ensures
        r@ == framed(body@),
{
    let mut out: Vec<u8> = vec![82, 65, 71, 66, 69, 77, 66, 0];
    assert(out@ =~= cache_magic());
    out.extend_from_slice(body.as_slice());
    assert(out@ =~= framed(body@));
    out
}

/// Takes the magic off a file.
pub fn unframe(bytes: &Vec<u8>) -> (r: Option<Vec<u8>>)
    ensures
        match r {
            Some(body) => unframed(bytes@) == Some(body@),
            None => unframed(bytes@) is None,
        },
{
    if bytes.len() < 8 {
        return None;
    }
    let magic: Vec<u8> = vec![82, 65, 71, 66, 69, 77, 66, 0];
    assert(magic@ =~= cache_magic());
    let mut i: usize = 0;
    while i < 8
        invariant
            i <= 8 <= bytes.len(),
            magic@ == cache_magic(),
            forall|j: int| 0 <= j < i ==> bytes@[j] == magic@[j],
        decreases 8 - i,
    {
        if bytes[i] != magic[i] {
            assert(bytes@.take(8)[i as int] != cache_magic()[i as int]);
            return None;
        }
        i += 1;
    }
    assert(bytes@.take(8) =~= cache_magic());
    let mut body: Vec<u8> = Vec::new();
    let mut k: usize = 8;
    while k < bytes.len()
        invariant
            8 <= k <= bytes.len(),
            body@ == bytes@.subrange(8, k as int),
        decreases bytes.len() - k,
    {
        body.push(bytes[k]);
        k += 1;
        assert(body@ =~= bytes@.subrange(8, k as int));
    }
    assert(body@ =~= bytes@.skip(8));
    Some(body)
}

/// What was framed is found again behind the magic.
pub proof fn framed_body_reads_back(body: Seq<u8>)
    ensures
        unframed(framed(body)) == Some(body),
{
    assert(framed(body).take(8) =~= cache_magic());
    assert(framed(body).skip(8) =~= body);
}

/// The vectors of a decoded cache file for a dimension.
pub open spec fn accepted_vectors(out: Option<Persisted>, dim: nat) -> Map<u64, Seq<FloatBits>> {
    match out {
        None => Map::empty(),
        Some(p) => if p.dim != dim {
            Map::empty()
        } else {
            fitting_entries(p.entries@, dim)
        },
    }
}

/// Whether `list` holds an entry for every vector of a cache, in any order, and no
/// other.
pub open spec fn lists_vectors(list: Seq<CacheEntry>, vectors: Map<u64, Seq<FloatBits>>) -> bool {
    &&& forall|i: int|
        0 <= i < list.len() ==> vectors.contains_key((#[trigger] list[i]).key)
            && vectors[list[i].key] == list[i].vector@
    &&& forall|k: u64| #[trigger]
        vectors.contains_key(k) ==> exists|i: int| 0 <= i < list.len() && (#[trigger] list[i]).key == k
}

proof fn lemma_fitting_entries(list: Seq<CacheEntry>, vectors: Map<u64, Seq<FloatBits>>, dim: nat)
    requires
        forall|i: int|
            0 <= i < list.len() ==> vectors.contains_key((#[trigger] list[i]).key)
                && vectors[list[i].key] == list[i].vector@ && list[i].vector@.len() == dim,
    ensures
        forall|k: u64| #[trigger]
            fitting_entries(list, dim).contains_key(k) <==> exists|i: int|
                0 <= i < list.len() && (#[trigger] list[i]).key == k,
        forall|k: u64| #[trigger]
            fitting_entries(list, dim).contains_key(k) ==> fitting_entries(list, dim)[k] == vectors[k],
    decreases list.len(),
{
    if list.len() > 0 {
        let init = list.drop_last();
        let last = list[list.len() - 1];
        assert forall|i: int| 0 <= i < init.len() implies vectors.contains_key(
            (#[trigger] init[i]).key,
        ) && vectors[init[i].key] == init[i].vector@ && init[i].vector@.len() == dim by {
            assert(init[i] == list[i]);
        }
        lemma_fitting_entries(init, vectors, dim);
        assert forall|k: u64| #[trigger] fitting_entries(list, dim).contains_key(k) <==> exists|
            i: int,
        | 0 <= i < list.len() && (#[trigger] list[i]).key == k by {
            if fitting_entries(init, dim).contains_key(k) {
                let i = choose|i: int| 0 <= i < init.len() && (#[trigger] init[i]).key == k;
                assert(list[i].key == k);
            }
            if exists|i: int| 0 <= i < list.len() && (#[trigger] list[i]).key == k {
                let i = choose|i: int| 0 <= i < list.len() && (#[trigger] list[i]).key == k;
                if i < init.len() {
                    assert(init[i].key == k);
                }
            }
            if k == last.key {
                assert(list[list.len() - 1].key == k);
            }
        }
        assert forall|k: u64| #[trigger] fitting_entries(list, dim).contains_key(
            k,
        ) implies fitting_entries(list, dim)[k] == vectors[k] by {
            assert(list[list.len() - 1] == last);
            if k != last.key {
                assert(fitting_entries(init, dim).contains_key(k));
            }
        }
    }
}

/// What was saved loads again: a file that holds an entry for every vector of a cache
/// gives back those vectors, in whatever order they stand.
pub proof fn saved_cache_loads(p: Persisted, vectors: Map<u64, Seq<FloatBits>>, dim: nat)
    requires
        p.dim == dim,
        lists_vectors(p.entries@, vectors),
        forall|k: u64| #[trigger] vectors.contains_key(k) ==> vectors[k].len() == dim,
    ensures
        accepted_vectors(Some(p), dim) == vectors,
{
    let list = p.entries@;
    assert forall|i: int| 0 <= i < list.len() implies vectors.contains_key(
        (#[trigger] list[i]).key,
    ) && vectors[list[i].key] == list[i].vector@ && list[i].vector@.len() == dim by {
        assert(vectors.contains_key(list[i].key));
    }
    lemma_fitting_entries(list, vectors, dim);
    assert(fitting_entries(list, dim) =~= vectors);
}

/// Whether `vectors` is what a cache file holds for a dimension.
pub open spec fn loaded_vectors<P: FnOnce(&Vec<u8>) -> Option<Persisted>>(
    bytes: Option<Vec<u8>>,
    dim: nat,
    parse: P,
    vectors: Map<u64, Seq<FloatBits>>,
) -> bool {
    match bytes {
        None => vectors == Map::<u64, Seq<FloatBits>>::empty(),
        Some(b) => match unframed(b@) {
            None => vectors == Map::<u64, Seq<FloatBits>>::empty(),
            Some(body) => exists|v: &Vec<u8>, out: Option<Persisted>| #[trigger]
                parse.ensures((v,), out) && v@ == body && vectors == accepted_vectors(out, dim),
        },
    }
}

/// The vectors of a decoded cache file that may be used for a dimension: none if the
/// file is for another one, else those of the right length.
pub fn accept_entries(out: Option<Persisted>, dim: usize) -> (r: HashMap<u64, Vec<FloatBits>>)
    ensures
        vectors_of(r@) == accepted_vectors(out, dim as nat),
        forall|k: u64| #[trigger] r@.contains_key(k) ==> r@[k]@.len() == dim,
{
    let mut entries: HashMap<u64, Vec<FloatBits>> = HashMap::new();
    assert(vectors_of(entries@) =~= Map::<u64, Seq<FloatBits>>::empty());
    match out {
        None => entries,
        Some(p) => {
            if p.dim != dim {
                return entries;
            }
            let ghost all = p.entries@;
            assert(fitting_entries(all.take(0), dim as nat) =~= Map::<
                u64,
                Seq<FloatBits>,
            >::empty());
            for e in it: p.entries
                invariant
                    it.seq() == all,
                    vectors_of(entries@) == fitting_entries(all.take(it.index() as int), dim as nat),
                    forall|k: u64| #[trigger]
                        entries@.contains_key(k) ==> entries@[k]@.len() == dim,
            {
                proof {
                    assert(all.take(it.index() + 1).drop_last() =~= all.take(it.index() as int));
                    assert(all.take(it.index() + 1).last() == e);
                }
                let ghost before = entries@;
                if e.vector.len() == dim {
                    entries.insert(e.key, e.vector);
                    assert(vectors_of(entries@) =~= vectors_of(before).insert(e.key, e.vector@));
                }
            }
            assert(all.take(all.len() as int) =~= all);
            entries
        },
    }
}

/// What stands behind the magic of a file that could be read.
pub open spec fn framed_body(bytes: Option<Vec<u8>>) -> Option<Seq<u8>> {
    match bytes {
        Some(b) => unframed(b@),
        None => None,
    }
}

/// The entries of a cache file.
fn read_entries<P: FnOnce(&Vec<u8>) -> Option<Persisted>>(
    bytes: Option<Vec<u8>>,
    dim: usize,
    parse: P,
) -> (r: HashMap<u64, Vec<FloatBits>>)
    requires
        forall|b: &Vec<u8>|
            framed_body(bytes) == Some(b@) ==> #[trigger] parse.requires((b,)),
    ensures
        loaded_vectors(bytes, dim as nat, parse, vectors_of(r@)),
        forall|k: u64| #[trigger] r@.contains_key(k) ==> r@[k]@.len() == dim,
{
    let body = match &bytes {
        Some(b) => unframe(b),
        None => None,
    };
    match body {
        None => {
            let none: HashMap<u64, Vec<FloatBits>> = HashMap::new();
            assert(vectors_of(none@) =~= Map::<u64, Seq<FloatBits>>::empty());
            none
        },
        Some(b) => {
            let out = parse(&b);
            let ghost given = out;
            let r = accept_entries(out, dim);
            assert(parse.ensures((&b,), given));
            r
        },
    }
}

/// A character of a model id as it stands in a file name.
pub open spec fn safe_char(c: char) -> char {
    if ('a' <= c <= 'z') || ('A' <= c <= 'Z') || ('0' <= c <= '9') || c == '-' || c == '.' {
        c
    } else {
        '_'
    }
}

/// The name of the cache file of a model and dimension.
pub open spec fn cache_file_name(model: Seq<char>, dim: nat) -> Seq<char> {
    "emb-"@ + model.map_values(|c: char| safe_char(c)) + "-"@ + text::decimal(dim) + ".postcard"@
}

/// The cache file of a model and dimension under the cache root.
pub fn cache_path(root: Option<String>, model: &str, dim: usize) -> (r: Option<String>)
    ensures
        text::opt_text(r) == match root {
            Some(dir) => Some(path::joined(dir@, cache_file_name(model@, dim as nat))),
            None => None,
        },
{
    let dir = match root {
        Some(d) => d,
        None => {
            return None;
        },
    };
    let mut name = "emb-".to_string();
    let cs = text::chars_of(model);
    let ghost safe = model@.map_values(|c: char| safe_char(c));
    let mut i: usize = 0;
    assert("emb-"@ + safe.take(0) =~= "emb-"@);
    while i < cs.len()
        invariant
            cs@ == model@,
            safe == model@.map_values(|c: char| safe_char(c)),
            i <= cs.len(),
            name@ == "emb-"@ + safe.take(i as int),
        decreases cs.len() - i,
    {
        let c = cs[i];
        let s = if ('a' <= c && c <= 'z') || ('A' <= c && c <= 'Z') || ('0' <= c && c <= '9') || c
            == '-' || c == '.' {
            c
        } else {
            '_'
        };
        name.push(s);
        i += 1;
        assert(name@ =~= "emb-"@ + safe.take(i as int));
    }
    assert(safe.take(safe.len() as int) =~= safe);
    name.push_str("-");
    text::push_decimal(&mut name, dim as u64);
    name.push_str(".postcard");
    assert(name@ =~= cache_file_name(model@, dim as nat));
    Some(path::join_path(dir.as_str(), name.as_str()))
}

// ---------------------------------------------------------------------------
// Resolving
// ---------------------------------------------------------------------------

/// Vectors for a list of keys, and how many came from the cache.
#[derive(Debug)]
pub struct Resolved {
    pub vectors: Vec<Vec<FloatBits>>,
    pub hits: usize,
    pub misses: usize,
}

/// Why vectors could not be resolved.
#[derive(Debug)]
pub enum ResolveError {
    Embed(String),
    /// The embedder gave another number of vectors than it was given texts.
    Count { vectors: usize, texts: usize },
}

/// The positions of the keys that have no vector.
pub open spec fn missing(vectors: Map<u64, Seq<FloatBits>>, keys: Seq<u64>) -> Seq<usize> {
    order::positions(keys.len(), |i: int| !vectors.contains_key(keys[i]))
}

/// The texts at some positions.
pub open spec fn texts_at(list: Seq<String>, at: Seq<usize>) -> Seq<Seq<char>> {
    at.map_values(|i: usize| list[i as int]@)
}

/// The cache after the first `n` of the embedded vectors were added under the keys at
/// the missing positions.
pub open spec fn after_misses(
    vectors: Map<u64, Seq<FloatBits>>,
    dim: nat,
    keys: Seq<u64>,
    at: Seq<usize>,
    embedded: Seq<Vec<FloatBits>>,
    n: nat,
) -> Map<u64, Seq<FloatBits>>
    decreases n,
{
    if n == 0 {
        vectors
    } else {
        with_vector(
            after_misses(vectors, dim, keys, at, embedded, (n - 1) as nat),
            dim,
            keys[at[n - 1] as int],
            embedded[n - 1]@,
        )
    }
}

/// Whether one of the first `n` vectors has the dimension.
pub open spec fn some_fits(embedded: Seq<Vec<FloatBits>>, dim: nat, n: nat) -> bool {
    exists|j: int| 0 <= j < n && (#[trigger] embedded[j])@.len() == dim
}

/// Whether `out` holds the cached vector of every key that has one, and the embedded
/// vectors at the other positions, in order.
pub open spec fn spliced(
    vectors: Map<u64, Seq<FloatBits>>,
    keys: Seq<u64>,
    embedded: Seq<Vec<FloatBits>>,
    out: Seq<Vec<FloatBits>>,
) -> bool {
    let at = missing(vectors, keys);
    &&& out.len() == keys.len()
    &&& forall|i: int|
        0 <= i < keys.len() && vectors.contains_key(keys[i]) ==> (#[trigger] out[i])@
            == vectors[keys[i]]
    &&& forall|j: int|
        0 <= j < at.len() ==> out[#[trigger] at[j] as int]@ == embedded[j]@
}

/// Whether `r` is the resolution of the keys from a cache with these vectors, where
/// `embedded` holds the vectors for the missing ones.
pub open spec fn resolution(
    vectors: Map<u64, Seq<FloatBits>>,
    keys: Seq<u64>,
    embedded: Seq<Vec<FloatBits>>,
    r: Resolved,
) -> bool {
    &&& spliced(vectors, keys, embedded, r.vectors@)
    &&& r.misses == missing(vectors, keys).len()
    &&& r.hits + r.misses == keys.len()
}

fn copy_vector(v: &Vec<FloatBits>) -> (r: Vec<FloatBits>)
    ensures
        r@ == v@,
{
    let mut out: Vec<FloatBits> = Vec::new();
    out.extend_from_slice(v.as_slice());
    assert(out@ =~= v@);
    out
}

/// Puts cached and embedded vectors in place.
fn splice(
    cache: &EmbeddingCache,
    keys: &Vec<u64>,
    at: &Vec<usize>,
    embedded: &Vec<Vec<FloatBits>>,
) -> (r: Vec<Vec<FloatBits>>)
    requires
        at@ == missing(cache.vectors(), keys@),
        embedded.len() == at.len(),
    ensures
        spliced(cache.vectors(), keys@, embedded@, r@),
{
    let ghost vectors = cache.vectors();
    let ghost gone = |i: int| !vectors.contains_key(keys@[i]);
    proof {
        assert(keys.len() <= usize::MAX);
        order::lemma_positions(keys@.len(), gone);
    }
    let mut out: Vec<Vec<FloatBits>> = Vec::new();
    let mut j: usize = 0;
    let mut i: usize = 0;
    while i < keys.len()
        invariant
            vectors == cache.vectors(),
            gone == (|i: int| !vectors.contains_key(keys@[i])),
            at@ == order::positions(keys@.len(), gone),
            embedded.len() == at.len(),
            forall|a: int| 0 <= a < at@.len() ==> (#[trigger] at@[a]) < keys@.len() && gone(at@[a] as int),
            forall|a: int, b: int| 0 <= a < b < at@.len() ==> (#[trigger] at@[a]) < (#[trigger] at@[b]),
            forall|k: int| 0 <= k < keys@.len() && #[trigger] gone(k) ==> at@.contains(k as usize),
            i <= keys.len(),
            j <= at.len(),
            out.len() == i,
            forall|a: int| 0 <= a < j ==> (#[trigger] at@[a]) < i,
            forall|a: int| j <= a < at@.len() ==> i <= #[trigger] at@[a],
            forall|k: int|
                0 <= k < i && vectors.contains_key(keys@[k]) ==> (#[trigger] out@[k])@
                    == vectors[keys@[k]],
            forall|a: int| 0 <= a < j ==> out@[#[trigger] at@[a] as int]@ == embedded@[a]@,
        decreases keys.len() - i,
    {
        match cache.get(keys[i]) {
            Some(v) => {
                proof {
                    if j < at.len() && at@[j as int] == i {
                        assert(gone(i as int));
                    }
                }
                out.push(copy_vector(v));
            },
            None => {
                proof {
                    assert(gone(i as int));
                    let a = choose|a: int| 0 <= a < at@.len() && at@[a] == i as usize;
                    assert(a >= j);
                    if a > j {
                        assert(at@[j as int] < at@[a]);
                    }
                    assert(at@[j as int] == i);
                }
                out.push(copy_vector(&embedded[j]));
                j += 1;
            },
        }
        i += 1;
    }
    proof {
        if j < at.len() {
            assert(i <= at@[j as int]);
        }
    }
    out
}

/// Resolves the vectors of keys and their texts. Keys that the cache knows are served
/// from it; the texts of the others go to `embed`, once and in order, and what it
/// returns is put in place and added to the cache. If nothing is missing, `embed` is
/// not called.
pub fn resolve_with_cache<F: FnOnce(&Vec<String>) -> Result<Vec<Vec<FloatBits>>, String>>(
    cache: &mut EmbeddingCache,
    keys: &Vec<u64>,
    texts: &Vec<String>,
    embed: F,
) -> (r: Result<Resolved, ResolveError>)
    requires
        keys.len() == texts.len(),
        forall|list: &Vec<String>|
            missing(old(cache).vectors(), keys@).len() > 0 && text::texts(list@) == texts_at(
                texts@,
                missing(old(cache).vectors(), keys@),
            ) ==> #[trigger] embed.requires((list,)),
    ensures
        final(cache).dimension() == old(cache).dimension(),
        final(cache).file() == old(cache).file(),
        resolved(*old(cache), keys@, texts@, embed, *final(cache), r),
{
    let ghost before = *cache;
    let ghost vectors = cache.vectors();
    let ghost gone = |i: int| !vectors.contains_key(keys@[i]);
    let mut at: Vec<usize> = Vec::new();
    let mut miss_texts: Vec<String> = Vec::new();
    let mut i: usize = 0;
    assert(text::texts(miss_texts@) =~= texts_at(texts@, at@));
    while i < keys.len()
        invariant
            keys.len() == texts.len(),
            *cache == before,
            vectors == cache.vectors(),
            gone == (|i: int| !vectors.contains_key(keys@[i])),
            i <= keys.len(),
            at@ == order::positions(i as nat, gone),
            at@.len() <= i,
            text::texts(miss_texts@) == texts_at(texts@, at@),
        decreases keys.len() - i,
    {
        if cache.get(keys[i]).is_none() {
            let t = texts[i].clone();
            proof {
                assert(gone(i as int));
                text::lemma_texts_push(miss_texts@, t);
                assert(texts_at(texts@, at@.push(i)) =~= texts_at(texts@, at@).push(t@));
            }
            at.push(i);
            miss_texts.push(t);
        }
        i += 1;
    }
    assert(text::texts(miss_texts@).len() == miss_texts@.len());
    let misses: usize = at.len();
    let hits: usize = keys.len() - misses;
    if misses == 0 {
        let none: Vec<Vec<FloatBits>> = Vec::new();
        let out = splice(cache, keys, &at, &none);
        let r = Resolved { vectors: out, hits, misses };
        assert(resolution(vectors, keys@, none@, r));
        return Ok(r);
    }
    let answer = embed(&miss_texts);
    assert(embed.ensures((&miss_texts,), answer));
    let embedded = match answer {
        Err(e) => {
            return Err(ResolveError::Embed(e));
        },
        Ok(list) => list,
    };
    if embedded.len() != misses {
        return Err(ResolveError::Count { vectors: embedded.len(), texts: misses });
    }
    let out = splice(cache, keys, &at, &embedded);
    let ghost dim = before.dimension() as nat;
    proof {
        assert(keys.len() <= usize::MAX);
        order::lemma_positions(keys@.len(), gone);
    }
    let mut k: usize = 0;
    while k < misses
        invariant
            k <= misses,
            misses == at.len(),
            embedded.len() == misses,
            forall|a: int| 0 <= a < at@.len() ==> (#[trigger] at@[a]) < keys@.len(),
            cache.dimension() == before.dimension(),
            cache.file() == before.file(),
            dim == before.dimension(),
            cache.vectors() == after_misses(vectors, dim, keys@, at@, embedded@, k as nat),
            cache.changed() == (before.changed() || some_fits(embedded@, dim, k as nat)),
        decreases misses - k,
    {
        let v = copy_vector(&embedded[k]);
        proof {
            if some_fits(embedded@, dim, k as nat) {
                assert(some_fits(embedded@, dim, (k + 1) as nat));
            }
            if v@.len() == dim {
                assert(embedded@[k as int]@.len() == dim);
            }
        }
        assert(at@[k as int] < keys@.len());
        cache.insert(keys[at[k]], v);
        k += 1;
    }
    let r = Resolved { vectors: out, hits, misses };
    assert(resolution(vectors, keys@, embedded@, r));
    Ok(r)
}

/// Whether `r` and the cache `after` are what resolving makes of a cache, keys and
/// texts.
pub open spec fn resolved<F: FnOnce(&Vec<String>) -> Result<Vec<Vec<FloatBits>>, String>>(
    before: EmbeddingCache,
    keys: Seq<u64>,
    texts: Seq<String>,
    embed: F,
    after: EmbeddingCache,
    r: Result<Resolved, ResolveError>,
) -> bool {
    let vectors = before.vectors();
    let at = missing(vectors, keys);
    if at.len() == 0 {
        after == before && r is Ok && resolution(vectors, keys, seq![], r->Ok_0)
    } else {
        exists|list: &Vec<String>, out: Result<Vec<Vec<FloatBits>>, String>| #[trigger]
            embed.ensures((list,), out) && text::texts(list@) == texts_at(texts, at) && (match out {
                Err(e) => after == before && r == Err::<Resolved, ResolveError>(
                    ResolveError::Embed(e),
                ),
                Ok(embedded) => if embedded@.len() != at.len() {
                    after == before && r == Err::<Resolved, ResolveError>(
                        ResolveError::Count {
                            vectors: embedded@.len() as usize,
                            texts: at.len() as usize,
                        },
                    )
                } else {
                    r is Ok && resolution(vectors, keys, embedded@, r->Ok_0) && after.vectors()
                        == after_misses(
                        vectors,
                        before.dimension() as nat,
                        keys,
                        at,
                        embedded@,
                        at.len(),
                    ) && after.changed() == (before.changed() || some_fits(
                        embedded@,
                        before.dimension() as nat,
                        at.len(),
                    ))
                },
            })
    }
}

proof fn lemma_after_misses(
    vectors: Map<u64, Seq<FloatBits>>,
    dim: nat,
    keys: Seq<u64>,
    at: Seq<usize>,
    embedded: Seq<Vec<FloatBits>>,
    n: nat,
)
    requires
        forall|j: int| 0 <= j < n ==> (#[trigger] embedded[j])@.len() == dim,
    ensures
        forall|k: u64| #[trigger]
            vectors.contains_key(k) ==> after_misses(
                vectors,
                dim,
                keys,
                at,
                embedded,
                n,
            ).contains_key(k),
        forall|j: int|
            0 <= j < n ==> after_misses(vectors, dim, keys, at, embedded, n).contains_key(
                keys[#[trigger] at[j] as int],
            ),
    decreases n,
{
    if n > 0 {
        assert(embedded[n - 1]@.len() == dim);
        lemma_after_misses(vectors, dim, keys, at, embedded, (n - 1) as nat);
    }
}

/// Nothing is embedded twice: once keys were resolved with vectors of the right
/// dimension, resolving them again finds every one of them in the cache.
pub proof fn resolved_keys_are_cached(
    vectors: Map<u64, Seq<FloatBits>>,
    dim: nat,
    keys: Seq<u64>,
    embedded: Seq<Vec<FloatBits>>,
)
    requires
        keys.len() <= usize::MAX,
        embedded.len() == missing(vectors, keys).len(),
        forall|j: int| 0 <= j < embedded.len() ==> (#[trigger] embedded[j])@.len() == dim,
    ensures
        missing(
            after_misses(vectors, dim, keys, missing(vectors, keys), embedded, embedded.len()),
            keys,
        ) == Seq::<usize>::empty(),
{
    let at = missing(vectors, keys);
    let later = after_misses(vectors, dim, keys, at, embedded, embedded.len());
    let gone = |i: int| !vectors.contains_key(keys[i]);
    let gone_later = |i: int| !later.contains_key(keys[i]);
    lemma_after_misses(vectors, dim, keys, at, embedded, embedded.len());
    order::lemma_positions(keys.len(), gone);
    order::lemma_positions(keys.len(), gone_later);
    let again = missing(later, keys);
    if again.len() > 0 {
        let i = again[0] as int;
        assert(gone_later(i));
        if gone(i) {
            assert(at.contains(i as usize));
            let j = choose|j: int| 0 <= j < at.len() && at[j] == i as usize;
            assert(later.contains_key(keys[at[j] as int]));
        } else {
            assert(vectors.contains_key(keys[i]));
        }
    }
    assert(again =~= Seq::<usize>::empty());
}

// ---------------------------------------------------------------------------
// What a cache holds
// ---------------------------------------------------------------------------

/// Of the stored vectors of a key the last that has the dimension counts, and a key
/// without one is not in the cache.
pub proof fn the_last_fitting_vector_counts(list: Seq<CacheEntry>, dim: nat, k: int)
    requires
        0 <= k < list.len(),
        list[k].vector@.len() == dim,
        forall|j: int|
            k < j < list.len() ==> (#[trigger] list[j]).key != list[k].key || list[j].vector@.len()
                != dim,
    ensures
        fitting_entries(list, dim).contains_key(list[k].key),
        fitting_entries(list, dim)[list[k].key] == list[k].vector@,
    decreases list.len(),
{
    if k < list.len() - 1 {
        let init = list.drop_last();
        assert forall|j: int| k < j < init.len() implies (#[trigger] init[j]).key != init[k].key
            || init[j].vector@.len() != dim by {
            assert(init[j] == list[j]);
        }
        the_last_fitting_vector_counts(init, dim, k);
        let last = list[list.len() - 1];
        assert(last.key != list[k].key || last.vector@.len() != dim);
    }
}

/// Every vector that is taken from a file has the dimension, and stood there for its key.
pub proof fn only_fitting_vectors_are_taken(list: Seq<CacheEntry>, dim: nat, key: u64)
    requires
        fitting_entries(list, dim).contains_key(key),
    ensures
        exists|k: int|
            0 <= k < list.len() && (#[trigger] list[k]).key == key && list[k].vector@
                == fitting_entries(list, dim)[key] && list[k].vector@.len() == dim,
    decreases list.len(),
{
    if list.len() > 0 {
        let last = list.last();
        if last.key == key && last.vector@.len() == dim {
            assert(list[list.len() - 1].key == key);
        } else {
            let init = list.drop_last();
            only_fitting_vectors_are_taken(init, dim, key);
            let k = choose|k: int|
                0 <= k < init.len() && (#[trigger] init[k]).key == key && init[k].vector@
                    == fitting_entries(init, dim)[key] && init[k].vector@.len() == dim;
            assert(list[k] == init[k]);
        }
    }
}

/// A file of another dimension, or one that cannot be read, gives nothing.
pub proof fn other_dimensions_give_nothing(out: Option<Persisted>, dim: nat, key: u64)
    requires
        out is None || (out->0).dim != dim,
    ensures
        !accepted_vectors(out, dim).contains_key(key),
{
}

/// A cache file is eight fixed bytes and the rest.
pub proof fn cache_files_start_with_the_mark(bytes: Seq<u8>, body: Seq<u8>)
    ensures
        unframed(bytes) == Some(body) <==> bytes == seq![82u8, 65, 71, 66, 69, 77, 66, 0] + body,
        framed(body) == seq![82u8, 65, 71, 66, 69, 77, 66, 0] + body,
{
    let mark = seq![82u8, 65, 71, 66, 69, 77, 66, 0];
    if unframed(bytes) == Some(body) {
        assert(bytes =~= bytes.take(8) + bytes.skip(8));
    }
    if bytes == mark + body {
        assert(bytes.take(8) =~= mark);
        assert(bytes.skip(8) =~= body);
    }
}

/// A cache takes a vector of its dimension for a key, in the place of one that it had,
/// and leaves the others; one of another dimension changes nothing.
pub proof fn caches_take_fitting_vectors(
    entries: Map<u64, Seq<FloatBits>>,
    dim: nat,
    key: u64,
    vector: Seq<FloatBits>,
    other: u64,
)
    ensures
        vector.len() == dim ==> with_vector(entries, dim, key, vector).contains_key(key)
            && with_vector(entries, dim, key, vector)[key] == vector,
        other != key || vector.len() != dim ==> with_vector(
            entries,
            dim,
            key,
            vector,
        ).contains_key(other) == entries.contains_key(other) && (entries.contains_key(other)
            ==> with_vector(entries, dim, key, vector)[other] == entries[other]),
{
}

/// The name of a cache file keeps letters, digits, hyphens and dots of the model's id and
/// has an underscore for any other character, so that it is the name of one file.
pub proof fn cache_files_have_plain_names(model: Seq<char>, dim: nat)
    ensures
        !cache_file_name(model, dim).contains('/'),
        forall|i: int|
            0 <= i < model.len() ==> #[trigger] cache_file_name(model, dim)[4 + i] == if text::ascii(
                model[i],
            ) && (text::alphanumeric(model[i]) || model[i] == '-' || model[i] == '.') {
                model[i]
            } else {
                '_'
            },
        cache_file_name(model, dim).take(4) == seq!['e', 'm', 'b', '-'],
        cache_file_name(model, dim).skip((4 + model.len()) as int) == seq!['-'] + text::decimal(dim)
            + ".postcard"@,
{
    reveal_strlit("emb-");
    reveal_strlit("-");
    reveal_strlit(".postcard");
    let safe = model.map_values(|c: char| safe_char(c));
    let name = cache_file_name(model, dim);
    assert("emb-"@ =~= seq!['e', 'm', 'b', '-']);
    assert("-"@ =~= seq!['-']);
    assert(name =~= "emb-"@ + safe + (seq!['-'] + text::decimal(dim) + ".postcard"@));
    assert(name.take(4) =~= "emb-"@);
    let tail = seq!['-'] + text::decimal(dim) + ".postcard"@;
    assert(name.skip((4 + model.len()) as int) =~= tail);
    text::lemma_decimal_digits(dim);
    assert(!".postcard"@.contains('/'));
    assert forall|i: int| 0 <= i < name.len() implies name[i] != '/' by {
        if 4 <= i < 4 + model.len() {
            assert(name[i] == safe[i - 4]);
        } else if i >= 4 + model.len() {
            let j = i - 4 - model.len();
            assert(name[i] == tail[j]);
            if 1 <= j < 1 + text::decimal(dim).len() {
                assert(tail[j] == text::decimal(dim)[j - 1]);
            } else if j >= 1 {
                let k = j - 1 - text::decimal(dim).len();
                assert(tail[j] == ".postcard"@[k]);
                assert(".postcard"@.contains(".postcard"@[k]));
            }
        }
    }
    assert forall|i: int| 0 <= i < model.len() implies #[trigger] name[4 + i] == safe[i] by {}
}

/// How many of the keys the cache does not have.
pub open spec fn misses_in(vectors: Map<u64, Seq<FloatBits>>, keys: Seq<u64>) -> nat {
    keys.filter(|k: u64| !vectors.contains_key(k)).len()
}

proof fn lemma_missing_at(vectors: Map<u64, Seq<FloatBits>>, keys: Seq<u64>, n: nat)
    requires
        n <= keys.len(),
        keys.len() <= usize::MAX,
    ensures
        order::positions(n, |i: int| !vectors.contains_key(keys[i])).len() == misses_in(
            vectors,
            keys.take(n as int),
        ),
    decreases n,
{
    reveal(Seq::filter);
    if n > 0 {
        lemma_missing_at(vectors, keys, (n - 1) as nat);
        assert(keys.take(n as int).drop_last() =~= keys.take(n - 1));
        assert(keys.take(n as int).last() == keys[n - 1]);
    }
}

proof fn lemma_position_of(n: nat, keep: spec_fn(int) -> bool, i: int)
    requires
        0 <= i < n,
        keep(i),
        n <= usize::MAX,
    ensures
        order::positions(i as nat, keep).len() < order::positions(n, keep).len(),
        order::positions(n, keep)[order::positions(i as nat, keep).len() as int] == i,
    decreases n,
{
    if i < n - 1 {
        lemma_position_of((n - 1) as nat, keep, i);
        let rest = order::positions((n - 1) as nat, keep);
        let at = order::positions(i as nat, keep).len() as int;
        assert(order::positions(n, keep)[at] == rest[at]);
    }
}

/// Each key gets the vector that the cache has for it, and the others those that were
/// made, one after the other. What was missing and what was found are counted.
pub proof fn keys_get_their_vectors(
    vectors: Map<u64, Seq<FloatBits>>,
    keys: Seq<u64>,
    embedded: Seq<Vec<FloatBits>>,
    r: Resolved,
    i: int,
)
    requires
        resolution(vectors, keys, embedded, r),
        keys.len() <= usize::MAX,
        0 <= i < keys.len(),
    ensures
        r.vectors@.len() == keys.len(),
        vectors.contains_key(keys[i]) ==> r.vectors@[i]@ == vectors[keys[i]],
        !vectors.contains_key(keys[i]) ==> r.vectors@[i]@ == embedded[misses_in(
            vectors,
            keys.take(i),
        ) as int]@,
        r.misses == misses_in(vectors, keys),
        r.hits == keys.len() - misses_in(vectors, keys),
{
    let gone = |j: int| !vectors.contains_key(keys[j]);
    let at = missing(vectors, keys);
    assert(at == order::positions(keys.len(), gone));
    lemma_missing_at(vectors, keys, i as nat);
    lemma_missing_at(vectors, keys, keys.len());
    assert(keys.take(keys.len() as int) =~= keys);
    if !vectors.contains_key(keys[i]) {
        assert(gone(i));
        lemma_position_of(keys.len(), gone, i);
        let j = order::positions(i as nat, gone).len() as int;
        assert(j == misses_in(vectors, keys.take(i)));
        assert(r.vectors@[at[j] as int]@ == embedded[j]@);
    }
}

/// What is sent to be embedded are the texts of the missing keys, in their order, and of
/// nothing else.
pub proof fn only_missing_texts_are_embedded(
    vectors: Map<u64, Seq<FloatBits>>,
    keys: Seq<u64>,
    texts: Seq<String>,
    i: int,
)
    requires
        keys.len() <= usize::MAX,
        texts.len() == keys.len(),
        0 <= i < keys.len(),
    ensures
        texts_at(texts, missing(vectors, keys)).len() == misses_in(vectors, keys),
        !vectors.contains_key(keys[i]) ==> texts_at(texts, missing(vectors, keys))[misses_in(
            vectors,
            keys.take(i),
        ) as int] == texts[i]@,
{
    let gone = |j: int| !vectors.contains_key(keys[j]);
    let at = missing(vectors, keys);
    assert(at == order::positions(keys.len(), gone));
    lemma_missing_at(vectors, keys, i as nat);
    lemma_missing_at(vectors, keys, keys.len());
    assert(keys.take(keys.len() as int) =~= keys);
    if !vectors.contains_key(keys[i]) {
        assert(gone(i));
        lemma_position_of(keys.len(), gone, i);
    }
}

/// What the cache had it keeps.
pub proof fn cached_vectors_stay(
    vectors: Map<u64, Seq<FloatBits>>,
    dim: nat,
    keys: Seq<u64>,
    embedded: Seq<Vec<FloatBits>>,
    n: nat,
    key: u64,
)
    requires
        keys.len() <= usize::MAX,
        n <= missing(vectors, keys).len(),
        vectors.contains_key(key),
    ensures
        after_misses(vectors, dim, keys, missing(vectors, keys), embedded, n).contains_key(key),
        after_misses(vectors, dim, keys, missing(vectors, keys), embedded, n)[key] == vectors[key],
    decreases n,
{
    let gone = |j: int| !vectors.contains_key(keys[j]);
    if n > 0 {
        cached_vectors_stay(vectors, dim, keys, embedded, (n - 1) as nat, key);
        order::lemma_positions(keys.len(), gone);
        let at = missing(vectors, keys);
        assert(gone(at[n - 1] as int));
    }
}

/// A vector that was made for a missing key goes into the cache, if it has the dimension.
pub proof fn new_vectors_are_cached(
    vectors: Map<u64, Seq<FloatBits>>,
    dim: nat,
    keys: Seq<u64>,
    embedded: Seq<Vec<FloatBits>>,
    n: nat,
    j: int,
)
    requires
        0 <= j < n,
        embedded[j]@.len() == dim,
        forall|k: int|
            j < k < n ==> keys[#[trigger] missing(vectors, keys)[k] as int] != keys[missing(
                vectors,
                keys,
            )[j] as int],
    ensures
        after_misses(vectors, dim, keys, missing(vectors, keys), embedded, n).contains_key(
            keys[missing(vectors, keys)[j] as int],
        ),
        after_misses(vectors, dim, keys, missing(vectors, keys), embedded, n)[keys[missing(
            vectors,
            keys,
        )[j] as int]] == embedded[j]@,
    decreases n,
{
    if j < n - 1 {
        new_vectors_are_cached(vectors, dim, keys, embedded, (n - 1) as nat, j);
        let at = missing(vectors, keys);
        assert(keys[at[n - 1] as int] != keys[at[j] as int]);
    }
}

/// An embedder that fails, or gives another number of vectors than it got texts, changes
/// nothing in the cache. Where nothing is missing it has no part in what comes out.
pub proof fn failed_embeddings_change_nothing<
    F: FnOnce(&Vec<String>) -> Result<Vec<Vec<FloatBits>>, String>,
>(
    before: EmbeddingCache,
    keys: Seq<u64>,
    texts: Seq<String>,
    embed: F,
    after: EmbeddingCache,
    r: Result<Resolved, ResolveError>,
)
    requires
        resolved(before, keys, texts, embed, after, r),
        keys.len() <= usize::MAX,
    ensures
        r is Err ==> after == before,
        r is Err ==> misses_in(before.vectors(), keys) > 0,
        misses_in(before.vectors(), keys) == 0 ==> r is Ok && after == before && r->Ok_0.hits
            == keys.len() && r->Ok_0.misses == 0,
        r is Ok && misses_in(before.vectors(), keys) > 0 ==> exists|
            list: &Vec<String>,
            out: Vec<Vec<FloatBits>>,
        | #[trigger]
            embed.ensures((list,), Ok(out)) && out@.len() == misses_in(before.vectors(), keys)
                && list@.len() == out@.len(),
{
    let gone = |i: int| !before.vectors().contains_key(keys[i]);
    lemma_missing_at(before.vectors(), keys, keys.len());
    assert(keys.take(keys.len() as int) =~= keys);
    let at = missing(before.vectors(), keys);
    if at.len() > 0 {
        let (list, out) = choose|list: &Vec<String>, out: Result<Vec<Vec<FloatBits>>, String>|
         #[trigger]
            embed.ensures((list,), out) && text::texts(list@) == texts_at(texts, at) && (match out {
                Err(e) => after == before && r == Err::<Resolved, ResolveError>(
                    ResolveError::Embed(e),
                ),
                Ok(embedded) => if embedded@.len() != at.len() {
                    after == before && r == Err::<Resolved, ResolveError>(
                        ResolveError::Count {
                            vectors: embedded@.len() as usize,
                            texts: at.len() as usize,
                        },
                    )
                } else {
                    r is Ok && resolution(before.vectors(), keys, embedded@, r->Ok_0)
                        && after.vectors() == after_misses(
                        before.vectors(),
                        before.dimension() as nat,
                        keys,
                        at,
                        embedded@,
                        at.len(),
                    ) && after.changed() == (before.changed() || some_fits(
                        embedded@,
                        before.dimension() as nat,
                        at.len(),
                    ))
                },
            });
        assert(text::texts(list@).len() == list@.len());
        assert(texts_at(texts, at).len() == at.len());
        if r is Ok {
            assert(out is Ok);
            assert(embed.ensures((list,), Ok(out->Ok_0)));
        }
    }
}

/// A file that is missing, or that does not start with the mark, gives an empty cache,
/// and is not decoded.
pub proof fn foreign_files_give_an_empty_cache<P: FnOnce(&Vec<u8>) -> Option<Persisted>>(
    bytes: Option<Vec<u8>>,
    dim: nat,
    parse: P,
    vectors: Map<u64, Seq<FloatBits>>,
    key: u64,
)
    requires
        loaded_vectors(bytes, dim, parse, vectors),
        bytes is None || (bytes->0)@.len() < 8 || (bytes->0)@.take(8) != seq![
            82u8,
            65,
            71,
            66,
            69,
            77,
            66,
            0,
        ],
    ensures
        !vectors.contains_key(key),
{
}

} // verus!
