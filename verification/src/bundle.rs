use vstd::arithmetic::div_mod::{lemma_fundamental_div_mod, lemma_mod_division_less_than_divisor};
use vstd::prelude::*;

use crate::cache::{Cache, CacheModel};
use crate::chunk::{
    Chunk, ChunkModel, MAX_CHUNK_SIZE, chunk_available, chunk_id_of, loaded_chunk, pad_to_capacity,
};
use crate::digestutils::{calculate_digest, hex_encode, hex_lower_of, sha256_of};
use crate::errors::IoError;

verus! {

/// Mathematical model of a [`Bundle`].
pub ghost struct BundleModel {
    /// Lowercase-hex digest of the entire original file's content.
    pub id: Seq<char>,
    /// The source or reference location the bundle was built against.
    pub path: Seq<char>,
    /// The logical length of the original file, in bytes.
    pub size: nat,
    /// The ordered chunk sequence; position `i` corresponds to byte
    /// offset `i * MAX_CHUNK_SIZE` of the original file.
    pub chunks: Seq<ChunkModel>,
}

/// Number of fixed-size chunks a file of `len` bytes splits into:
/// zero for an empty file, otherwise the length divided by
/// `MAX_CHUNK_SIZE` rounded up.
pub open spec fn chunk_count(len: nat) -> nat {
    ((len + MAX_CHUNK_SIZE - 1) / (MAX_CHUNK_SIZE as int)) as nat
}

/// The bytes of the `i`-th fixed-offset window of `data`: all windows
/// hold `MAX_CHUNK_SIZE` bytes except possibly the last.
pub open spec fn window(data: Seq<u8>, i: int) -> Seq<u8>
    recommends
        0 <= i < chunk_count(data.len()),
{
    data.subrange(
        i * (MAX_CHUNK_SIZE as int),
        if data.len() < (i + 1) * (MAX_CHUNK_SIZE as int) {
            data.len() as int
        } else {
            (i + 1) * (MAX_CHUNK_SIZE as int)
        },
    )
}

/// The chunk that stores the `i`-th window of `data`.
pub open spec fn split_chunk(data: Seq<u8>, i: int) -> ChunkModel
    recommends
        0 <= i < chunk_count(data.len()),
{
    ChunkModel {
        id: chunk_id_of(window(data, i)),
        size: window(data, i).len(),
        buffer: pad_to_capacity(window(data, i)),
    }
}

/// The bundle `b` is exactly the fixed-offset split of `data`, labelled
/// with `path`: its id is the digest of the whole content, its size the
/// content's length, and chunk `i` stores window `i`.
pub open spec fn is_split_of(b: BundleModel, data: Seq<u8>, path: Seq<char>) -> bool {
    &&& b.id == hex_lower_of(sha256_of(data))
    &&& b.path == path
    &&& b.size == data.len()
    &&& b.chunks.len() == chunk_count(data.len())
    &&& forall|i: int| 0 <= i < b.chunks.len() ==> b.chunks[i] == split_chunk(data, i)
}

/// The cache contents after persisting `chunks` in order into `m`:
/// each chunk's stored buffer filed under its id, later chunks winning.
pub open spec fn store_all(m: Map<Seq<char>, Seq<u8>>, chunks: Seq<ChunkModel>) -> Map<
    Seq<char>,
    Seq<u8>,
>
    decreases chunks.len(),
{
    if chunks.len() == 0 {
        m
    } else {
        store_all(m, chunks.drop_last()).insert(chunks.last().id, chunks.last().buffer)
    }
}

/// The byte sequence a chunk sequence reassembles to: from each chunk in
/// order, the lesser of the remaining logical size and the chunk's
/// logical size bytes of its buffer.
pub open spec fn rebuild(chunks: Seq<ChunkModel>, size: nat) -> Seq<u8>
    decreases chunks.len(),
{
    if chunks.len() == 0 {
        Seq::empty()
    } else {
        let t = if size < chunks[0].size {
            size
        } else {
            chunks[0].size
        };
        chunks[0].buffer.take(t as int) + rebuild(chunks.skip(1), (size - t) as nat)
    }
}

/// An ordered sequence of chunks representing one logical file.
pub struct Bundle {
    id: String,
    path: String,
    size: usize,
    chunks: Vec<Chunk>,
}

impl View for Bundle {
    type V = BundleModel;

    closed spec fn view(&self) -> BundleModel {
        BundleModel {
            id: self.id@,
            path: self.path@,
            size: self.size as nat,
            chunks: Seq::new(self.chunks@.len(), |i: int| self.chunks@[i]@),
        }
    }
}

/// The chunk count is the ceiling of `len / MAX_CHUNK_SIZE`: the chunks
/// cover all `len` bytes, a shorter sequence would not, and an empty
/// file has no chunks.
pub proof fn lemma_chunk_count_bounds(len: nat)
    ensures
        chunk_count(len) * MAX_CHUNK_SIZE >= len,
        len > 0 ==> (chunk_count(len) - 1) * MAX_CHUNK_SIZE < len,
        len == 0 ==> chunk_count(len) == 0,
{
    let m = MAX_CHUNK_SIZE as int;
    lemma_fundamental_div_mod(len + m - 1, m);
    lemma_mod_division_less_than_divisor(len + m - 1, m);
}

/// Any count that covers `len` with no spare chunk is the chunk count.
proof fn lemma_chunk_count_is(len: nat, q: nat)
    requires
        q * MAX_CHUNK_SIZE >= len,
        q > 0 ==> (q - 1) * MAX_CHUNK_SIZE < len,
    ensures
        q == chunk_count(len),
{
    lemma_chunk_count_bounds(len);
    let c = chunk_count(len);
    if q > c {
        assert((q - 1) * MAX_CHUNK_SIZE >= c * MAX_CHUNK_SIZE) by (nonlinear_arith)
            requires
                q >= c + 1,
        ;
    }
    if q < c {
        assert(q * MAX_CHUNK_SIZE <= (c - 1) * MAX_CHUNK_SIZE) by (nonlinear_arith)
            requires
                q + 1 <= c,
        ;
        assert(len > 0);
    }
}

/// Byte offset where the chunk suffix starting at position `k` of a
/// split of `len` bytes begins, capped at `len`.
spec fn split_pos(len: nat, k: int) -> int {
    if k * (MAX_CHUNK_SIZE as int) <= len {
        k * (MAX_CHUNK_SIZE as int)
    } else {
        len as int
    }
}

/// The chunk sequence covers the split of `data`: one chunk per window,
/// each storing its window zero-padded, with a logical size between the
/// window's length and the full capacity.  Both a freshly split bundle
/// (window-length sizes) and a cache-rehydrated one (full-capacity
/// sizes) cover the split, and either reassembles to `data`.
pub open spec fn covers_split(chunks: Seq<ChunkModel>, data: Seq<u8>) -> bool {
    &&& chunks.len() == chunk_count(data.len())
    &&& forall|i: int|
        0 <= i < chunks.len() ==> (#[trigger] chunks[i]).buffer == pad_to_capacity(
            window(data, i),
        ) && window(data, i).len() <= chunks[i].size <= MAX_CHUNK_SIZE
}

/// Reassembling the chunk suffix from position `k` of a covering chunk
/// sequence yields the corresponding byte suffix of the content.
proof fn lemma_rebuild_split_suffix(chunks: Seq<ChunkModel>, data: Seq<u8>, k: int)
    requires
        covers_split(chunks, data),
        0 <= k <= chunks.len(),
    ensures
        rebuild(chunks.skip(k), (data.len() - split_pos(data.len(), k)) as nat) == data.skip(
            split_pos(data.len(), k),
        ),
    decreases chunks.len() - k,
{
    let m = MAX_CHUNK_SIZE as int;
    let len = data.len();
    let count = chunk_count(len);
    lemma_chunk_count_bounds(len);
    if k == chunks.len() {
        assert(count * m >= len);
        assert(split_pos(len, k) == len) by {
            if k * m <= len {
                assert(k * m == count * m);
            }
        }
        assert(chunks.skip(k) =~= Seq::<ChunkModel>::empty());
        assert(data.skip(len as int) =~= Seq::<u8>::empty());
    } else {
        assert(k * m <= (count - 1) * m < len) by (nonlinear_arith)
            requires
                k <= count - 1,
                m > 0,
                (count - 1) * m < len,
        ;
        let e = if len < (k + 1) * m {
            len as int
        } else {
            (k + 1) * m
        };
        let w = window(data, k);
        let cs = chunks.skip(k);
        assert(cs[0] == chunks[k]);
        assert(chunks[k].buffer == pad_to_capacity(w));
        let size0 = w.len();
        let remaining = (len - k * m) as nat;
        assert(size0 == e - k * m);
        assert(size0 <= remaining);
        let t = if remaining < chunks[k].size {
            remaining as int
        } else {
            chunks[k].size as int
        };
        assert(t == size0) by {
            if e == (k + 1) * m {
                assert(size0 == m);
                assert(chunks[k].size == m);
                assert(remaining >= m);
            } else {
                assert(size0 == remaining);
                assert(chunks[k].size >= size0);
            }
        }
        assert(pad_to_capacity(w).take(size0 as int) =~= w);
        assert(rebuild(cs, remaining) == w + rebuild(cs.skip(1), (remaining - size0) as nat));
        assert(cs.skip(1) =~= chunks.skip(k + 1));
        assert(split_pos(len, k + 1) == e);
        lemma_rebuild_split_suffix(chunks, data, k + 1);
        assert(data.skip(k * m) =~= w + data.skip(e));
        assert(w + rebuild(chunks.skip(k + 1), (len - e) as nat) == w + data.skip(e));
    }
}

/// A covering chunk sequence reassembles to the content exactly.
proof fn lemma_rebuild_covering(chunks: Seq<ChunkModel>, data: Seq<u8>)
    requires
        covers_split(chunks, data),
    ensures
        rebuild(chunks, data.len()) == data,
{
    lemma_rebuild_split_suffix(chunks, data, 0);
    assert(chunks.skip(0) =~= chunks);
    assert(data.skip(0) =~= data);
}

/// Round trip: reassembling a bundle split from `data` yields `data`
/// exactly, whatever its length — empty, a multiple of the chunk size,
/// or anything between.
pub proof fn lemma_round_trip(b: BundleModel, data: Seq<u8>, path: Seq<char>)
    requires
        is_split_of(b, data, path),
    ensures
        rebuild(b.chunks, b.size) == data,
{
    lemma_split_covers(b, data, path);
    lemma_rebuild_covering(b.chunks, data);
}

/// The chunks of a split bundle cover the split of its content.
proof fn lemma_split_covers(b: BundleModel, data: Seq<u8>, path: Seq<char>)
    requires
        is_split_of(b, data, path),
    ensures
        covers_split(b.chunks, data),
{
    let m = MAX_CHUNK_SIZE as int;
    lemma_chunk_count_bounds(data.len());
    assert forall|i: int| 0 <= i < b.chunks.len() implies (#[trigger] b.chunks[i]).buffer
        == pad_to_capacity(window(data, i)) && window(data, i).len() <= b.chunks[i].size
        <= MAX_CHUNK_SIZE by {
        assert(b.chunks[i] == split_chunk(data, i));
        assert(i * m <= (chunk_count(data.len()) - 1) * m < data.len()) by (nonlinear_arith)
            requires
                i <= chunk_count(data.len()) - 1,
                m > 0,
                (chunk_count(data.len()) - 1) * m < data.len(),
        ;
    }
}

/// Determinism: two bundles split from identical content agree on the
/// bundle id, the size, and every chunk — in particular on every chunk
/// id — whatever paths they were labelled with.
pub proof fn lemma_split_deterministic(
    b1: BundleModel,
    b2: BundleModel,
    data: Seq<u8>,
    p1: Seq<char>,
    p2: Seq<char>,
)
    requires
        is_split_of(b1, data, p1),
        is_split_of(b2, data, p2),
    ensures
        b1.id == b2.id,
        b1.size == b2.size,
        b1.chunks == b2.chunks,
{
    assert forall|i: int| 0 <= i < b1.chunks.len() implies b1.chunks[i] == b2.chunks[i] by {
        assert(b1.chunks[i] == split_chunk(data, i));
        assert(b2.chunks[i] == split_chunk(data, i));
    }
    assert(b1.chunks =~= b2.chunks);
}

/// Deduplication: two files sharing an identical full, aligned block
/// yield the identical chunk id for that block, so the two chunks share
/// one entry in any cache both are written to.
pub proof fn lemma_dedup(
    b1: BundleModel,
    data1: Seq<u8>,
    p1: Seq<char>,
    b2: BundleModel,
    data2: Seq<u8>,
    p2: Seq<char>,
    i: int,
    j: int,
)
    requires
        is_split_of(b1, data1, p1),
        is_split_of(b2, data2, p2),
        0 <= i,
        0 <= j,
        (i + 1) * (MAX_CHUNK_SIZE as int) <= data1.len(),
        (j + 1) * (MAX_CHUNK_SIZE as int) <= data2.len(),
        data1.subrange(i * (MAX_CHUNK_SIZE as int), (i + 1) * (MAX_CHUNK_SIZE as int))
            == data2.subrange(j * (MAX_CHUNK_SIZE as int), (j + 1) * (MAX_CHUNK_SIZE as int)),
    ensures
        i < b1.chunks.len(),
        j < b2.chunks.len(),
        b1.chunks[i].id == b2.chunks[j].id,
{
    let m = MAX_CHUNK_SIZE as int;
    lemma_chunk_count_bounds(data1.len());
    lemma_chunk_count_bounds(data2.len());
    assert(i + 1 <= chunk_count(data1.len())) by (nonlinear_arith)
        requires
            m > 0,
            (i + 1) * m <= data1.len(),
            chunk_count(data1.len()) * m >= data1.len(),
    ;
    assert(j + 1 <= chunk_count(data2.len())) by (nonlinear_arith)
        requires
            m > 0,
            (j + 1) * m <= data2.len(),
            chunk_count(data2.len()) * m >= data2.len(),
    ;
    assert(window(data1, i) == data1.subrange(i * m, (i + 1) * m));
    assert(window(data2, j) == data2.subrange(j * m, (j + 1) * m));
    assert(b1.chunks[i] == split_chunk(data1, i));
    assert(b2.chunks[j] == split_chunk(data2, j));
    assert(window(data1, i) == window(data2, j));
}

/// No two chunks of the sequence share an id yet store different bytes:
/// what content addressing is trusted to provide.
pub open spec fn collision_free(chunks: Seq<ChunkModel>) -> bool {
    forall|i: int, j: int|
        0 <= i < chunks.len() && 0 <= j < chunks.len() && chunks[i].id == chunks[j].id
            ==> chunks[i].buffer == chunks[j].buffer
}

/// After persisting a collision-free chunk sequence, each chunk's id is
/// filed with exactly that chunk's stored bytes.
proof fn lemma_store_all_lookup(m0: Map<Seq<char>, Seq<u8>>, chunks: Seq<ChunkModel>, i: int)
    requires
        collision_free(chunks),
        0 <= i < chunks.len(),
    ensures
        store_all(m0, chunks).contains_key(chunks[i].id),
        store_all(m0, chunks)[chunks[i].id] == chunks[i].buffer,
    decreases chunks.len(),
{
    if i < chunks.len() - 1 {
        assert forall|p: int, q: int|
            0 <= p < chunks.drop_last().len() && 0 <= q < chunks.drop_last().len()
                && chunks.drop_last()[p].id == chunks.drop_last()[q].id implies chunks.drop_last()[p].buffer
            == chunks.drop_last()[q].buffer by {
            assert(chunks[p].id == chunks[q].id ==> chunks[p].buffer == chunks[q].buffer);
        }
        lemma_store_all_lookup(m0, chunks.drop_last(), i);
        if chunks[i].id == chunks.last().id {
            assert(chunks[i].buffer == chunks.last().buffer);
        }
    }
}

/// Cache round trip: write a split bundle's chunks into any cache, then
/// rehydrate a bundle from the written ids in order with the original
/// total size — it reassembles to the original content exactly.  The one
/// premise beyond the two operations' own contracts is that the written
/// chunks are collision-free, which content addressing provides.
pub proof fn lemma_cache_round_trip(
    b: BundleModel,
    data: Seq<u8>,
    path: Seq<char>,
    m0: Map<Seq<char>, Seq<u8>>,
    c: CacheModel,
    ids: Seq<Seq<char>>,
    b2: BundleModel,
)
    requires
        is_split_of(b, data, path),
        collision_free(b.chunks),
        c.entries == store_all(m0, b.chunks),
        ids.len() == b.chunks.len(),
        forall|i: int| 0 <= i < ids.len() ==> ids[i] == b.chunks[i].id,
        b2.size == b.size,
        b2.chunks.len() == ids.len(),
        forall|i: int| 0 <= i < ids.len() ==> b2.chunks[i] == loaded_chunk(c, ids[i]),
    ensures
        rebuild(b2.chunks, b2.size) == data,
{
    lemma_split_covers(b, data, path);
    assert forall|i: int| 0 <= i < b2.chunks.len() implies (#[trigger] b2.chunks[i]).buffer
        == pad_to_capacity(window(data, i)) && window(data, i).len() <= b2.chunks[i].size
        <= MAX_CHUNK_SIZE by {
        lemma_store_all_lookup(m0, b.chunks, i);
        assert(c.entries[ids[i]] == b.chunks[i].buffer);
        assert(b.chunks[i].buffer == pad_to_capacity(window(data, i)));
        assert(b.chunks[i].buffer.len() == MAX_CHUNK_SIZE);
        assert(b2.chunks[i].buffer == b.chunks[i].buffer.take(MAX_CHUNK_SIZE as int));
        assert(b.chunks[i].buffer.take(MAX_CHUNK_SIZE as int) =~= b.chunks[i].buffer);
        assert(window(data, i).len() <= b.chunks[i].size);
    }
    lemma_rebuild_covering(b2.chunks, data);
}

/// Splits `data` into its fixed-offset chunks; also returns the total
/// size, the number of bytes consumed, which is the whole of `data`.
pub fn get_chunks(data: &[u8]) -> (r: (Vec<Chunk>, usize))
    ensures
        r.1 == data@.len(),
        r.0@.len() == chunk_count(data@.len()),
        forall|i: int|
            0 <= i < r.0@.len() ==> (#[trigger] r.0@[i])@ == split_chunk(data@, i)
                && r.0@[i].wf(),
{
    let len = data.len();
    let count: usize = if len % MAX_CHUNK_SIZE == 0 {
        len / MAX_CHUNK_SIZE
    } else {
        len / MAX_CHUNK_SIZE + 1
    };
    proof {
        lemma_fundamental_div_mod(len as int, MAX_CHUNK_SIZE as int);
        lemma_mod_division_less_than_divisor(len as int, MAX_CHUNK_SIZE as int);
        lemma_chunk_count_is(len as nat, count as nat);
    }
    let mut chunks: Vec<Chunk> = Vec::new();
    let mut i: usize = 0;
    while i < count
        invariant
            count == chunk_count(data@.len()),
            len == data@.len(),
            i <= count,
            chunks@.len() == i,
            forall|j: int|
                0 <= j < i ==> (#[trigger] chunks@[j])@ == split_chunk(data@, j)
                    && chunks@[j].wf(),
        decreases count - i,
    {
        proof {
            lemma_chunk_count_bounds(len as nat);
            assert(i * MAX_CHUNK_SIZE <= (count - 1) * MAX_CHUNK_SIZE < len) by (nonlinear_arith)
                requires
                    i <= count - 1,
                    (count - 1) * MAX_CHUNK_SIZE < len,
            ;
        }
        let start = i * MAX_CHUNK_SIZE;
        let end = if len - start >= MAX_CHUNK_SIZE {
            start + MAX_CHUNK_SIZE
        } else {
            len
        };
        let mut w: Vec<u8> = Vec::new();
        let mut j: usize = start;
        while j < end
            invariant
                start <= j <= end,
                end <= data@.len(),
                w@ == data@.subrange(start as int, j as int),
            decreases end - j,
        {
            w.push(data[j]);
            proof {
                assert(data@.subrange(start as int, j + 1) =~= data@.subrange(
                    start as int,
                    j as int,
                ).push(data@[j as int]));
            }
            j += 1;
        }
        proof {
            assert(w@ =~= window(data@, i as int));
        }
        let c = Chunk::from_buffer(w.as_slice());
        chunks.push(c);
        i += 1;
    }
    (chunks, len)
}

impl Bundle {
    /// The structural invariant: every owned chunk is well formed.
    pub open spec fn wf(&self) -> bool {
        forall|i: int| 0 <= i < self@.chunks.len() ==> (#[trigger] self@.chunks[i]).wf()
    }

    /// Builds a bundle by splitting `data`, the content read from the
    /// source at `path`: the bundle id digests the whole content, and
    /// each fixed-size window becomes one chunk.
    pub fn from_bytes(path: String, data: &[u8]) -> (b: Bundle)
        ensures
            b.wf(),
            is_split_of(b@, data@, path@),
    {
        let digest = calculate_digest(data);
        let id = hex_encode(digest.as_slice());
        let (chunks, size) = get_chunks(data);
        let b = Bundle { id, path, size, chunks };
        proof {
            assert(forall|i: int|
                0 <= i < b@.chunks.len() ==> b@.chunks[i] == split_chunk(data@, i));
        }
        b
    }

    /// Rehydrates a bundle purely from known chunk ids, loading each
    /// chunk from the cache in order.  Succeeds exactly when every
    /// referenced id has a full-capacity cache entry; a single dangling
    /// reference fails the whole call with `IoError` and yields no
    /// partial bundle.
    pub fn from_ids(ids: &Vec<String>, file_id: String, size: usize, cache: &Cache) -> (r: Result<
        Bundle,
        IoError,
    >)
        requires
            cache.wf(),
        ensures
            match r {
                Ok(b) => {
                    &&& forall|i: int| 0 <= i < ids@.len() ==> chunk_available(cache@, ids@[i]@)
                    &&& b.wf()
                    &&& b@.id == file_id@
                    &&& b@.path == cache@.path
                    &&& b@.size == size
                    &&& b@.chunks.len() == ids@.len()
                    &&& forall|i: int|
                        0 <= i < ids@.len() ==> b@.chunks[i] == loaded_chunk(cache@, ids@[i]@)
                },
                Err(_) => exists|i: int|
                    0 <= i < ids@.len() && !chunk_available(cache@, ids@[i]@),
            },
    {
        let n = ids.len();
        let mut chunks: Vec<Chunk> = Vec::new();
        let mut i: usize = 0;
        while i < n
            invariant
                cache.wf(),
                n == ids@.len(),
                i <= n,
                chunks@.len() == i,
                forall|j: int| 0 <= j < i ==> chunk_available(cache@, ids@[j]@),
                forall|j: int|
                    0 <= j < i ==> (#[trigger] chunks@[j])@ == loaded_chunk(cache@, ids@[j]@)
                        && chunks@[j].wf(),
            decreases n - i,
        {
            match Chunk::from_cache(&ids[i], cache) {
                Ok(c) => {
                    chunks.push(c);
                },
                Err(_) => {
                    proof {
                        assert(!chunk_available(cache@, ids@[i as int]@));
                    }
                    return Err(IoError);
                },
            }
            i += 1;
        }
        Ok(Bundle { id: file_id, path: cache.path().clone(), size, chunks })
    }

    /// Persists every owned chunk into the cache in order; there is no
    /// rollback on partial failure, and re-persisting identical content
    /// is observationally a no-op.
    pub fn write_to_cache(&self, cache: &mut Cache) -> (r: Result<(), IoError>)
        requires
            old(cache).wf(),
        ensures
            final(cache).wf(),
            r is Ok,
            final(cache)@.path == old(cache)@.path,
            final(cache)@.entries == store_all(old(cache)@.entries, self@.chunks),
    {
        let n = self.chunks.len();
        let mut i: usize = 0;
        while i < n
            invariant
                cache.wf(),
                n == self.chunks@.len(),
                i <= n,
                cache@.path == old(cache)@.path,
                cache@.entries == store_all(old(cache)@.entries, self@.chunks.take(i as int)),
            decreases n - i,
        {
            match self.chunks[i].write_to_cache(cache) {
                Ok(()) => {},
                Err(e) => {
                    return Err(e);
                },
            }
            proof {
                assert(self@.chunks.take(i + 1).drop_last() =~= self@.chunks.take(i as int));
                assert(self@.chunks.take(i + 1).last() == self@.chunks[i as int]);
            }
            i += 1;
        }
        proof {
            assert(self@.chunks.take(n as int) =~= self@.chunks);
        }
        Ok(())
    }

    /// Reassembles the original byte sequence: from each chunk in order,
    /// the lesser of the remaining logical size and the chunk's logical
    /// size bytes, so the final (possibly partial) chunk is trimmed to
    /// the exact logical length.
    pub fn to_bytes(&self) -> (r: Vec<u8>)
        requires
            self.wf(),
        ensures
            r@ == rebuild(self@.chunks, self@.size),
    {
        let mut out: Vec<u8> = Vec::new();
        let mut remaining: usize = self.size;
        let n = self.chunks.len();
        let mut i: usize = 0;
        proof {
            assert(self@.chunks.skip(0) =~= self@.chunks);
            assert(Seq::<u8>::empty() + rebuild(self@.chunks, self@.size) =~= rebuild(
                self@.chunks,
                self@.size,
            ));
        }
        while i < n
            invariant
                self.wf(),
                n == self.chunks@.len(),
                i <= n,
                out@ + rebuild(self@.chunks.skip(i as int), remaining as nat) == rebuild(
                    self@.chunks,
                    self@.size,
                ),
            decreases n - i,
        {
            let c = &self.chunks[i];
            let csize = c.size();
            let t = if remaining < csize {
                remaining
            } else {
                csize
            };
            let buf = c.buffer();
            let ghost out0 = out@;
            proof {
                assert(self@.chunks[i as int].wf());
                assert(t <= buf@.len());
            }
            let mut j: usize = 0;
            while j < t
                invariant
                    j <= t,
                    t <= buf@.len(),
                    out@ == out0 + buf@.take(j as int),
                decreases t - j,
            {
                out.push(buf[j]);
                proof {
                    assert(buf@.take(j + 1) =~= buf@.take(j as int).push(buf@[j as int]));
                    assert(out0 + buf@.take(j + 1) =~= (out0 + buf@.take(j as int)).push(
                        buf@[j as int],
                    ));
                }
                j += 1;
            }
            proof {
                let cs = self@.chunks;
                assert(cs.skip(i as int)[0] == cs[i as int]);
                assert(cs.skip(i as int).skip(1) =~= cs.skip(i + 1));
                assert(rebuild(cs.skip(i as int), remaining as nat) == cs[i as int].buffer.take(
                    t as int,
                ) + rebuild(cs.skip(i + 1), (remaining - t) as nat));
                assert(out0 + (cs[i as int].buffer.take(t as int) + rebuild(
                    cs.skip(i + 1),
                    (remaining - t) as nat,
                )) =~= (out0 + cs[i as int].buffer.take(t as int)) + rebuild(
                    cs.skip(i + 1),
                    (remaining - t) as nat,
                ));
            }
            remaining -= t;
            i += 1;
        }
        proof {
            assert(self@.chunks.skip(n as int) =~= Seq::<ChunkModel>::empty());
            assert(out@ + Seq::<u8>::empty() =~= out@);
        }
        out
    }

    /// The bundle's id: the digest naming the whole original content.
    pub fn id(&self) -> (r: &String)
        ensures
            r@ == self@.id,
    {
        &self.id
    }

    /// The source or reference location the bundle was built against.
    pub fn path(&self) -> (r: &String)
        ensures
            r@ == self@.path,
    {
        &self.path
    }

    /// The logical length of the original file, in bytes.
    pub fn size(&self) -> (r: usize)
        ensures
            r == self@.size,
    {
        self.size
    }

    /// The owned chunks, in file order.
    pub fn chunks(&self) -> (r: &Vec<Chunk>)
        ensures
            r@.len() == self@.chunks.len(),
            forall|i: int| 0 <= i < r@.len() ==> (#[trigger] r@[i])@ == self@.chunks[i],
    {
        &self.chunks
    }
}

} // verus!
