use vstd::prelude::*;

use crate::cache::{Cache, CacheModel};
use crate::digestutils::{calculate_digest, hex_encode, hex_lower_of, sha256_of};
use crate::errors::IoError;

verus! {

/// Fixed capacity, in bytes, of every chunk's stored buffer.
pub const MAX_CHUNK_SIZE: usize = 1024;

/// Mathematical model of a [`Chunk`].
pub ghost struct ChunkModel {
    /// Lowercase-hex digest naming the chunk by its stored content.
    pub id: Seq<char>,
    /// Number of semantically valid bytes in the buffer.
    pub size: nat,
    /// The stored content: always exactly `MAX_CHUNK_SIZE` bytes.
    pub buffer: Seq<u8>,
}

impl ChunkModel {
    /// The structural invariant: the buffer fills the fixed capacity and
    /// the logical size never exceeds it.
    pub open spec fn wf(self) -> bool {
        &&& self.buffer.len() == MAX_CHUNK_SIZE
        &&& self.size <= MAX_CHUNK_SIZE
    }
}

/// `content` extended with zero bytes up to the fixed chunk capacity.
pub open spec fn pad_to_capacity(content: Seq<u8>) -> Seq<u8>
    recommends
        content.len() <= MAX_CHUNK_SIZE,
{
    content + Seq::new((MAX_CHUNK_SIZE - content.len()) as nat, |i: int| 0u8)
}

/// The id a chunk with logical content `content` carries: the
/// lowercase-hex SHA-256 digest of the zero-padded stored buffer.
pub open spec fn chunk_id_of(content: Seq<u8>) -> Seq<char>
    recommends
        content.len() <= MAX_CHUNK_SIZE,
{
    hex_lower_of(sha256_of(pad_to_capacity(content)))
}

/// The cache holds a full-capacity entry for `id`: what loading a chunk
/// by id requires.
pub open spec fn chunk_available(c: CacheModel, id: Seq<char>) -> bool {
    c.entries.contains_key(id) && c.entries[id].len() >= MAX_CHUNK_SIZE
}

/// The chunk that loading `id` from the cache yields: the entry's first
/// `MAX_CHUNK_SIZE` bytes, with a logical size of the full capacity.
pub open spec fn loaded_chunk(c: CacheModel, id: Seq<char>) -> ChunkModel
    recommends
        chunk_available(c, id),
{
    ChunkModel {
        id: id,
        size: MAX_CHUNK_SIZE as nat,
        buffer: c.entries[id].take(MAX_CHUNK_SIZE as int),
    }
}

/// One fixed-capacity block of a logical file, named by the digest of its
/// stored content.  Immutable after creation; owned by its `Bundle`.
pub struct Chunk {
    id: String,
    size: usize,
    buffer: Vec<u8>,
}

impl View for Chunk {
    type V = ChunkModel;

    closed spec fn view(&self) -> ChunkModel {
        ChunkModel { id: self.id@, size: self.size as nat, buffer: self.buffer@ }
    }
}

impl Chunk {
    /// The structural invariant, lifted from the model.
    pub open spec fn wf(self) -> bool {
        self@.wf()
    }

    /// Builds a chunk from raw content of at most `MAX_CHUNK_SIZE` bytes:
    /// the content is stored zero-padded to the fixed capacity, the id is
    /// the lowercase-hex digest of that stored buffer, and the logical
    /// size is the content's length.
    pub fn from_buffer(buffer: &[u8]) -> (c: Chunk)
        requires
            buffer@.len() <= MAX_CHUNK_SIZE,
        ensures
            c.wf(),
            c@.size == buffer@.len(),
            c@.buffer == pad_to_capacity(buffer@),
            c@.id == chunk_id_of(buffer@),
    {
        let mut inner: Vec<u8> = Vec::new();
        let mut i: usize = 0;
        while i < buffer.len()
            invariant
                i <= buffer@.len() <= MAX_CHUNK_SIZE,
                inner@ == buffer@.take(i as int),
            decreases buffer@.len() - i,
        {
            inner.push(buffer[i]);
            proof {
                assert(buffer@.take(i + 1) =~= buffer@.take(i as int).push(buffer@[i as int]));
            }
            i += 1;
        }
        proof {
            assert(inner@ =~= buffer@);
        }
        while inner.len() < MAX_CHUNK_SIZE
            invariant
                buffer@.len() <= inner@.len() <= MAX_CHUNK_SIZE,
                inner@ == buffer@ + Seq::new((inner@.len() - buffer@.len()) as nat, |j: int| 0u8),
            decreases MAX_CHUNK_SIZE - inner@.len(),
        {
            inner.push(0u8);
            proof {
                assert(inner@ =~= buffer@ + Seq::new(
                    (inner@.len() - buffer@.len()) as nat,
                    |j: int| 0u8,
                ));
            }
        }
        proof {
            assert(inner@ =~= pad_to_capacity(buffer@));
        }
        let digest = calculate_digest(inner.as_slice());
        let id = hex_encode(digest.as_slice());
        Chunk { id, size: buffer.len(), buffer: inner }
    }

    /// Loads the chunk named `id` from the cache.  Succeeds exactly when
    /// the cache holds an entry for `id` of at least the fixed capacity;
    /// the chunk then carries the entry's first `MAX_CHUNK_SIZE` bytes and
    /// a logical size of the full capacity (the per-chunk trim length is
    /// owned by the bundle's total size, not by the chunk).
    pub fn from_cache(id: &String, cache: &Cache) -> (r: Result<Chunk, IoError>)
        requires
            cache.wf(),
        ensures
            match r {
                Ok(c) => chunk_available(cache@, id@) && c.wf() && c@ == loaded_chunk(
                    cache@,
                    id@,
                ),
                Err(_) => !chunk_available(cache@, id@),
            },
    {
        match cache.get(id) {
            None => Err(IoError),
            Some(data) => {
                if data.len() < MAX_CHUNK_SIZE {
                    Err(IoError)
                } else {
                    let mut inner: Vec<u8> = Vec::new();
                    let mut i: usize = 0;
                    while i < MAX_CHUNK_SIZE
                        invariant
                            i <= MAX_CHUNK_SIZE <= data@.len(),
                            inner@ == data@.take(i as int),
                        decreases MAX_CHUNK_SIZE - i,
                    {
                        inner.push(data[i]);
                        proof {
                            assert(data@.take(i + 1) =~= data@.take(i as int).push(
                                data@[i as int],
                            ));
                        }
                        i += 1;
                    }
                    Ok(Chunk { id: id.clone(), size: MAX_CHUNK_SIZE, buffer: inner })
                }
            },
        }
    }

    /// The chunk's content-derived name.
    pub fn id(&self) -> (r: &String)
        ensures
            r@ == self@.id,
    {
        &self.id
    }

    /// The chunk's logical size: the number of semantically valid bytes.
    pub fn size(&self) -> (r: usize)
        ensures
            r == self@.size,
    {
        self.size
    }

    /// The chunk's stored, zero-padded buffer.
    pub fn buffer(&self) -> (r: &Vec<u8>)
        ensures
            r@ == self@.buffer,
    {
        &self.buffer
    }

    /// Persists the chunk into the cache under its id, creating or
    /// replacing the entry.  Rewriting identical content under the same id
    /// leaves the cache unchanged: this is the deduplication mechanism.
    pub fn write_to_cache(&self, cache: &mut Cache) -> (r: Result<(), IoError>)
        requires
            old(cache).wf(),
        ensures
            final(cache).wf(),
            r is Ok,
            final(cache)@.path == old(cache)@.path,
            final(cache)@.entries == old(cache)@.entries.insert(self@.id, self@.buffer),
    {
        let mut data: Vec<u8> = Vec::new();
        let mut i: usize = 0;
        while i < self.buffer.len()
            invariant
                i <= self.buffer@.len(),
                data@ == self.buffer@.take(i as int),
            decreases self.buffer@.len() - i,
        {
            data.push(self.buffer[i]);
            proof {
                assert(self.buffer@.take(i + 1) =~= self.buffer@.take(i as int).push(
                    self.buffer@[i as int],
                ));
            }
            i += 1;
        }
        proof {
            assert(data@ =~= self.buffer@);
        }
        cache.insert(self.id.clone(), data);
        Ok(())
    }
}

} // verus!
