use vstd::prelude::*;

verus! {

/// One cache entry: a chunk's stored bytes, filed under the chunk's id.
struct CacheEntry {
    id: String,
    data: Vec<u8>,
}

/// Mathematical model of a [`Cache`].
pub ghost struct CacheModel {
    /// Location of the backing store, carried for callers that rehydrate
    /// bundles from this cache.
    pub path: Seq<char>,
    /// The entries: chunk id to stored bytes.
    pub entries: Map<Seq<char>, Seq<u8>>,
}

/// A content-addressed chunk store: entries are keyed by chunk id, and
/// identical content always lands under one key.  This is the in-memory
/// image of the on-disk cache directory; a front end moves entries
/// between this value and the directory's files.
pub struct Cache {
    path: String,
    entries: Vec<CacheEntry>,
}

/// The map an entry sequence denotes; a later entry for an id wins.
spec fn entries_map(s: Seq<CacheEntry>) -> Map<Seq<char>, Seq<u8>>
    decreases s.len(),
{
    if s.len() == 0 {
        Map::empty()
    } else {
        entries_map(s.drop_last()).insert(s.last().id@, s.last().data@)
    }
}

/// No two entries share an id.
spec fn unique_ids(s: Seq<CacheEntry>) -> bool {
    forall|i: int, j: int| 0 <= i < j < s.len() ==> s[i].id@ != s[j].id@
}

/// A key is in the map exactly when some entry carries it.
proof fn lemma_entries_map_contains(s: Seq<CacheEntry>, k: Seq<char>)
    ensures
        entries_map(s).contains_key(k) <==> exists|i: int| 0 <= i < s.len() && s[i].id@ == k,
    decreases s.len(),
{
    if s.len() > 0 {
        lemma_entries_map_contains(s.drop_last(), k);
        if s.last().id@ == k {
            assert(s[s.len() - 1].id@ == k);
        } else if exists|i: int| 0 <= i < s.len() - 1 && s.drop_last()[i].id@ == k {
            let i = choose|i: int| 0 <= i < s.len() - 1 && s.drop_last()[i].id@ == k;
            assert(s[i].id@ == k);
        } else if exists|i: int| 0 <= i < s.len() && s[i].id@ == k {
            let i = choose|i: int| 0 <= i < s.len() && s[i].id@ == k;
            assert(i < s.len() - 1 ==> s.drop_last()[i].id@ == k);
        }
    }
}

/// With unique ids, the map sends each entry's id to that entry's bytes.
proof fn lemma_entries_map_index(s: Seq<CacheEntry>, i: int)
    requires
        unique_ids(s),
        0 <= i < s.len(),
    ensures
        entries_map(s).contains_key(s[i].id@),
        entries_map(s)[s[i].id@] == s[i].data@,
    decreases s.len(),
{
    if i < s.len() - 1 {
        assert(unique_ids(s.drop_last()));
        assert(s.drop_last()[i] == s[i]);
        lemma_entries_map_index(s.drop_last(), i);
        assert(s[i].id@ != s.last().id@);
    }
}

/// With unique ids, the map has exactly one key per entry.
proof fn lemma_entries_map_dom_len(s: Seq<CacheEntry>)
    requires
        unique_ids(s),
    ensures
        entries_map(s).dom().finite(),
        entries_map(s).dom().len() == s.len(),
    decreases s.len(),
{
    if s.len() > 0 {
        assert(unique_ids(s.drop_last()));
        lemma_entries_map_dom_len(s.drop_last());
        lemma_entries_map_contains(s.drop_last(), s.last().id@);
        assert(forall|i: int| 0 <= i < s.len() - 1 ==> s[i].id@ != s.last().id@);
        assert(!entries_map(s.drop_last()).contains_key(s.last().id@));
    }
}

/// Replacing the entry that carries an id rewrites that id's bytes.
proof fn lemma_entries_map_update(s: Seq<CacheEntry>, i: int, e: CacheEntry)
    requires
        unique_ids(s),
        0 <= i < s.len(),
        s[i].id@ == e.id@,
    ensures
        entries_map(s.update(i, e)) == entries_map(s).insert(e.id@, e.data@),
    decreases s.len(),
{
    let su = s.update(i, e);
    if i == s.len() - 1 {
        assert(su.drop_last() =~= s.drop_last());
        assert(su.last() == e);
        assert(entries_map(su) == entries_map(s.drop_last()).insert(e.id@, e.data@));
        assert(entries_map(s).insert(e.id@, e.data@) =~= entries_map(s.drop_last()).insert(
            e.id@,
            e.data@,
        ));
    } else {
        assert(unique_ids(s.drop_last()));
        assert(s.drop_last()[i] == s[i]);
        lemma_entries_map_update(s.drop_last(), i, e);
        assert(su.drop_last() =~= s.drop_last().update(i, e));
        assert(su.last() == s.last());
        assert(s[i].id@ != s.last().id@);
        assert(entries_map(su) == entries_map(s.drop_last()).insert(e.id@, e.data@).insert(
            s.last().id@,
            s.last().data@,
        ));
        assert(entries_map(s.drop_last()).insert(e.id@, e.data@).insert(
            s.last().id@,
            s.last().data@,
        ) =~= entries_map(s).insert(e.id@, e.data@));
    }
}

impl View for Cache {
    type V = CacheModel;

    closed spec fn view(&self) -> CacheModel {
        CacheModel { path: self.path@, entries: entries_map(self.entries@) }
    }
}

impl Cache {
    /// The structural invariant: no id is filed twice.
    pub closed spec fn wf(&self) -> bool {
        unique_ids(self.entries@)
    }

    /// An empty cache rooted at `path`.
    pub fn new(path: String) -> (c: Cache)
        ensures
            c.wf(),
            c@.path == path@,
            c@.entries == Map::<Seq<char>, Seq<u8>>::empty(),
    {
        Cache { path, entries: Vec::new() }
    }

    /// The location of the backing store.
    pub fn path(&self) -> (r: &String)
        ensures
            r@ == self@.path,
    {
        &self.path
    }

    /// The number of entries: one per distinct id ever inserted.
    pub fn len(&self) -> (r: usize)
        requires
            self.wf(),
        ensures
            r == self@.entries.dom().len(),
    {
        proof {
            lemma_entries_map_dom_len(self.entries@);
        }
        self.entries.len()
    }

    /// The bytes filed under `id`, if any entry carries that id.
    pub fn get(&self, id: &String) -> (r: Option<&Vec<u8>>)
        requires
            self.wf(),
        ensures
            match r {
                Some(data) => self@.entries.contains_key(id@) && data@ == self@.entries[id@],
                None => !self@.entries.contains_key(id@),
            },
    {
        let n = self.entries.len();
        let mut i: usize = 0;
        while i < n
            invariant
                self.wf(),
                n == self.entries@.len(),
                i <= n,
                forall|j: int| 0 <= j < i ==> self.entries@[j].id@ != id@,
            decreases n - i,
        {
            if self.entries[i].id == *id {
                proof {
                    lemma_entries_map_index(self.entries@, i as int);
                }
                return Some(&self.entries[i].data);
            }
            i += 1;
        }
        proof {
            lemma_entries_map_contains(self.entries@, id@);
        }
        None
    }

    /// Files `data` under `id`, creating the entry or replacing the one
    /// that carries this id: the store keeps a single entry per id.
    pub fn insert(&mut self, id: String, data: Vec<u8>)
        requires
            old(self).wf(),
        ensures
            final(self).wf(),
            final(self)@.path == old(self)@.path,
            final(self)@.entries == old(self)@.entries.insert(id@, data@),
    {
        let n = self.entries.len();
        let mut i: usize = 0;
        while i < n
            invariant
                self.wf(),
                *self == *old(self),
                n == self.entries@.len(),
                i <= n,
                forall|j: int| 0 <= j < i ==> self.entries@[j].id@ != id@,
            decreases n - i,
        {
            if self.entries[i].id == id {
                let e = CacheEntry { id, data };
                proof {
                    lemma_entries_map_update(self.entries@, i as int, e);
                }
                self.entries[i] = e;
                assert(unique_ids(self.entries@));
                return ;
            }
            i += 1;
        }
        let e = CacheEntry { id, data };
        self.entries.push(e);
        proof {
            assert(self.entries@.drop_last() =~= old(self).entries@);
            assert(forall|j: int|
                0 <= j < self.entries@.len() - 1 ==> self.entries@[j].id@
                    != self.entries@.last().id@);
        }
    }
}

} // verus!
