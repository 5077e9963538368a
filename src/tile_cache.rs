use vstd::prelude::*;

use crate::framebuffer::Framebuffer;

verus! {

/// A rendered tile, the content identity it was rendered for, and when it was
/// last asked for.
pub struct CacheEntry {
    pub id: u64,
    pub time: u64,
    pub tile: Framebuffer,
}

pub open spec fn ids_distinct(s: Seq<CacheEntry>) -> bool {
    forall|i: int, j: int| 0 <= i < s.len() && 0 <= j < s.len() && i != j ==> s[i].id != s[j].id
}

/// The entries seen as a map from content identity to entry.
pub open spec fn entry_map(s: Seq<CacheEntry>) -> Map<u64, CacheEntry> {
    Map::new(
        |id: u64| exists|i: int| 0 <= i < s.len() && s[i].id == id,
        |id: u64| s[choose|i: int| 0 <= i < s.len() && s[i].id == id],
    )
}

proof fn lemma_entry_lookup(s: Seq<CacheEntry>, k: int)
    requires
        ids_distinct(s),
        0 <= k < s.len(),
    ensures
        entry_map(s).contains_key(s[k].id),
        entry_map(s)[s[k].id] == s[k],
{
    let id = s[k].id;
    assert(exists|i: int| 0 <= i < s.len() && s[i].id == id);
    let i = choose|i: int| 0 <= i < s.len() && s[i].id == id;
    assert(i == k);
}

proof fn lemma_entry_push(s: Seq<CacheEntry>, e: CacheEntry)
    requires
        ids_distinct(s),
        !entry_map(s).contains_key(e.id),
    ensures
        ids_distinct(s.push(e)),
        entry_map(s.push(e)) == entry_map(s).insert(e.id, e),
{
    let t = s.push(e);
    assert forall|i: int| 0 <= i < s.len() implies s[i].id != e.id by {
        if s[i].id == e.id {
            assert(entry_map(s).contains_key(e.id));
        }
    }
    assert(ids_distinct(t));
    assert forall|id: u64| #[trigger] entry_map(t).contains_key(id) <==> entry_map(s).insert(e.id, e).contains_key(id) by {
        if entry_map(s).contains_key(id) {
            let i = choose|i: int| 0 <= i < s.len() && s[i].id == id;
            assert(t[i].id == id);
        }
        if entry_map(t).contains_key(id) && id != e.id {
            let i = choose|i: int| 0 <= i < t.len() && t[i].id == id;
            assert(s[i].id == id);
        }
        if id == e.id {
            assert(t[s.len() as int].id == id);
        }
    }
    assert forall|id: u64| #[trigger] entry_map(t).contains_key(id) implies entry_map(t)[id] == entry_map(s).insert(e.id, e)[id] by {
        let i = choose|i: int| 0 <= i < t.len() && t[i].id == id;
        lemma_entry_lookup(t, i);
        if i < s.len() {
            lemma_entry_lookup(s, i);
        }
    }
    assert(entry_map(t) =~= entry_map(s).insert(e.id, e));
}

proof fn lemma_entry_remove(s: Seq<CacheEntry>, k: int)
    requires
        ids_distinct(s),
        0 <= k < s.len(),
    ensures
        ids_distinct(s.remove(k)),
        entry_map(s.remove(k)) == entry_map(s).remove(s[k].id),
{
    let t = s.remove(k);
    let rid = s[k].id;
    assert forall|i: int, j: int| 0 <= i < t.len() && 0 <= j < t.len() && i != j implies t[i].id != t[j].id by {
        let si = if i < k { i } else { i + 1 };
        let sj = if j < k { j } else { j + 1 };
        assert(t[i] == s[si] && t[j] == s[sj]);
    }
    assert forall|id: u64| #[trigger] entry_map(t).contains_key(id) <==> entry_map(s).remove(rid).contains_key(id) by {
        if entry_map(s).contains_key(id) && id != rid {
            let i = choose|i: int| 0 <= i < s.len() && s[i].id == id;
            if i < k {
                assert(t[i].id == id);
            } else {
                assert(i != k);
                assert(t[i - 1].id == id);
            }
        }
        if entry_map(t).contains_key(id) {
            let i = choose|i: int| 0 <= i < t.len() && t[i].id == id;
            let si = if i < k { i } else { i + 1 };
            assert(s[si].id == id);
            assert(si != k);
        }
    }
    assert forall|id: u64| #[trigger] entry_map(t).contains_key(id) implies entry_map(t)[id] == entry_map(s).remove(rid)[id] by {
        let i = choose|i: int| 0 <= i < t.len() && t[i].id == id;
        let si = if i < k { i } else { i + 1 };
        lemma_entry_lookup(t, i);
        lemma_entry_lookup(s, si);
    }
    assert(entry_map(t) =~= entry_map(s).remove(rid));
}

/// A content-addressed store of rendered tiles: at most one tile per content
/// identity.
pub struct TileCache {
    entries: Vec<CacheEntry>,
}

impl TileCache {
    /// The stored entries, by content identity.
    pub closed spec fn view(&self) -> Map<u64, CacheEntry> {
        entry_map(self.entries@)
    }

    pub closed spec fn wf(&self) -> bool {
        &&& ids_distinct(self.entries@)
        &&& forall|i: int| 0 <= i < self.entries@.len() ==> (#[trigger] self.entries@[i]).tile.wf()
    }

    /// Number of stored tiles.
    pub closed spec fn count(&self) -> nat {
        self.entries@.len()
    }

    pub fn new() -> (c: TileCache)
        ensures
            c.wf(),
            c@ == Map::<u64, CacheEntry>::empty(),
            c.count() == 0,
    {
        let c = TileCache { entries: Vec::new() };
        assert(c@ =~= Map::<u64, CacheEntry>::empty());
        c
    }

    pub fn len(&self) -> (n: usize)
        ensures
            n == self.count(),
    {
        self.entries.len()
    }

    fn find(&self, id: u64) -> (r: Option<usize>)
        requires
            self.wf(),
        ensures
            r matches Some(k) ==> k < self.entries@.len() && self.entries@[k as int].id == id,
            r is None ==> !self@.contains_key(id),
    {
        let n = self.entries.len();
        let mut k: usize = 0;
        while k < n
            invariant
                n == self.entries@.len(),
                k <= n,
                forall|i: int| 0 <= i < k ==> self.entries@[i].id != id,
            decreases n - k,
        {
            if self.entries[k].id == id {
                return Some(k);
            }
            k = k + 1;
        }
        None
    }

    /// Whether a tile is stored for content identity `id`.
    pub fn contains(&self, id: u64) -> (r: bool)
        requires
            self.wf(),
        ensures
            r == self@.contains_key(id),
    {
        match self.find(id) {
            Some(k) => {
                proof {
                    lemma_entry_lookup(self.entries@, k as int);
                }
                true
            },
            None => false,
        }
    }

    /// The tile stored for `id`, rendering it with `compute` first when there
    /// is none. A hit only refreshes the entry's access time; a miss stores
    /// the new tile. Either way the entry's access time becomes `time`.
    pub fn fetch_or_create<F: FnOnce() -> Framebuffer>(&mut self, id: u64, time: u64, compute: F) -> (r: &Framebuffer)
        requires
            old(self).wf(),
            compute.requires(()),
            forall|t: Framebuffer| compute.ensures((), t) ==> t.wf(),
        ensures
            final(self).wf(),
            r.wf(),
            final(self)@.contains_key(id),
            *r == final(self)@[id].tile,
            final(self)@[id].time == time,
            old(self)@.contains_key(id) ==> fetch_hit(old(self)@, final(self)@, id, time),
            !old(self)@.contains_key(id) ==> compute.ensures((), *r) && final(self)@ == old(self)@.insert(
                id,
                CacheEntry { id, time, tile: *r },
            ),
    {
        match self.find(id) {
            Some(k) => {
                let ghost before = self.entries@;
                proof {
                    lemma_entry_lookup(before, k as int);
                }
                let mut e = self.entries.remove(k);
                e.time = time;
                self.entries.insert(k, e);
                proof {
                    assert(self.entries@ =~= before.update(k as int, self.entries@[k as int]));
                    assert(ids_distinct(self.entries@));
                    lemma_entry_lookup(self.entries@, k as int);
                    assert forall|j: u64| #[trigger] self@.contains_key(j) <==> old(self)@.contains_key(j) by {
                        if old(self)@.contains_key(j) {
                            let i = choose|i: int| 0 <= i < before.len() && before[i].id == j;
                            assert(self.entries@[i].id == j);
                        }
                        if self@.contains_key(j) {
                            let i = choose|i: int| 0 <= i < self.entries@.len() && self.entries@[i].id == j;
                            assert(before[i].id == j);
                        }
                    }
                    assert(self@.dom() =~= old(self)@.dom());
                    assert forall|j: u64| #[trigger] self@.contains_key(j) && j != id implies self@[j] == old(self)@[j] by {
                        let i = choose|i: int| 0 <= i < self.entries@.len() && self.entries@[i].id == j;
                        lemma_entry_lookup(self.entries@, i);
                        lemma_entry_lookup(before, i);
                    }
                }
                &self.entries[k].tile
            },
            None => {
                let tile = compute();
                let ghost before = self.entries@;
                self.entries.push(CacheEntry { id, time, tile });
                proof {
                    lemma_entry_push(before, self.entries@.last());
                    lemma_entry_lookup(self.entries@, before.len() as int);
                }
                let last = self.entries.len() - 1;
                &self.entries[last].tile
            },
        }
    }

    /// Drops the least recently used tiles until at most `max_tiles` remain.
    /// The tiles kept are unchanged, and none of them was used less recently
    /// than a tile dropped.
    pub fn evict(&mut self, max_tiles: usize)
        requires
            old(self).wf(),
        ensures
            final(self).wf(),
            final(self).count() == if old(self).count() <= max_tiles { old(self).count() } else { max_tiles as nat },
            forall|id: u64| #[trigger] final(self)@.contains_key(id) ==> old(self)@.contains_key(id)
                && final(self)@[id] == old(self)@[id],
            forall|a: u64, b: u64|
                #![trigger old(self)@.contains_key(a), final(self)@.contains_key(b)]
                old(self)@.contains_key(a) && !final(self)@.contains_key(a) && final(self)@.contains_key(b)
                    ==> old(self)@[a].time <= final(self)@[b].time,
    {
        while self.entries.len() > max_tiles
            invariant
                self.wf(),
                old(self).count() >= self.count(),
                old(self).count() > max_tiles ==> self.count() >= max_tiles,
                old(self).count() <= max_tiles ==> self.count() == old(self).count(),
                forall|id: u64| #[trigger] self@.contains_key(id) ==> old(self)@.contains_key(id) && self@[id]
                    == old(self)@[id],
                forall|a: u64, b: u64|
                    #![trigger old(self)@.contains_key(a), self@.contains_key(b)]
                    old(self)@.contains_key(a) && !self@.contains_key(a) && self@.contains_key(b)
                        ==> old(self)@[a].time <= self@[b].time,
            decreases self.entries@.len(),
        {
            let n = self.entries.len();
            let mut m: usize = 0;
            let mut k: usize = 1;
            while k < n
                invariant
                    n == self.entries@.len(),
                    m < n,
                    1 <= k <= n,
                    forall|i: int| 0 <= i < k ==> self.entries@[m as int].time <= self.entries@[i].time,
                decreases n - k,
            {
                if self.entries[k].time < self.entries[m].time {
                    m = k;
                }
                k = k + 1;
            }
            let ghost before = self.entries@;
            let ghost bmap = self@;
            proof {
                lemma_entry_remove(before, m as int);
                lemma_entry_lookup(before, m as int);
            }
            self.entries.remove(m);
            proof {
                let rid = before[m as int].id;
                assert forall|a: u64, b: u64|
                    #![trigger old(self)@.contains_key(a), self@.contains_key(b)]
                    old(self)@.contains_key(a) && !self@.contains_key(a) && self@.contains_key(b)
                    implies old(self)@[a].time <= self@[b].time by {
                    assert(bmap.contains_key(b));
                    let i = choose|i: int| 0 <= i < before.len() && before[i].id == b;
                    lemma_entry_lookup(before, i);
                    if a == rid {
                        assert(old(self)@[a] == bmap[a]);
                    }
                }
            }
        }
    }
}

/// What a hit leaves: the same tiles, only the entry's access time refreshed.
pub open spec fn fetch_hit(old: Map<u64, CacheEntry>, new: Map<u64, CacheEntry>, id: u64, time: u64) -> bool {
    &&& new.dom() == old.dom()
    &&& new[id].tile == old[id].tile
    &&& new[id].time == time
    &&& forall|j: u64| #[trigger] new.contains_key(j) && j != id ==> new[j] == old[j]
}

/// Fetching a tile again, with no eviction in between, is a hit: the same tile
/// comes back, no tile is rendered, and the stored tiles do not change.
pub proof fn lemma_fetch_twice(c1: Map<u64, CacheEntry>, c2: Map<u64, CacheEntry>, id: u64, t2: u64, first: Framebuffer, second: Framebuffer)
    requires
        c1.contains_key(id),
        first == c1[id].tile,
        c1.contains_key(id) ==> fetch_hit(c1, c2, id, t2),
        second == c2[id].tile,
    ensures
        second == first,
        c2.dom() == c1.dom(),
        forall|j: u64| #[trigger] c2.contains_key(j) ==> c2[j].tile == c1[j].tile,
{
}

} // verus!
