//! A bounded cache of pages over a page store, with dirty tracking and
//! least-recently-used eviction.
use vstd::prelude::*;
use std::collections::HashMap;
use vstd::std_specs::iter::IteratorSpec;
use crate::buffer::error::BufferError;
use crate::buffer::page_store::PageStore;
use crate::ids::PageId;
use crate::page::{fresh_image, lemma_sealed_idempotent, sealed_image, Page, PageKind};

verus! {

broadcast use vstd::std_specs::hash::group_hash_axioms;

/// One cached page.
struct Frame {
    page: Page,
    dirty: bool,
    last_used: u64,
}

/// Caches database pages, tracks dirty state, and evicts the least recently
/// used frame when capacity is reached.
pub struct BufferPool<S: PageStore> {
    store: S,
    capacity: usize,
    frames: HashMap<u64, Frame>,
    clock: u64,
}

impl<S: PageStore> BufferPool<S> {
    /// The page images held by the underlying store.
    pub closed spec fn stored(&self) -> Seq<Seq<u8>> {
        self.store.stored()
    }

    /// The logical content of every page, in sealed form: the cached frame if
    /// the page is cached, else the stored image. Sealing (format version and
    /// checksum) is normalized away, since the store seals every page it
    /// writes.
    pub closed spec fn content(&self) -> Map<u64, Seq<u8>> {
        Map::new(
            |id: u64| id < self.store.stored().len(),
            |id: u64|
                if self.frames@.contains_key(id) {
                    sealed_image(self.frames@[id].page@)
                } else {
                    sealed_image(self.store.stored()[id as int])
                },
        )
    }

    /// The pages with content are exactly the stored pages.
    pub proof fn lemma_content_dom(&self)
        ensures
            forall|id: u64| #[trigger] self.content().contains_key(id) <==> id < self.stored().len(),
    {
    }

    /// Page `id` is held in the cache, so that reading or writing it does
    /// not reach the store.
    pub closed spec fn cached(&self, id: u64) -> bool {
        self.frames@.contains_key(id)
    }

    /// No cached page has changes that the store does not hold yet.
    pub closed spec fn all_clean(&self) -> bool {
        forall|id: u64| #[trigger] self.frames@.contains_key(id) ==> !self.frames@[id].dirty
    }

    /// The store holds the content: every page image in the store seals to
    /// the page's content.
    pub closed spec fn persisted(&self) -> bool {
        forall|id: u64| id < self.store.stored().len() ==> #[trigger] self.content()[id] == sealed_image(self.store.stored()[id as int])
    }

    /// Cached frames are well-formed pages of their own number, within the
    /// store and the capacity, and clean frames agree with the store.
    pub closed spec fn inv(&self) -> bool {
        &&& self.capacity >= 1
        &&& self.frames@.dom().len() <= self.capacity
        &&& forall|id: u64| #[trigger] self.frames@.contains_key(id) ==> {
            &&& id < self.store.stored().len()
            &&& self.frames@[id].page.wf()
            &&& self.frames@[id].page.page_id().0 == id
            &&& !self.frames@[id].dirty ==> sealed_image(self.frames@[id].page@) == sealed_image(self.store.stored()[id as int])
        }
    }

    /// Creates a pool over `store` holding at most `capacity` pages (at least
    /// one: a zero capacity is raised to one).
    pub fn new(store: S, capacity: usize) -> (r: Self)
        ensures
            r.inv(),
            r.stored() == store.stored(),
            r.content() == Map::new(|id: u64| id < store.stored().len(), |id: u64| sealed_image(store.stored()[id as int])),
    {
        let capacity = if capacity >= 1 { capacity } else { 1 };
        let r = Self { store, capacity, frames: HashMap::new(), clock: 0 };
        proof {
            assert(r.content() =~= Map::new(|id: u64| id < store.stored().len(), |id: u64| sealed_image(store.stored()[id as int])));
        }
        r
    }

    /// Returns the number of complete pages in the backing store.
    pub fn page_count(&self) -> (r: Result<u64, BufferError>)
        ensures
            r matches Ok(n) ==> n == self.stored().len(),
    {
        self.store.page_count()
    }

    /// Allocates and caches a new initialized page.
    pub fn allocate_page(&mut self, kind: PageKind) -> (r: Result<PageId, BufferError>)
        requires
            old(self).inv(),
        ensures
            final(self).inv(),
            r matches Ok(id) ==> {
                &&& id.0 == old(self).stored().len()
                &&& final(self).stored().len() == old(self).stored().len() + 1
                &&& final(self).content() == old(self).content().insert(id.0, sealed_image(fresh_image(kind)))
                &&& final(self).cached(id.0)
            },
    {
        let res = self.store.allocate_page(kind);
        proof {
            assert forall|k: u64| #[trigger] self.frames@.contains_key(k) implies
                self.store.stored()[k as int] == old(self).store.stored()[k as int] by {}
        }
        let page = match res {
            Ok(p) => p,
            Err(e) => return Err(e),
        };
        let id = page.id();
        proof {
            lemma_sealed_idempotent(fresh_image(kind));
        }
        let ghost mid = self.content();
        proof {
            assert(!self.frames@.contains_key(id.0));
            assert(mid[id.0] == sealed_image(fresh_image(kind)));
        }
        self.ensure_capacity()?;
        proof {
            assert(!self.frames@.contains_key(id.0));
            assert(self.content()[id.0] == sealed_image(self.store.stored()[id.0 as int]));
        }
        self.clock = self.clock.wrapping_add(1);
        let used = self.clock;
        self.frames.insert(id.0, Frame { page, dirty: false, last_used: used });
        proof {
            assert(self.content() =~= mid);
            assert(mid =~= old(self).content().insert(id.0, sealed_image(fresh_image(kind))));
        }
        Ok(id)
    }

    /// Returns a copy of the page `page_id`, loading it into the cache.
    pub fn read(&mut self, page_id: PageId) -> (r: Result<Page, BufferError>)
        requires
            old(self).inv(),
        ensures
            final(self).inv(),
            r matches Ok(p) ==> {
                &&& p.wf()
                &&& p.page_id() == page_id
                &&& old(self).content().contains_key(page_id.0)
                &&& sealed_image(p@) == old(self).content()[page_id.0]
                &&& final(self).content() == old(self).content()
                &&& final(self).stored().len() == old(self).stored().len()
                &&& final(self).cached(page_id.0)
            },
            old(self).cached(page_id.0) ==> r is Ok && forall|id: u64| #[trigger] final(self).cached(id) == old(self).cached(id),
    {
        self.load_locked(page_id)?;
        let page = self.touch(page_id.0);
        Ok(page)
    }

    /// Replaces the cached content of `page.id` by `page` and marks it dirty.
    pub fn write(&mut self, page: Page) -> (r: Result<(), BufferError>)
        requires
            old(self).inv(),
            page.wf(),
        ensures
            final(self).inv(),
            r matches Ok(()) ==> {
                &&& old(self).content().contains_key(page.page_id().0)
                &&& final(self).content() == old(self).content().insert(page.page_id().0, sealed_image(page@))
                &&& final(self).stored().len() == old(self).stored().len()
                &&& final(self).cached(page.page_id().0)
            },
            old(self).cached(page.page_id().0) ==> r is Ok && forall|id: u64| #[trigger] final(self).cached(id) == old(self).cached(id),
    {
        let id = page.id();
        self.load_locked(id)?;
        let ghost mid = self.content();
        self.clock = self.clock.wrapping_add(1);
        let used = self.clock;
        self.frames.insert(id.0, Frame { page, dirty: true, last_used: used });
        proof {
            assert(self.content() =~= mid.insert(id.0, sealed_image(page@)));
        }
        Ok(())
    }

    /// Writes all dirty cached pages and synchronizes the backing store.
    pub fn flush_all(&mut self) -> (r: Result<(), BufferError>)
        requires
            old(self).inv(),
        ensures
            final(self).inv(),
            r matches Ok(()) ==> final(self).content() == old(self).content()
                && final(self).stored().len() == old(self).stored().len()
                && final(self).all_clean()
                && final(self).persisted(),
    {
        let ids = self.cached_ids();
        let ghost c0 = self.content();
        let ghost n0 = self.store.stored().len();
        let ghost d0 = self.frames@.dom();
        let mut i: usize = 0;
        while i < ids.len()
            invariant
                self.inv(),
                i <= ids@.len(),
                self.content() == c0,
                self.store.stored().len() == n0,
                self.frames@.dom() == d0,
                forall|k: u64| #[trigger] d0.contains(k) <==> ids@.contains(k),
                forall|j: int| 0 <= j < i ==> !self.frames@[#[trigger] ids@[j]].dirty,
            decreases ids@.len() - i,
        {
            let id = ids[i];
            let dirty = match self.frames.get(&id) {
                Some(f) => f.dirty,
                None => false,
            };
            if dirty {
                let frame = match self.frames.remove(&id) {
                    Some(f) => f,
                    None => {
                        i = i + 1;
                        continue;
                    },
                };
                let ghost before = self.store.stored();
                let res = self.store.write_page(&frame.page);
                match res {
                    Ok(()) => {
                        proof {
                            lemma_sealed_idempotent(frame.page@);
                        }
                        self.frames.insert(id, Frame { page: frame.page, dirty: false, last_used: frame.last_used });
                        proof {
                            assert(self.content() =~= c0);
                        }
                    },
                    Err(e) => {
                        self.frames.insert(id, frame);
                        return Err(e);
                    },
                }
            }
            i = i + 1;
        }
        proof {
            assert forall|k: u64| #[trigger] self.frames@.contains_key(k) implies !self.frames@[k].dirty by {
                assert(ids@.contains(k));
                let j = choose|j: int| 0 <= j < ids@.len() && ids@[j] == k;
            }
        }
        let r = self.store.sync();
        proof {
            assert forall|id: u64| id < self.store.stored().len() implies #[trigger] self.content()[id] == sealed_image(self.store.stored()[id as int]) by {
                if self.frames@.contains_key(id) {
                    assert(!self.frames@[id].dirty);
                }
            }
        }
        r
    }

    /// The numbers of the cached pages.
    fn cached_ids(&self) -> (r: Vec<u64>)
        ensures
            forall|k: u64| #[trigger] self.frames@.contains_key(k) <==> r@.contains(k),
            r@.no_duplicates(),
    {
        let mut out: Vec<u64> = Vec::new();
        let ghost items = vstd::std_specs::hash::spec_hash_map_iter(&self.frames).remaining();
        for (id, _f) in it: self.frames.iter()
            invariant
                it.seq() == items,
                items.no_duplicates(),
                out@.len() == it.index(),
                forall|j: int| 0 <= j < it.index() ==> out@[j] == *(#[trigger] items[j]).0,
        {
            out.push(*id);
        }
        proof {
            assert forall|k: u64| #[trigger] self.frames@.contains_key(k) implies out@.contains(k) by {
                assert(items.contains((&k, &self.frames@[k])));
                let j = choose|j: int| 0 <= j < items.len() && items[j] == (&k, &self.frames@[k]);
                assert(out@[j] == k);
            }
            assert forall|k: u64| out@.contains(k) implies #[trigger] self.frames@.contains_key(k) by {
                let j = choose|j: int| 0 <= j < out@.len() && out@[j] == k;
                assert(out@[j] == *items[j].0);
            }
            assert forall|a: int, b: int| 0 <= a < out@.len() && 0 <= b < out@.len() && a != b implies out@[a] != out@[b] by {
                if out@[a] == out@[b] {
                    assert(self.frames@.contains_key(*items[a].0) && self.frames@[*items[a].0] == *items[a].1);
                    assert(self.frames@.contains_key(*items[b].0) && self.frames@[*items[b].0] == *items[b].1);
                    assert(items[a] == items[b]);
                }
            }
        }
        out
    }

    /// Marks the cached page as just used and returns a copy of it.
    fn touch(&mut self, id: u64) -> (r: Page)
        requires
            old(self).inv(),
            old(self).frames@.contains_key(id),
        ensures
            final(self).inv(),
            final(self).content() == old(self).content(),
            final(self).stored() == old(self).stored(),
            final(self).frames@.contains_key(id),
            final(self).frames@.dom() == old(self).frames@.dom(),
            r.wf(),
            r.page_id().0 == id,
            r@ == old(self).frames@[id].page@,
    {
        self.clock = self.clock.wrapping_add(1);
        let used = self.clock;
        let frame = self.frames.remove(&id).unwrap();
        let copy = frame.page.clone();
        self.frames.insert(id, Frame { page: frame.page, dirty: frame.dirty, last_used: used });
        proof {
            assert(self.content() =~= old(self).content());
        }
        copy
    }

    /// Ensures `page_id` is cached, reading it from the store if needed.
    fn load_locked(&mut self, page_id: PageId) -> (r: Result<(), BufferError>)
        requires
            old(self).inv(),
        ensures
            final(self).inv(),
            r matches Ok(()) ==> {
                &&& final(self).frames@.contains_key(page_id.0)
                &&& final(self).content() == old(self).content()
                &&& final(self).stored().len() == old(self).stored().len()
            },
            old(self).frames@.contains_key(page_id.0) ==> r is Ok && final(self).frames == old(self).frames,
    {
        if self.frames.contains_key(&page_id.0) {
            return Ok(());
        }
        self.ensure_capacity()?;
        let page = self.store.read_page(page_id)?;
        let ghost mid = self.content();
        self.clock = self.clock.wrapping_add(1);
        let used = self.clock;
        self.frames.insert(page_id.0, Frame { page, dirty: false, last_used: used });
        proof {
            assert(self.content() =~= mid);
        }
        Ok(())
    }

    /// Makes room for one more frame by evicting the least recently used one,
    /// writing it back if it is dirty.
    fn ensure_capacity(&mut self) -> (r: Result<(), BufferError>)
        requires
            old(self).inv(),
        ensures
            final(self).inv(),
            forall|id: u64| #[trigger] final(self).frames@.contains_key(id) ==> old(self).frames@.contains_key(id),
            r matches Ok(()) ==> {
                &&& final(self).frames@.dom().len() < final(self).capacity
                &&& final(self).content() == old(self).content()
                &&& final(self).stored().len() == old(self).stored().len()
            },
            old(self).frames@.dom().len() < old(self).capacity ==> r is Ok && final(self).frames == old(self).frames,
            old(self).all_clean() ==> r is Ok,
    {
        if self.frames.len() < self.capacity {
            return Ok(());
        }
        let victim = match choose_victim(&self.frames) {
            Some(v) => v,
            None => return Err(BufferError::NoEvictableFrame),
        };
        let frame = match self.frames.remove(&victim) {
            Some(f) => f,
            None => return Err(BufferError::NoEvictableFrame),
        };
        if frame.dirty {
            self.store.write_page(&frame.page)?;
            proof {
                lemma_sealed_idempotent(frame.page@);
            }
        }
        proof {
            assert(self.content() =~= old(self).content());
        }
        Ok(())
    }
}

/// A cached page that was used least recently.
fn choose_victim(m: &HashMap<u64, Frame>) -> (r: Option<u64>)
    ensures
        match r {
            Some(v) => m@.contains_key(v) && forall|k: u64| m@.contains_key(k) ==> m@[v].last_used <= #[trigger] m@[k].last_used,
            None => m@.dom().len() == 0,
        },
{
    let ghost items = vstd::std_specs::hash::spec_hash_map_iter(m).remaining();
    let ghost mut cnt: int = 0;
    let mut best: Option<(u64, u64)> = None;
    for (id, f) in it: m.iter()
        invariant
            it.seq() == items,
            cnt == it.index(),
            match best {
                Some((k, lu)) => m@.contains_key(k) && m@[k].last_used == lu && forall|j: int| 0 <= j < cnt ==> lu <= #[trigger] (items[j].1).last_used,
                None => cnt == 0,
            },
    {
        match best {
            Some((_, lu)) => {
                if f.last_used < lu {
                    best = Some((*id, f.last_used));
                }
            },
            None => {
                best = Some((*id, f.last_used));
            },
        }
        proof {
            cnt = cnt + 1;
        }
    }
    match best {
        Some((k, _)) => {
            assert forall|q: u64| m@.contains_key(q) implies m@[k].last_used <= #[trigger] m@[q].last_used by {
                assert(items.contains((&q, &m@[q])));
                let j = choose|j: int| 0 <= j < items.len() && items[j] == (&q, &m@[q]);
                assert((items[j].1).last_used == m@[q].last_used);
            }
            Some(k)
        },
        None => None,
    }
}

} // verus!
