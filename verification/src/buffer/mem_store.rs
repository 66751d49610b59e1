//! A page store held in memory.
use vstd::prelude::*;
use crate::buffer::error::BufferError;
use crate::buffer::page_store::PageStore;
use crate::ids::PageId;
use crate::page::{fresh_image, sealed_image, Page, PageKind, PAGE_SIZE};

verus! {

/// Keeps every page, sealed as a page file would hold it, in memory.
pub struct MemPageStore {
    pages: Vec<Page>,
}

impl MemPageStore {
    /// An empty store.
    pub fn new() -> (r: Self)
        ensures
            r.stored() == Seq::<Seq<u8>>::empty(),
    {
        let r = MemPageStore { pages: Vec::new() };
        proof {
            assert(r.stored() =~= Seq::<Seq<u8>>::empty());
        }
        r
    }
}

impl PageStore for MemPageStore {
    closed spec fn stored(&self) -> Seq<Seq<u8>> {
        Seq::new(self.pages@.len(), |i: int| self.pages@[i]@)
    }

    fn page_count(&self) -> (r: Result<u64, BufferError>) {
        Ok(self.pages.len() as u64)
    }

    fn allocate_page(&mut self, kind: PageKind) -> (r: Result<Page, BufferError>) {
        let id = PageId(self.pages.len() as u64);
        let page = Page::new(id, kind);
        let mut sealed = page.clone();
        sealed.seal_for_write();
        let ghost before = self.stored();
        self.pages.push(sealed);
        proof {
            assert(self.stored() =~= before.push(sealed_image(fresh_image(kind))));
        }
        Ok(page)
    }

    fn read_page(&self, page_id: PageId) -> (r: Result<Page, BufferError>) {
        if page_id.0 >= self.pages.len() as u64 {
            return Err(BufferError::MissingPage(page_id.0));
        }
        let page = self.pages[page_id.0 as usize].clone();
        if page.id() != page_id || page.bytes().len() != PAGE_SIZE {
            return Err(BufferError::MissingPage(page_id.0));
        }
        Ok(page)
    }

    fn write_page(&mut self, page: &Page) -> (r: Result<(), BufferError>) {
        let id = page.id().0;
        if id >= self.pages.len() as u64 {
            return Err(BufferError::MissingPage(id));
        }
        let mut sealed = page.clone();
        sealed.seal_for_write();
        let ghost before = self.stored();
        self.pages.set(id as usize, sealed);
        proof {
            assert(self.stored() =~= before.update(id as int, sealed_image(page@)));
        }
        Ok(())
    }

    fn sync(&mut self) -> (r: Result<(), BufferError>) {
        Ok(())
    }
}

} // verus!
