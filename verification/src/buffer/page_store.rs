//! The pluggable fixed-page persistence abstraction.
use vstd::prelude::*;
use crate::buffer::error::BufferError;
use crate::ids::PageId;
use crate::page::{fresh_image, sealed_image, Page, PageKind};

verus! {

/// Fixed-size page persistence implemented by pluggable stores (the page
/// file in the application). Every implementation must keep these
/// contracts, which the buffer pool relies on: pages are numbered densely
/// from zero, reads return what was last written (sealed), allocation appends
/// a sealed fresh page, and a failed write can only damage the page it was
/// writing.
pub trait PageStore {
    /// The stored page images, by page number. A store verified here defines
    /// it from its own fields (see `MemPageStore`). A store written outside
    /// verified code (the page file of the application) cannot define it and
    /// is trusted to behave as the contracts below say of the images it
    /// really holds. The body is only a placeholder that lets such a store
    /// compile: the buffer pool and everything above it are generic over the
    /// store, so no proof reads it.
    closed spec fn stored(&self) -> Seq<Seq<u8>> {
        Seq::empty()
    }

    /// Returns the number of complete fixed-size pages in the store.
    fn page_count(&self) -> (r: Result<u64, BufferError>)
        ensures
            r matches Ok(n) ==> n == self.stored().len(),
    ;

    /// Appends a new initialized page and returns it (unsealed).
    fn allocate_page(&mut self, kind: PageKind) -> (r: Result<Page, BufferError>)
        ensures
            final(self).stored().len() >= old(self).stored().len(),
            forall|i: int| 0 <= i < old(self).stored().len() ==> #[trigger] final(self).stored()[i] == old(self).stored()[i],
            r matches Ok(p) ==> {
                &&& p.wf()
                &&& p.page_id().0 == old(self).stored().len()
                &&& p@ == fresh_image(kind)
                &&& final(self).stored() == old(self).stored().push(sealed_image(fresh_image(kind)))
            },
    ;

    /// Reads and validates one complete page.
    fn read_page(&self, page_id: PageId) -> (r: Result<Page, BufferError>)
        ensures
            r matches Ok(p) ==> {
                &&& p.wf()
                &&& p.page_id() == page_id
                &&& page_id.0 < self.stored().len()
                &&& p@ == self.stored()[page_id.0 as int]
            },
    ;

    /// Writes a complete page, sealed with its checksum, at its position.
    fn write_page(&mut self, page: &Page) -> (r: Result<(), BufferError>)
        requires
            page.wf(),
        ensures
            final(self).stored().len() >= old(self).stored().len(),
            forall|i: int|
                0 <= i < old(self).stored().len() && i != page.page_id().0 ==> #[trigger] final(self).stored()[i]
                    == old(self).stored()[i],
            r is Ok && page.page_id().0 < old(self).stored().len() ==> final(self).stored() == old(self).stored().update(
                page.page_id().0 as int,
                sealed_image(page@),
            ),
    ;

    /// Synchronizes page data with stable storage.
    fn sync(&mut self) -> (r: Result<(), BufferError>)
        ensures
            final(self).stored() == old(self).stored(),
    ;
}

} // verus!
