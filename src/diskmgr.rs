use vstd::prelude::*;

use crate::page::{Page, PAGE_BYTE};
use crate::types::{invalid_arg, Error, PageId, Res};

verus! {

/// The number of pages of the database file.
pub const NUM_PAGES: usize = 10;
/// The page that holds the page bitmap.
pub const BITMAP_PAGE_ID: PageId = 0;
/// The page that holds the heap-file directory.
pub const HEADER_PAGE_ID: PageId = 1;
/// The first page handed out by the allocator.
pub const FIRST_PAGE_ID: PageId = 2;
/// The size of the database file, in bytes.
pub const IMAGE_BYTE: usize = 5440;

/// The bytes of page `pid` in the file image `img`.
pub open spec fn image_page(img: Seq<u8>, pid: int) -> Seq<u8> {
    img.subrange(pid * PAGE_BYTE, pid * PAGE_BYTE + PAGE_BYTE)
}

/// Page `pid` is marked free in the bitmap of `img`.
pub open spec fn page_free(img: Seq<u8>, pid: int) -> bool {
    img[pid] == 0
}

/// `img` with page `pid` holding `p`.
pub open spec fn with_image_page(img: Seq<u8>, pid: int, p: Seq<u8>) -> Seq<u8> {
    Seq::new(img.len(), |k: int| if pid * PAGE_BYTE <= k < pid * PAGE_BYTE + PAGE_BYTE { p[k - pid * PAGE_BYTE] } else { img[k] })
}

/// `img` with the bitmap byte of page `pid` set to `b`.
pub open spec fn with_page_type(img: Seq<u8>, pid: int, b: u8) -> Seq<u8> {
    img.update(pid, b)
}

/// `pid` is the first page from `FIRST_PAGE_ID` on that is free in `img`.
pub open spec fn first_free_page(img: Seq<u8>, pid: int) -> bool {
    &&& FIRST_PAGE_ID <= pid < NUM_PAGES
    &&& page_free(img, pid)
    &&& forall|q: int| FIRST_PAGE_ID <= q < pid ==> !page_free(img, q)
}

/// The single-file backing store: a fixed number of pages, page 0 being the bitmap of the
/// pages in use.
pub struct DiskMgr {
    image: Vec<u8>,
}

impl View for DiskMgr {
    type V = Seq<u8>;

    closed spec fn view(&self) -> Seq<u8> {
        self.image@
    }
}

/// The file sizes and page positions fit together.
pub proof fn lemma_image_size()
    ensures
        IMAGE_BYTE == NUM_PAGES * PAGE_BYTE,
        NUM_PAGES <= PAGE_BYTE,
{
}

impl DiskMgr {
    /// The image has the size of the database file.
    pub open spec fn wf(&self) -> bool {
        self@.len() == IMAGE_BYTE
    }

    /// A store over the file contents `bytes`, cut or padded with zeros to the file size, with
    /// the bitmap page marked as in use.
    pub fn open_image(bytes: Vec<u8>) -> (r: DiskMgr)
        ensures
            r.wf(),
            r@ == Seq::new(IMAGE_BYTE as nat, |k: int| if k == 0 { 1u8 } else if k < bytes@.len() { bytes@[k] } else { 0u8 }),
    {
        let ghost b = bytes@;
        let mut image = bytes;
        image.truncate(IMAGE_BYTE);
        while image.len() < IMAGE_BYTE
            invariant
                image@.len() <= IMAGE_BYTE,
                b.len() <= image@.len() || image@.len() == IMAGE_BYTE,
                forall|k: int| 0 <= k < image@.len() ==> image@[k] == (if k < b.len() { b[k] } else { 0u8 }),
            decreases IMAGE_BYTE - image@.len(),
        {
            image.push(0u8);
        }
        image.set(0, 1u8);
        let r = DiskMgr { image };
        assert(r@ =~= Seq::new(IMAGE_BYTE as nat, |k: int| if k == 0 { 1u8 } else if k < b.len() { b[k] } else { 0u8 }));
        r
    }

    /// A store over a new, empty file.
    pub fn new() -> (r: DiskMgr)
        ensures
            r.wf(),
            r@ == Seq::new(IMAGE_BYTE as nat, |k: int| if k == 0 { 1u8 } else { 0u8 }),
    {
        let r = DiskMgr::open_image(Vec::new());
        assert(r@ =~= Seq::new(IMAGE_BYTE as nat, |k: int| if k == 0 { 1u8 } else { 0u8 }));
        r
    }

    /// The file contents.
    pub fn get_image(&self) -> (r: &[u8])
        ensures
            r@ == self@,
    {
        self.image.as_slice()
    }

    fn read_page_no_check(&self, page_id: PageId) -> (r: Page)
        requires
            self.wf(),
            page_id < NUM_PAGES,
        ensures
            r.wf(),
            r@ == image_page(self@, page_id as int),
    {
        let start = page_id * PAGE_BYTE;
        let mut data: Vec<u8> = Vec::new();
        let mut i: usize = 0;
        while i < PAGE_BYTE
            invariant
                i <= PAGE_BYTE,
                start == page_id * PAGE_BYTE,
                page_id < NUM_PAGES,
                self.wf(),
                data@ == self@.subrange(start as int, start + i),
            decreases PAGE_BYTE - i,
        {
            data.push(self.image[start + i]);
            i = i + 1;
            assert(data@ =~= self@.subrange(start as int, start + i));
        }
        Page::from_data(data)
    }

    /// Whether page `page_id` is marked free; `InvalidArg` where the file has no such page.
    pub fn is_free_page(&self, page_id: PageId) -> (r: Res<bool>)
        requires
            self.wf(),
        ensures
            page_id < NUM_PAGES ==> r == Ok::<bool, Error>(page_free(self@, page_id as int)),
            page_id >= NUM_PAGES ==> r is Err && r->Err_0 is InvalidArg,
    {
        if page_id >= NUM_PAGES {
            return Err(invalid_arg("the file has no such page"));
        }
        Ok(self.image[page_id] == 0)
    }

    /// Sets the bitmap byte of page `page_id` to `page_type`.
    pub fn set_page_type(&mut self, page_id: PageId, page_type: u8) -> (r: Res<()>)
        requires
            old(self).wf(),
        ensures
            final(self).wf(),
            page_id < NUM_PAGES ==> r is Ok && final(self)@ == with_page_type(old(self)@, page_id as int, page_type),
            page_id >= NUM_PAGES ==> r is Err && r->Err_0 is InvalidArg && final(self)@ == old(self)@,
    {
        if page_id >= NUM_PAGES {
            return Err(invalid_arg("the file has no such page"));
        }
        self.image.set(page_id, page_type);
        Ok(())
    }

    /// Marks the first free page from `FIRST_PAGE_ID` on as in use and returns it;
    /// `NoFreePage` where there is none.
    pub fn allocate_page(&mut self) -> (r: Res<PageId>)
        requires
            old(self).wf(),
        ensures
            final(self).wf(),
            r matches Ok(pid) ==> first_free_page(old(self)@, pid as int)
                && final(self)@ == with_page_type(old(self)@, pid as int, 1u8),
            r is Err ==> r->Err_0 is NoFreePage && final(self)@ == old(self)@
                && forall|q: int| FIRST_PAGE_ID <= q < NUM_PAGES ==> !page_free(old(self)@, q),
    {
        let mut pid: usize = FIRST_PAGE_ID;
        while pid < NUM_PAGES
            invariant
                FIRST_PAGE_ID <= pid <= NUM_PAGES,
                self.wf(),
                self@ == old(self)@,
                forall|q: int| FIRST_PAGE_ID <= q < pid ==> !page_free(self@, q),
            decreases NUM_PAGES - pid,
        {
            if self.image[pid] == 0 {
                self.image.set(pid, 1u8);
                return Ok(pid);
            }
            pid = pid + 1;
        }
        Err(Error::NoFreePage)
    }

    /// Marks page `page_id` as free.
    pub fn deallocate_page(&mut self, page_id: PageId) -> (r: Res<()>)
        requires
            old(self).wf(),
        ensures
            final(self).wf(),
            page_id < NUM_PAGES ==> r is Ok && final(self)@ == with_page_type(old(self)@, page_id as int, 0u8),
            page_id >= NUM_PAGES ==> r is Err && r->Err_0 is InvalidArg && final(self)@ == old(self)@,
    {
        self.set_page_type(page_id, 0u8)
    }

    /// A copy of page `page_no`; `InvalidArg` where it is free or the file has no such page.
    pub fn read_page(&self, page_no: PageId) -> (r: Res<Page>)
        requires
            self.wf(),
        ensures
            page_no < NUM_PAGES && !page_free(self@, page_no as int) ==> (r matches Ok(p)
                && p.wf() && p@ == image_page(self@, page_no as int)),
            !(page_no < NUM_PAGES && !page_free(self@, page_no as int)) ==> r is Err && r->Err_0 is InvalidArg,
    {
        if self.is_free_page(page_no)? {
            return Err(invalid_arg("the page is not allocated"));
        }
        Ok(self.read_page_no_check(page_no))
    }

    /// Stores `page` as page `page_no`; `InvalidArg` where it is free or the file has no
    /// such page.
    pub fn write_page(&mut self, page_no: PageId, page: &Page) -> (r: Res<()>)
        requires
            old(self).wf(),
            page.wf(),
        ensures
            final(self).wf(),
            BITMAP_PAGE_ID < page_no < NUM_PAGES && !page_free(old(self)@, page_no as int) ==> r is Ok
                && final(self)@ == with_image_page(old(self)@, page_no as int, page@),
            !(BITMAP_PAGE_ID < page_no < NUM_PAGES && !page_free(old(self)@, page_no as int)) ==> r is Err
                && r->Err_0 is InvalidArg && final(self)@ == old(self)@,
            forall|q: int| 0 <= q < NUM_PAGES ==> #[trigger] page_free(final(self)@, q) == page_free(old(self)@, q),
    {
        if page_no == BITMAP_PAGE_ID {
            return Err(invalid_arg("the bitmap page is written through the allocator only"));
        }
        if self.is_free_page(page_no)? {
            return Err(invalid_arg("the page is not allocated"));
        }
        let data = page.get_data();
        let start = page_no * PAGE_BYTE;
        let ghost img0 = self@;
        let mut i: usize = 0;
        while i < PAGE_BYTE
            invariant
                i <= PAGE_BYTE,
                start == page_no * PAGE_BYTE,
                page_no < NUM_PAGES,
                data@ == page@,
                data@.len() == PAGE_BYTE,
                self.wf(),
                self@ == Seq::new(img0.len(), |k: int| if start <= k < start + i { data@[k - start] } else { img0[k] }),
            decreases PAGE_BYTE - i,
        {
            self.image.set(start + i, data[i]);
            i = i + 1;
            assert(self@ =~= Seq::new(img0.len(), |k: int| if start <= k < start + i { data@[k - start] } else { img0[k] }));
        }
        assert(self@ =~= with_image_page(img0, page_no as int, page@));
        proof {
            assert forall|q: int| 0 <= q < NUM_PAGES implies #[trigger] page_free(self@, q) == page_free(img0, q) by {
                lemma_image_page_write(img0, page_no as int, page@, q);
            }
        }
        Ok(())
    }
}

/// Allocating a page marks it as in use and deallocating one marks it free; the bitmap
/// entries of the other pages stay as they were, and deallocating twice changes nothing more.
/// Writing a page never touches the bitmap (see `write_page`), so a freed page stays free until
/// it is allocated again.
pub proof fn lemma_bitmap_consistency(img: Seq<u8>, pid: int, q: int)
    requires
        img.len() == IMAGE_BYTE,
        0 <= pid < NUM_PAGES,
        0 <= q < NUM_PAGES,
        q != pid,
    ensures
        !page_free(with_page_type(img, pid, 1u8), pid),
        page_free(with_page_type(img, pid, 0u8), pid),
        page_free(with_page_type(img, pid, 1u8), q) == page_free(img, q),
        page_free(with_page_type(img, pid, 0u8), q) == page_free(img, q),
        with_page_type(with_page_type(img, pid, 0u8), pid, 0u8) == with_page_type(img, pid, 0u8),
{
    assert(with_page_type(with_page_type(img, pid, 0u8), pid, 0u8) =~= with_page_type(img, pid, 0u8));
}

/// Writing a page of the image changes that page only, and no bitmap entry unless it is the
/// bitmap page.
pub proof fn lemma_image_page_write(img: Seq<u8>, a: int, p: Seq<u8>, b: int)
    requires
        img.len() == IMAGE_BYTE,
        0 <= a < NUM_PAGES,
        0 <= b < NUM_PAGES,
        p.len() == PAGE_BYTE,
    ensures
        image_page(with_image_page(img, a, p), b) == (if a == b { p } else { image_page(img, b) }),
        a != BITMAP_PAGE_ID ==> page_free(with_image_page(img, a, p), b) == page_free(img, b),
        with_image_page(img, a, p).len() == IMAGE_BYTE,
{
    assert(image_page(with_image_page(img, a, p), b) =~= (if a == b { p } else { image_page(img, b) }));
}

/// Changing a bitmap entry changes no page but the bitmap page.
pub proof fn lemma_page_type_write(img: Seq<u8>, a: int, t: u8, b: int)
    requires
        img.len() == IMAGE_BYTE,
        0 <= a < NUM_PAGES,
        0 < b < NUM_PAGES,
    ensures
        image_page(with_page_type(img, a, t), b) == image_page(img, b),
{
    assert(image_page(with_page_type(img, a, t), b) =~= image_page(img, b));
}

} // verus!
