use vstd::prelude::*;

use crate::diskmgr::{image_page, page_free, DiskMgr, IMAGE_BYTE, NUM_PAGES, BITMAP_PAGE_ID, FIRST_PAGE_ID, first_free_page, lemma_image_size};
use crate::page::{Page, PAGE_BYTE};
use crate::types::{invalid_arg, Error, PageId, Res};

verus! {

/// What a frame holds: a page, the number of pins on it, and whether it changed since it
/// was last written to the file.
pub struct FrameView {
    pub page_id: PageId,
    pub pin_count: usize,
    pub dirty: bool,
    pub page: Seq<u8>,
}

/// A cell of the buffer pool holding a copy of one page.
pub struct Frame {
    page_id: PageId,
    pin_count: usize,
    dirty: bool,
    page: Page,
}

impl View for Frame {
    type V = FrameView;

    closed spec fn view(&self) -> FrameView {
        FrameView { page_id: self.page_id, pin_count: self.pin_count, dirty: self.dirty, page: self.page@ }
    }
}

impl Frame {
    /// An unpinned, clean frame holding `page` as page `page_id`.
    pub fn new(page_id: PageId, page: Page) -> (r: Frame)
        ensures
            r@ == (FrameView { page_id, pin_count: 0, dirty: false, page: page@ }),
    {
        Frame { page_id, pin_count: 0, dirty: false, page }
    }

    pub fn get_page_id(&self) -> (r: PageId)
        ensures
            r == self@.page_id,
    {
        self.page_id
    }

    pub fn get_pin_count(&self) -> (r: usize)
        ensures
            r == self@.pin_count,
    {
        self.pin_count
    }

    pub fn get_dirty(&self) -> (r: bool)
        ensures
            r == self@.dirty,
    {
        self.dirty
    }

    pub fn set_dirty(&mut self, dirty: bool)
        ensures
            final(self)@ == (FrameView { dirty, ..old(self)@ }),
    {
        self.dirty = dirty;
    }

    pub fn pin(&mut self)
        requires
            old(self)@.pin_count < usize::MAX,
        ensures
            final(self)@ == (FrameView { pin_count: (old(self)@.pin_count + 1) as usize, ..old(self)@ }),
    {
        self.pin_count = self.pin_count + 1;
    }

    pub fn unpin(&mut self)
        requires
            old(self)@.pin_count > 0,
        ensures
            final(self)@ == (FrameView { pin_count: (old(self)@.pin_count - 1) as usize, ..old(self)@ }),
    {
        self.pin_count = self.pin_count - 1;
    }
}

/// The buffer pool: a bounded set of frames in front of the disk store.
pub struct BufMgr {
    buf_pool: Vec<Frame>,
    max_bufsize: usize,
    diskmgr: DiskMgr,
}

impl BufMgr {
    /// The frames of the pool.
    pub closed spec fn frames(&self) -> Seq<FrameView> {
        self.buf_pool@.map_values(|f: Frame| f@)
    }

    /// The file image of the disk store.
    pub closed spec fn disk(&self) -> Seq<u8> {
        self.diskmgr@
    }

    /// The number of frames the pool may hold.
    pub closed spec fn capacity(&self) -> nat {
        self.max_bufsize as nat
    }

    /// The pool holds at most its capacity of frames, for distinct pages in use other than
    /// the bitmap page, each clean frame agreeing with the file.
    pub open spec fn wf(&self) -> bool {
        &&& self.disk().len() == IMAGE_BYTE
        &&& self.frames().len() <= self.capacity()
        &&& forall|i: int| 0 <= i < self.frames().len() ==> {
            let f = #[trigger] self.frames()[i];
            &&& f.page.len() == PAGE_BYTE
            &&& BITMAP_PAGE_ID < f.page_id < NUM_PAGES
            &&& !page_free(self.disk(), f.page_id as int)
            &&& !f.dirty ==> f.page == image_page(self.disk(), f.page_id as int)
        }
        &&& forall|i: int, j: int| 0 <= i < j < self.frames().len() ==> self.frames()[i].page_id != self.frames()[j].page_id
    }

    /// Page `pid` has a frame.
    pub open spec fn resident(&self, pid: int) -> bool {
        exists|i: int| 0 <= i < self.frames().len() && self.frames()[i].page_id == pid
    }

    /// The frame of page `pid`, where it has one.
    pub open spec fn frame_index(&self, pid: int) -> int {
        choose|i: int| 0 <= i < self.frames().len() && self.frames()[i].page_id == pid
    }

    /// The current contents of page `pid`: its frame's where it has one, else the file's.
    pub open spec fn content(&self, pid: int) -> Seq<u8> {
        if self.resident(pid) {
            self.frames()[self.frame_index(pid)].page
        } else {
            image_page(self.disk(), pid)
        }
    }

    /// The number of pins on page `pid`.
    pub open spec fn pins(&self, pid: int) -> int {
        if self.resident(pid) {
            self.frames()[self.frame_index(pid)].pin_count as int
        } else {
            0
        }
    }

    /// Page `pid` is marked in use in the bitmap.
    pub open spec fn allocated(&self, pid: int) -> bool {
        0 <= pid < NUM_PAGES && !page_free(self.disk(), pid)
    }

    /// A page without a frame can get one: the pool has room or an unpinned frame.
    pub open spec fn has_room(&self) -> bool {
        self.frames().len() < self.capacity() || exists|i: int| 0 <= i < self.frames().len() && self.frames()[i].pin_count == 0
    }

    /// Page `pid` can be pinned.
    pub open spec fn can_pin(&self, pid: int) -> bool {
        &&& pid != BITMAP_PAGE_ID
        &&& self.allocated(pid)
        &&& self.resident(pid) ==> self.pins(pid) < usize::MAX
        &&& !self.resident(pid) ==> self.has_room()
    }

    /// Contents and page allocation are the same in `self` and `other`.
    pub open spec fn same_pages(&self, other: &BufMgr) -> bool {
        &&& forall|q: int| BITMAP_PAGE_ID < q < NUM_PAGES ==> #[trigger] self.content(q) == other.content(q)
        &&& forall|q: int| #[trigger] self.allocated(q) == other.allocated(q)
    }

    /// The pins are the same in `self` and `other` for every page but `pid`.
    pub open spec fn same_pins_except(&self, other: &BufMgr, pid: int) -> bool {
        forall|q: int| q != pid ==> #[trigger] self.pins(q) == other.pins(q)
    }

    proof fn lemma_index(&self, i: int)
        requires
            self.wf(),
            0 <= i < self.frames().len(),
        ensures
            self.resident(self.frames()[i].page_id as int),
            self.frame_index(self.frames()[i].page_id as int) == i,
    {
        let pid = self.frames()[i].page_id as int;
        assert(self.resident(pid));
        let j = self.frame_index(pid);
        if j != i {
            if j < i {
                assert(self.frames()[j].page_id != self.frames()[i].page_id);
            } else {
                assert(self.frames()[i].page_id != self.frames()[j].page_id);
            }
        }
    }

    proof fn lemma_resident_allocated(&self, pid: int)
        requires
            self.wf(),
            self.resident(pid),
        ensures
            self.allocated(pid),
            pid != BITMAP_PAGE_ID,
            0 <= self.frame_index(pid) < self.frames().len(),
            self.frames()[self.frame_index(pid)].page_id == pid,
    {
        let i = self.frame_index(pid);
        assert(self.frames()[i].page_id == pid);
    }

    /// A pool of `max_bufsize` frames in front of `diskmgr`.
    pub fn new(max_bufsize: usize, diskmgr: DiskMgr) -> (r: BufMgr)
        requires
            diskmgr.wf(),
        ensures
            r.wf(),
            r.frames().len() == 0,
            r.capacity() == max_bufsize,
            r.disk() == diskmgr@,
            forall|q: int| #[trigger] r.content(q) == image_page(diskmgr@, q),
            forall|q: int| #[trigger] r.pins(q) == 0,
    {
        BufMgr { buf_pool: Vec::new(), max_bufsize, diskmgr }
    }

    /// The number of pins on page `page_id`; `0` where it has no frame.
    pub fn get_pin_count(&self, page_id: PageId) -> (r: usize)
        requires
            self.wf(),
        ensures
            r == self.pins(page_id as int),
    {
        match self.get_frame_index(page_id) {
            Some(idx) => {
                assert(self.frames()[idx as int] == self.buf_pool@[idx as int]@);
                self.buf_pool[idx].get_pin_count()
            },
            None => 0,
        }
    }

    /// The disk store behind the pool.
    pub fn get_diskmgr(&self) -> (r: &DiskMgr)
        ensures
            r@ == self.disk(),
    {
        &self.diskmgr
    }

    fn get_frame_index(&self, page_id: PageId) -> (r: Option<usize>)
        requires
            self.wf(),
        ensures
            r matches Some(i) ==> self.resident(page_id as int) && i == self.frame_index(page_id as int)
                && i < self.frames().len(),
            r is None ==> !self.resident(page_id as int),
    {
        let mut i: usize = 0;
        while i < self.buf_pool.len()
            invariant
                i <= self.frames().len(),
                self.buf_pool@.len() == self.frames().len(),
                self.wf(),
                forall|j: int| 0 <= j < i ==> self.frames()[j].page_id != page_id,
            decreases self.frames().len() - i,
        {
            assert(self.frames()[i as int] == self.buf_pool@[i as int]@);
            if self.buf_pool[i].get_page_id() == page_id {
                proof {
                    self.lemma_index(i as int);
                }
                return Some(i);
            }
            i = i + 1;
        }
        None
    }
    proof fn lemma_frame_changed(old_bm: &BufMgr, new_bm: &BufMgr, i: int)
        requires
            old_bm.wf(),
            0 <= i < old_bm.frames().len(),
            new_bm.disk() == old_bm.disk(),
            new_bm.frames().len() == old_bm.frames().len(),
            new_bm.frames()[i].page_id == old_bm.frames()[i].page_id,
            forall|j: int| 0 <= j < old_bm.frames().len() && j != i ==> new_bm.frames()[j] == old_bm.frames()[j],
            new_bm.capacity() == old_bm.capacity(),
            new_bm.frames()[i].page.len() == PAGE_BYTE,
            !new_bm.frames()[i].dirty ==> new_bm.frames()[i].page == image_page(old_bm.disk(), old_bm.frames()[i].page_id as int),
        ensures
            new_bm.wf(),
            forall|q: int| #[trigger] new_bm.resident(q) == old_bm.resident(q),
            forall|q: int| q != old_bm.frames()[i].page_id ==> #[trigger] new_bm.content(q) == old_bm.content(q),
            forall|q: int| q != old_bm.frames()[i].page_id ==> #[trigger] new_bm.pins(q) == old_bm.pins(q),
            forall|q: int| #[trigger] new_bm.allocated(q) == old_bm.allocated(q),
            new_bm.resident(old_bm.frames()[i].page_id as int),
            new_bm.frame_index(old_bm.frames()[i].page_id as int) == i,
    {
        let pid = old_bm.frames()[i].page_id as int;
        assert forall|a: int, b: int| 0 <= a < b < new_bm.frames().len() implies new_bm.frames()[a].page_id != new_bm.frames()[b].page_id by {
            assert(old_bm.frames()[a].page_id != old_bm.frames()[b].page_id);
        }
        assert forall|j: int| 0 <= j < new_bm.frames().len() implies {
            let f = #[trigger] new_bm.frames()[j];
            &&& f.page.len() == PAGE_BYTE
            &&& BITMAP_PAGE_ID < f.page_id < NUM_PAGES
            &&& !page_free(new_bm.disk(), f.page_id as int)
            &&& !f.dirty ==> f.page == image_page(new_bm.disk(), f.page_id as int)
        } by {
            assert(old_bm.frames()[j].page_id == new_bm.frames()[j].page_id);
        }
        assert forall|q: int| #[trigger] new_bm.resident(q) == old_bm.resident(q) by {
            if old_bm.resident(q) {
                let j = old_bm.frame_index(q);
                assert(new_bm.frames()[j].page_id == q);
            }
            if new_bm.resident(q) {
                let j = new_bm.frame_index(q);
                assert(old_bm.frames()[j].page_id == q);
            }
        }
        assert forall|q: int| q != pid implies #[trigger] new_bm.content(q) == old_bm.content(q)
            && new_bm.pins(q) == old_bm.pins(q) by {
            if old_bm.resident(q) {
                let j = old_bm.frame_index(q);
                old_bm.lemma_index(j);
                let k = new_bm.frame_index(q);
                assert(new_bm.frames()[k].page_id == q);
                if k != j {
                    assert(old_bm.frames()[k].page_id == q || k == i);
                    if k != i {
                        old_bm.lemma_index(k);
                    }
                }
            }
        }
        assert(new_bm.frames()[i].page_id == pid);
        let k = new_bm.frame_index(pid);
        if k != i {
            assert(old_bm.frames()[k].page_id == pid);
            old_bm.lemma_index(k);
            old_bm.lemma_index(i);
        }
    }

    /// Pins page `page_id` and returns a copy of its contents. Where it has no frame, it gets
    /// one, in place of an unpinned frame (written back first where it changed) if the pool
    /// is full; `BufferFull` where every frame is pinned, `InvalidArg` where the page is the
    /// bitmap page or not in use.
    pub fn pin_page(&mut self, page_id: PageId) -> (r: Res<Page>)
        requires
            old(self).wf(),
        ensures
            final(self).wf(),
            final(self).capacity() == old(self).capacity(),
            old(self).can_pin(page_id as int) <==> r is Ok,
            r matches Ok(p) ==> p.wf() && p@ == old(self).content(page_id as int)
                && final(self).same_pages(old(self))
                && final(self).resident(page_id as int)
                && final(self).pins(page_id as int) == old(self).pins(page_id as int) + 1
                && final(self).same_pins_except(old(self), page_id as int),
            r is Ok && old(self).resident(page_id as int) ==> final(self).frames().len() == old(self).frames().len()
                && forall|q: int| #[trigger] final(self).resident(q) == old(self).resident(q),
            r matches Err(e) ==> *final(self) == *old(self) && (if !(page_id != BITMAP_PAGE_ID && old(self).allocated(page_id as int)) {
                e is InvalidArg
            } else if old(self).resident(page_id as int) {
                e is InvalidArg
            } else {
                e is BufferFull
            }),
    {
        if page_id == BITMAP_PAGE_ID {
            return Err(invalid_arg("the bitmap page is not held in the pool"));
        }
        match self.get_frame_index(page_id) {
            Some(idx) => {
                proof {
                    self.lemma_resident_allocated(page_id as int);
                }
                if self.buf_pool[idx].get_pin_count() == usize::MAX {
                    return Err(invalid_arg("the page has too many pins"));
                }
                let ghost old_bm = *self;
                self.buf_pool[idx].pin();
                proof {
                    BufMgr::lemma_frame_changed(&old_bm, self, idx as int);
                }
                let p = self.buf_pool[idx].page.copy();
                Ok(p)
            }
            None => {
                if self.diskmgr.is_free_page(page_id)? {
                    return Err(invalid_arg("the page is not allocated"));
                }
                if self.buf_pool.len() < self.max_bufsize {
                    let ghost old_bm = *self;
                    let page = self.diskmgr.read_page(page_id)?;
                    let mut frame = Frame::new(page_id, page);
                    frame.pin();
                    let p = frame.page.copy();
                    self.buf_pool.push(frame);
                    proof {
                        assert(self.frames() =~= old_bm.frames().push(FrameView {
                            page_id: page_id, pin_count: 1, dirty: false, page: image_page(old_bm.disk(), page_id as int) }));
                        self.lemma_pushed(&old_bm, page_id as int);
                    }
                    return Ok(p);
                }
                let victim = match self.find_unpinned() {
                    Some(v) => v,
                    None => return Err(Error::BufferFull),
                };
                let ghost old_bm = *self;
                let vpid = self.buf_pool[victim].get_page_id();
                if self.buf_pool[victim].get_dirty() {
                    proof {
                        assert(self.frames()[victim as int] == self.buf_pool@[victim as int]@);
                    }
                    let _ = self.diskmgr.write_page(vpid, &self.buf_pool[victim].page);
                }
                let ghost mid_disk = self.diskmgr@;
                proof {
                    lemma_image_size();
                    assert(self.frames()[victim as int] == old_bm.frames()[victim as int]);
                    crate::diskmgr::lemma_image_page_write(old_bm.disk(), vpid as int, old_bm.frames()[victim as int].page, page_id as int);
                }
                let page = self.diskmgr.read_page(page_id)?;
                let mut frame = Frame::new(page_id, page);
                frame.pin();
                let p = frame.page.copy();
                self.buf_pool.set(victim, frame);
                proof {
                    assert(self.frames() =~= old_bm.frames().update(victim as int, FrameView {
                        page_id: page_id, pin_count: 1, dirty: false, page: image_page(self.disk(), page_id as int) }));
                    self.lemma_replaced(&old_bm, victim as int, page_id as int);
                }
                Ok(p)
            }
        }
    }
    fn find_unpinned(&self) -> (r: Option<usize>)
        requires
            self.wf(),
        ensures
            r matches Some(v) ==> v < self.frames().len() && self.frames()[v as int].pin_count == 0,
            r is None ==> forall|i: int| 0 <= i < self.frames().len() ==> self.frames()[i].pin_count != 0,
    {
        let mut i: usize = 0;
        while i < self.buf_pool.len()
            invariant
                i <= self.frames().len(),
                self.buf_pool@.len() == self.frames().len(),
                forall|j: int| 0 <= j < i ==> self.frames()[j].pin_count != 0,
            decreases self.frames().len() - i,
        {
            assert(self.frames()[i as int] == self.buf_pool@[i as int]@);
            if self.buf_pool[i].get_pin_count() == 0 {
                return Some(i);
            }
            i = i + 1;
        }
        None
    }

    proof fn lemma_pushed(&self, old_bm: &BufMgr, pid: int)
        requires
            old_bm.wf(),
            !old_bm.resident(pid),
            old_bm.allocated(pid),
            pid != BITMAP_PAGE_ID,
            old_bm.frames().len() < old_bm.capacity(),
            self.disk() == old_bm.disk(),
            self.capacity() == old_bm.capacity(),
            self.frames() == old_bm.frames().push(FrameView {
                page_id: pid as usize, pin_count: 1, dirty: false, page: image_page(old_bm.disk(), pid) }),
        ensures
            self.wf(),
            self.same_pages(old_bm),
            self.resident(pid),
            self.pins(pid) == 1,
            self.same_pins_except(old_bm, pid),
    {
        lemma_image_size();
        let n = old_bm.frames().len() as int;
        assert(self.frames()[n].page_id == pid);
        assert forall|i: int, j: int| 0 <= i < j < self.frames().len() implies self.frames()[i].page_id != self.frames()[j].page_id by {
            if j == n {
                assert(old_bm.frames()[i].page_id != pid);
            }
        }
        assert(self.wf());
        self.lemma_index(n);
        assert forall|q: int| q != pid implies #[trigger] self.content(q) == old_bm.content(q) && self.pins(q) == old_bm.pins(q)
            && self.resident(q) == old_bm.resident(q) by {
            if old_bm.resident(q) {
                let j = old_bm.frame_index(q);
                assert(self.frames()[j].page_id == q);
                self.lemma_index(j);
            }
            if self.resident(q) {
                let k = self.frame_index(q);
                assert(old_bm.frames()[k].page_id == q);
            }
        }
        assert forall|q: int| q != pid implies #[trigger] self.pins(q) == old_bm.pins(q) by {
            assert(self.content(q) == old_bm.content(q));
        }
        assert forall|q: int| #[trigger] self.allocated(q) == old_bm.allocated(q) by {}
    }

    proof fn lemma_replaced(&self, old_bm: &BufMgr, v: int, pid: int)
        requires
            old_bm.wf(),
            !old_bm.resident(pid),
            old_bm.allocated(pid),
            pid != BITMAP_PAGE_ID,
            0 <= v < old_bm.frames().len(),
            old_bm.frames()[v].pin_count == 0,
            self.capacity() == old_bm.capacity(),
            self.disk() == (if old_bm.frames()[v].dirty {
                crate::diskmgr::with_image_page(old_bm.disk(), old_bm.frames()[v].page_id as int, old_bm.frames()[v].page)
            } else {
                old_bm.disk()
            }),
            self.frames() == old_bm.frames().update(v, FrameView {
                page_id: pid as usize, pin_count: 1, dirty: false, page: image_page(self.disk(), pid) }),
        ensures
            self.wf(),
            self.same_pages(old_bm),
            self.resident(pid),
            self.pins(pid) == 1,
            self.same_pins_except(old_bm, pid),
    {
        lemma_image_size();
        let vpid = old_bm.frames()[v].page_id as int;
        let vpage = old_bm.frames()[v].page;
        assert forall|b: int| 0 <= b < NUM_PAGES implies
            image_page(self.disk(), b) == (if b == vpid { vpage } else { image_page(old_bm.disk(), b) })
            && page_free(self.disk(), b) == page_free(old_bm.disk(), b) by {
            if old_bm.frames()[v].dirty {
                crate::diskmgr::lemma_image_page_write(old_bm.disk(), vpid, vpage, b);
            }
        }
        assert(pid != vpid);
        assert forall|i: int, j: int| 0 <= i < j < self.frames().len() implies self.frames()[i].page_id != self.frames()[j].page_id by {
            if i == v {
                assert(old_bm.frames()[j].page_id != pid);
            } else if j == v {
                assert(old_bm.frames()[i].page_id != pid);
            }
        }
        assert forall|i: int| 0 <= i < self.frames().len() implies {
            let f = #[trigger] self.frames()[i];
            &&& f.page.len() == PAGE_BYTE
            &&& BITMAP_PAGE_ID < f.page_id < NUM_PAGES
            &&& !page_free(self.disk(), f.page_id as int)
            &&& !f.dirty ==> f.page == image_page(self.disk(), f.page_id as int)
        } by {
            if i != v {
                let f = old_bm.frames()[i];
                assert(f.page_id != vpid);
            }
        }
        assert(self.wf());
        self.lemma_index(v);
        assert forall|q: int| q != pid && 0 <= q < NUM_PAGES implies #[trigger] self.content(q) == old_bm.content(q) && self.pins(q) == old_bm.pins(q) by {
            if q == vpid {
                old_bm.lemma_index(v);
                if self.resident(q) {
                    let k = self.frame_index(q);
                    assert(old_bm.frames()[k].page_id == q);
                    old_bm.lemma_index(k);
                }
            } else if old_bm.resident(q) {
                let j = old_bm.frame_index(q);
                assert(j != v);
                assert(self.frames()[j].page_id == q);
                self.lemma_index(j);
            } else {
                if self.resident(q) {
                    let k = self.frame_index(q);
                    assert(old_bm.frames()[k].page_id == q);
                }
            }
        }
        assert forall|q: int| q != pid implies #[trigger] self.pins(q) == old_bm.pins(q) by {
            if 0 <= q < NUM_PAGES {
                assert(self.content(q) == old_bm.content(q));
            } else {
                if self.resident(q) {
                    let k = self.frame_index(q);
                    assert(self.frames()[k].page_id == q);
                }
                if old_bm.resident(q) {
                    let k = old_bm.frame_index(q);
                    assert(old_bm.frames()[k].page_id == q);
                }
            }
        }
        assert forall|q: int| #[trigger] self.allocated(q) == old_bm.allocated(q) by {}
    }
    /// Takes one pin off page `page_id`; `PageNotFound` where it has no frame, `InvalidArg`
    /// where it has no pin.
    pub fn unpin_page(&mut self, page_id: PageId) -> (r: Res<()>)
        requires
            old(self).wf(),
        ensures
            final(self).wf(),
            final(self).capacity() == old(self).capacity(),
            !old(self).resident(page_id as int) ==> r is Err && r->Err_0 is PageNotFound && *final(self) == *old(self),
            old(self).resident(page_id as int) && old(self).pins(page_id as int) == 0 ==> r is Err
                && r->Err_0 is InvalidArg && *final(self) == *old(self),
            old(self).resident(page_id as int) && old(self).pins(page_id as int) > 0 ==> r is Ok
                && final(self).same_pages(old(self))
                && final(self).resident(page_id as int)
                && final(self).pins(page_id as int) == old(self).pins(page_id as int) - 1
                && final(self).same_pins_except(old(self), page_id as int)
                && final(self).frames().len() == old(self).frames().len()
                && (forall|q: int| #[trigger] final(self).resident(q) == old(self).resident(q))
                && (final(self).pins(page_id as int) == 0 ==> final(self).has_room()),
    {
        match self.get_frame_index(page_id) {
            Some(idx) => {
                assert(self.frames()[idx as int] == self.buf_pool@[idx as int]@);
                if self.buf_pool[idx].get_pin_count() == 0 {
                    return Err(invalid_arg("the page has no pin"));
                }
                let ghost old_bm = *self;
                self.buf_pool[idx].unpin();
                proof {
                    BufMgr::lemma_frame_changed(&old_bm, self, idx as int);
                    assert(self.frames()[idx as int].pin_count as int == self.pins(page_id as int));
                }
                Ok(())
            }
            None => Err(Error::PageNotFound { page_id, msg: "the page has no frame to unpin".to_string() }),
        }
    }

    /// Replaces the contents of the frame of page `page_id` by `page` and marks it changed;
    /// `PageNotFound` where the page has no frame.
    pub fn set_page(&mut self, page_id: PageId, page: Page) -> (r: Res<()>)
        requires
            old(self).wf(),
            page.wf(),
        ensures
            final(self).wf(),
            final(self).capacity() == old(self).capacity(),
            !old(self).resident(page_id as int) ==> r is Err && r->Err_0 is PageNotFound && *final(self) == *old(self),
            old(self).resident(page_id as int) ==> r is Ok
                && final(self).resident(page_id as int)
                && final(self).content(page_id as int) == page@
                && (forall|q: int| q != page_id ==> #[trigger] final(self).content(q) == old(self).content(q))
                && (forall|q: int| #[trigger] final(self).allocated(q) == old(self).allocated(q))
                && final(self).same_pins_except(old(self), page_id as int)
                && final(self).pins(page_id as int) == old(self).pins(page_id as int)
                && final(self).frames().len() == old(self).frames().len()
                && (forall|q: int| #[trigger] final(self).resident(q) == old(self).resident(q)),
    {
        match self.get_frame_index(page_id) {
            Some(idx) => {
                let ghost old_bm = *self;
                self.buf_pool[idx].page = page;
                self.buf_pool[idx].dirty = true;
                proof {
                    BufMgr::lemma_frame_changed(&old_bm, self, idx as int);
                }
                Ok(())
            }
            None => Err(Error::PageNotFound { page_id, msg: "the page has no frame to write".to_string() }),
        }
    }

    fn flush_frame(&mut self, idx: usize)
        requires
            old(self).wf(),
            idx < old(self).frames().len(),
        ensures
            final(self).wf(),
            final(self).capacity() == old(self).capacity(),
            final(self).frames().len() == old(self).frames().len(),
            final(self).frames()[idx as int] == (FrameView { dirty: false, ..old(self).frames()[idx as int] }),
            forall|j: int| 0 <= j < old(self).frames().len() && j != idx ==> final(self).frames()[j] == old(self).frames()[j],
            image_page(final(self).disk(), old(self).frames()[idx as int].page_id as int) == old(self).frames()[idx as int].page,
            forall|q: int| 0 <= q < NUM_PAGES && q != old(self).frames()[idx as int].page_id ==>
                image_page(final(self).disk(), q) == image_page(old(self).disk(), q),
            forall|q: int| 0 <= q < NUM_PAGES ==> #[trigger] page_free(final(self).disk(), q) == page_free(old(self).disk(), q),
    {
        let ghost old_bm = *self;
        assert(self.frames()[idx as int] == self.buf_pool@[idx as int]@);
        let pid = self.buf_pool[idx].get_page_id();
        proof {
            lemma_image_size();
        }
        if self.buf_pool[idx].get_dirty() {
            let _ = self.diskmgr.write_page(pid, &self.buf_pool[idx].page);
            self.buf_pool[idx].dirty = false;
            proof {
                assert forall|q: int| 0 <= q < NUM_PAGES implies
                    image_page(self.disk(), q) == (if q == pid { old_bm.frames()[idx as int].page } else { image_page(old_bm.disk(), q) })
                    && page_free(self.disk(), q) == page_free(old_bm.disk(), q) by {
                    crate::diskmgr::lemma_image_page_write(old_bm.disk(), pid as int, old_bm.frames()[idx as int].page, q);
                }
            }
        }
        proof {
            assert forall|j: int| 0 <= j < self.frames().len() && j != idx implies self.frames()[j] == old_bm.frames()[j] by {}
            assert forall|j: int| 0 <= j < self.frames().len() implies {
                let f = #[trigger] self.frames()[j];
                &&& f.page.len() == PAGE_BYTE
                &&& BITMAP_PAGE_ID < f.page_id < NUM_PAGES
                &&& !page_free(self.disk(), f.page_id as int)
                &&& !f.dirty ==> f.page == image_page(self.disk(), f.page_id as int)
            } by {
                if j != idx {
                    assert(old_bm.frames()[j].page_id != old_bm.frames()[idx as int].page_id) by {
                        if j < idx {} else {}
                    }
                }
            }
            assert forall|a: int, b: int| 0 <= a < b < self.frames().len() implies self.frames()[a].page_id != self.frames()[b].page_id by {
                assert(old_bm.frames()[a].page_id != old_bm.frames()[b].page_id);
            }
        }
    }

    proof fn lemma_flushed(&self, old_bm: &BufMgr, idx: int)
        requires
            old_bm.wf(),
            self.wf(),
            0 <= idx < old_bm.frames().len(),
            self.frames().len() == old_bm.frames().len(),
            self.frames()[idx] == (FrameView { dirty: false, ..old_bm.frames()[idx] }),
            forall|j: int| 0 <= j < old_bm.frames().len() && j != idx ==> self.frames()[j] == old_bm.frames()[j],
            image_page(self.disk(), old_bm.frames()[idx].page_id as int) == old_bm.frames()[idx].page,
            forall|q: int| 0 <= q < NUM_PAGES && q != old_bm.frames()[idx].page_id ==>
                image_page(self.disk(), q) == image_page(old_bm.disk(), q),
            forall|q: int| 0 <= q < NUM_PAGES ==> #[trigger] page_free(self.disk(), q) == page_free(old_bm.disk(), q),
        ensures
            self.same_pages(old_bm),
            forall|q: int| #[trigger] self.pins(q) == old_bm.pins(q),
            forall|q: int| #[trigger] self.resident(q) == old_bm.resident(q),
    {
        let pid = old_bm.frames()[idx].page_id as int;
        assert forall|q: int| #[trigger] self.resident(q) == old_bm.resident(q) by {
            if old_bm.resident(q) {
                let j = old_bm.frame_index(q);
                assert(self.frames()[j].page_id == q);
            }
            if self.resident(q) {
                let j = self.frame_index(q);
                assert(old_bm.frames()[j].page_id == q);
            }
        }
        assert forall|q: int| #[trigger] self.pins(q) == old_bm.pins(q)
            && (BITMAP_PAGE_ID < q < NUM_PAGES ==> self.content(q) == old_bm.content(q)) by {
            if old_bm.resident(q) {
                let j = old_bm.frame_index(q);
                old_bm.lemma_index(j);
                assert(self.frames()[j].page_id == q);
                self.lemma_index(j);
            }
        }
        assert forall|q: int| BITMAP_PAGE_ID < q < NUM_PAGES implies #[trigger] self.content(q) == old_bm.content(q) by {
            assert(self.pins(q) == old_bm.pins(q));
        }
    }

    /// Writes the frame of page `page_id` to the file where it changed; `PageNotFound` where
    /// the page has no frame.
    pub fn flush_page(&mut self, page_id: PageId) -> (r: Res<()>)
        requires
            old(self).wf(),
        ensures
            final(self).wf(),
            final(self).capacity() == old(self).capacity(),
            !old(self).resident(page_id as int) ==> r is Err && r->Err_0 is PageNotFound && *final(self) == *old(self),
            old(self).resident(page_id as int) ==> r is Ok
                && final(self).same_pages(old(self))
                && (forall|q: int| #[trigger] final(self).pins(q) == old(self).pins(q))
                && image_page(final(self).disk(), page_id as int) == old(self).content(page_id as int)
                && final(self).resident(page_id as int)
                && !final(self).frames()[final(self).frame_index(page_id as int)].dirty,
    {
        match self.get_frame_index(page_id) {
            Some(idx) => {
                let ghost old_bm = *self;
                self.flush_frame(idx);
                proof {
                    self.lemma_flushed(&old_bm, idx as int);
                }
                Ok(())
            }
            None => Err(Error::PageNotFound { page_id, msg: "the page has no frame to flush".to_string() }),
        }
    }

    /// Writes every changed frame to the file, which then holds the current contents of
    /// every page.
    pub fn flush_all(&mut self)
        requires
            old(self).wf(),
        ensures
            final(self).wf(),
            final(self).capacity() == old(self).capacity(),
            final(self).same_pages(old(self)),
            forall|q: int| #[trigger] final(self).pins(q) == old(self).pins(q),
            forall|q: int| BITMAP_PAGE_ID < q < NUM_PAGES ==> image_page(final(self).disk(), q) == #[trigger] old(self).content(q),
    {
        let ghost start = *self;
        let mut i: usize = 0;
        while i < self.buf_pool.len()
            invariant
                self.wf(),
                self.capacity() == start.capacity(),
                i <= self.frames().len(),
                self.buf_pool@.len() == self.frames().len(),
                self.same_pages(&start),
                forall|q: int| #[trigger] self.pins(q) == start.pins(q),
                forall|q: int| #[trigger] self.resident(q) == start.resident(q),
                forall|j: int| 0 <= j < i ==> !(#[trigger] self.frames()[j]).dirty,
            decreases self.frames().len() - i,
        {
            let ghost old_bm = *self;
            self.flush_frame(i);
            proof {
                self.lemma_flushed(&old_bm, i as int);
            }
            i = i + 1;
        }
        proof {
            assert forall|q: int| BITMAP_PAGE_ID < q < NUM_PAGES implies image_page(self.disk(), q) == #[trigger] start.content(q) by {
                assert(self.content(q) == start.content(q));
                if self.resident(q) {
                    let j = self.frame_index(q);
                    assert(!self.frames()[j].dirty);
                }
            }
        }
    }

    /// Marks a free page as in use and pins it; its contents are whatever the file holds.
    pub fn create_page(&mut self) -> (r: Res<(PageId, Page)>)
        requires
            old(self).wf(),
        ensures
            final(self).wf(),
            final(self).capacity() == old(self).capacity(),
            r matches Ok((pid, p)) ==> first_free_page(old(self).disk(), pid as int)
                && p.wf() && p@ == final(self).content(pid as int)
                && final(self).allocated(pid as int)
                && final(self).resident(pid as int)
                && final(self).pins(pid as int) == 1
                && (forall|q: int| q != pid ==> #[trigger] final(self).pins(q) == old(self).pins(q))
                && (forall|q: int| BITMAP_PAGE_ID < q < NUM_PAGES && q != pid ==> #[trigger] final(self).content(q) == old(self).content(q))
                && (forall|q: int| q != pid ==> #[trigger] final(self).allocated(q) == old(self).allocated(q)),
            r matches Err(e) ==> e is NoFreePage || e is BufferFull,
            r matches Ok((pid, _)) ==> !old(self).resident(pid as int),
            (exists|q: int| FIRST_PAGE_ID <= q < NUM_PAGES && !old(self).allocated(q)) && old(self).has_room() ==> r is Ok,
            r is Err ==> (forall|q: int| old(self).allocated(q) ==> #[trigger] final(self).allocated(q))
                && (forall|q: int| BITMAP_PAGE_ID < q < NUM_PAGES ==> #[trigger] final(self).content(q) == old(self).content(q))
                && same_pins_all(final(self), old(self)),
            r matches Err(e) && e is NoFreePage ==> final(self).frames() == old(self).frames()
                && final(self).disk() == old(self).disk()
                && forall|q: int| FIRST_PAGE_ID <= q < NUM_PAGES ==> old(self).allocated(q),
    {
        let ghost old_bm = *self;
        let page_id = self.diskmgr.allocate_page()?;
        proof {
            lemma_image_size();
            assert(!old_bm.resident(page_id as int)) by {
                if old_bm.resident(page_id as int) {
                    old_bm.lemma_resident_allocated(page_id as int);
                }
            }
            assert forall|q: int| 0 < q < NUM_PAGES implies image_page(self.disk(), q) == image_page(old_bm.disk(), q) by {
                crate::diskmgr::lemma_page_type_write(old_bm.disk(), page_id as int, 1u8, q);
            }
            assert(self.frames() == old_bm.frames());
            assert forall|j: int| 0 <= j < self.frames().len() implies {
                let f = #[trigger] self.frames()[j];
                &&& f.page.len() == PAGE_BYTE
                &&& BITMAP_PAGE_ID < f.page_id < NUM_PAGES
                &&& !page_free(self.disk(), f.page_id as int)
                &&& !f.dirty ==> f.page == image_page(self.disk(), f.page_id as int)
            } by {
                assert(old_bm.frames()[j] == self.frames()[j]);
            }
            assert forall|q: int| #[trigger] self.resident(q) == old_bm.resident(q) by {}
            assert forall|q: int| #[trigger] self.pins(q) == old_bm.pins(q) by {}
            assert forall|q: int| BITMAP_PAGE_ID < q < NUM_PAGES implies #[trigger] self.content(q) == old_bm.content(q) by {}
            assert forall|q: int| old_bm.allocated(q) implies #[trigger] self.allocated(q) by {}
        }
        let ghost mid = *self;
        let page = match self.pin_page(page_id) {
            Ok(p) => p,
            Err(_) => return Err(Error::BufferFull),
        };
        Ok((page_id, page))
    }
    /// Marks page `page_id` as in use where it is free, leaving its contents as the file holds
    /// them; `InvalidArg` for the bitmap page and for a page the file does not have.
    pub fn reserve_page(&mut self, page_id: PageId) -> (r: Res<()>)
        requires
            old(self).wf(),
        ensures
            final(self).wf(),
            final(self).capacity() == old(self).capacity(),
            BITMAP_PAGE_ID < page_id < NUM_PAGES ==> r is Ok
                && final(self).allocated(page_id as int)
                && (forall|q: int| q != page_id ==> #[trigger] final(self).allocated(q) == old(self).allocated(q))
                && (forall|q: int| BITMAP_PAGE_ID < q < NUM_PAGES ==> #[trigger] final(self).content(q) == old(self).content(q))
                && same_pins_all(final(self), old(self)),
            !(BITMAP_PAGE_ID < page_id < NUM_PAGES) ==> r is Err && r->Err_0 is InvalidArg && *final(self) == *old(self),
    {
        if page_id == BITMAP_PAGE_ID || page_id >= NUM_PAGES {
            return Err(invalid_arg("the page cannot be reserved"));
        }
        let ghost old_bm = *self;
        if self.diskmgr.is_free_page(page_id)? {
            let _ = self.diskmgr.set_page_type(page_id, 1u8);
            proof {
                lemma_image_size();
                assert(!old_bm.resident(page_id as int)) by {
                    if old_bm.resident(page_id as int) {
                        old_bm.lemma_resident_allocated(page_id as int);
                    }
                }
                assert forall|q: int| 0 < q < NUM_PAGES implies image_page(self.disk(), q) == image_page(old_bm.disk(), q) by {
                    crate::diskmgr::lemma_page_type_write(old_bm.disk(), page_id as int, 1u8, q);
                }
                assert(self.frames() == old_bm.frames());
                assert forall|j: int| 0 <= j < self.frames().len() implies {
                    let f = #[trigger] self.frames()[j];
                    &&& f.page.len() == PAGE_BYTE
                    &&& BITMAP_PAGE_ID < f.page_id < NUM_PAGES
                    &&& !page_free(self.disk(), f.page_id as int)
                    &&& !f.dirty ==> f.page == image_page(self.disk(), f.page_id as int)
                } by {
                    assert(old_bm.frames()[j] == self.frames()[j]);
                }
                assert forall|q: int| #[trigger] self.resident(q) == old_bm.resident(q) by {}
                assert forall|q: int| #[trigger] self.pins(q) == old_bm.pins(q) by {}
                assert forall|q: int| BITMAP_PAGE_ID < q < NUM_PAGES implies #[trigger] self.content(q) == old_bm.content(q) by {}
            }
        }
        Ok(())
    }

    /// Drops the frame of page `page_id`, if any, and marks the page free; `InvalidArg` where
    /// it is pinned, is the bitmap page or the file has no such page.
    pub fn free_page(&mut self, page_id: PageId) -> (r: Res<()>)
        requires
            old(self).wf(),
        ensures
            final(self).wf(),
            final(self).capacity() == old(self).capacity(),
            !(BITMAP_PAGE_ID < page_id < NUM_PAGES) || old(self).pins(page_id as int) > 0 ==> r is Err
                && r->Err_0 is InvalidArg && *final(self) == *old(self),
            BITMAP_PAGE_ID < page_id < NUM_PAGES && old(self).pins(page_id as int) == 0 ==> r is Ok
                && !final(self).allocated(page_id as int)
                && !final(self).resident(page_id as int)
                && (forall|q: int| q != page_id ==> #[trigger] final(self).allocated(q) == old(self).allocated(q))
                && (forall|q: int| BITMAP_PAGE_ID < q < NUM_PAGES && q != page_id ==> #[trigger] final(self).content(q) == old(self).content(q))
                && same_pins_all(final(self), old(self)),
    {
        if page_id == BITMAP_PAGE_ID || page_id >= NUM_PAGES {
            return Err(invalid_arg("the page cannot be freed"));
        }
        let ghost old_bm = *self;
        match self.get_frame_index(page_id) {
            Some(idx) => {
                assert(self.frames()[idx as int] == self.buf_pool@[idx as int]@);
                if self.buf_pool[idx].get_pin_count() > 0 {
                    return Err(invalid_arg("the page is pinned"));
                }
                let _ = self.buf_pool.remove(idx);
                proof {
                    assert(self.frames() =~= old_bm.frames().remove(idx as int));
                }
            },
            None => {},
        }
        let ghost mid = *self;
        let _ = self.diskmgr.deallocate_page(page_id);
        proof {
            lemma_image_size();
            let n = old_bm.frames().len();
            assert forall|q: int| 0 < q < NUM_PAGES implies image_page(self.disk(), q) == image_page(old_bm.disk(), q) by {
                crate::diskmgr::lemma_page_type_write(old_bm.disk(), page_id as int, 0u8, q);
            }
            assert forall|j: int| 0 <= j < self.frames().len() implies self.frames()[j].page_id != page_id by {
                if old_bm.resident(page_id as int) {
                    let idx = old_bm.frame_index(page_id as int);
                    if j < idx {
                        assert(self.frames()[j] == old_bm.frames()[j]);
                        assert(old_bm.frames()[j].page_id != old_bm.frames()[idx].page_id);
                    } else {
                        assert(self.frames()[j] == old_bm.frames()[j + 1]);
                        assert(old_bm.frames()[idx].page_id != old_bm.frames()[j + 1].page_id);
                    }
                } else {
                    assert(self.frames()[j] == old_bm.frames()[j]);
                }
            }
            assert forall|j: int| 0 <= j < self.frames().len() implies #[trigger] self.frames()[j] == (if old_bm.resident(page_id as int) && j >= old_bm.frame_index(page_id as int) {
                old_bm.frames()[j + 1] } else { old_bm.frames()[j] }) by {}
            assert forall|j: int| 0 <= j < self.frames().len() implies {
                let f = #[trigger] self.frames()[j];
                &&& f.page.len() == PAGE_BYTE
                &&& BITMAP_PAGE_ID < f.page_id < NUM_PAGES
                &&& !page_free(self.disk(), f.page_id as int)
                &&& !f.dirty ==> f.page == image_page(self.disk(), f.page_id as int)
            } by {}
            assert forall|a: int, b: int| 0 <= a < b < self.frames().len() implies self.frames()[a].page_id != self.frames()[b].page_id by {
                if old_bm.resident(page_id as int) {
                    let idx = old_bm.frame_index(page_id as int);
                    if a >= idx {
                        assert(old_bm.frames()[a + 1].page_id != old_bm.frames()[b + 1].page_id);
                    } else if b >= idx {
                        assert(old_bm.frames()[a].page_id != old_bm.frames()[b + 1].page_id);
                    } else {
                        assert(old_bm.frames()[a].page_id != old_bm.frames()[b].page_id);
                    }
                } else {
                    assert(old_bm.frames()[a].page_id != old_bm.frames()[b].page_id);
                }
            }
            assert(self.wf());
            assert forall|q: int| q != page_id implies #[trigger] self.pins(q) == old_bm.pins(q)
                && self.resident(q) == old_bm.resident(q)
                && (BITMAP_PAGE_ID < q < NUM_PAGES ==> self.content(q) == old_bm.content(q)) by {
                if old_bm.resident(q) {
                    let j = old_bm.frame_index(q);
                    old_bm.lemma_index(j);
                    let k = if old_bm.resident(page_id as int) && j > old_bm.frame_index(page_id as int) { j - 1 } else { j };
                    if old_bm.resident(page_id as int) {
                        assert(j != old_bm.frame_index(page_id as int));
                    }
                    assert(self.frames()[k].page_id == q);
                    self.lemma_index(k);
                }
                if self.resident(q) {
                    let k = self.frame_index(q);
                    assert(self.frames()[k].page_id == q);
                }
            }
            assert(!self.resident(page_id as int)) by {
                if self.resident(page_id as int) {
                    let k = self.frame_index(page_id as int);
                }
            }
            assert forall|q: int| #[trigger] self.pins(q) == old_bm.pins(q) by {
                if q == page_id {
                    assert(!self.resident(page_id as int));
                } else {
                    assert(self.pins(q) == old_bm.pins(q) && self.resident(q) == old_bm.resident(q));
                }
            }
            assert forall|q: int| BITMAP_PAGE_ID < q < NUM_PAGES && q != page_id implies #[trigger] self.content(q) == old_bm.content(q) by {
                assert(self.pins(q) == old_bm.pins(q));
            }
            assert forall|q: int| q != page_id implies #[trigger] self.allocated(q) == old_bm.allocated(q) by {}
        }
        Ok(())
    }

    /// A page that could be pinned still can after another page was pinned and unpinned.
    pub proof fn lemma_can_pin_kept(&self, old_bm: &BufMgr, p: int)
        requires
            old_bm.wf(),
            self.wf(),
            self.capacity() == old_bm.capacity(),
            same_pins_all(self, old_bm),
            forall|q: int| old_bm.allocated(q) ==> #[trigger] self.allocated(q),
            self.resident(p),
            old_bm.resident(p) ==> self.frames().len() == old_bm.frames().len()
                && forall|q: int| #[trigger] self.resident(q) == old_bm.resident(q),
            !old_bm.resident(p) ==> self.has_room(),
        ensures
            forall|q: int| old_bm.can_pin(q) ==> #[trigger] self.can_pin(q),
            old_bm.has_room() ==> self.has_room(),
    {
        if old_bm.has_room() && old_bm.resident(p) && old_bm.frames().len() >= old_bm.capacity() {
            let i = choose|i: int| 0 <= i < old_bm.frames().len() && old_bm.frames()[i].pin_count == 0;
            let r = old_bm.frames()[i].page_id as int;
            old_bm.lemma_index(i);
            assert(old_bm.pins(r) == 0);
            assert(self.resident(r));
            assert(self.pins(r) == 0);
            let k = self.frame_index(r);
            assert(self.frames()[k].page_id == r);
            assert(self.frames()[k].pin_count == 0);
        }
        assert forall|q: int| old_bm.can_pin(q) implies #[trigger] self.can_pin(q) by {
            assert(self.pins(q) == old_bm.pins(q));
            if !self.resident(q) {
                if old_bm.resident(p) {
                    assert(!old_bm.resident(q));
                    if old_bm.frames().len() >= old_bm.capacity() {
                        let i = choose|i: int| 0 <= i < old_bm.frames().len() && old_bm.frames()[i].pin_count == 0;
                        let r = old_bm.frames()[i].page_id as int;
                        old_bm.lemma_index(i);
                        assert(old_bm.pins(r) == 0);
                        assert(self.resident(r));
                        assert(self.pins(r) == 0);
                        let k = self.frame_index(r);
                        assert(self.frames()[k].page_id == r);
                        assert(self.frames()[k].pin_count == 0);
                    }
                }
            }
        }
    }
}

/// The pins of every page are the same in `a` and `b`.
pub open spec fn same_pins_all(a: &BufMgr, b: &BufMgr) -> bool {
    forall|q: int| #[trigger] a.pins(q) == b.pins(q)
}

/// A full pool whose frames are all pinned refuses a page without a frame; once one of its
/// frames has no pin left, a page without a frame can be pinned again.
pub proof fn lemma_buffer_full(bm: &BufMgr, later: &BufMgr, pid: int, i: int)
    requires
        bm.wf(),
        bm.frames().len() == bm.capacity(),
        forall|j: int| 0 <= j < bm.frames().len() ==> #[trigger] bm.frames()[j].pin_count > 0,
        !bm.resident(pid),
        0 <= i < later.frames().len(),
        later.frames()[i].pin_count == 0,
    ensures
        !bm.has_room(),
        !bm.can_pin(pid),
        later.has_room(),
{
}

} // verus!
