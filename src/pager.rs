use vstd::prelude::*;

use crate::error::Error;

verus! {

/// Pages are numbered from 1.
pub type PageId = u32;

/// Smallest usable size that the file format allows.
pub const MIN_USABLE_SIZE: usize = 480;

/// Size of the file header at the start of page 1.
pub const DATABASE_HEADER_SIZE: usize = 100;

/// Whether `page_size` and `usable_size` are sizes that the file format allows.
pub open spec fn valid_sizes(page_size: int, usable_size: int) -> bool {
    512 <= page_size <= 65536 && MIN_USABLE_SIZE <= usable_size <= page_size
}

/// Whether every page holds exactly `page_size` bytes and the page count fits a page id.
pub open spec fn valid_pages(pages: Seq<Seq<u8>>, page_size: int) -> bool {
    pages.len() < 0x8000_0000 && forall|i: int| 0 <= i < pages.len() ==> #[trigger] pages[i].len()
        == page_size
}

/// Index in the page sequence of page `id`, if the file holds it.
pub open spec fn page_index(n_pages: int, id: int) -> Option<int> {
    if 1 <= id <= n_pages {
        Some(id - 1)
    } else {
        None
    }
}

/// The pages of a database file, held in memory.
///
/// Reads see the current content. Writes replace whole pages; each page keeps its content
/// as of the last commit until the next `commit`, so that `abort` can restore it.
pub struct Pager {
    pages: Vec<Vec<u8>>,
    saved: Vec<Option<Vec<u8>>>,
    page_size: usize,
    usable_size: usize,
    committed: Ghost<Seq<Seq<u8>>>,
}

impl View for Pager {
    type V = Seq<Seq<u8>>;

    closed spec fn view(&self) -> Seq<Seq<u8>> {
        Seq::new(self.pages@.len(), |i: int| self.pages@[i]@)
    }
}

impl Pager {
    /// Size of each page in bytes.
    pub closed spec fn spec_page_size(&self) -> int {
        self.page_size as int
    }

    /// Bytes of each page that b-tree layout uses.
    pub closed spec fn spec_usable_size(&self) -> int {
        self.usable_size as int
    }

    /// The content of the pages as of the last commit.
    pub closed spec fn committed_view(&self) -> Seq<Seq<u8>> {
        self.committed@
    }

    /// Whether the page `i` (0-based) was written since the last commit.
    pub closed spec fn is_dirty(&self, i: int) -> bool {
        self.saved@[i] is Some
    }

    /// The pager's invariant.
    pub closed spec fn wf(&self) -> bool {
        &&& valid_sizes(self.page_size as int, self.usable_size as int)
        &&& valid_pages(self@, self.page_size as int)
        &&& self.saved@.len() == self.pages@.len()
        &&& self.committed@.len() == self.pages@.len()
        &&& valid_pages(self.committed@, self.page_size as int)
        &&& forall|i: int|
            0 <= i < self.pages@.len() ==> #[trigger] self.committed@[i] == match self.saved@[i] {
                Some(p) => p@,
                None => self.pages@[i]@,
            }
    }

    /// What `wf` says of the sizes and of the pages.
    pub proof fn lemma_wf(&self)
        requires
            self.wf(),
        ensures
            valid_sizes(self.spec_page_size(), self.spec_usable_size()),
            valid_pages(self@, self.spec_page_size()),
            valid_pages(self.committed_view(), self.spec_page_size()),
    {
    }

    /// Holds `pages` as the pages of a file whose page size is `page_size` and whose
    /// pages reserve `page_size - usable_size` bytes at their end.
    pub fn new(pages: Vec<Vec<u8>>, page_size: usize, usable_size: usize) -> (r: Result<
        Pager,
        Error,
    >)
        ensures
            match r {
                Ok(p) => {
                    &&& p.wf()
                    &&& p@ == Seq::new(pages@.len(), |i: int| pages@[i]@)
                    &&& p.committed_view() == p@
                    &&& p.spec_page_size() == page_size
                    &&& p.spec_usable_size() == usable_size
                },
                Err(e) => e == Error::Corrupt && !(valid_sizes(page_size as int, usable_size as int)
                    && valid_pages(Seq::new(pages@.len(), |i: int| pages@[i]@), page_size as int)),
            },
    {
        if page_size < 512 || page_size > 65536 || usable_size < MIN_USABLE_SIZE || usable_size
            > page_size || pages.len() >= 0x8000_0000 {
            return Err(Error::Corrupt);
        }
        let ghost model = Seq::new(pages@.len(), |i: int| pages@[i]@);
        let mut saved: Vec<Option<Vec<u8>>> = Vec::new();
        let mut i: usize = 0;
        while i < pages.len()
            invariant
                i <= pages.len(),
                saved@.len() == i,
                forall|j: int| 0 <= j < i ==> saved@[j] is None,
                forall|j: int| 0 <= j < i ==> #[trigger] pages@[j]@.len() == page_size,
                model == Seq::new(pages@.len(), |i: int| pages@[i]@),
            decreases pages.len() - i,
        {
            if pages[i].len() != page_size {
                assert(model[i as int].len() != page_size);
                return Err(Error::Corrupt);
            }
            saved.push(None);
            i += 1;
        }
        let p = Pager { pages, saved, page_size, usable_size, committed: Ghost(model) };
        assert(p@ =~= model);
        Ok(p)
    }

    /// Number of pages in the file.
    pub fn num_pages(&self) -> (r: u32)
        requires
            self.wf(),
        ensures
            r as int == self@.len(),
    {
        self.pages.len() as u32
    }

    /// Size of each page in bytes.
    pub fn page_size(&self) -> (r: usize)
        ensures
            r as int == self.spec_page_size(),
    {
        self.page_size
    }

    /// Bytes of each page that b-tree layout uses.
    pub fn usable_size(&self) -> (r: usize)
        ensures
            r as int == self.spec_usable_size(),
    {
        self.usable_size
    }

    /// A read view of page `id`.
    pub fn get_page(&self, id: PageId) -> (r: Result<&Vec<u8>, Error>)
        requires
            self.wf(),
        ensures
            match r {
                Ok(p) => page_index(self@.len() as int, id as int) == Some(id - 1) && p@ == self@[id
                    - 1] && p@.len() == self.spec_page_size(),
                Err(e) => e == Error::PageNotFound && page_index(self@.len() as int, id as int) is None,
            },
    {
        if id == 0 || id as usize > self.pages.len() {
            return Err(Error::PageNotFound);
        }
        let r = &self.pages[(id - 1) as usize];
        proof {
            assert(valid_pages(self@, self.page_size as int));
            assert(self@[id - 1] == r@);
        }
        Ok(r)
    }

    /// Replaces the content of page `id` with `data`, which must have the page's size.
    pub fn write_page(&mut self, id: PageId, data: Vec<u8>) -> (r: Result<(), Error>)
        requires
            old(self).wf(),
        ensures
            final(self).wf(),
            final(self).spec_page_size() == old(self).spec_page_size(),
            final(self).spec_usable_size() == old(self).spec_usable_size(),
            final(self).committed_view() == old(self).committed_view(),
            match r {
                Ok(()) => {
                    &&& page_index(old(self)@.len() as int, id as int) is Some
                    &&& data@.len() == old(self).spec_page_size()
                    &&& final(self)@ == old(self)@.update(id - 1, data@)
                },
                Err(e) => {
                    &&& final(self)@ == old(self)@
                    &&& e == Error::PageNotFound && page_index(old(self)@.len() as int, id as int)
                        is None || e == Error::Corrupt && page_index(
                        old(self)@.len() as int,
                        id as int,
                    ) is Some && data@.len() != old(self).spec_page_size()
                },
            },
    {
        if id == 0 || id as usize > self.pages.len() {
            return Err(Error::PageNotFound);
        }
        if data.len() != self.page_size {
            return Err(Error::Corrupt);
        }
        let i = (id - 1) as usize;
        let ghost old_view = self@;
        if self.saved[i].is_none() {
            let mut previous = data;
            std::mem::swap(&mut previous, &mut self.pages[i]);
            self.saved.set(i, Some(previous));
        } else {
            self.pages.set(i, data);
        }
        assert(self@ =~= old_view.update(i as int, data@));
        Ok(())
    }

    /// Ends the batch of writes: the current content becomes the content to restore, and the
    /// pages written since the last commit are returned, by ascending id, for the file.
    pub fn commit(&mut self) -> (r: Vec<(PageId, Vec<u8>)>)
        requires
            old(self).wf(),
        ensures
            final(self).wf(),
            final(self)@ == old(self)@,
            final(self).committed_view() == old(self)@,
            final(self).spec_page_size() == old(self).spec_page_size(),
            final(self).spec_usable_size() == old(self).spec_usable_size(),
            forall|k: int|
                0 <= k < r@.len() ==> {
                    let (id, data) = #[trigger] r@[k];
                    &&& 1 <= id <= old(self)@.len()
                    &&& old(self).is_dirty(id - 1)
                    &&& data@ == old(self)@[id - 1]
                },
            forall|k: int, l: int| 0 <= k < l < r@.len() ==> r@[k].0 < r@[l].0,
            forall|i: int|
                0 <= i < old(self)@.len() && old(self).is_dirty(i) ==> exists|k: int|
                    0 <= k < r@.len() && #[trigger] r@[k].0 == i + 1,
    {
        let mut out: Vec<(PageId, Vec<u8>)> = Vec::new();
        let ghost old_self = *self;
        let mut i: usize = 0;
        while i < self.pages.len()
            invariant
                old_self.wf(),
                self.pages == old_self.pages,
                self.page_size == old_self.page_size,
                self.usable_size == old_self.usable_size,
                self.committed == old_self.committed,
                self.saved@.len() == old_self.saved@.len(),
                i <= self.pages.len(),
                forall|j: int| 0 <= j < i ==> self.saved@[j] is None,
                forall|j: int| i <= j < self.saved@.len() ==> self.saved@[j] == old_self.saved@[j],
                forall|k: int|
                    0 <= k < out@.len() ==> {
                        let (id, data) = #[trigger] out@[k];
                        &&& 1 <= id <= i
                        &&& old_self.is_dirty(id - 1)
                        &&& data@ == old_self@[id - 1]
                    },
                forall|k: int, l: int| 0 <= k < l < out@.len() ==> out@[k].0 < out@[l].0,
                forall|j: int|
                    0 <= j < i && old_self.is_dirty(j) ==> exists|k: int|
                        0 <= k < out@.len() && #[trigger] out@[k].0 == j + 1,
            decreases self.pages.len() - i,
        {
            if self.saved[i].is_some() {
                let data = self.pages[i].clone();
                assert(data@ == old_self@[i as int]);
                let ghost before = out@;
                out.push(((i + 1) as PageId, data));
                assert(out@[out@.len() - 1].0 == i + 1);
                assert forall|j: int|
                    0 <= j < i + 1 && old_self.is_dirty(j) implies exists|k: int|
                        0 <= k < out@.len() && #[trigger] out@[k].0 == j + 1 by {
                    if j < i {
                        let k0 = choose|k: int| 0 <= k < before.len() && #[trigger] before[k].0 == j + 1;
                        assert(out@[k0].0 == j + 1);
                    }
                }
                self.saved.set(i, None);
            }
            i += 1;
        }
        self.committed = Ghost(self@);
        out
    }

    /// Discards the writes since the last commit.
    pub fn abort(&mut self)
        requires
            old(self).wf(),
        ensures
            final(self).wf(),
            final(self)@ == old(self).committed_view(),
            final(self).committed_view() == old(self).committed_view(),
            final(self).spec_page_size() == old(self).spec_page_size(),
            final(self).spec_usable_size() == old(self).spec_usable_size(),
    {
        let ghost old_self = *self;
        let mut i: usize = 0;
        while i < self.pages.len()
            invariant
                old_self.wf(),
                self.page_size == old_self.page_size,
                self.usable_size == old_self.usable_size,
                self.committed == old_self.committed,
                self.saved@.len() == old_self.saved@.len(),
                self.pages@.len() == old_self.pages@.len(),
                i <= self.pages.len(),
                forall|j: int| 0 <= j < i ==> self.saved@[j] is None,
                forall|j: int| 0 <= j < i ==> #[trigger] self.pages@[j]@ == old_self.committed@[j],
                forall|j: int| i <= j < self.saved@.len() ==> self.saved@[j] == old_self.saved@[j],
                forall|j: int| i <= j < self.pages@.len() ==> self.pages@[j] == old_self.pages@[j],
            decreases self.pages.len() - i,
        {
            let mut slot: Option<Vec<u8>> = None;
            std::mem::swap(&mut slot, &mut self.saved[i]);
            if let Some(previous) = slot {
                self.pages.set(i, previous);
            }
            i += 1;
        }
        assert(self@ =~= old_self.committed@);
    }
}

/// The 16 bytes that open every database file.
pub const MAGIC: [u8; 16] = [
    0x53, 0x51, 0x4c, 0x69, 0x74, 0x65, 0x20, 0x66, 0x6f, 0x72, 0x6d, 0x61, 0x74, 0x20, 0x33, 0x00,
];

/// Page size and usable size that a file header gives: the page size is the big-endian 16-bit
/// value at offset 16, where 1 stands for 65536; the byte at offset 20 is the number of bytes
/// reserved at the end of each page.
pub open spec fn spec_header_sizes(h: Seq<u8>) -> Option<(int, int)> {
    if h.len() < DATABASE_HEADER_SIZE {
        None
    } else {
        let raw = h[16] as int * 0x100 + h[17] as int;
        let page_size = if raw == 1 {
            65536
        } else {
            raw
        };
        let usable = page_size - h[20] as int;
        if h.subrange(0, 16) != MAGIC@ || !valid_sizes(page_size, usable) {
            None
        } else {
            Some((page_size, usable))
        }
    }
}

/// Reads the page size and usable size from the header of a database file.
pub fn parse_database_header(h: &[u8]) -> (r: Result<(usize, usize), Error>)
    ensures
        match r {
            Ok((p, u)) => spec_header_sizes(h@) == Some((p as int, u as int)),
            Err(e) => e == Error::Corrupt && spec_header_sizes(h@) is None,
        },
{
    if h.len() < DATABASE_HEADER_SIZE {
        return Err(Error::Corrupt);
    }
    let mut i: usize = 0;
    while i < 16
        invariant
            i <= 16,
            h@.len() >= DATABASE_HEADER_SIZE,
            forall|j: int| 0 <= j < i ==> h@[j] == MAGIC@[j],
        decreases 16 - i,
    {
        if h[i] != MAGIC[i] {
            assert(h@.subrange(0, 16)[i as int] != MAGIC@[i as int]);
            return Err(Error::Corrupt);
        }
        i += 1;
    }
    assert(h@.subrange(0, 16) =~= MAGIC@);
    let raw = h[16] as usize * 0x100 + h[17] as usize;
    let page_size = if raw == 1 {
        65536
    } else {
        raw
    };
    if page_size < 512 || h[20] as usize > page_size {
        return Err(Error::Corrupt);
    }
    let usable = page_size - h[20] as usize;
    if usable < MIN_USABLE_SIZE {
        return Err(Error::Corrupt);
    }
    Ok((page_size, usable))
}

/// The bytes of `pages`, one page after the other.
pub open spec fn concat_pages(pages: Seq<Seq<u8>>) -> Seq<u8>
    decreases pages.len(),
{
    if pages.len() == 0 {
        Seq::empty()
    } else {
        concat_pages(pages.drop_last()) + pages.last()
    }
}

impl Pager {
    /// Holds the pages of a whole database file image, sized by its header. Fails with
    /// `Corrupt` where the header is invalid or the image is not a whole number of pages.
    pub fn from_image(data: &[u8]) -> (r: Result<Pager, Error>)
        ensures
            match r {
                Ok(p) => {
                    &&& p.wf()
                    &&& p.committed_view() == p@
                    &&& spec_header_sizes(data@) == Some((p.spec_page_size(), p.spec_usable_size()))
                    &&& concat_pages(p@) == data@
                },
                Err(e) => e == Error::Corrupt && (spec_header_sizes(data@) is None || (
                data@.len() as int) % spec_header_sizes(data@)->Some_0.0 != 0 || (data@.len() as int)
                    / spec_header_sizes(data@)->Some_0.0 >= 0x8000_0000),
            },
    {
        let (page_size, usable) = parse_database_header(data)?;
        if data.len() % page_size != 0 || data.len() / page_size >= 0x8000_0000 {
            return Err(Error::Corrupt);
        }
        let ghost q: int = (data@.len() as int) / (page_size as int);
        proof {
            vstd::arithmetic::div_mod::lemma_fundamental_div_mod(
                data@.len() as int,
                page_size as int,
            );
        }
        let data_len = data.len();
        let mut pages: Vec<Vec<u8>> = Vec::new();
        let mut start: usize = 0;
        let ghost mut model: Seq<Seq<u8>> = Seq::empty();
        while data.len() - start >= page_size
            invariant
                start <= data@.len(),
                data_len == data@.len(),
                512 <= page_size <= 65536,
                model == Seq::new(pages@.len(), |k: int| pages@[k]@),
                concat_pages(model) == data@.subrange(0, start as int),
                forall|k: int| 0 <= k < model.len() ==> #[trigger] model[k].len() == page_size,
                model.len() * page_size == start,
                data@.len() == q * page_size,
                0 <= q < 0x8000_0000,
            decreases data@.len() - start,
        {
            let mut page: Vec<u8> = Vec::new();
            let mut j: usize = 0;
            while j < page_size
                invariant
                    j <= page_size,
                    data_len == data@.len(),
                    start + page_size <= data@.len(),
                    page@ == data@.subrange(start as int, start + j),
                decreases page_size - j,
            {
                page.push(data[start + j]);
                j += 1;
                assert(page@ =~= data@.subrange(start as int, start + j));
            }
            let ghost pv = page@;
            pages.push(page);
            proof {
                let m2 = Seq::new(pages@.len(), |k: int| pages@[k]@);
                assert(m2 =~= model.push(pv));
                assert(model.push(pv).drop_last() =~= model);
                assert(data@.subrange(0, start + page_size) =~= data@.subrange(0, start as int) + pv);
                model = m2;
            }
            proof {
                assert((model.len() - 1 + 1) * page_size == (model.len() - 1) * page_size + page_size)
                    by (nonlinear_arith);
            }
            start = start + page_size;
        }
        proof {
            let n = model.len();
            assert(start == data@.len()) by (nonlinear_arith)
                requires
                    data@.len() == q * page_size,
                    start == n * page_size,
                    start <= data@.len(),
                    data@.len() - start < page_size,
                    page_size > 0,
            ;
            assert(n == q) by (nonlinear_arith)
                requires
                    q * page_size == n * page_size,
                    page_size > 0,
            ;
        }
        assert(data@.subrange(0, start as int) =~= data@);
        let p = Pager::new(pages, page_size, usable)?;
        Ok(p)
    }
}

} // verus!
