use vstd::prelude::*;

use crate::btree::read_be32;
use crate::btree::PayloadInfo;
use crate::error::Error;
use crate::pager::page_index;
use crate::pager::valid_pages;
use crate::pager::valid_sizes;
use crate::pager::PageId;
use crate::pager::Pager;
use crate::varint::be32;

verus! {

/// The first `need` payload bytes that the overflow chain starting at page `id` holds, where
/// the chain is intact that far. Each overflow page starts with the id of the next one and
/// holds `cap` payload bytes after it.
pub open spec fn chain_bytes(pages: Seq<Seq<u8>>, id: int, cap: int, need: int) -> Option<Seq<u8>>
    decreases need,
{
    if need <= 0 {
        Some(Seq::empty())
    } else if cap <= 0 || page_index(pages.len() as int, id) is None || pages[id - 1].len() < cap
        + 4 {
        None
    } else {
        let page = pages[id - 1];
        if need <= cap {
            Some(page.subrange(4, 4 + need))
        } else {
            match chain_bytes(pages, be32(page, 0), cap, need - cap) {
                Some(rest) => Some(page.subrange(4, 4 + cap) + rest),
                None => None,
            }
        }
    }
}

proof fn lemma_chain_len(pages: Seq<Seq<u8>>, id: int, cap: int, need: int)
    requires
        chain_bytes(pages, id, cap, need) is Some,
    ensures
        chain_bytes(pages, id, cap, need).unwrap().len() == if need <= 0 {
            0
        } else {
            need
        },
    decreases need,
{
    if need > 0 && need > cap {
        lemma_chain_len(pages, be32(pages[id - 1], 0), cap, need - cap);
    }
}

/// The bytes that a chain holds for a shorter need are a prefix of those for a longer one.
proof fn lemma_chain_prefix(pages: Seq<Seq<u8>>, id: int, cap: int, a: int, b: int)
    requires
        0 <= a <= b,
        chain_bytes(pages, id, cap, b) is Some,
    ensures
        chain_bytes(pages, id, cap, a) is Some,
        chain_bytes(pages, id, cap, a).unwrap() == chain_bytes(pages, id, cap, b).unwrap().take(a),
    decreases b,
{
    lemma_chain_len(pages, id, cap, b);
    if a <= 0 {
        assert(chain_bytes(pages, id, cap, b).unwrap().take(0) =~= Seq::<u8>::empty());
    } else {
        let page = pages[id - 1];
        if b <= cap {
            assert(page.subrange(4, 4 + a) =~= page.subrange(4, 4 + b).take(a));
        } else if a <= cap {
            let rest = chain_bytes(pages, be32(page, 0), cap, b - cap).unwrap();
            assert(page.subrange(4, 4 + a) =~= (page.subrange(4, 4 + cap) + rest).take(a));
        } else {
            let next = be32(page, 0);
            lemma_chain_prefix(pages, next, cap, a - cap, b - cap);
            let ra = chain_bytes(pages, next, cap, a - cap).unwrap();
            let rb = chain_bytes(pages, next, cap, b - cap).unwrap();
            assert(page.subrange(4, 4 + cap) + ra =~= (page.subrange(4, 4 + cap) + rb).take(a));
        }
    }
}

/// The whole payload that `info` locates on `page`: its local bytes, then the bytes of its
/// overflow chain in `pages`, where the chain is intact.
pub open spec fn payload_content(
    pages: Seq<Seq<u8>>,
    page: Seq<u8>,
    info: PayloadInfo,
    usable: int,
) -> Option<Seq<u8>> {
    let local = page.subrange(info.local_start as int, info.local_start + info.local_len);
    if info.payload_size <= info.local_len {
        Some(local)
    } else {
        match info.overflow {
            None => None,
            Some(id) => match chain_bytes(
                pages,
                id as int,
                usable - 4,
                info.payload_size - info.local_len,
            ) {
                Some(c) => Some(local + c),
                None => None,
            },
        }
    }
}

/// The logical payload of a cell: the bytes on its page, then those of its overflow chain.
pub struct BtreePayload<'a> {
    pager: &'a Pager,
    local: Vec<u8>,
    payload_size: u32,
    overflow: Option<PageId>,
}

impl<'a> BtreePayload<'a> {
    /// Total size of the payload.
    pub closed spec fn spec_size(&self) -> int {
        self.payload_size as int
    }

    /// The bytes held on the cell's page.
    pub closed spec fn spec_local(&self) -> Seq<u8> {
        self.local@
    }

    /// The first overflow page, if the payload does not fit on its page.
    pub closed spec fn spec_overflow(&self) -> Option<PageId> {
        self.overflow
    }

    /// The pages that the overflow chain is read from.
    pub closed spec fn spec_pages(&self) -> Seq<Seq<u8>> {
        self.pager@
    }

    /// Payload bytes per overflow page.
    pub closed spec fn spec_capacity(&self) -> int {
        self.pager.spec_usable_size() - 4
    }

    /// The handle's invariant: the local part lies within the payload and is all of it where
    /// there is no overflow page.
    pub closed spec fn wf(&self) -> bool {
        &&& self.pager.wf()
        &&& self.local@.len() <= self.payload_size <= 0x7fff_ffff
        &&& self.overflow is None ==> self.local@.len() == self.payload_size
    }

    /// The payload bytes from `offset` up to `offset + len` or the end of the payload, where
    /// the overflow chain holds them.
    pub open spec fn spec_range(&self, offset: int, len: int) -> Option<Seq<u8>> {
        let end = if offset + len < self.spec_size() {
            offset + len
        } else {
            self.spec_size()
        };
        let local = self.spec_local();
        if len <= 0 {
            Some(Seq::empty())
        } else if end <= local.len() {
            Some(local.subrange(offset, end))
        } else {
            match self.spec_overflow() {
                None => None,
                Some(id) => match chain_bytes(
                    self.spec_pages(),
                    id as int,
                    self.spec_capacity(),
                    end - local.len(),
                ) {
                    Some(c) => Some((local + c).subrange(offset, end)),
                    None => None,
                },
            }
        }
    }

    /// The whole payload, where its chain is intact, is `size` bytes long and starts with the
    /// bytes held on the page; reading from any offset sees the same bytes as reading it
    /// whole.
    pub proof fn lemma_whole_payload(&self, offset: int, len: int)
        requires
            self.wf(),
            0 <= offset < self.spec_size(),
            len > 0,
            self.spec_range(0, self.spec_size()) is Some,
        ensures
            self.spec_range(0, self.spec_size()).unwrap().len() == self.spec_size(),
            self.spec_range(0, self.spec_size()).unwrap().take(self.spec_local().len() as int)
                == self.spec_local(),
            self.spec_range(offset, len) == Some(
                self.spec_range(0, self.spec_size()).unwrap().subrange(
                    offset,
                    if offset + len < self.spec_size() {
                        offset + len
                    } else {
                        self.spec_size()
                    },
                ),
            ),
    {
        let size = self.spec_size();
        let local = self.local@;
        let whole = self.spec_range(0, size).unwrap();
        self.lemma_range_len(0, size);
        let end = if offset + len < size {
            offset + len
        } else {
            size
        };
        if size <= local.len() {
            assert(whole =~= local);
            assert(whole.take(local.len() as int) =~= local);
            assert(local.subrange(offset, end) =~= whole.subrange(offset, end));
        } else {
            let id = self.overflow.unwrap() as int;
            let cap = self.spec_capacity();
            let c = chain_bytes(self.pager@, id, cap, size - local.len()).unwrap();
            lemma_chain_len(self.pager@, id, cap, size - local.len());
            assert(whole =~= (local + c).subrange(0, size));
            assert(whole.take(local.len() as int) =~= local);
            if end <= local.len() {
                assert(local.subrange(offset, end) =~= whole.subrange(offset, end));
            } else {
                lemma_chain_prefix(self.pager@, id, cap, end - local.len(), size - local.len());
                let c2 = chain_bytes(self.pager@, id, cap, end - local.len()).unwrap();
                assert((local + c2).subrange(offset, end) =~= whole.subrange(offset, end));
            }
        }
    }

    /// A range that the payload holds has the length that `spec_range` promises.
    pub proof fn lemma_range_len(&self, offset: int, len: int)
        requires
            self.wf(),
            0 <= offset < self.spec_size(),
            len > 0,
            self.spec_range(offset, len) is Some,
        ensures
            self.spec_size() <= 0x7fff_ffff,
            self.spec_range(offset, len).unwrap().len() == if offset + len < self.spec_size() {
                len
            } else {
                self.spec_size() - offset
            },
    {
        let end = if offset + len < self.spec_size() {
            offset + len
        } else {
            self.spec_size()
        };
        if end > self.local@.len() {
            lemma_chain_len(
                self.pager@,
                self.overflow.unwrap() as int,
                self.spec_capacity(),
                end - self.local@.len(),
            );
        }
    }

    /// The payload of a cell of `page` that `info` locates, read through `pager`.
    pub(crate) fn from_page(pager: &'a Pager, page: &Vec<u8>, info: PayloadInfo) -> (r: BtreePayload<'a>)
        requires
            pager.wf(),
            info.local_start + info.local_len <= page@.len(),
            info.local_len <= info.payload_size <= 0x7fff_ffff,
            info.overflow is None ==> info.local_len == info.payload_size,
        ensures
            r.wf(),
            r.spec_size() == info.payload_size,
            r.spec_local() == page@.subrange(
                info.local_start as int,
                info.local_start + info.local_len,
            ),
            r.spec_overflow() == info.overflow,
            r.spec_pages() == pager@,
            r.spec_capacity() == pager.spec_usable_size() - 4,
            info.payload_size > 0 ==> r.spec_range(0, info.payload_size as int) == payload_content(
                pager@,
                page@,
                info,
                pager.spec_usable_size(),
            ),
    {
        let mut local: Vec<u8> = Vec::new();
        let mut i: usize = 0;
        let page_len = page.len();
        while i < info.local_len
            invariant
                page_len == page@.len(),
                i <= info.local_len,
                info.local_start + info.local_len <= page@.len(),
                local@ == page@.subrange(info.local_start as int, info.local_start + i),
            decreases info.local_len - i,
        {
            local.push(page[info.local_start + i]);
            i += 1;
            assert(local@ =~= page@.subrange(info.local_start as int, info.local_start + i));
        }
        let r = BtreePayload { pager, local, payload_size: info.payload_size, overflow: info.overflow };
        proof {
            let size = info.payload_size as int;
            if size > 0 && size > info.local_len {
                if let Some(id) = info.overflow {
                    let need = size - info.local_len;
                    if let Some(c) = chain_bytes(pager@, id as int, pager.spec_usable_size() - 4, need) {
                        lemma_chain_len(pager@, id as int, pager.spec_usable_size() - 4, need);
                        assert((r.local@ + c).subrange(0, size) =~= r.local@ + c);
                    }
                }
            } else if size > 0 {
                assert(r.local@.subrange(0, size) =~= r.local@);
            }
        }
        r
    }

    /// The size of the payload.
    pub fn size(&self) -> (r: i32)
        requires
            self.wf(),
        ensures
            r as int == self.spec_size(),
    {
        self.payload_size as i32
    }

    /// The part of the payload held on the cell's page; the whole payload where there is no
    /// overflow page.
    pub fn buf(&self) -> (r: &[u8])
        requires
            self.wf(),
        ensures
            r@ == self.spec_local(),
            r@.len() <= self.spec_size(),
    {
        self.local.as_slice()
    }

    /// Copies the payload from byte `offset` on into `buf`, until `buf` is full or the payload
    /// ends, and returns the number of bytes copied. On failure `buf` is left as it was.
    pub fn load(&self, offset: i32, buf: &mut [u8]) -> (r: Result<usize, Error>)
        requires
            self.wf(),
        ensures
            match r {
                Ok(n) => {
                    &&& 0 <= offset < self.spec_size()
                    &&& self.spec_range(offset as int, old(buf)@.len() as int) is Some
                    &&& n as int == self.spec_range(offset as int, old(buf)@.len() as int).unwrap().len()
                    &&& final(buf)@ == self.spec_range(offset as int, old(buf)@.len() as int).unwrap()
                        + old(buf)@.skip(n as int)
                },
                Err(e) => {
                    &&& final(buf)@ == old(buf)@
                    &&& {
                        ||| e == Error::OffsetOutOfRange && !(0 <= offset < self.spec_size())
                        ||| e == Error::Corrupt && 0 <= offset < self.spec_size() && self.spec_range(
                            offset as int,
                            old(buf)@.len() as int,
                        ) is None
                    }
                },
            },
    {
        let len = buf.len();
        let mut staged: Vec<u8> = Vec::new();
        let mut i: usize = 0;
        while i < len
            invariant
                i <= len,
                len == buf@.len(),
                staged@.len() == i,
            decreases len - i,
        {
            staged.push(0);
            i += 1;
        }
        let n = self.load_into(offset, staged.as_mut_slice())?;
        let ghost range = staged@.take(n as int);
        let mut j: usize = 0;
        while j < n
            invariant
                j <= n <= len,
                len == buf@.len(),
                staged@.len() == len,
                forall|k: int| 0 <= k < j ==> buf@[k] == staged@[k],
                forall|k: int| j <= k < len ==> buf@[k] == old(buf)@[k],
            decreases n - j,
        {
            buf[j] = staged[j];
            j += 1;
        }
        assert(buf@ =~= staged@.take(n as int) + old(buf)@.skip(n as int));
        assert(staged@.take(n as int) =~= self.spec_range(offset as int, len as int).unwrap());
        Ok(n)
    }

    /// Copies as `load` does, but leaves `buf` partly written where it fails.
    fn load_into(&self, offset: i32, buf: &mut [u8]) -> (r: Result<usize, Error>)
        requires
            self.wf(),
        ensures
            final(buf)@.len() == old(buf)@.len(),
            match r {
                Ok(n) => {
                    &&& 0 <= offset < self.spec_size()
                    &&& self.spec_range(offset as int, old(buf)@.len() as int) is Some
                    &&& n as int == self.spec_range(offset as int, old(buf)@.len() as int).unwrap().len()
                    &&& final(buf)@ == self.spec_range(offset as int, old(buf)@.len() as int).unwrap()
                        + old(buf)@.skip(n as int)
                },
                Err(e) => {
                    ||| e == Error::OffsetOutOfRange && !(0 <= offset < self.spec_size())
                    ||| e == Error::Corrupt && 0 <= offset < self.spec_size() && self.spec_range(
                        offset as int,
                        old(buf)@.len() as int,
                    ) is None
                },
            },
    {
        if offset < 0 || offset >= self.size() {
            return Err(Error::OffsetOutOfRange);
        }
        proof {
            self.pager.lemma_wf();
        }
        let ghost orig = buf@;
        let ghost off0 = offset as int;
        let size = self.payload_size as usize;
        let pos = offset as usize;
        let len = buf.len();
        if len == 0 {
            assert(buf@ =~= Seq::<u8>::empty() + orig.skip(0));
            return Ok(0);
        }
        let end: usize = if len < size - pos {
            pos + len
        } else {
            size
        };
        let local_len = self.local.len();
        let mut n_loaded: usize = 0;
        if pos < local_len {
            let stop = if end < local_len {
                end
            } else {
                local_len
            };
            while pos + n_loaded < stop
                invariant
                    pos <= stop <= local_len,
                    local_len == self.local@.len(),
                    stop <= end,
                    end - pos <= len,
                    len == buf@.len(),
                    orig.len() == len,
                    pos + n_loaded <= stop,
                    forall|j: int| n_loaded <= j < len ==> buf@[j] == orig[j],
                    forall|j: int| 0 <= j < n_loaded ==> buf@[j] == self.local@[pos + j],
                decreases stop - pos - n_loaded,
            {
                buf[n_loaded] = self.local[pos + n_loaded];
                n_loaded += 1;
            }
        }
        if end <= local_len {
            assert(buf@ =~= self.spec_range(off0, len as int).unwrap() + orig.skip(n_loaded as int));
            return Ok(n_loaded);
        }
        // The rest comes from the overflow chain.

        let cap = self.pager.usable_size() - 4;
        let ghost pages = self.pager@;
        let ghost need = end - local_len;
        let mut cur = local_len;
        let mut next = self.overflow;
        let ghost mut acc: Seq<u8> = Seq::empty();
        let first = match self.overflow {
            Some(id) => id,
            None => {
                return Err(Error::Corrupt);
            },
        };
        assert(self.local@ + acc =~= self.local@);
        assert(acc + chain_bytes(pages, first as int, cap as int, need as int).unwrap_or(
            Seq::empty(),
        ) =~= chain_bytes(pages, first as int, cap as int, need as int).unwrap_or(Seq::empty()));
        while cur < end
            invariant
                self.wf(),
                pages == self.pager@,
                valid_pages(pages, self.pager.spec_page_size()),
                valid_sizes(self.pager.spec_page_size(), self.pager.spec_usable_size()),
                cap as int == self.pager.spec_usable_size() - 4,
                local_len == self.local@.len(),
                local_len < end <= size,
                size == self.payload_size,
                need == end - local_len,
                end - pos <= len,
                pos < end,
                off0 == pos,
                off0 == offset,
                0 <= off0 < self.spec_size(),
                end == if off0 + len < self.spec_size() {
                    off0 + len
                } else {
                    self.spec_size()
                },
                orig == old(buf)@,
                orig.len() == len,
                len == buf@.len(),
                self.overflow == Some(first),
                local_len <= cur,
                acc.len() == cur - local_len,
                pos <= cur ==> n_loaded == cur - pos,
                pos > cur ==> n_loaded == 0,
                forall|j: int| n_loaded <= j < len ==> buf@[j] == orig[j],
                forall|j: int| 0 <= j < n_loaded ==> buf@[j] == (self.local@ + acc)[pos + j],
                match next {
                    None => cur >= end && chain_bytes(pages, first as int, cap as int, need as int)
                        == Some(acc),
                    Some(id) => chain_bytes(pages, first as int, cap as int, need as int) == match chain_bytes(
                        pages,
                        id as int,
                        cap as int,
                        need - acc.len(),
                    ) {
                        Some(rest) => Some(acc + rest),
                        None => None,
                    },
                },
            decreases end - cur,
        {
            let id = match next {
                Some(id) => id,
                None => {
                    return Err(Error::Corrupt);
                },
            };
            let page = match self.pager.get_page(id) {
                Ok(page) => page,
                Err(_) => {
                    return Err(Error::Corrupt);
                },
            };
            let chunk = if end - cur < cap {
                end - cur
            } else {
                cap
            };
            let ghost piece = page@.subrange(4, 4 + chunk);
            let ghost old_acc = acc;
            proof {
                let need_rem = need - acc.len();
                if need_rem > cap {
                    match chain_bytes(pages, be32(page@, 0), cap as int, need_rem - cap) {
                        Some(rest) => {
                            assert(old_acc + (piece + rest) =~= (old_acc + piece) + rest);
                        },
                        None => {},
                    }
                }
                assert forall|j: int| 0 <= j < n_loaded implies buf@[j] == (self.local@ + old_acc
                    + piece)[pos + j] by {
                    assert(pos + j < cur);
                }
            }
            while pos + n_loaded < cur + chunk
                invariant
                    cur + chunk <= end,
                    end - pos <= len,
                    orig.len() == len,
                    len == buf@.len(),
                    page@.len() >= cap + 4,
                    cap <= 65536,
                    chunk <= cap,
                    pos + n_loaded >= cur,
                    pos + n_loaded <= cur + chunk || n_loaded == 0,
                    pos < end,
                    local_len == self.local@.len(),
                    old_acc.len() == cur - local_len,
                    piece == page@.subrange(4, 4 + chunk),
                    acc == old_acc,
                    forall|j: int| n_loaded <= j < len ==> buf@[j] == orig[j],
                    forall|j: int|
                        0 <= j < n_loaded ==> buf@[j] == (self.local@ + old_acc + piece)[pos
                            + j],
                decreases cur + chunk - pos - n_loaded,
            {
                buf[n_loaded] = page[4 + (pos + n_loaded - cur)];
                n_loaded += 1;
            }
            proof {
                acc = old_acc + piece;
                assert(self.local@ + acc =~= self.local@ + old_acc + piece);
            }
            cur = cur + chunk;
            next = if cur < end {
                Some(read_be32(page, 0))
            } else {
                None
            };
        }
        proof {
            lemma_chain_len(pages, first as int, cap as int, need as int);
            assert(buf@ =~= self.spec_range(off0, len as int).unwrap() + orig.skip(n_loaded as int));
        }
        Ok(n_loaded)
    }
}

} // verus!
