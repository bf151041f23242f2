use vstd::prelude::*;

use crate::error::Error;
use crate::pager::PageId;
use crate::pager::DATABASE_HEADER_SIZE;
use crate::varint::be16;
use crate::varint::be32;
use crate::varint::parse_varint;
use crate::varint::lemma_varint_at;
use crate::varint::lemma_varint_round_trip;
use crate::varint::varint_bytes;
use crate::varint::varint_len;
use crate::varint::varint_at;

verus! {

/// The four kinds of b-tree page, told apart by the first byte of the page header.
#[derive(Debug, Clone, Copy, PartialEq, Eq, Structural)]
pub enum BtreePageType {
    IndexInterior,
    TableInterior,
    IndexLeaf,
    TableLeaf,
}

/// The page kind that a header's first byte names.
pub open spec fn page_type_of(b: u8) -> Option<BtreePageType> {
    if b == 2 {
        Some(BtreePageType::IndexInterior)
    } else if b == 5 {
        Some(BtreePageType::TableInterior)
    } else if b == 10 {
        Some(BtreePageType::IndexLeaf)
    } else if b == 13 {
        Some(BtreePageType::TableLeaf)
    } else {
        None
    }
}

impl BtreePageType {
    /// Leaves hold no child pointers.
    pub open spec fn spec_is_leaf(self) -> bool {
        self is IndexLeaf || self is TableLeaf
    }

    /// Table trees are keyed by rowid; index trees by record.
    pub open spec fn spec_is_table(self) -> bool {
        self is TableLeaf || self is TableInterior
    }

    /// Size of the page header: interior pages add the right child's id.
    pub open spec fn spec_header_size(self) -> int {
        if self.spec_is_leaf() {
            8
        } else {
            12
        }
    }

    /// Whether the page is a leaf.
    pub fn is_leaf(&self) -> (r: bool)
        ensures
            r == self.spec_is_leaf(),
    {
        matches!(self, BtreePageType::IndexLeaf | BtreePageType::TableLeaf)
    }

    /// Whether the page belongs to a table tree.
    pub fn is_table(&self) -> (r: bool)
        ensures
            r == self.spec_is_table(),
    {
        matches!(self, BtreePageType::TableLeaf | BtreePageType::TableInterior)
    }

    /// Whether the page belongs to an index tree.
    pub fn is_index(&self) -> (r: bool)
        ensures
            r == !self.spec_is_table(),
    {
        matches!(self, BtreePageType::IndexLeaf | BtreePageType::IndexInterior)
    }

    /// Size in bytes of the page header.
    pub fn header_size(&self) -> (r: usize)
        ensures
            r as int == self.spec_header_size(),
    {
        if self.is_leaf() {
            8
        } else {
            12
        }
    }
}

/// Offset of the b-tree page header: page 1 starts with the file header.
pub open spec fn header_offset(id: int) -> int {
    if id == 1 {
        DATABASE_HEADER_SIZE as int
    } else {
        0
    }
}

/// Offset of the b-tree page header of page `id`.
pub fn page_header_offset(id: PageId) -> (r: usize)
    ensures
        r as int == header_offset(id as int),
{
    if id == 1 {
        DATABASE_HEADER_SIZE
    } else {
        0
    }
}

/// The fields of a b-tree page header.
#[derive(Debug, Clone, Copy, PartialEq, Eq, Structural)]
pub struct PageHeader {
    pub page_type: BtreePageType,
    pub first_freeblock_offset: u16,
    pub n_cells: u16,
    /// Start of the cell content area; a stored 0 stands for 65536.
    pub cell_content_area_offset: u32,
    pub fragmented_free_bytes: u8,
    /// Right-most child; 0 on leaves.
    pub right_page_id: PageId,
}

/// The header of page `id` with content `s`, if it names a b-tree page whose header and cell
/// pointer array lie within the page.
pub open spec fn spec_page_header(s: Seq<u8>, id: int) -> Option<PageHeader> {
    let ho = header_offset(id);
    if ho + 12 > s.len() {
        None
    } else {
        match page_type_of(s[ho]) {
            None => None,
            Some(t) => {
                let n = be16(s, ho + 3);
                let c = be16(s, ho + 5);
                if ho + t.spec_header_size() + 2 * n > s.len() {
                    None
                } else {
                    Some(
                        PageHeader {
                            page_type: t,
                            first_freeblock_offset: be16(s, ho + 1) as u16,
                            n_cells: n as u16,
                            cell_content_area_offset: if c == 0 {
                                65536
                            } else {
                                c as u32
                            },
                            fragmented_free_bytes: s[ho + 7],
                            right_page_id: if t.spec_is_leaf() {
                                0
                            } else {
                                be32(s, ho + 8) as u32
                            },
                        },
                    )
                }
            },
        }
    }
}

/// Reads the big-endian 16-bit integer at `off`.
pub fn read_be16(s: &[u8], off: usize) -> (r: u16)
    requires
        off + 2 <= s@.len(),
    ensures
        r as int == be16(s@, off as int),
{
    s[off] as u16 * 0x100 + s[off + 1] as u16
}

/// Reads the big-endian 32-bit integer at `off`.
pub fn read_be32(s: &[u8], off: usize) -> (r: u32)
    requires
        off + 4 <= s@.len(),
    ensures
        r as int == be32(s@, off as int),
{
    s[off] as u32 * 0x100_0000 + s[off + 1] as u32 * 0x1_0000 + s[off + 2] as u32 * 0x100 + s[off
        + 3] as u32
}

/// Decodes the header of page `id`.
pub fn parse_page_header(s: &[u8], id: PageId) -> (r: Result<PageHeader, Error>)
    requires
        s@.len() <= 65536,
    ensures
        match r {
            Ok(h) => spec_page_header(s@, id as int) == Some(h),
            Err(e) => e == Error::Corrupt && spec_page_header(s@, id as int) is None,
        },
{
    let ho = page_header_offset(id);
    if ho + 12 > s.len() {
        return Err(Error::Corrupt);
    }
    let t = match s[ho] {
        2 => BtreePageType::IndexInterior,
        5 => BtreePageType::TableInterior,
        10 => BtreePageType::IndexLeaf,
        13 => BtreePageType::TableLeaf,
        _ => {
            return Err(Error::Corrupt);
        },
    };
    let n = read_be16(s, ho + 3);
    let c = read_be16(s, ho + 5);
    if ho + t.header_size() + 2 * (n as usize) > s.len() {
        return Err(Error::Corrupt);
    }
    Ok(
        PageHeader {
            page_type: t,
            first_freeblock_offset: read_be16(s, ho + 1),
            n_cells: n,
            cell_content_area_offset: if c == 0 {
                65536
            } else {
                c as u32
            },
            fragmented_free_bytes: s[ho + 7],
            right_page_id: if t.is_leaf() {
                0
            } else {
                read_be32(s, ho + 8)
            },
        },
    )
}

/// Offset of the `i`-th cell pointer: after the page header.
pub open spec fn cell_pointer_offset(id: int, t: BtreePageType, i: int) -> int {
    header_offset(id) + t.spec_header_size() + 2 * i
}

/// Offset of the `i`-th cell of the page, as its cell pointer gives it.
pub open spec fn cell_ptr(s: Seq<u8>, id: int, t: BtreePageType, i: int) -> int {
    be16(s, cell_pointer_offset(id, t, i))
}

/// Reads the `i`-th cell pointer; fails where it points past the page.
pub fn cell_offset(s: &[u8], id: PageId, h: &PageHeader, i: u16) -> (r: Result<usize, Error>)
    requires
        spec_page_header(s@, id as int) == Some(*h),
        i < h.n_cells,
    ensures
        match r {
            Ok(off) => off as int == cell_ptr(s@, id as int, h.page_type, i as int) && off
                < s@.len(),
            Err(e) => e == Error::Corrupt && cell_ptr(s@, id as int, h.page_type, i as int)
                >= s@.len(),
        },
{
    let p = page_header_offset(id) + h.page_type.header_size() + 2 * (i as usize);
    let off = read_be16(s, p) as usize;
    if off >= s.len() {
        Err(Error::Corrupt)
    } else {
        Ok(off)
    }
}

/// The left child of interior cell `i`.
pub open spec fn spec_interior_child(s: Seq<u8>, id: int, h: PageHeader, i: int) -> Option<
    PageId,
> {
    let off = cell_ptr(s, id, h.page_type, i);
    if off + 4 > s.len() {
        None
    } else {
        Some(be32(s, off) as u32)
    }
}

/// The child that a descent through position `i` of an interior page reaches: the left child
/// of cell `i`, or the right-most child past the last cell.
pub open spec fn spec_child_at(s: Seq<u8>, id: int, h: PageHeader, i: int) -> Option<PageId> {
    if i < h.n_cells {
        spec_interior_child(s, id, h, i)
    } else {
        Some(h.right_page_id)
    }
}

/// Reads the left child of interior cell `i`.
pub fn parse_btree_interior_cell_page_id(s: &[u8], id: PageId, h: &PageHeader, i: u16) -> (r:
    Result<PageId, Error>)
    requires
        spec_page_header(s@, id as int) == Some(*h),
        i < h.n_cells,
    ensures
        match r {
            Ok(c) => spec_interior_child(s@, id as int, *h, i as int) == Some(c),
            Err(e) => e == Error::Corrupt && spec_interior_child(s@, id as int, *h, i as int)
                is None,
        },
{
    let off = cell_offset(s, id, h, i)?;
    if off + 4 > s.len() {
        return Err(Error::Corrupt);
    }
    Ok(read_be32(s, off))
}

/// The rowid of table cell `i`: after the payload size on leaves, after the left child on
/// interior pages. The varint holds the rowid's two's complement bits.
pub open spec fn spec_table_cell_key(s: Seq<u8>, id: int, h: PageHeader, i: int) -> Option<i64> {
    let off = cell_ptr(s, id, h.page_type, i);
    if h.page_type is TableLeaf {
        match varint_at(s, off) {
            Some((_, n)) => match varint_at(s, off + n) {
                Some((k, _)) => Some(#[verifier::truncate] (k as i64)),
                None => None,
            },
            None => None,
        }
    } else if h.page_type is TableInterior {
        match varint_at(s, off + 4) {
            Some((k, _)) => Some(#[verifier::truncate] (k as i64)),
            None => None,
        }
    } else {
        None
    }
}

/// Reads the rowid of table cell `i`.
pub fn table_cell_key(s: &[u8], id: PageId, h: &PageHeader, i: u16) -> (r: Result<i64, Error>)
    requires
        spec_page_header(s@, id as int) == Some(*h),
        i < h.n_cells,
    ensures
        match r {
            Ok(k) => spec_table_cell_key(s@, id as int, *h, i as int) == Some(k),
            Err(e) => e == Error::Corrupt && spec_table_cell_key(s@, id as int, *h, i as int)
                is None,
        },
{
    let off = match cell_offset(s, id, h, i) {
        Ok(off) => off,
        Err(e) => {
            assert(varint_at(s@, cell_ptr(s@, id as int, h.page_type, i as int)) is None);
            assert(varint_at(s@, cell_ptr(s@, id as int, h.page_type, i as int) + 4) is None);
            return Err(e);
        },
    };
    match h.page_type {
        BtreePageType::TableLeaf => {
            let (_, n) = match parse_varint(s, off) {
                Some(x) => x,
                None => {
                    return Err(Error::Corrupt);
                },
            };
            match parse_varint(s, off + n) {
                Some((k, _)) => Ok(#[verifier::truncate] (k as i64)),
                None => Err(Error::Corrupt),
            }
        },
        BtreePageType::TableInterior => {
            match parse_varint(s, off + 4) {
                Some((k, _)) => Ok(#[verifier::truncate] (k as i64)),
                None => Err(Error::Corrupt),
            }
        },
        _ => Err(Error::Corrupt),
    }
}


/// Where the payload of a cell lies: its total size, the bytes held on the page, and the first
/// overflow page that holds the rest.
#[derive(Debug, Clone, Copy, PartialEq, Eq, Structural)]
pub struct PayloadInfo {
    pub payload_size: u32,
    pub local_start: usize,
    pub local_len: usize,
    pub overflow: Option<PageId>,
}

/// Largest payload that a cell holds on its page without overflow.
pub open spec fn max_local(usable: int, table_leaf: bool) -> int {
    if table_leaf {
        usable - 35
    } else {
        (usable - 12) * 64 / 255 - 23
    }
}

/// Smallest number of payload bytes that a cell with overflow keeps on its page.
pub open spec fn min_local(usable: int) -> int {
    (usable - 12) * 32 / 255 - 23
}

/// Number of payload bytes that a cell keeps on its page.
pub open spec fn local_len_of(size: int, usable: int, table_leaf: bool) -> int {
    if size <= max_local(usable, table_leaf) {
        size
    } else {
        let k = min_local(usable) + (size - min_local(usable)) % (usable - 4);
        if k <= max_local(usable, table_leaf) {
            k
        } else {
            min_local(usable)
        }
    }
}

/// Bytes of payload that each overflow page holds, after its next-page id.
pub open spec fn overflow_capacity(usable: int) -> int {
    usable - 4
}

/// The payload of `size` bytes whose local part starts at `start`, where it lies within `s`.
/// A payload past the local limit keeps the first overflow page's id after its local part.
pub open spec fn spec_payload_info(
    s: Seq<u8>,
    start: int,
    size: int,
    usable: int,
    table_leaf: bool,
) -> Option<PayloadInfo> {
    let l = local_len_of(size, usable, table_leaf);
    if size > 0x7fff_ffff {
        None
    } else if size <= max_local(usable, table_leaf) {
        if start + size > s.len() {
            None
        } else {
            Some(
                PayloadInfo {
                    payload_size: size as u32,
                    local_start: start as usize,
                    local_len: size as usize,
                    overflow: None,
                },
            )
        }
    } else if start + l + 4 > s.len() {
        None
    } else {
        Some(
            PayloadInfo {
                payload_size: size as u32,
                local_start: start as usize,
                local_len: l as usize,
                overflow: Some(be32(s, start + l) as u32),
            },
        )
    }
}

proof fn lemma_local_bounds(usable: int, table_leaf: bool)
    requires
        480 <= usable <= 65536,
    ensures
        35 <= min_local(usable) <= max_local(usable, table_leaf) < usable - 4,
{
    assert((usable - 12) * 32 / 255 >= 58) by (nonlinear_arith)
        requires
            480 <= usable,
    ;
    assert((usable - 12) * 32 / 255 <= (usable - 12) * 64 / 255) by (nonlinear_arith)
        requires
            480 <= usable,
    ;
    assert((usable - 12) * 64 / 255 < usable - 4 + 23) by (nonlinear_arith)
        requires
            480 <= usable,
    ;
    assert((usable - 12) * 32 / 255 <= usable - 35) by (nonlinear_arith)
        requires
            480 <= usable,
    ;
}

/// Locates a payload of `size` bytes whose local part starts at `start`.
fn payload_info(s: &[u8], start: usize, size: u64, usable: usize, table_leaf: bool) -> (r: Result<
    PayloadInfo,
    Error,
>)
    requires
        480 <= usable <= 65536,
        s@.len() <= 65536,
        start <= s@.len(),
    ensures
        match r {
            Ok(info) => spec_payload_info(s@, start as int, size as int, usable as int, table_leaf)
                == Some(info),
            Err(e) => e == Error::Corrupt && spec_payload_info(
                s@,
                start as int,
                size as int,
                usable as int,
                table_leaf,
            ) is None,
        },
{
    proof {
        lemma_local_bounds(usable as int, table_leaf);
    }
    if size > 0x7fff_ffff {
        return Err(Error::Corrupt);
    }
    let max_local: usize = if table_leaf {
        usable - 35
    } else {
        (usable - 12) * 64 / 255 - 23
    };
    let min_local: usize = (usable - 12) * 32 / 255 - 23;
    let size = size as usize;
    if size <= max_local {
        if size > s.len() - start {
            return Err(Error::Corrupt);
        }
        return Ok(PayloadInfo { payload_size: size as u32, local_start: start, local_len: size, overflow: None });
    }
    let k = min_local + (size - min_local) % (usable - 4);
    let l = if k <= max_local {
        k
    } else {
        min_local
    };
    if l + 4 > s.len() - start {
        return Err(Error::Corrupt);
    }
    Ok(
        PayloadInfo {
            payload_size: size as u32,
            local_start: start,
            local_len: l,
            overflow: Some(read_be32(s, start + l)),
        },
    )
}

/// The rowid and payload of table leaf cell `i`.
pub open spec fn spec_table_leaf_cell(s: Seq<u8>, id: int, h: PageHeader, i: int, usable: int) -> Option<
    (i64, PayloadInfo),
> {
    let off = cell_ptr(s, id, h.page_type, i);
    if !(h.page_type is TableLeaf) {
        None
    } else {
        match varint_at(s, off) {
            Some((size, n1)) => match varint_at(s, off + n1) {
                Some((k, n2)) => match spec_payload_info(s, off + n1 + n2, size, usable, true) {
                    Some(info) => Some((#[verifier::truncate] (k as i64), info)),
                    None => None,
                },
                None => None,
            },
            None => None,
        }
    }
}

/// Reads the rowid and locates the payload of table leaf cell `i`.
pub fn parse_btree_leaf_table_cell(s: &[u8], id: PageId, h: &PageHeader, i: u16, usable: usize) -> (r: Result<
    (i64, PayloadInfo),
    Error,
>)
    requires
        spec_page_header(s@, id as int) == Some(*h),
        i < h.n_cells,
        480 <= usable <= 65536,
        s@.len() <= 65536,
    ensures
        match r {
            Ok(c) => spec_table_leaf_cell(s@, id as int, *h, i as int, usable as int) == Some(c),
            Err(e) => e == Error::Corrupt && spec_table_leaf_cell(
                s@,
                id as int,
                *h,
                i as int,
                usable as int,
            ) is None,
        },
{
    if !matches!(h.page_type, BtreePageType::TableLeaf) {
        return Err(Error::Corrupt);
    }
    let off = match cell_offset(s, id, h, i) {
        Ok(off) => off,
        Err(e) => {
            assert(varint_at(s@, cell_ptr(s@, id as int, h.page_type, i as int)) is None);
            return Err(e);
        },
    };
    let (size, n1) = match parse_varint(s, off) {
        Some(x) => x,
        None => {
            return Err(Error::Corrupt);
        },
    };
    let (k, n2) = match parse_varint(s, off + n1) {
        Some(x) => x,
        None => {
            return Err(Error::Corrupt);
        },
    };
    let info = payload_info(s, off + n1 + n2, size, usable, true)?;
    Ok((#[verifier::truncate] (k as i64), info))
}

/// The payload of index cell `i`: after the left child on interior pages.
pub open spec fn spec_index_cell(s: Seq<u8>, id: int, h: PageHeader, i: int, usable: int) -> Option<
    PayloadInfo,
> {
    let off = cell_ptr(s, id, h.page_type, i) + if h.page_type is IndexInterior {
        4int
    } else {
        0int
    };
    if h.page_type.spec_is_table() || off > s.len() {
        None
    } else {
        match varint_at(s, off) {
            Some((size, n1)) => spec_payload_info(s, off + n1, size, usable, false),
            None => None,
        }
    }
}

/// Locates the payload of index cell `i`.
pub fn index_cell_payload(s: &[u8], id: PageId, h: &PageHeader, i: u16, usable: usize) -> (r: Result<
    PayloadInfo,
    Error,
>)
    requires
        spec_page_header(s@, id as int) == Some(*h),
        i < h.n_cells,
        480 <= usable <= 65536,
        s@.len() <= 65536,
    ensures
        match r {
            Ok(c) => spec_index_cell(s@, id as int, *h, i as int, usable as int) == Some(c),
            Err(e) => e == Error::Corrupt && spec_index_cell(s@, id as int, *h, i as int, usable as int)
                is None,
        },
{
    if h.page_type.is_table() {
        return Err(Error::Corrupt);
    }
    let off = match cell_offset(s, id, h, i) {
        Ok(off) => off,
        Err(e) => {
            return Err(e);
        },
    };
    let off = if matches!(h.page_type, BtreePageType::IndexInterior) {
        off + 4
    } else {
        off
    };
    if off > s.len() {
        return Err(Error::Corrupt);
    }
    let (size, n1) = match parse_varint(s, off) {
        Some(x) => x,
        None => {
            return Err(Error::Corrupt);
        },
    };
    payload_info(s, off + n1, size, usable, false)
}

/// What a located payload satisfies: its local part lies within the page and within the
/// payload, and all of it is local where there is no overflow page.
pub proof fn lemma_payload_info(s: Seq<u8>, start: int, size: int, usable: int, table_leaf: bool)
    requires
        480 <= usable <= 65536,
        s.len() <= 65536,
        0 <= start,
        0 <= size,
        spec_payload_info(s, start, size, usable, table_leaf) is Some,
    ensures
        ({
            let info = spec_payload_info(s, start, size, usable, table_leaf).unwrap();
            &&& info.local_start == start
            &&& info.local_start + info.local_len <= s.len()
            &&& info.local_len <= info.payload_size <= 0x7fff_ffff
            &&& info.overflow is None ==> info.local_len == info.payload_size
        }),
{
    lemma_local_bounds(usable, table_leaf);
    if size > max_local(usable, table_leaf) {
        let m = min_local(usable);
        assert((size - m) % (usable - 4) <= size - m) by (nonlinear_arith)
            requires
                size - m >= 0,
                usable - 4 > 0,
        ;
    }
}

/// The bounds of `lemma_payload_info` for a table leaf cell.
pub proof fn lemma_table_leaf_cell(s: Seq<u8>, id: int, h: PageHeader, i: int, usable: int)
    requires
        480 <= usable <= 65536,
        s.len() <= 65536,
        spec_table_leaf_cell(s, id, h, i, usable) is Some,
    ensures
        ({
            let info = spec_table_leaf_cell(s, id, h, i, usable).unwrap().1;
            &&& info.local_start + info.local_len <= s.len()
            &&& info.local_len <= info.payload_size <= 0x7fff_ffff
            &&& info.overflow is None ==> info.local_len == info.payload_size
        }),
{
    let off = cell_ptr(s, id, h.page_type, i);
    let (size, n1) = varint_at(s, off).unwrap();
    let (k, n2) = varint_at(s, off + n1).unwrap();
    lemma_varint_at(s, off);
    lemma_varint_at(s, off + n1);
    lemma_payload_info(s, off + n1 + n2, size, usable, true);
}

/// The bounds of `lemma_payload_info` for an index cell.
pub proof fn lemma_index_cell(s: Seq<u8>, id: int, h: PageHeader, i: int, usable: int)
    requires
        480 <= usable <= 65536,
        s.len() <= 65536,
        spec_index_cell(s, id, h, i, usable) is Some,
    ensures
        ({
            let info = spec_index_cell(s, id, h, i, usable).unwrap();
            &&& info.local_start + info.local_len <= s.len()
            &&& info.local_len <= info.payload_size <= 0x7fff_ffff
            &&& info.overflow is None ==> info.local_len == info.payload_size
        }),
{
    let off = cell_ptr(s, id, h.page_type, i) + if h.page_type is IndexInterior {
        4int
    } else {
        0int
    };
    let (size, n1) = varint_at(s, off).unwrap();
    lemma_varint_at(s, off);
    lemma_payload_info(s, off + n1, size, usable, false);
}

/// The cell of a table leaf: payload size, rowid, payload.
pub open spec fn table_leaf_cell_bytes(key: i64, payload: Seq<u8>) -> Seq<u8> {
    varint_bytes(payload.len() as u64) + varint_bytes(#[verifier::truncate] (key as u64)) + payload
}

/// A table leaf cell laid out by `table_leaf_cell_bytes`, with a payload that stays on the page,
/// decodes to its rowid and payload.
pub proof fn lemma_leaf_cell_round_trip(
    s: Seq<u8>,
    id: int,
    h: PageHeader,
    i: int,
    usable: int,
    key: i64,
    payload: Seq<u8>,
)
    requires
        h.page_type is TableLeaf,
        480 <= usable <= 65536,
        s.len() <= 65536,
        payload.len() <= usable - 35,
        0 <= cell_ptr(s, id, h.page_type, i),
        cell_ptr(s, id, h.page_type, i) + table_leaf_cell_bytes(key, payload).len() <= s.len(),
        s.subrange(
            cell_ptr(s, id, h.page_type, i),
            cell_ptr(s, id, h.page_type, i) + table_leaf_cell_bytes(key, payload).len(),
        ) == table_leaf_cell_bytes(key, payload),
    ensures
        spec_table_leaf_cell(s, id, h, i, usable) matches Some((k, info)) && k == key
            && info.overflow is None && s.subrange(
            info.local_start as int,
            info.local_start + info.local_len,
        ) == payload,
{
    let off = cell_ptr(s, id, h.page_type, i);
    let cell = table_leaf_cell_bytes(key, payload);
    let ku = #[verifier::truncate] (key as u64);
    let n1 = varint_len(payload.len() as u64);
    let n2 = varint_len(ku);
    assert(s.subrange(off, off + n1) =~= cell.subrange(0, n1));
    assert(cell.subrange(0, n1) =~= varint_bytes(payload.len() as u64));
    lemma_varint_round_trip(s, off, payload.len() as u64);
    assert(s.subrange(off + n1, off + n1 + n2) =~= cell.subrange(n1, n1 + n2));
    assert(cell.subrange(n1, n1 + n2) =~= varint_bytes(ku));
    lemma_varint_round_trip(s, off + n1, ku);
    assert(cell.subrange(n1 + n2, n1 + n2 + payload.len()) =~= payload);
    assert(s.subrange(off + n1 + n2, off + n1 + n2 + payload.len()) =~= cell.subrange(
        n1 + n2,
        n1 + n2 + payload.len(),
    ));
    assert(#[verifier::truncate] ((ku as int) as i64) == key) by {
        assert((key as u64) as i64 == key) by (bit_vector);
    }
}

} // verus!
