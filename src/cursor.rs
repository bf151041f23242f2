use vstd::prelude::*;

use crate::btree::page_header_offset;
use crate::btree::parse_btree_interior_cell_page_id;
use crate::btree::parse_page_header;
use crate::btree::spec_child_at;
use crate::btree::spec_page_header;
use crate::btree::spec_table_cell_key;
use crate::btree::table_cell_key;
use crate::btree::parse_btree_leaf_table_cell;
use crate::btree::index_cell_payload;
use crate::btree::spec_table_leaf_cell;
use crate::btree::spec_index_cell;
use crate::btree::PageHeader;
use crate::btree::lemma_index_cell;
use crate::btree::lemma_table_leaf_cell;
use crate::error::Error;
use crate::payload::payload_content;
use crate::payload::BtreePayload;
use crate::record::keys_view;
use crate::record::record_cmp;
use crate::record::record_values;
use crate::record::compare_record;
use crate::record::copy_bytes;
use crate::tree::lemma_contained_follows_search;
use crate::tree::lemma_first_is_min;
use crate::tree::lemma_insert_keeps_search;
use crate::tree::lemma_path_pages_ascend;
use crate::tree::path_at_lower_bounds;
use crate::tree::lemma_shape_along;
use crate::tree::lemma_shape_child;
use crate::tree::tree_shape;
use crate::tree::child_hi;
use crate::tree::child_lo;
use crate::tree::child_page;
use crate::tree::lemma_last_is_max;
use crate::tree::lemma_leaf_neighbours;
use crate::tree::lemma_nonempty_along;
use crate::tree::lemma_search_finds_least;
use crate::tree::lemma_successor_next_key;
use crate::tree::path_key;
use crate::tree::table_nonempty;
use crate::tree::lemma_search_finds_none;
use crate::tree::table_tight;
use crate::tree::table_contains;
use crate::tree::table_subtree;
use crate::varint::be16;
use crate::varint::lemma_varint_at;
use crate::varint::lemma_varint_same;
use crate::varint::put_varint;
use crate::varint::varint_at;
use crate::btree::cell_pointer_offset;
use crate::btree::cell_ptr;
use crate::btree::lemma_leaf_cell_round_trip;
use crate::btree::table_leaf_cell_bytes;
use crate::btree::header_offset;
use crate::record::parse_record_payload;
use crate::record::ValueCmp;
use crate::record::ValueView;
use std::cmp::Ordering;
use crate::pager::PageId;
use crate::pager::Pager;

verus! {

/// Deepest path, root included, that a cursor walks; a deeper tree is taken as corrupt.
pub const MAX_DEPTH: usize = 20;

/// The content of page `id`.
pub open spec fn page_of(pages: Seq<Seq<u8>>, id: int) -> Seq<u8> {
    pages[id - 1]
}

/// One level of a cursor's path: a page, its header and the position on it.
///
/// On a page of `n` cells, a position below `n` stands on cell `idx_cell` (or, on an interior
/// page being descended through, on its left child); `n` stands on the right-most child or past
/// the last cell; `n + 1` marks a finished traversal.
#[derive(Debug, Clone, Copy, PartialEq, Eq, Structural)]
pub struct CursorPage {
    pub page_id: PageId,
    pub idx_cell: u16,
    pub header: PageHeader,
}

impl CursorPage {
    /// Number of cells of the page.
    pub open spec fn n_cells(self) -> int {
        self.header.n_cells as int
    }

    /// Whether the page is a leaf.
    pub open spec fn is_leaf(self) -> bool {
        self.header.page_type.spec_is_leaf()
    }

    /// Whether the page belongs to a table tree.
    pub open spec fn is_table(self) -> bool {
        self.header.page_type.spec_is_table()
    }

    /// Reads the header of page `page_id` and positions on its first cell.
    fn new(pager: &Pager, page_id: PageId) -> (r: Result<CursorPage, Error>)
        requires
            pager.wf(),
        ensures
            r == spec_frame(pager@, page_id as int),
            r is Ok ==> r->Ok_0.header.n_cells < 32767,
            r is Err ==> r->Err_0 == Error::Corrupt || r->Err_0 == Error::PageNotFound,
    {
        proof {
            pager.lemma_wf();
        }
        let page = pager.get_page(page_id)?;
        let header = parse_page_header(page, page_id)?;
        proof {
            lemma_n_cells_bound(page@, page_id as int);
        }
        Ok(CursorPage { page_id, idx_cell: 0, header })
    }
}

/// Page `id`, positioned on its first cell; `PageNotFound` past the file, `Corrupt` where the
/// page is no b-tree page.
pub open spec fn spec_frame(pages: Seq<Seq<u8>>, id: int) -> Result<CursorPage, Error> {
    if !(1 <= id <= pages.len()) {
        Err(Error::PageNotFound)
    } else {
        match spec_page_header(page_of(pages, id), id) {
            None => Err(Error::Corrupt),
            Some(h) => Ok(CursorPage { page_id: id as u32, idx_cell: 0, header: h }),
        }
    }
}

proof fn lemma_n_cells_bound(s: Seq<u8>, id: int)
    requires
        s.len() <= 65536,
        spec_page_header(s, id) is Some,
    ensures
        spec_page_header(s, id).unwrap().n_cells < 32767,
{
}

/// Whether frame `f` agrees with the page it names.
pub open spec fn frame_valid(pages: Seq<Seq<u8>>, f: CursorPage) -> bool {
    &&& 1 <= f.page_id <= pages.len()
    &&& spec_page_header(page_of(pages, f.page_id as int), f.page_id as int) == Some(f.header)
    &&& f.idx_cell <= f.n_cells() + 1
}

/// The child that frame `f` leads to through its position.
pub open spec fn child_of(pages: Seq<Seq<u8>>, f: CursorPage) -> Option<PageId> {
    spec_child_at(page_of(pages, f.page_id as int), f.page_id as int, f.header, f.idx_cell as int)
}

/// Whether frame `child` is where the position of interior frame `parent` leads.
pub open spec fn links(pages: Seq<Seq<u8>>, parent: CursorPage, child: CursorPage) -> bool {
    &&& !parent.is_leaf()
    &&& parent.idx_cell <= parent.n_cells()
    &&& child_of(pages, parent) == Some(child.page_id)
}

/// Whether `frames` is a descent from its first page: each frame agrees with its page, and
/// each frame but the last is an interior page whose position leads to the next frame's page.
pub open spec fn path_valid(pages: Seq<Seq<u8>>, frames: Seq<CursorPage>) -> bool {
    &&& frames.len() >= 1
    &&& forall|k: int| 0 <= k < frames.len() ==> frame_valid(pages, #[trigger] frames[k])
    &&& forall|k: int, l: int|
        0 <= k && l == k + 1 && l < frames.len() ==> links(pages, #[trigger] frames[k], #[trigger] frames[l])
}

/// A valid path stays valid when a frame that its last frame leads to is pushed.
proof fn lemma_path_push(pages: Seq<Seq<u8>>, frames: Seq<CursorPage>, f: CursorPage)
    requires
        path_valid(pages, frames),
        links(pages, frames.last(), f),
        frame_valid(pages, f),
    ensures
        path_valid(pages, frames.push(f)),
{
    let after = frames.push(f);
    assert forall|k: int, l: int|
        0 <= k && l == k + 1 && l < after.len() implies links(pages, #[trigger] after[k], #[trigger] after[l]) by {
        if l < frames.len() {
            assert(after[k] == frames[k] && after[l] == frames[l]);
        }
    }
}

/// A prefix of a valid path is valid.
proof fn lemma_path_prefix(pages: Seq<Seq<u8>>, frames: Seq<CursorPage>, n: int)
    requires
        path_valid(pages, frames),
        1 <= n <= frames.len(),
    ensures
        path_valid(pages, frames.take(n)),
{
    let p = frames.take(n);
    assert forall|k: int, l: int|
        0 <= k && l == k + 1 && l < p.len() implies links(pages, #[trigger] p[k], #[trigger] p[l]) by {
        assert(p[k] == frames[k] && p[l] == frames[l]);
    }
}

/// Whether `after` extends the path `before` by a descent through the position of its last
/// frame and then through first children, down to a leaf.
pub open spec fn descends_left_most(
    pages: Seq<Seq<u8>>,
    before: Seq<CursorPage>,
    after: Seq<CursorPage>,
) -> bool {
    &&& before.len() < after.len()
    &&& after.take(before.len() as int) == before
    &&& (path_valid(pages, before) ==> path_valid(pages, after))
    &&& after.last().is_leaf()
    &&& forall|k: int| before.len() <= k < after.len() ==> (#[trigger] after[k]).idx_cell == 0
}

/// The frames of a valid path below its last one stand within their pages.
proof fn lemma_frames_prefix_valid(pages: Seq<Seq<u8>>, frames: Seq<CursorPage>)
    ensures
        path_valid(pages, frames) ==> forall|k: int|
            0 <= k < frames.len() - 1 ==> (#[trigger] frames[k]).idx_cell <= frames[k].n_cells(),
{
    if path_valid(pages, frames) {
        assert forall|k: int| 0 <= k < frames.len() - 1 implies (#[trigger] frames[k]).idx_cell
            <= frames[k].n_cells() by {
            assert(links(pages, frames[k], frames[k + 1]));
        }
    }
}

/// Changing the position on the last frame of a valid path keeps it valid.
proof fn lemma_path_set_last(pages: Seq<Seq<u8>>, frames: Seq<CursorPage>, idx: u16)
    requires
        path_valid(pages, frames),
        idx <= frames.last().n_cells() + 1,
    ensures
        path_valid(pages, frames.update(frames.len() - 1, CursorPage { idx_cell: idx, ..frames.last() })),
{
    let after = frames.update(frames.len() - 1, CursorPage { idx_cell: idx, ..frames.last() });
    assert forall|k: int| 0 <= k < after.len() implies frame_valid(pages, #[trigger] after[k]) by {
        assert(frame_valid(pages, frames[k]));
    }
    assert forall|k: int, l: int|
        0 <= k && l == k + 1 && l < after.len() implies links(pages, #[trigger] after[k], #[trigger] after[l]) by {
        assert(links(pages, frames[k], frames[l]));
    }
}

/// The rowid of cell `i` of the table page of frame `f`.
pub open spec fn key_at(pages: Seq<Seq<u8>>, f: CursorPage, i: int) -> Option<i64> {
    spec_table_cell_key(page_of(pages, f.page_id as int), f.page_id as int, f.header, i)
}

/// Whether the rowids of the cells of page `id` with content `s` all decode and strictly ascend.
pub open spec fn keys_ascending(s: Seq<u8>, id: int, h: PageHeader) -> bool {
    forall|i: int, j: int|
        0 <= i < j < h.n_cells ==> #[trigger] spec_table_cell_key(s, id, h, i) is Some
            && #[trigger] spec_table_cell_key(s, id, h, j) is Some && spec_table_cell_key(
            s,
            id,
            h,
            i,
        ).unwrap() < spec_table_cell_key(s, id, h, j).unwrap()
}

/// Whether `idx` is the first cell of the page whose rowid is not below `key`: every cell
/// before it is below `key`, every cell from it on is not.
pub open spec fn at_lower_bound(s: Seq<u8>, id: int, h: PageHeader, idx: int, key: i64) -> bool {
    &&& forall|j: int|
        0 <= j < idx ==> #[trigger] spec_table_cell_key(s, id, h, j) is Some && spec_table_cell_key(
            s,
            id,
            h,
            j,
        ).unwrap() < key
    &&& forall|j: int|
        idx <= j < h.n_cells ==> #[trigger] spec_table_cell_key(s, id, h, j) is Some
            && spec_table_cell_key(s, id, h, j).unwrap() >= key
}

/// Whether frame `f` stands at the lower bound of `key` where its page's rowids ascend.
pub open spec fn frame_searched(pages: Seq<Seq<u8>>, f: CursorPage, key: i64) -> bool {
    keys_ascending(page_of(pages, f.page_id as int), f.page_id as int, f.header) ==> at_lower_bound(
        page_of(pages, f.page_id as int),
        f.page_id as int,
        f.header,
        f.idx_cell as int,
        key,
    )
}

/// Bisects the cells of table page `id` for `key`: returns the position where the search ends
/// and the rowid found there, `None` past the last cell.
fn search_table_page(s: &Vec<u8>, id: PageId, h: &PageHeader, key: i64) -> (r: Result<
    (u16, Option<i64>),
    Error,
>)
    requires
        spec_page_header(s@, id as int) == Some(*h),
        s@.len() <= 65536,
        h.n_cells < 32767,
        h.page_type.spec_is_table(),
    ensures
        match r {
            Ok((idx, found)) => {
                &&& idx <= h.n_cells
                &&& found == if idx < h.n_cells {
                    spec_table_cell_key(s@, id as int, *h, idx as int)
                } else {
                    None
                }
                &&& idx < h.n_cells ==> found is Some
                &&& keys_ascending(s@, id as int, *h) ==> at_lower_bound(
                    s@,
                    id as int,
                    *h,
                    idx as int,
                    key,
                )
            },
            Err(e) => e == Error::Corrupt,
        },
        (forall|j: int| 0 <= j < h.n_cells ==> #[trigger] spec_table_cell_key(s@, id as int, *h, j)
            is Some) ==> r is Ok,
{
    let n = h.n_cells;
    let mut i_min: u16 = 0;
    let mut i_max: u16 = n;
    let mut max_cell_key: Option<i64> = None;
    while i_min < i_max
        invariant
            spec_page_header(s@, id as int) == Some(*h),
            s@.len() <= 65536,
            n == h.n_cells,
            n < 32767,
            h.page_type.spec_is_table(),
            0 <= i_min <= i_max <= n,
            max_cell_key == if i_max < n {
                spec_table_cell_key(s@, id as int, *h, i_max as int)
            } else {
                None
            },
            i_max < n ==> max_cell_key is Some,
            keys_ascending(s@, id as int, *h) ==> (forall|j: int|
                0 <= j < i_min ==> #[trigger] spec_table_cell_key(s@, id as int, *h, j) is Some
                    && spec_table_cell_key(s@, id as int, *h, j).unwrap() < key),
            keys_ascending(s@, id as int, *h) ==> (forall|j: int|
                i_max <= j < n ==> #[trigger] spec_table_cell_key(s@, id as int, *h, j) is Some
                    && spec_table_cell_key(s@, id as int, *h, j).unwrap() >= key),
        decreases i_max - i_min,
    {
        let i_mid = ((i_min as usize + i_max as usize) / 2) as u16;
        let cell_key = table_cell_key(s.as_slice(), id, h, i_mid)?;
        proof {
            if keys_ascending(s@, id as int, *h) {
                assert forall|j: int| 0 <= j < i_mid implies #[trigger] spec_table_cell_key(
                    s@,
                    id as int,
                    *h,
                    j,
                ) is Some && spec_table_cell_key(s@, id as int, *h, j).unwrap() < cell_key by {
                    assert(spec_table_cell_key(s@, id as int, *h, i_mid as int) is Some);
                }
                assert forall|j: int| i_mid < j < n implies #[trigger] spec_table_cell_key(
                    s@,
                    id as int,
                    *h,
                    j,
                ) is Some && spec_table_cell_key(s@, id as int, *h, j).unwrap() > cell_key by {
                    assert(spec_table_cell_key(s@, id as int, *h, i_mid as int) is Some);
                }
            }
        }
        if key < cell_key {
            i_max = i_mid;
            max_cell_key = Some(cell_key);
        } else if key == cell_key {
            i_min = i_mid;
            i_max = i_mid;
            max_cell_key = Some(cell_key);
        } else {
            i_min = i_mid + 1;
        }
    }
    Ok((i_min, max_cell_key))
}

/// How `keys` compare with the record of index cell `i` of page `id` with content `s`, where
/// the cell and its record decode.
#[verifier::opaque]
pub open spec fn index_cell_cmp(
    pages: Seq<Seq<u8>>,
    s: Seq<u8>,
    id: int,
    h: PageHeader,
    i: int,
    usable: int,
    keys: Seq<ValueCmp>,
) -> Option<Ordering> {
    match spec_index_cell(s, id, h, i, usable) {
        None => None,
        Some(info) => match payload_content(pages, s, info, usable) {
            None => None,
            Some(bytes) => match record_values(bytes) {
                None => None,
                Some(values) => Some(record_cmp(keys_view(keys), values)),
            },
        },
    }
}

/// Rank of an order: `Less`, `Equal`, `Greater` ascending.
pub open spec fn order_rank(o: Ordering) -> int {
    match o {
        Ordering::Less => 0,
        Ordering::Equal => 1,
        Ordering::Greater => 2,
    }
}

/// Whether the records of the cells of an index page all decode and, compared with `keys`,
/// go from above to below the keys as the cells go on: the page is sorted with respect to
/// `keys`.
pub open spec fn cmps_descend(
    pages: Seq<Seq<u8>>,
    s: Seq<u8>,
    id: int,
    h: PageHeader,
    usable: int,
    keys: Seq<ValueCmp>,
) -> bool {
    forall|i: int, j: int|
        0 <= i < j < h.n_cells ==> #[trigger] index_cell_cmp(pages, s, id, h, i, usable, keys)
            is Some && #[trigger] index_cell_cmp(pages, s, id, h, j, usable, keys) is Some
            && order_rank(index_cell_cmp(pages, s, id, h, i, usable, keys).unwrap()) >= order_rank(
            index_cell_cmp(pages, s, id, h, j, usable, keys).unwrap(),
        )
}

/// Whether position `idx` lies at the boundary of the range of `keys` on an index page: no cell
/// before it is above the keys, no cell from it on is below them.
pub open spec fn at_key_boundary(
    pages: Seq<Seq<u8>>,
    s: Seq<u8>,
    id: int,
    h: PageHeader,
    usable: int,
    keys: Seq<ValueCmp>,
    idx: int,
) -> bool {
    &&& forall|j: int|
        0 <= j < idx && j < h.n_cells ==> #[trigger] index_cell_cmp(pages, s, id, h, j, usable, keys)
            is Some && index_cell_cmp(pages, s, id, h, j, usable, keys).unwrap() != Ordering::Less
    &&& forall|j: int|
        idx <= j < h.n_cells ==> #[trigger] index_cell_cmp(pages, s, id, h, j, usable, keys) is Some
            && index_cell_cmp(pages, s, id, h, j, usable, keys).unwrap() != Ordering::Greater
}

/// Whether frame `f` stands at the boundary of the range of `keys` where its page is sorted
/// with respect to them.
pub open spec fn frame_bounds_keys(
    pages: Seq<Seq<u8>>,
    f: CursorPage,
    usable: int,
    keys: Seq<ValueCmp>,
) -> bool {
    let s = page_of(pages, f.page_id as int);
    cmps_descend(pages, s, f.page_id as int, f.header, usable, keys) ==> at_key_boundary(
        pages,
        s,
        f.page_id as int,
        f.header,
        usable,
        keys,
        f.idx_cell as int,
    )
}

/// How `keys` compare with the record of cell `j` of the page of frame `f`.
pub open spec fn cell_cmp(
    pages: Seq<Seq<u8>>,
    f: CursorPage,
    j: int,
    usable: int,
    keys: Seq<ValueCmp>,
) -> Option<Ordering> {
    index_cell_cmp(
        pages,
        page_of(pages, f.page_id as int),
        f.page_id as int,
        f.header,
        j,
        usable,
        keys,
    )
}

/// Rank of how `keys` compare with the record of cell `j` of the page of frame `f`.
pub open spec fn cell_rank(
    pages: Seq<Seq<u8>>,
    f: CursorPage,
    j: int,
    usable: int,
    keys: Seq<ValueCmp>,
) -> int {
    order_rank(cell_cmp(pages, f, j, usable, keys).unwrap())
}

/// Whether the index tree rooted at page `id` is ordered with respect to `keys` down to depth
/// `d`, every record ranking between `lo` and `hi`: on each page the records decode and go from
/// above to below the keys, and the records below position `j` of an interior page rank between
/// those of cells `j` and `j - 1`, as their places in key order between those cells ask.
pub open spec fn index_ordered(
    pages: Seq<Seq<u8>>,
    id: int,
    usable: int,
    keys: Seq<ValueCmp>,
    lo: int,
    hi: int,
    d: nat,
) -> bool
    decreases d,
{
    if d == 0 {
        false
    } else {
        match spec_frame(pages, id) {
            Err(_) => false,
            Ok(f) => {
                &&& !f.is_table()
                &&& cmps_descend(
                    pages,
                    page_of(pages, f.page_id as int),
                    f.page_id as int,
                    f.header,
                    usable,
                    keys,
                )
                &&& forall|j: int|
                    0 <= j < f.n_cells() ==> cell_cmp(pages, f, j, usable, keys) is Some && lo
                        <= #[trigger] cell_rank(pages, f, j, usable, keys) <= hi
                &&& !f.is_leaf() ==> forall|j: int|
                    0 <= j <= f.n_cells() ==> spec_child_at(page_of(pages, id), id, f.header, j)
                        is Some && index_ordered(
                        pages,
                        #[trigger] child_page(pages, f, j),
                        usable,
                        keys,
                        if j < f.n_cells() {
                            cell_rank(pages, f, j, usable, keys)
                        } else {
                            lo
                        },
                        if j > 0 {
                            cell_rank(pages, f, j - 1, usable, keys)
                        } else {
                            hi
                        },
                        (d - 1) as nat,
                    )
            },
        }
    }
}

/// Whether the index tree rooted at page `id`, walked down to depth `d`, holds a record that
/// compares equal to `keys`.
pub open spec fn index_has_match(
    pages: Seq<Seq<u8>>,
    id: int,
    usable: int,
    keys: Seq<ValueCmp>,
    d: nat,
) -> bool
    decreases d,
{
    if d == 0 {
        false
    } else {
        match spec_frame(pages, id) {
            Err(_) => false,
            Ok(f) => {
                ||| exists|j: int|
                    0 <= j < f.n_cells() && #[trigger] cell_cmp(pages, f, j, usable, keys) == Some(
                        Ordering::Equal,
                    )
                ||| !f.is_leaf() && exists|j: int|
                    0 <= j <= f.n_cells() && index_has_match(
                        pages,
                        #[trigger] child_page(pages, f, j),
                        usable,
                        keys,
                        (d - 1) as nat,
                    )
            },
        }
    }
}

/// A record that compares equal to the keys ranks in the middle, so an ordered subtree that
/// holds one has bounds around it.
proof fn lemma_match_in_bounds(
    pages: Seq<Seq<u8>>,
    id: int,
    usable: int,
    keys: Seq<ValueCmp>,
    lo: int,
    hi: int,
    d: nat,
)
    requires
        index_ordered(pages, id, usable, keys, lo, hi, d),
        index_has_match(pages, id, usable, keys, d),
    ensures
        lo <= 1 <= hi,
    decreases d,
{
    assert(d > 0);
    assert(spec_frame(pages, id) is Ok);
    let f = spec_frame(pages, id)->Ok_0;
    if exists|j: int|
        0 <= j < f.n_cells() && #[trigger] cell_cmp(pages, f, j, usable, keys) == Some(
            Ordering::Equal,
        ) {
        let j = choose|j: int|
            0 <= j < f.n_cells() && #[trigger] cell_cmp(pages, f, j, usable, keys) == Some(
                Ordering::Equal,
            );
        assert(cell_rank(pages, f, j, usable, keys) == 1);
        assert(lo <= cell_rank(pages, f, j, usable, keys) <= hi);
    } else {
        let j = choose|j: int|
            0 <= j <= f.n_cells() && index_has_match(
                pages,
                #[trigger] child_page(pages, f, j),
                usable,
                keys,
                (d - 1) as nat,
            );
        let clo = if j < f.n_cells() {
            cell_rank(pages, f, j, usable, keys)
        } else {
            lo
        };
        let chi = if j > 0 {
            cell_rank(pages, f, j - 1, usable, keys)
        } else {
            hi
        };
        assert(index_ordered(pages, child_page(pages, f, j), usable, keys, clo, chi, (d - 1) as nat));
        lemma_match_in_bounds(pages, child_page(pages, f, j), usable, keys, clo, chi, (d - 1) as nat);
        if j < f.n_cells() {
            assert(lo <= cell_rank(pages, f, j, usable, keys));
        }
        if j > 0 {
            assert(cell_rank(pages, f, j - 1, usable, keys) <= hi);
        }
    }
}

/// Whether `o` is an order other than `Greater`.
pub open spec fn not_greater(o: Option<Ordering>) -> bool {
    o matches Some(x) && x != Ordering::Greater
}

/// Whether the position of frame `f`, where it stands on a cell, stands on one whose record is
/// not below `keys`.
pub open spec fn frame_not_below(
    pages: Seq<Seq<u8>>,
    f: CursorPage,
    usable: int,
    keys: Seq<ValueCmp>,
) -> bool {
    f.idx_cell < f.n_cells() ==> not_greater(index_cell_cmp(
        pages,
        page_of(pages, f.page_id as int),
        f.page_id as int,
        f.header,
        f.idx_cell as int,
        usable,
        keys,
    ))
}

/// The record of index cell `i` of page `id` with content `s`, where the cell, its payload
/// and its record decode.
pub open spec fn index_cell_record(
    pages: Seq<Seq<u8>>,
    s: Seq<u8>,
    id: int,
    h: PageHeader,
    i: int,
    usable: int,
) -> Option<Seq<ValueView>> {
    match spec_index_cell(s, id, h, i, usable) {
        None => None,
        Some(info) => if info.payload_size == 0 {
            None
        } else {
            match payload_content(pages, s, info, usable) {
                None => None,
                Some(bytes) => record_values(bytes),
            }
        },
    }
}

/// Whether the index tree rooted at page `id` decodes down to depth `d`: the tree decodes,
/// every page is an index page, and the record of every cell decodes.
pub open spec fn index_decodes(pages: Seq<Seq<u8>>, id: int, usable: int, d: nat) -> bool
    decreases d,
{
    if d == 0 {
        false
    } else {
        match spec_frame(pages, id) {
            Err(_) => false,
            Ok(f) => {
                &&& tree_shape(pages, id, d)
                &&& !f.is_table()
                &&& forall|j: int|
                    0 <= j < f.n_cells() ==> #[trigger] index_cell_record(
                        pages,
                        page_of(pages, id),
                        id,
                        f.header,
                        j,
                        usable,
                    ) is Some
                &&& !f.is_leaf() ==> forall|j: int|
                    0 <= j <= f.n_cells() ==> index_decodes(
                        pages,
                        #[trigger] child_page(pages, f, j),
                        usable,
                        (d - 1) as nat,
                    )
            },
        }
    }
}

/// Bisects the cells of index page `id` for `keys`: returns the position where the search
/// ends and whether the cell there compared equal.
#[verifier::rlimit(30)]
fn search_index_page(
    pager: &Pager,
    s: &Vec<u8>,
    id: PageId,
    h: &PageHeader,
    usable: usize,
    keys: &[ValueCmp],
) -> (r: Result<(u16, bool), Error>)
    requires
        pager.wf(),
        spec_page_header(s@, id as int) == Some(*h),
        s@.len() <= 65536,
        usable == pager.spec_usable_size(),
        h.n_cells < 32767,
    ensures
        match r {
            Ok((idx, found)) => {
                &&& idx <= h.n_cells
                &&& found ==> idx < h.n_cells && index_cell_cmp(
                    pager@,
                    s@,
                    id as int,
                    *h,
                    idx as int,
                    usable as int,
                    keys@,
                ) == Some(Ordering::Equal)
                &&& idx < h.n_cells ==> not_greater(index_cell_cmp(
                    pager@,
                    s@,
                    id as int,
                    *h,
                    idx as int,
                    usable as int,
                    keys@,
                ))
                &&& !found && cmps_descend(pager@, s@, id as int, *h, usable as int, keys@) ==> (
                forall|j: int|
                    0 <= j < h.n_cells ==> #[trigger] index_cell_cmp(
                        pager@,
                        s@,
                        id as int,
                        *h,
                        j,
                        usable as int,
                        keys@,
                    ) == if j < idx {
                        Some(Ordering::Greater)
                    } else {
                        Some(Ordering::Less)
                    })
                &&& cmps_descend(pager@, s@, id as int, *h, usable as int, keys@) ==> at_key_boundary(
                    pager@,
                    s@,
                    id as int,
                    *h,
                    usable as int,
                    keys@,
                    idx as int,
                )
            },
            Err(e) => e == Error::Corrupt,
        },
        (forall|j: int|
            0 <= j < h.n_cells ==> #[trigger] index_cell_record(
                pager@,
                s@,
                id as int,
                *h,
                j,
                usable as int,
            ) is Some) ==> r is Ok,
{
    proof {
        pager.lemma_wf();
    }
    let mut i_min: u16 = 0;
    let mut i_max: u16 = h.n_cells;
    while i_min < i_max
        invariant
            pager.wf(),
            spec_page_header(s@, id as int) == Some(*h),
            s@.len() <= 65536,
            usable == pager.spec_usable_size(),
            480 <= usable <= 65536,
            h.n_cells < 32767,
            0 <= i_min <= i_max <= h.n_cells,
            i_max < h.n_cells ==> index_cell_cmp(
                pager@,
                s@,
                id as int,
                *h,
                i_max as int,
                usable as int,
                keys@,
            ) == Some(Ordering::Less),
            cmps_descend(pager@, s@, id as int, *h, usable as int, keys@) ==> (forall|j: int|
                0 <= j < i_min ==> #[trigger] index_cell_cmp(
                    pager@,
                    s@,
                    id as int,
                    *h,
                    j,
                    usable as int,
                    keys@,
                ) == Some(Ordering::Greater)),
            cmps_descend(pager@, s@, id as int, *h, usable as int, keys@) ==> (forall|j: int|
                i_max <= j < h.n_cells ==> #[trigger] index_cell_cmp(
                    pager@,
                    s@,
                    id as int,
                    *h,
                    j,
                    usable as int,
                    keys@,
                ) == Some(Ordering::Less)),
        decreases i_max - i_min,
    {
        let i_mid = ((i_min as usize + i_max as usize) / 2) as u16;
        let info = index_cell_payload(s.as_slice(), id, h, i_mid, usable)?;
        proof {
            lemma_index_cell(s@, id as int, *h, i_mid as int, usable as int);
        }
        let payload = BtreePayload::from_page(pager, s, info);
        proof {
            if index_cell_record(pager@, s@, id as int, *h, i_mid as int, usable as int) is Some {
                assert(info.payload_size > 0);
            }
        }
        let record = parse_record_payload(&payload)?;
        let o = compare_record(keys, &record);
        proof {
            assert(index_cell_cmp(pager@, s@, id as int, *h, i_mid as int, usable as int, keys@)
                == Some(o)) by {
                reveal(index_cell_cmp);
            }
            if cmps_descend(pager@, s@, id as int, *h, usable as int, keys@) {
                assert forall|j: int| 0 <= j < i_mid implies order_rank(
                    #[trigger] index_cell_cmp(pager@, s@, id as int, *h, j, usable as int, keys@).unwrap(),
                ) >= order_rank(o) && index_cell_cmp(pager@, s@, id as int, *h, j, usable as int, keys@)
                    is Some by {}
                assert forall|j: int| i_mid < j < h.n_cells implies order_rank(
                    #[trigger] index_cell_cmp(pager@, s@, id as int, *h, j, usable as int, keys@).unwrap(),
                ) <= order_rank(o) && index_cell_cmp(pager@, s@, id as int, *h, j, usable as int, keys@)
                    is Some by {}
            }
        }
        match o {
            Ordering::Less => {
                i_max = i_mid;
            },
            Ordering::Equal => {
                return Ok((i_mid, true));
            },
            Ordering::Greater => {
                i_min = i_mid + 1;
            },
        }
    }
    Ok((i_min, false))
}

/// Writes `v` big-endian at `off`.
fn write_be16(buf: &mut Vec<u8>, off: usize, v: u16)
    requires
        off + 2 <= old(buf)@.len() <= 65536,
    ensures
        final(buf)@.len() == old(buf)@.len(),
        be16(final(buf)@, off as int) == v,
        forall|j: int| 0 <= j < old(buf)@.len() && j != off && j != off + 1 ==> final(buf)@[j] == old(buf)@[j],
{
    buf.set(off, (v / 0x100) as u8);
    buf.set(off + 1, (v % 0x100) as u8);
}

/// Moves the bytes of `[from, to)` two bytes up.
fn shift_up_2(buf: &mut Vec<u8>, from: usize, to: usize)
    requires
        from <= to,
        to + 2 <= old(buf)@.len() <= 65536,
    ensures
        final(buf)@.len() == old(buf)@.len(),
        forall|j: int| from <= j < to ==> final(buf)@[j + 2] == old(buf)@[j],
        forall|j: int| 0 <= j < from + 2 && j < old(buf)@.len() ==> final(buf)@[j] == old(buf)@[j] || from <= j,
        forall|j: int| 0 <= j < from ==> final(buf)@[j] == old(buf)@[j],
        forall|j: int| to + 2 <= j < old(buf)@.len() ==> final(buf)@[j] == old(buf)@[j],
{
    let mut k: usize = to;
    while k > from
        invariant
            from <= k <= to,
            to + 2 <= buf@.len() <= 65536,
            buf@.len() == old(buf)@.len(),
            forall|j: int| k <= j < to ==> buf@[j + 2] == old(buf)@[j],
            forall|j: int| 0 <= j < k + 2 && j < buf@.len() ==> buf@[j] == old(buf)@[j],
            forall|j: int| to + 2 <= j < buf@.len() ==> buf@[j] == old(buf)@[j],
        decreases k - from,
    {
        k -= 1;
        let b = buf[k];
        buf.set(k + 2, b);
    }
}

/// Copies `src` into `buf` at `off`.
fn write_bytes(buf: &mut Vec<u8>, off: usize, src: &Vec<u8>)
    requires
        off + src@.len() <= old(buf)@.len() <= 65536,
    ensures
        final(buf)@.len() == old(buf)@.len(),
        final(buf)@.subrange(off as int, off + src@.len()) == src@,
        forall|j: int|
            0 <= j < old(buf)@.len() && !(off <= j < off + src@.len()) ==> final(buf)@[j] == old(
                buf,
            )@[j],
{
    let mut i: usize = 0;
    while i < src.len()
        invariant
            i <= src@.len(),
            off + src@.len() <= buf@.len() <= 65536,
            buf@.len() == old(buf)@.len(),
            forall|j: int| 0 <= j < i ==> buf@[off + j] == src@[j],
            forall|j: int|
                0 <= j < buf@.len() && !(off <= j < off + i) ==> buf@[j] == old(buf)@[j],
        decreases src@.len() - i,
    {
        buf.set(off + i, src[i]);
        i += 1;
    }
    assert(buf@.subrange(off as int, off + src@.len()) =~= src@);
}

/// A copy of `page` with `cell` written at the low end of the cell content area and a pointer
/// to it inserted at position `idx` of the cell pointer array.
fn place_cell(page: &Vec<u8>, id: PageId, h: &PageHeader, idx: u16, cell: &Vec<u8>) -> (r: (
    Vec<u8>,
    PageHeader,
))
    requires
        spec_page_header(page@, id as int) == Some(*h),
        page@.len() <= 65536,
        h.n_cells < 32767,
        idx <= h.n_cells,
        cell@.len() >= 1,
        cell_pointer_offset(id as int, h.page_type, h.n_cells as int) + 2 + cell@.len()
            <= h.cell_content_area_offset <= page@.len(),
    ensures
        ({
            let (q, nh) = r;
            let t = h.page_type;
            let off = nh.cell_content_area_offset as int;
            &&& nh == PageHeader {
                n_cells: (h.n_cells + 1) as u16,
                cell_content_area_offset: (h.cell_content_area_offset - cell@.len()) as u32,
                ..*h
            }
            &&& q@.len() == page@.len()
            &&& spec_page_header(q@, id as int) == Some(nh)
            &&& q@.subrange(off, off + cell@.len()) == cell@
            &&& cell_ptr(q@, id as int, t, idx as int) == off
            &&& forall|j: int|
                0 <= j < idx ==> #[trigger] cell_ptr(q@, id as int, t, j) == cell_ptr(
                    page@,
                    id as int,
                    t,
                    j,
                )
            &&& forall|j: int|
                idx < j < nh.n_cells ==> #[trigger] cell_ptr(q@, id as int, t, j) == cell_ptr(
                    page@,
                    id as int,
                    t,
                    j - 1,
                )
            &&& forall|j: int|
                0 <= j < q@.len() && !(header_offset(id as int) <= j < header_offset(id as int) + 8)
                    && !(cell_pointer_offset(id as int, t, idx as int) <= j < cell_pointer_offset(
                    id as int,
                    t,
                    nh.n_cells as int,
                )) && !(off <= j < off + cell@.len()) ==> #[trigger] q@[j] == page@[j]
        }),
{
    let ho = page_header_offset(id);
    let hs = h.page_type.header_size();
    let n = h.n_cells as usize;
    let unallocated = ho + hs + 2 * n;
    let cca = h.cell_content_area_offset as usize;
    let offset = cca - cell.len();
    let ptr = ho + hs + 2 * (idx as usize);
    let mut new_page = copy_bytes(page.as_slice());
    let ghost stage0 = new_page@;
    write_be16(&mut new_page, ho + 3, (n + 1) as u16);
    write_be16(&mut new_page, ho + 5, offset as u16);
    let ghost stage1 = new_page@;
    shift_up_2(&mut new_page, ptr, unallocated);
    let ghost stage2 = new_page@;
    write_be16(&mut new_page, ptr, offset as u16);
    let ghost stage3 = new_page@;
    write_bytes(&mut new_page, offset, cell);
    let new_header = PageHeader {
        n_cells: (n + 1) as u16,
        cell_content_area_offset: offset as u32,
        ..*h
    };
    proof {
        let q = new_page@;
        assert(q[ho as int] == stage0[ho as int]);
        assert(be16(q, ho + 3) == be16(stage1, ho + 3));
        assert(be16(q, ho + 5) == be16(stage1, ho + 5));
        assert(be16(q, ho + 1) == be16(stage0, ho + 1));
        assert(q[ho + 7] == stage0[ho + 7]);
        if !h.page_type.spec_is_leaf() {
            assert(q[ho + 8] == stage0[ho + 8] && q[ho + 9] == stage0[ho + 9] && q[ho + 10] == stage0[ho + 10]
                && q[ho + 11] == stage0[ho + 11]);
        }
        assert(spec_page_header(q, id as int) == Some(new_header));
        assert forall|j: int| 0 <= j < idx implies #[trigger] cell_ptr(q, id as int, h.page_type, j)
            == cell_ptr(stage0, id as int, h.page_type, j) by {
            let o = cell_pointer_offset(id as int, h.page_type, j);
            assert(q[o] == stage0[o] && q[o + 1] == stage0[o + 1]);
        }
        assert forall|j: int| idx < j < n + 1 implies #[trigger] cell_ptr(q, id as int, h.page_type, j)
            == cell_ptr(stage0, id as int, h.page_type, j - 1) by {
            let o = cell_pointer_offset(id as int, h.page_type, j);
            assert(q[o] == stage2[o] && q[o + 1] == stage2[o + 1]);
            assert(stage2[o] == stage1[o - 2] && stage2[o + 1] == stage1[o - 1]);
            assert(stage1[o - 2] == stage0[o - 2] && stage1[o - 1] == stage0[o - 1]);
        }
        assert(q[ptr as int] == stage3[ptr as int] && q[ptr + 1] == stage3[ptr + 1]);
        assert(cell_ptr(q, id as int, h.page_type, idx as int) == offset);
    }
    (new_page, new_header)
}

/// Frame `f` with its position advanced by one.
pub open spec fn advanced(f: CursorPage) -> CursorPage {
    CursorPage { idx_cell: (f.idx_cell + 1) as u16, ..f }
}

/// Whether, in a table tree, the path `after` holds the entry that follows the last cell of
/// the leaf at the end of `before`: the deepest page of `before` with a child left moves to its
/// next child, every page below it having been passed through its right-most child, and the
/// path descends from there through first children to a leaf.
pub open spec fn table_successor(before: Seq<CursorPage>, after: Seq<CursorPage>) -> bool {
    exists|a: int|
        0 <= a < before.len() - 1 && after.len() > a + 1 && #[trigger] after.take(a + 1)
            == before.take(a + 1).update(a, advanced(before[a])) && before[a].idx_cell
            < before[a].n_cells() && (forall|l: int|
            a < l < before.len() - 1 ==> #[trigger] before[l].idx_cell == before[l].n_cells())
            && (forall|k: int| a < k < after.len() ==> #[trigger] after[k].idx_cell == 0)
            && after.last().is_leaf()
}

/// Whether every cell of page `id` starts within the cell content area.
pub open spec fn cells_in_content_area(s: Seq<u8>, id: int, h: PageHeader) -> bool {
    forall|j: int|
        0 <= j < h.n_cells ==> #[trigger] cell_ptr(s, id, h.page_type, j)
            >= h.cell_content_area_offset
}

/// The rowid of a table leaf cell depends only on the bytes from the cell's start on.
proof fn lemma_leaf_key_same(
    s1: Seq<u8>,
    s2: Seq<u8>,
    id: int,
    h1: PageHeader,
    h2: PageHeader,
    i1: int,
    i2: int,
)
    requires
        h1.page_type is TableLeaf,
        h2.page_type == h1.page_type,
        s1.len() == s2.len(),
        cell_ptr(s1, id, h1.page_type, i1) == cell_ptr(s2, id, h2.page_type, i2),
        forall|j: int| cell_ptr(s1, id, h1.page_type, i1) <= j < s1.len() ==> s1[j] == s2[j],
    ensures
        spec_table_cell_key(s1, id, h1, i1) == spec_table_cell_key(s2, id, h2, i2),
{
    let off = cell_ptr(s1, id, h1.page_type, i1);
    lemma_varint_same(s1, s2, off);
    if let Some((_, n)) = varint_at(s1, off) {
        lemma_varint_at(s1, off);
        lemma_varint_same(s1, s2, off + n);
    }
}

/// Inserting a rowid at its lower bound, where it was not present, keeps the rowids of a leaf
/// strictly ascending, provided the other cells lie in the content area, which the insert
/// leaves untouched.
proof fn lemma_insert_keeps_order(
    before: Seq<u8>,
    after: Seq<u8>,
    id: int,
    hb: PageHeader,
    h: PageHeader,
    idx: int,
    key: i64,
)
    requires
        hb.page_type is TableLeaf,
        h.page_type == hb.page_type,
        h.n_cells == hb.n_cells + 1,
        0 <= idx <= hb.n_cells,
        after.len() == before.len(),
        forall|j: int| hb.cell_content_area_offset <= j < after.len() ==> after[j] == before[j],
        forall|j: int|
            0 <= j < idx ==> #[trigger] cell_ptr(after, id, h.page_type, j) == cell_ptr(
                before,
                id,
                hb.page_type,
                j,
            ),
        forall|j: int|
            idx < j < h.n_cells ==> #[trigger] cell_ptr(after, id, h.page_type, j) == cell_ptr(
                before,
                id,
                hb.page_type,
                j - 1,
            ),
        spec_table_cell_key(after, id, h, idx) == Some(key),
        cells_in_content_area(before, id, hb),
        keys_ascending(before, id, hb),
        at_lower_bound(before, id, hb, idx, key),
        idx < hb.n_cells ==> spec_table_cell_key(before, id, hb, idx) != Some(key),
    ensures
        keys_ascending(after, id, h),
{
    // The rowid of each cell after the insert, in terms of the cells before it.
    assert forall|j: int| 0 <= j < h.n_cells && j != idx implies #[trigger] spec_table_cell_key(
        after,
        id,
        h,
        j,
    ) == spec_table_cell_key(before, id, hb, if j < idx {
        j
    } else {
        j - 1
    }) by {
        let jb = if j < idx {
            j
        } else {
            j - 1
        };
        assert(cell_ptr(before, id, hb.page_type, jb) >= hb.cell_content_area_offset);
        lemma_leaf_key_same(before, after, id, hb, h, jb, j);
    }
    assert forall|i: int, j: int| 0 <= i < j < h.n_cells implies #[trigger] spec_table_cell_key(
        after,
        id,
        h,
        i,
    ) is Some && #[trigger] spec_table_cell_key(after, id, h, j) is Some && spec_table_cell_key(
        after,
        id,
        h,
        i,
    ).unwrap() < spec_table_cell_key(after, id, h, j).unwrap() by {
        let ib = if i < idx {
            i
        } else {
            i - 1
        };
        let jb = if j < idx {
            j
        } else {
            j - 1
        };
        if i != idx && j != idx {
            assert(spec_table_cell_key(before, id, hb, ib) is Some);
            assert(spec_table_cell_key(before, id, hb, jb) is Some);
        } else if i == idx {
            assert(spec_table_cell_key(before, id, hb, jb) is Some);
        } else {
            assert(spec_table_cell_key(before, id, hb, ib) is Some);
        }
    }
}

/// Whether, in an index tree, the path `after` holds the entry that follows the last cell of
/// the leaf at the end of `before`: the deepest page of `before` that stands on a cell, every
/// page below it having been passed through its right-most child.
pub open spec fn index_successor_up(before: Seq<CursorPage>, after: Seq<CursorPage>) -> bool {
    exists|a: int|
        0 <= a < before.len() - 1 && #[trigger] before.take(a + 1) == after && before[a].idx_cell
            < before[a].n_cells() && (forall|l: int|
            a < l < before.len() - 1 ==> #[trigger] before[l].idx_cell == before[l].n_cells())
}

/// What inserting rowid `key` with record `payload` into table leaf page `id` (content `s`,
/// header `h`) at position `idx` comes to: a rowid already there, a payload that would need
/// overflow pages or a page with freeblocks, a cell content area outside the page, too little
/// room for the cell and its pointer, or success.
pub open spec fn insert_outcome(
    s: Seq<u8>,
    id: int,
    h: PageHeader,
    idx: int,
    key: i64,
    payload: Seq<u8>,
    usable: int,
) -> Result<(), Error> {
    let cell_len = table_leaf_cell_bytes(key, payload).len() as int;
    let unallocated = cell_pointer_offset(id, h.page_type, h.n_cells as int);
    let cca = h.cell_content_area_offset as int;
    if idx < h.n_cells && spec_table_cell_key(s, id, h, idx) == Some(key) {
        Err(Error::DuplicateKey)
    } else if payload.len() > usable - 35 || h.first_freeblock_offset != 0
        || h.fragmented_free_bytes != 0 {
        Err(Error::Unsupported)
    } else if cca > usable || cca > s.len() || cca < unallocated {
        Err(Error::Corrupt)
    } else if cca - unallocated < cell_len + 2 {
        Err(Error::PageFull)
    } else {
        Ok(())
    }
}

/// Whether `frames` is the path that a table search for `key` takes from page `root`: a valid
/// path from the root through table pages that ends on a leaf, each page positioned at the lower
/// bound of `key` where its rowids ascend.
pub open spec fn searched_path(
    pages: Seq<Seq<u8>>,
    root: int,
    frames: Seq<CursorPage>,
    key: i64,
) -> bool {
    &&& path_valid(pages, frames)
    &&& frames[0].page_id == root
    &&& frames.last().is_leaf()
    &&& frames.last().idx_cell <= frames.last().n_cells()
    &&& forall|k: int|
        0 <= k < frames.len() ==> (#[trigger] frames[k]).is_table() && frame_searched(
            pages,
            frames[k],
            key,
        )
}

/// `frames` with the header of its last frame replaced by `h`.
pub open spec fn with_leaf_header(frames: Seq<CursorPage>, h: PageHeader) -> Seq<CursorPage> {
    frames.update(frames.len() - 1, CursorPage { header: h, ..frames.last() })
}

/// Rewriting the page of the leaf at the end of a valid path, with a header of the same kind,
/// keeps the path valid once the leaf frame takes the new header: no page above it is the leaf.
proof fn lemma_path_after_leaf_write(
    pages: Seq<Seq<u8>>,
    frames: Seq<CursorPage>,
    q: Seq<u8>,
    h: PageHeader,
)
    requires
        path_valid(pages, frames),
        frames.last().is_leaf(),
        h.page_type == frames.last().header.page_type,
        spec_page_header(q, frames.last().page_id as int) == Some(h),
        frames.last().idx_cell <= h.n_cells + 1,
    ensures
        path_valid(
            pages.update(frames.last().page_id - 1, q),
            frames.update(frames.len() - 1, CursorPage { header: h, ..frames.last() }),
        ),
{
    let id = frames.last().page_id as int;
    let new_pages = pages.update(id - 1, q);
    let after = frames.update(frames.len() - 1, CursorPage { header: h, ..frames.last() });
    assert(frame_valid(pages, frames.last()));
    assert forall|k: int| 0 <= k < after.len() implies frame_valid(new_pages, #[trigger] after[k]) by {
        assert(frame_valid(pages, frames[k]));
        if k < frames.len() - 1 {
            assert(links(pages, frames[k], frames[k + 1]));
            assert(frames[k].page_id != id);
        }
    }
    assert forall|k: int, l: int|
        0 <= k && l == k + 1 && l < after.len() implies links(new_pages, #[trigger] after[k], #[trigger] after[l]) by {
        assert(links(pages, frames[k], frames[l]));
        assert(frame_valid(pages, frames[k]));
        assert(frames[k].page_id != id);
    }
}

/// Number of usable bytes per page that the cursor lays cells out with.
pub struct BtreeContext {
    pub usable_size: u32,
}

impl BtreeContext {
    /// The context of a file whose pages have `usable_size` usable bytes.
    pub fn new(usable_size: u32) -> (r: BtreeContext)
        ensures
            r.usable_size == usable_size,
    {
        BtreeContext { usable_size }
    }
}

/// A positioned iterator over one b-tree, holding the path from the root to the current page.
///
/// Only one cursor may write to a tree: a cursor keeps the headers of the pages on its path and
/// fails with `Corrupt` where a page changed under it.
pub struct BtreeCursor {
    root_page_id: PageId,
    usable_size: usize,
    current_page: CursorPage,
    parent_pages: Vec<CursorPage>,
    initialized: bool,
}

impl BtreeCursor {
    /// The path from the root to the current page, current page last.
    pub closed spec fn frames(&self) -> Seq<CursorPage> {
        self.parent_pages@.push(self.current_page)
    }

    /// The current page and position.
    pub closed spec fn current(&self) -> CursorPage {
        self.current_page
    }

    /// The root page of the cursor's tree.
    pub closed spec fn root(&self) -> PageId {
        self.root_page_id
    }

    /// Usable bytes per page that cells are laid out with.
    pub closed spec fn spec_usable_size(&self) -> int {
        self.usable_size as int
    }

    /// Whether a positioning call has succeeded on this cursor.
    pub closed spec fn is_initialized(&self) -> bool {
        self.initialized
    }

    /// The cursor's invariant: a path of bounded depth, from the root, whose upper pages are
    /// interior pages positioned within their children.
    pub closed spec fn wf(&self) -> bool {
        &&& self.parent_pages@.len() < MAX_DEPTH
        &&& 480 <= self.usable_size <= 65536
        &&& forall|k: int|
            0 <= k < self.frames().len() ==> (#[trigger] self.frames()[k]).header.n_cells < 32767
                && self.frames()[k].idx_cell <= self.frames()[k].header.n_cells + 1
        &&& self.frames()[0].page_id == self.root_page_id
        &&& forall|k: int|
            0 <= k < self.parent_pages@.len() ==> !(#[trigger] self.parent_pages@[k]).is_leaf()
                && self.parent_pages@[k].idx_cell <= self.parent_pages@[k].n_cells()
    }

    /// The path of a well-formed cursor starts at its tree's root and is no deeper than
    /// `MAX_DEPTH`.
    pub proof fn lemma_root(&self)
        requires
            self.wf(),
        ensures
            1 <= self.frames().len() <= MAX_DEPTH,
            self.frames()[0].page_id == self.root(),
            self.frames().last() == self.current(),
    {
    }

    proof fn lemma_frames(&self)
        ensures
            self.frames().len() == self.parent_pages@.len() + 1,
            self.frames().last() == self.current_page,
            forall|k: int|
                0 <= k < self.parent_pages@.len() ==> self.frames()[k] == #[trigger] self.parent_pages@[k],
    {
    }

    /// Depth that the tree below the current page may still have.
    pub open spec fn depth_left(&self) -> nat {
        (MAX_DEPTH - self.frames().len() + 1) as nat
    }

    /// Whether the cursor went past the last entry of its tree.
    pub open spec fn is_completed(&self) -> bool {
        self.frames().len() == 1 && (self.current().idx_cell == self.current().n_cells() + 1
            || self.current().n_cells() == 0)
    }

    /// A cursor on the tree rooted at `root_page_id`, not positioned yet.
    pub fn new(root_page_id: PageId, pager: &Pager, btree_ctx: &BtreeContext) -> (r: Result<
        BtreeCursor,
        Error,
    >)
        requires
            pager.wf(),
        ensures
            match r {
                Ok(c) => {
                    &&& c.wf()
                    &&& !c.is_initialized()
                    &&& spec_frame(pager@, root_page_id as int) == Ok::<CursorPage, Error>(
                        c.current(),
                    )
                    &&& c.frames().len() == 1
                    &&& c.root() == root_page_id
                    &&& c.spec_usable_size() == btree_ctx.usable_size
                    &&& path_valid(pager@, c.frames())
                },
                Err(e) => {
                    ||| e == Error::Corrupt && !(480 <= btree_ctx.usable_size <= 65536)
                    ||| spec_frame(pager@, root_page_id as int) == Err::<CursorPage, Error>(e)
                },
            },
    {
        if btree_ctx.usable_size < 480 || btree_ctx.usable_size > 65536 {
            return Err(Error::Corrupt);
        }
        let page = CursorPage::new(pager, root_page_id)?;
        let c = BtreeCursor {
            root_page_id,
            usable_size: btree_ctx.usable_size as usize,
            current_page: page,
            parent_pages: Vec::new(),
            initialized: false,
        };
        assert(c.frames() =~= seq![page]);
        Ok(c)
    }

    /// Goes back to the root page, read afresh, and its first position.
    fn move_to_root(&mut self, pager: &Pager) -> (r: Result<(), Error>)
        requires
            old(self).wf(),
            pager.wf(),
        ensures
            final(self).wf(),
            final(self).root() == old(self).root(),
            final(self).spec_usable_size() == old(self).spec_usable_size(),
            final(self).is_initialized() == old(self).is_initialized(),
            match r {
                Ok(()) => {
                    &&& spec_frame(pager@, old(self).root() as int) == Ok::<CursorPage, Error>(
                        final(self).current(),
                    )
                    &&& final(self).frames() == seq![final(self).current()]
                    &&& path_valid(pager@, final(self).frames())
                },
                Err(e) => {
                    &&& *final(self) == *old(self)
                    &&& spec_frame(pager@, old(self).root() as int) == Err::<CursorPage, Error>(e)
                },
            },
    {
        let page = CursorPage::new(pager, self.root_page_id)?;
        self.current_page = page;
        self.parent_pages.clear();
        assert(self.frames() =~= seq![page]);
        Ok(())
    }

    /// Descends to page `page_id`, positioned on its first cell.
    fn move_to_child(&mut self, pager: &Pager, page_id: PageId) -> (r: Result<(), Error>)
        requires
            old(self).wf(),
            pager.wf(),
            !old(self).current().is_leaf(),
            old(self).current().idx_cell <= old(self).current().n_cells(),
        ensures
            final(self).root() == old(self).root(),
            final(self).spec_usable_size() == old(self).spec_usable_size(),
            final(self).is_initialized() == old(self).is_initialized(),
            final(self).frames()[0].page_id == old(self).frames()[0].page_id,
            final(self).frames()[0].header == old(self).frames()[0].header,
            match r {
                Ok(()) => {
                    &&& final(self).wf()
                    &&& old(self).frames().len() + 1 < MAX_DEPTH + 1
                    &&& spec_frame(pager@, page_id as int) == Ok::<CursorPage, Error>(
                        final(self).current(),
                    )
                    &&& final(self).frames() == old(self).frames().push(final(self).current())
                },
                Err(e) => {
                    &&& *final(self) == *old(self)
                    &&& {
                        ||| e == Error::Corrupt && old(self).frames().len() >= MAX_DEPTH
                        ||| spec_frame(pager@, page_id as int) == Err::<CursorPage, Error>(e)
                    }
                },
            },
    {
        if self.parent_pages.len() + 1 >= MAX_DEPTH {
            return Err(Error::Corrupt);
        }
        let page = CursorPage::new(pager, page_id)?;
        proof {
            pager.lemma_wf();
            lemma_n_cells_bound(page_of(pager@, page_id as int), page_id as int);
        }
        let parent = self.current_page;
        self.parent_pages.push(parent);
        self.current_page = page;
        assert(self.frames() =~= old(self).frames().push(page));
        Ok(())
    }

    /// Goes up to the parent page; `false` at the root.
    fn back_to_parent(&mut self) -> (r: bool)
        requires
            old(self).wf(),
        ensures
            final(self).wf(),
            final(self).root() == old(self).root(),
            final(self).spec_usable_size() == old(self).spec_usable_size(),
            final(self).is_initialized() == old(self).is_initialized(),
            r == (old(self).frames().len() > 1),
            final(self).frames()[0].page_id == old(self).frames()[0].page_id,
            final(self).frames()[0].header == old(self).frames()[0].header,
            r ==> final(self).frames() == old(self).frames().drop_last(),
            !r ==> *final(self) == *old(self),
    {
        proof {
            self.lemma_frames();
        }
        if self.parent_pages.len() == 0 {
            return false;
        }
        match self.parent_pages.pop() {
            Some(page) => {
                self.current_page = page;
                assert(self.frames() =~= old(self).frames().drop_last());
                true
            },
            None => false,
        }
    }

    /// The content of the current page, where it still has the header that the cursor holds.
    fn current_buffer<'p>(&self, pager: &'p Pager) -> (r: Result<&'p Vec<u8>, Error>)
        requires
            self.wf(),
            pager.wf(),
        ensures
            match r {
                Ok(p) => {
                    &&& 1 <= self.current().page_id <= pager@.len()
                    &&& p@ == page_of(pager@, self.current().page_id as int)
                    &&& p@.len() <= 65536
                    &&& spec_page_header(p@, self.current().page_id as int) == Some(
                        self.current().header,
                    )
                },
                Err(e) => {
                    &&& e == Error::Corrupt || e == Error::PageNotFound
                    &&& !(1 <= self.current().page_id <= pager@.len() && spec_page_header(
                        page_of(pager@, self.current().page_id as int),
                        self.current().page_id as int,
                    ) == Some(self.current().header))
                },
            },
    {
        proof {
            pager.lemma_wf();
        }
        let page = pager.get_page(self.current_page.page_id)?;
        let header = parse_page_header(page, self.current_page.page_id)?;
        if header != self.current_page.header {
            return Err(Error::Corrupt);
        }
        Ok(page)
    }

    /// The child page that the current interior position leads to.
    fn child_page_id(&self, page: &Vec<u8>) -> (r: Result<PageId, Error>)
        requires
            self.wf(),
            page@.len() <= 65536,
            spec_page_header(page@, self.current().page_id as int) == Some(self.current().header),
            self.current().idx_cell <= self.current().n_cells(),
        ensures
            match r {
                Ok(c) => spec_child_at(
                    page@,
                    self.current().page_id as int,
                    self.current().header,
                    self.current().idx_cell as int,
                ) == Some(c),
                Err(e) => e == Error::Corrupt && spec_child_at(
                    page@,
                    self.current().page_id as int,
                    self.current().header,
                    self.current().idx_cell as int,
                ) is None,
            },
    {
        if self.current_page.idx_cell < self.current_page.header.n_cells {
            parse_btree_interior_cell_page_id(
                page,
                self.current_page.page_id,
                &self.current_page.header,
                self.current_page.idx_cell,
            )
        } else {
            Ok(self.current_page.header.right_page_id)
        }
    }

    /// From the current interior position, descends to the left-most leaf below it. Returns
    /// `false`, and moves nowhere, where the position is past the right-most child.
    fn move_to_left_most(&mut self, pager: &Pager) -> (r: Result<bool, Error>)
        requires
            old(self).wf(),
            pager.wf(),
            !old(self).current().is_leaf(),
        ensures
            final(self).wf(),
            final(self).root() == old(self).root(),
            final(self).spec_usable_size() == old(self).spec_usable_size(),
            final(self).is_initialized() == old(self).is_initialized(),
            r == Ok::<bool, Error>(false) <==> old(self).current().idx_cell
                > old(self).current().n_cells(),
            r == Ok::<bool, Error>(false) ==> *final(self) == *old(self),
            final(self).frames()[0].page_id == old(self).frames()[0].page_id,
            final(self).frames()[0].header == old(self).frames()[0].header,
            r == Ok::<bool, Error>(true) ==> {
                &&& old(self).current().idx_cell <= old(self).current().n_cells()
                &&& descends_left_most(pager@, old(self).frames(), final(self).frames())
            },
            r is Err ==> r->Err_0 == Error::Corrupt || r->Err_0 == Error::PageNotFound,
            frame_valid(pager@, old(self).current()) && old(self).current().idx_cell
                <= old(self).current().n_cells() && tree_shape(
                pager@,
                old(self).current().page_id as int,
                old(self).depth_left(),
            ) ==> r == Ok::<bool, Error>(true),
    {
        if self.current_page.idx_cell > self.current_page.header.n_cells {
            return Ok(false);
        }
        let ghost shaped = frame_valid(pager@, self.current()) && tree_shape(
            pager@,
            self.current().page_id as int,
            self.depth_left(),
        );
        let ghost start = self.frames();
        proof {
            self.lemma_frames();
            if shaped {
                lemma_shape_child(pager@, self.current(), self.depth_left());
            }
        }
        let page = self.current_buffer(pager)?;
        let child = self.child_page_id(page)?;
        self.move_to_child(pager, child)?;
        proof {
            assert(self.frames().take(start.len() as int) =~= start);
            if path_valid(pager@, start) {
                lemma_path_push(pager@, start, self.current());
            }
            self.lemma_frames();
        }
        while !self.current_page.header.page_type.is_leaf()
            invariant
                self.wf(),
                pager.wf(),
                self.root() == old(self).root(),
                self.spec_usable_size() == old(self).spec_usable_size(),
                self.is_initialized() == old(self).is_initialized(),
                start == old(self).frames(),
                old(self).current().idx_cell <= old(self).current().n_cells(),
                start.len() < self.frames().len(),
                self.frames().take(start.len() as int) == start,
                path_valid(pager@, start) ==> path_valid(pager@, self.frames()),
                forall|k: int| start.len() <= k < self.frames().len() ==> (#[trigger] self.frames()[k]).idx_cell
                    == 0,
                shaped == (frame_valid(pager@, old(self).current()) && tree_shape(
                    pager@,
                    old(self).current().page_id as int,
                    old(self).depth_left(),
                )),
                shaped ==> frame_valid(pager@, self.current()) && tree_shape(
                    pager@,
                    self.current().page_id as int,
                    self.depth_left(),
                ),
            decreases MAX_DEPTH - self.frames().len(),
        {
            proof {
                self.lemma_frames();
                assert(self.frames()[self.frames().len() - 1].idx_cell == 0);
                if shaped {
                    lemma_shape_child(pager@, self.current(), self.depth_left());
                }
            }
            let page = self.current_buffer(pager)?;
            let child = self.child_page_id(page)?;
            let ghost before = self.frames();
            self.move_to_child(pager, child)?;
            proof {
                assert(self.frames().take(start.len() as int) =~= start);
                if path_valid(pager@, start) {
                    lemma_path_push(pager@, before, self.current());
                }
                self.lemma_frames();
            }
        }
        Ok(true)
    }

    /// Positions on the first entry of the tree.
    pub fn move_to_first(&mut self, pager: &Pager) -> (r: Result<(), Error>)
        requires
            old(self).wf(),
            pager.wf(),
        ensures
            final(self).wf(),
            final(self).root() == old(self).root(),
            final(self).spec_usable_size() == old(self).spec_usable_size(),
            r is Ok ==> {
                &&& final(self).is_initialized()
                &&& path_valid(pager@, final(self).frames())
                &&& spec_frame(pager@, old(self).root() as int) == Ok::<CursorPage, Error>(
                    CursorPage { idx_cell: 0, ..final(self).frames()[0] },
                )
                &&& final(self).current().is_leaf()
                &&& forall|k: int|
                    0 <= k < final(self).frames().len() ==> (#[trigger] final(self).frames()[k]).idx_cell
                        == 0
            },
            r is Err ==> r->Err_0 == Error::Corrupt || r->Err_0 == Error::PageNotFound,
            spec_frame(pager@, old(self).root() as int) is Err ==> r is Err,
            tree_shape(pager@, old(self).root() as int, MAX_DEPTH as nat) ==> r is Ok,
            r is Ok && table_subtree(pager@, old(self).root() as int, None, None, MAX_DEPTH as nat)
                && final(self).current().n_cells() >= 1 ==> {
                &&& table_contains(
                    pager@,
                    old(self).root() as int,
                    path_key(pager@, final(self).frames()),
                    MAX_DEPTH as nat,
                )
                &&& forall|x: i64|
                    table_contains(pager@, old(self).root() as int, x, MAX_DEPTH as nat) ==> x
                        >= path_key(pager@, final(self).frames())
            },
    {
        self.move_to_root(pager)?;
        proof {
            self.lemma_frames();
        }
        if !self.current_page.header.page_type.is_leaf() {
            if !self.move_to_left_most(pager)? {
                return Err(Error::Corrupt);
            }
        }
        self.initialized = true;
        proof {
            self.lemma_frames();
            if table_subtree(pager@, old(self).root() as int, None, None, MAX_DEPTH as nat)
                && self.current().n_cells() >= 1 {
                lemma_first_is_min(pager@, self.frames(), MAX_DEPTH as nat);
            }
        }
        Ok(())
    }

    /// Positions on the last entry of the tree: through right-most children down to a leaf,
    /// then on its last cell.
    pub fn move_to_last(&mut self, pager: &Pager) -> (r: Result<(), Error>)
        requires
            old(self).wf(),
            pager.wf(),
        ensures
            final(self).wf(),
            final(self).root() == old(self).root(),
            final(self).spec_usable_size() == old(self).spec_usable_size(),
            r is Ok ==> {
                &&& final(self).is_initialized()
                &&& path_valid(pager@, final(self).frames())
                &&& spec_frame(pager@, old(self).root() as int) is Ok
                &&& spec_frame(pager@, old(self).root() as int)->Ok_0.header
                    == final(self).frames()[0].header
                &&& forall|k: int|
                    0 <= k < final(self).frames().len() - 1 ==> (#[trigger] final(self).frames()[k]).idx_cell
                        == final(self).frames()[k].n_cells()
                &&& final(self).current().is_leaf() || final(self).current().n_cells() == 0
                &&& final(self).current().idx_cell == if final(self).current().n_cells() == 0 {
                    0
                } else {
                    final(self).current().n_cells() - 1
                }
                &&& final(self).at_last_entry() || final(self).is_completed()
            },
            r is Err ==> r->Err_0 == Error::Corrupt || r->Err_0 == Error::PageNotFound,
            spec_frame(pager@, old(self).root() as int) is Err ==> r is Err,
            tree_shape(pager@, old(self).root() as int, MAX_DEPTH as nat) ==> r is Ok,
            r is Ok && table_subtree(pager@, old(self).root() as int, None, None, MAX_DEPTH as nat)
                && final(self).current().is_leaf() && final(self).current().n_cells() >= 1 ==> {
                &&& table_contains(
                    pager@,
                    old(self).root() as int,
                    path_key(pager@, final(self).frames()),
                    MAX_DEPTH as nat,
                )
                &&& forall|x: i64|
                    table_contains(pager@, old(self).root() as int, x, MAX_DEPTH as nat) ==> x
                        <= path_key(pager@, final(self).frames())
            },
    {
        self.move_to_root(pager)?;
        let ghost root_frame = self.current();
        let ghost shaped = tree_shape(pager@, old(self).root() as int, MAX_DEPTH as nat);
        proof {
            self.lemma_frames();
        }
        if self.current_page.header.n_cells == 0 {
            self.initialized = true;
            proof {
                self.lemma_frames();
            }
            return Ok(());
        }
        while !self.current_page.header.page_type.is_leaf()
            invariant
                self.wf(),
                pager.wf(),
                self.root() == old(self).root(),
                self.spec_usable_size() == old(self).spec_usable_size(),
                spec_frame(pager@, old(self).root() as int) == Ok::<CursorPage, Error>(root_frame),
                self.frames()[0].header == root_frame.header,
                path_valid(pager@, self.frames()),
                forall|k: int|
                    0 <= k < self.frames().len() - 1 ==> (#[trigger] self.frames()[k]).idx_cell
                        == self.frames()[k].n_cells(),
                shaped == tree_shape(pager@, old(self).root() as int, MAX_DEPTH as nat),
                shaped ==> tree_shape(pager@, self.current().page_id as int, self.depth_left()),
            decreases MAX_DEPTH - self.frames().len(),
        {
            let ghost pre = self.frames();
            proof {
                self.lemma_frames();
                lemma_path_set_last(pager@, pre, self.current_page.header.n_cells);
            }
            self.current_page.idx_cell = self.current_page.header.n_cells;
            proof {
                self.lemma_frames();
                assert(self.frames() =~= pre.update(pre.len() - 1, self.current_page));
                assert(frame_valid(pager@, self.frames()[self.frames().len() - 1]));
                if shaped {
                    lemma_shape_child(pager@, self.current(), self.depth_left());
                }
            }
            let ghost before = self.frames();
            let page = self.current_buffer(pager)?;
            let child = self.child_page_id(page)?;
            self.move_to_child(pager, child)?;
            proof {
                lemma_path_push(pager@, before, self.current());
                self.lemma_frames();
            }
        }
        let n = self.current_page.header.n_cells;
        let ghost before = self.frames();
        proof {
            self.lemma_frames();
            lemma_path_set_last(pager@, before, if n == 0 { 0 } else { (n - 1) as u16 });
        }
        self.current_page.idx_cell = if n == 0 {
            0
        } else {
            n - 1
        };
        proof {
            self.lemma_frames();
            assert(self.frames() =~= before.update(before.len() - 1, self.current_page));
        }
        self.initialized = true;
        proof {
            self.lemma_frames();
            if table_subtree(pager@, old(self).root() as int, None, None, MAX_DEPTH as nat)
                && self.current().is_leaf() && self.current().n_cells() >= 1 {
                lemma_last_is_max(pager@, self.frames(), MAX_DEPTH as nat);
            }
        }
        Ok(())
    }

    /// Positions on the table cell with rowid `key`, or, where there is none, on the next one
    /// of its leaf. Returns the rowid of the cell positioned on; `None` past the leaf's end.
    ///
    /// Each page is searched by bisection: where a page's rowids ascend, the position taken on
    /// it is the first cell whose rowid is not below `key`.
    pub fn table_move_to(&mut self, pager: &Pager, key: i64) -> (r: Result<Option<i64>, Error>)
        requires
            old(self).wf(),
            pager.wf(),
        ensures
            final(self).wf(),
            final(self).root() == old(self).root(),
            final(self).spec_usable_size() == old(self).spec_usable_size(),
            match r {
                Ok(found) => {
                    &&& final(self).is_initialized()
                    &&& path_valid(pager@, final(self).frames())
                    &&& spec_frame(pager@, old(self).root() as int) is Ok
                    &&& spec_frame(pager@, old(self).root() as int)->Ok_0.header
                        == final(self).frames()[0].header
                    &&& final(self).current().is_leaf()
                    &&& searched_path(pager@, old(self).root() as int, final(self).frames(), key)
                    &&& forall|k: int|
                        0 <= k < final(self).frames().len() ==> (#[trigger] final(self).frames()[k]).is_table()
                            && frame_searched(pager@, final(self).frames()[k], key)
                    &&& final(self).current().idx_cell <= final(self).current().n_cells()
                    &&& found == if final(self).current().idx_cell < final(self).current().n_cells() {
                        key_at(pager@, final(self).current(), final(self).current().idx_cell as int)
                    } else {
                        None
                    }
                    &&& table_subtree(pager@, old(self).root() as int, None, None, MAX_DEPTH as nat)
                        && found is Some ==> {
                        &&& found->Some_0 >= key
                        &&& table_contains(
                            pager@,
                            old(self).root() as int,
                            found->Some_0,
                            MAX_DEPTH as nat,
                        )
                        &&& forall|x: i64|
                            table_contains(pager@, old(self).root() as int, x, MAX_DEPTH as nat) && x
                                >= key ==> x >= found->Some_0
                    }
                    &&& table_subtree(pager@, old(self).root() as int, None, None, MAX_DEPTH as nat)
                        && table_tight(pager@, old(self).root() as int, MAX_DEPTH as nat) && found
                        is None ==> (forall|x: i64|
                        table_contains(pager@, old(self).root() as int, x, MAX_DEPTH as nat) ==> x
                            < key) && forall|k: int|
                        0 <= k < final(self).frames().len() - 1 ==> (#[trigger] final(self).frames()[k]).idx_cell
                            == final(self).frames()[k].n_cells()
                },
                Err(e) => e == Error::Corrupt || e == Error::PageNotFound || e == Error::NotTable,
            },
            spec_frame(pager@, old(self).root() as int) is Ok && !spec_frame(
                pager@,
                old(self).root() as int,
            )->Ok_0.is_table() ==> r == Err::<Option<i64>, Error>(Error::NotTable),
            spec_frame(pager@, old(self).root() as int) is Err ==> r is Err,
            table_subtree(pager@, old(self).root() as int, None, None, MAX_DEPTH as nat) ==> r is Ok,
            table_subtree(pager@, old(self).root() as int, None, None, MAX_DEPTH as nat)
                && table_contains(pager@, old(self).root() as int, key, MAX_DEPTH as nat) ==> r
                == Ok::<Option<i64>, Error>(Some(key)),
    {
        self.move_to_root(pager)?;
        let ghost root_frame = self.current();
        let ghost sub = table_subtree(pager@, old(self).root() as int, None, None, MAX_DEPTH as nat);
        let ghost mut lo: Option<i64> = None;
        let ghost mut hi: Option<i64> = None;
        proof {
            self.lemma_frames();
        }
        loop
            invariant
                self.wf(),
                pager.wf(),
                self.root() == old(self).root(),
                self.spec_usable_size() == old(self).spec_usable_size(),
                spec_frame(pager@, old(self).root() as int) == Ok::<CursorPage, Error>(root_frame),
                self.frames()[0].header == root_frame.header,
                path_valid(pager@, self.frames()),
                forall|k: int|
                    0 <= k < self.frames().len() - 1 ==> (#[trigger] self.frames()[k]).is_table()
                        && frame_searched(pager@, self.frames()[k], key),
                sub == table_subtree(pager@, old(self).root() as int, None, None, MAX_DEPTH as nat),
                sub ==> table_subtree(
                    pager@,
                    self.current().page_id as int,
                    lo,
                    hi,
                    self.depth_left(),
                ),
            decreases MAX_DEPTH - self.frames().len(),
        {
            proof {
                self.lemma_frames();
                assert(frame_valid(pager@, self.frames()[self.frames().len() - 1]));
            }
            if !self.current_page.header.page_type.is_table() {
                return Err(Error::NotTable);
            }
            let page = self.current_buffer(pager)?;
            proof {
                if sub {
                    let g = spec_frame(pager@, self.current().page_id as int)->Ok_0;
                    assert(g.header == self.current().header);
                    assert forall|j: int| 0 <= j < self.current().n_cells() implies #[trigger] spec_table_cell_key(
                        page@,
                        self.current().page_id as int,
                        self.current().header,
                        j,
                    ) is Some by {
                        assert(key_at(pager@, g, j) is Some);
                    }
                }
            }
            let (idx, found) = search_table_page(page, self.current_page.page_id, &self.current_page.header, key)?;
            let ghost pre = self.frames();
            proof {
                lemma_path_set_last(pager@, pre, idx);
            }
            self.current_page.idx_cell = idx;
            proof {
                self.lemma_frames();
                assert(self.frames() =~= pre.update(pre.len() - 1, self.current_page));
            }
            if self.current_page.header.page_type.is_leaf() {
                self.initialized = true;
                proof {
                    self.lemma_frames();
                    assert forall|k: int| 0 <= k < self.frames().len() implies (#[trigger] self.frames()[k]).is_table()
                        && frame_searched(pager@, self.frames()[k], key) by {
                        if k < self.frames().len() - 1 {
                            assert(self.frames()[k].is_table());
                        }
                    }
                    if table_subtree(pager@, old(self).root() as int, None, None, MAX_DEPTH as nat)
                        && found is Some {
                        assert forall|k: int| 0 <= k < self.frames().len() implies frame_searched(
                            pager@,
                            #[trigger] self.frames()[k],
                            key,
                        ) by {
                            if k < self.frames().len() - 1 {
                                assert(self.frames()[k].is_table());
                            }
                        }
                        lemma_search_finds_least(
                            pager@,
                            self.frames(),
                            0,
                            None,
                            None,
                            MAX_DEPTH as nat,
                            key,
                        );
                    }
                    if table_subtree(pager@, old(self).root() as int, None, None, MAX_DEPTH as nat)
                        && table_contains(pager@, old(self).root() as int, key, MAX_DEPTH as nat) {
                        lemma_contained_follows_search(
                            pager@,
                            self.frames(),
                            0,
                            None,
                            None,
                            MAX_DEPTH as nat,
                            key,
                        );
                    }
                    if table_subtree(pager@, old(self).root() as int, None, None, MAX_DEPTH as nat)
                        && table_tight(pager@, old(self).root() as int, MAX_DEPTH as nat)
                        && found is None {
                        assert forall|k: int| 0 <= k < self.frames().len() implies frame_searched(
                            pager@,
                            #[trigger] self.frames()[k],
                            key,
                        ) by {
                            if k < self.frames().len() - 1 {
                                assert(self.frames()[k].is_table());
                            }
                        }
                        lemma_search_finds_none(
                            pager@,
                            self.frames(),
                            0,
                            None,
                            None,
                            MAX_DEPTH as nat,
                            key,
                        );
                    }
                }
                return Ok(found);
            }
            let ghost before = self.frames();
            let ghost cur = self.current();
            let ghost d0 = self.depth_left();
            proof {
                self.lemma_frames();
                assert(frame_valid(pager@, self.frames()[self.frames().len() - 1]));
                if sub {
                    lemma_shape_child(pager@, cur, d0);
                }
            }
            let child = self.child_page_id(page)?;
            self.move_to_child(pager, child)?;
            proof {
                lemma_path_push(pager@, before, self.current());
                self.lemma_frames();
                assert forall|k: int| 0 <= k < self.frames().len() - 1 implies self.frames()[k] == before[k] by {}
                if sub {
                    let g = spec_frame(pager@, cur.page_id as int)->Ok_0;
                    assert(g.header == cur.header);
                    let i = cur.idx_cell as int;
                    assert(child_page(pager@, g, i) == child as int);
                    assert(table_subtree(
                        pager@,
                        child_page(pager@, g, i),
                        child_lo(pager@, g, i, lo),
                        child_hi(pager@, g, i, hi),
                        (d0 - 1) as nat,
                    ));
                    lo = child_lo(pager@, g, i, lo);
                    hi = child_hi(pager@, g, i, hi);
                }
            }
        }
    }

    /// Whether the cursor stands on the last entry of its tree: every page above the current
    /// one is passed through its right-most child, and the current leaf is on its last cell, or
    /// on its first position where it holds none.
    pub open spec fn at_last_entry(&self) -> bool {
        &&& forall|k: int|
            0 <= k < self.frames().len() - 1 ==> (#[trigger] self.frames()[k]).idx_cell
                == self.frames()[k].n_cells()
        &&& self.current().is_leaf()
        &&& self.current().idx_cell + 1 == self.current().n_cells() || self.current().n_cells()
            == 0 && self.current().idx_cell == 0
    }

    /// Advances to the next entry in key order. Table trees yield leaf cells only; index trees
    /// yield each interior cell after its left subtree. Past the last entry the cursor is
    /// completed, and stays so.
    pub fn move_next(&mut self, pager: &Pager) -> (r: Result<(), Error>)
        requires
            old(self).wf(),
            pager.wf(),
        ensures
            final(self).wf(),
            final(self).root() == old(self).root(),
            final(self).spec_usable_size() == old(self).spec_usable_size(),
            final(self).is_initialized() == old(self).is_initialized(),
            r == Err::<(), Error>(Error::Uninitialized) <==> !old(self).is_initialized(),
            old(self).is_initialized() && old(self).is_completed() ==> r is Ok && *final(self)
                == *old(self),
            r is Ok && path_valid(pager@, old(self).frames()) ==> path_valid(
                pager@,
                final(self).frames(),
            ),
            old(self).is_initialized() && old(self).current().is_leaf()
                && old(self).current().idx_cell + 1 < old(self).current().n_cells() ==> r is Ok
                && final(self).frames() == old(self).frames().update(
                old(self).frames().len() - 1,
                CursorPage { idx_cell: (old(self).current().idx_cell + 1) as u16, ..old(self).current() },
            ),
            old(self).is_initialized() && old(self).at_last_entry() && path_valid(
                pager@,
                old(self).frames(),
            ) ==> r is Ok && final(self).is_completed(),
            r is Ok && !old(self).is_completed() && old(self).current().is_leaf()
                && old(self).current().is_table() && old(self).current().idx_cell + 1
                >= old(self).current().n_cells() ==> {
                ||| table_successor(old(self).frames(), final(self).frames())
                ||| final(self).is_completed() && forall|l: int|
                    0 <= l < old(self).frames().len() - 1 ==> (#[trigger] old(self).frames()[l]).idx_cell
                        == old(self).frames()[l].n_cells()
            },
            r is Ok && !old(self).is_completed() && old(self).current().is_leaf()
                && !old(self).current().is_table() && old(self).current().idx_cell + 1
                >= old(self).current().n_cells() ==> {
                ||| index_successor_up(old(self).frames(), final(self).frames())
                ||| final(self).is_completed() && forall|l: int|
                    0 <= l < old(self).frames().len() - 1 ==> (#[trigger] old(self).frames()[l]).idx_cell
                        == old(self).frames()[l].n_cells()
            },
            r is Ok && old(self).is_initialized() && !old(self).current().is_leaf()
                && !old(self).current().is_table() && old(self).current().idx_cell
                < old(self).current().n_cells() ==> descends_left_most(
                pager@,
                old(self).frames().update(
                    old(self).frames().len() - 1,
                    advanced(old(self).current()),
                ),
                final(self).frames(),
            ),
            r is Err ==> r->Err_0 == Error::Uninitialized || r->Err_0 == Error::Corrupt
                || r->Err_0 == Error::PageNotFound,
            r is Ok ==> final(self).frames().len() == 1 || final(self).current().idx_cell
                <= final(self).current().n_cells(),
            final(self).frames()[0].page_id == old(self).frames()[0].page_id,
            final(self).frames()[0].header == old(self).frames()[0].header,
            old(self).is_initialized() && path_valid(pager@, old(self).frames()) && tree_shape(
                pager@,
                old(self).root() as int,
                MAX_DEPTH as nat,
            ) && (old(self).frames().len() == 1 || old(self).current().idx_cell
                <= old(self).current().n_cells()) ==> r is Ok,
            r is Ok && path_valid(pager@, old(self).frames()) && table_subtree(
                pager@,
                old(self).root() as int,
                None,
                None,
                MAX_DEPTH as nat,
            ) && table_nonempty(pager@, old(self).root() as int, MAX_DEPTH as nat)
                && !old(self).is_completed() && old(self).current().is_leaf()
                && old(self).current().is_table() && old(self).current().idx_cell
                < old(self).current().n_cells() ==> {
                &&& final(self).is_completed() ==> forall|x: i64|
                    table_contains(pager@, old(self).root() as int, x, MAX_DEPTH as nat) ==> x
                        <= path_key(pager@, old(self).frames())
                &&& !final(self).is_completed() ==> {
                    &&& final(self).current().is_leaf()
                    &&& final(self).current().idx_cell < final(self).current().n_cells()
                    &&& path_key(pager@, old(self).frames()) < path_key(pager@, final(self).frames())
                    &&& forall|x: i64|
                        table_contains(pager@, old(self).root() as int, x, MAX_DEPTH as nat)
                            ==> !(path_key(pager@, old(self).frames()) < x && x < path_key(
                            pager@,
                            final(self).frames(),
                        ))
                }
            },
    {
        if !self.initialized {
            return Err(Error::Uninitialized);
        }
        proof {
            self.lemma_frames();
        }
        let n = self.current_page.header.n_cells;
        if self.parent_pages.len() == 0 && (self.current_page.idx_cell == n + 1 || n == 0) {
            return Ok(());
        }
        if self.current_page.idx_cell > n {
            // Only a root can be past its last position.
            return Err(Error::Corrupt);
        }
        let ghost pre = self.frames();
        let ghost last = old(self).at_last_entry() && path_valid(pager@, pre);
        let ghost shaped = path_valid(pager@, pre) && tree_shape(
            pager@,
            old(self).root() as int,
            MAX_DEPTH as nat,
        );
        proof {
            lemma_frames_prefix_valid(pager@, pre);
            if path_valid(pager@, pre) {
                lemma_path_set_last(pager@, pre, (self.current_page.idx_cell + 1) as u16);
            }
        }
        self.current_page.idx_cell += 1;
        proof {
            self.lemma_frames();
            assert(self.frames() =~= pre.update(pre.len() - 1, self.current_page));
        }
        if self.current_page.header.page_type.is_leaf() && self.current_page.idx_cell < n {
            proof {
                if path_valid(pager@, pre) && table_subtree(
                    pager@,
                    old(self).root() as int,
                    None,
                    None,
                    MAX_DEPTH as nat,
                ) && old(self).current().is_table() {
                    lemma_leaf_neighbours(
                        pager@,
                        pre,
                        MAX_DEPTH as nat,
                        old(self).current().idx_cell as int,
                    );
                    assert(self.frames().last() == advanced(pre.last()));
                }
            }
            return Ok(());
        }
        if self.current_page.header.page_type.is_table() {
            let ghost tleaf = old(self).current().is_leaf();
            let ghost mut m: int = pre.len() as int;
            proof {
                old(self).lemma_frames();
            }
            loop
                invariant_except_break
                    last ==> self.current().idx_cell >= self.current().n_cells(),
                    tleaf ==> 1 <= m <= pre.len(),
                    tleaf ==> self.frames() == pre.take(m).update(m - 1, advanced(pre[m - 1])),
                    tleaf ==> forall|l: int|
                        m <= l < pre.len() - 1 ==> #[trigger] pre[l].idx_cell == pre[l].n_cells(),
                    tleaf && m < pre.len() ==> pre[m - 1].idx_cell == pre[m - 1].n_cells(),
                    tleaf && m == pre.len() ==> pre[m - 1].idx_cell + 1 >= pre[m - 1].n_cells(),
                    last ==> forall|k: int|
                        0 <= k < self.frames().len() - 1 ==> (#[trigger] self.frames()[k]).idx_cell
                            == self.frames()[k].n_cells(),
                invariant
                    self.wf(),
                    pager.wf(),
                    self.root() == old(self).root(),
                    self.spec_usable_size() == old(self).spec_usable_size(),
                    self.is_initialized(),
                    old(self).is_initialized(),
                    !old(self).is_completed(),
                    pre == old(self).frames(),
                    self.frames()[0].page_id == pre[0].page_id,
                    self.frames()[0].header == pre[0].header,
                    shaped == (path_valid(pager@, pre) && tree_shape(
                        pager@,
                        old(self).root() as int,
                        MAX_DEPTH as nat,
                    )),
                    last == (old(self).at_last_entry() && path_valid(pager@, pre)),
                    tleaf == old(self).current().is_leaf(),
                    tleaf ==> old(self).current().idx_cell + 1 >= old(self).current().n_cells(),
                    pre.len() == old(self).parent_pages@.len() + 1,
                    forall|k: int|
                        0 <= k < pre.len() - 1 ==> (#[trigger] pre[k]).idx_cell <= pre[k].n_cells(),
                    self.current().idx_cell <= self.current().n_cells() + 1,
                    path_valid(pager@, pre) ==> path_valid(pager@, self.frames()),
                ensures
                    self.wf(),
                    self.root() == old(self).root(),
                    self.spec_usable_size() == old(self).spec_usable_size(),
                    self.is_initialized(),
                    path_valid(pager@, pre) ==> path_valid(pager@, self.frames()),
                    last ==> self.is_completed(),
                    self.frames()[0].page_id == pre[0].page_id,
                    self.frames()[0].header == pre[0].header,
                    self.frames().len() == 1 || self.current().idx_cell <= self.current().n_cells(),
                    tleaf ==> {
                        ||| table_successor(pre, self.frames())
                        ||| self.is_completed() && forall|l: int|
                            0 <= l < pre.len() - 1 ==> (#[trigger] pre[l]).idx_cell
                                == pre[l].n_cells()
                    },
                decreases self.frames().len(),
            {
                proof {
                    self.lemma_frames();
                }
                let ghost before = self.frames();
                if !self.back_to_parent() {
                    let ghost pre2 = self.frames();
                    proof {
                        if path_valid(pager@, pre) {
                            lemma_path_set_last(pager@, pre2, (self.current_page.header.n_cells + 1) as u16);
                        }
                    }
                    self.current_page.idx_cell = self.current_page.header.n_cells + 1;
                    proof {
                        self.lemma_frames();
                        assert(self.frames() =~= pre2.update(pre2.len() - 1, self.current_page));
                        if tleaf {
                            assert(m == 1);
                            assert forall|l: int| 0 <= l < pre.len() - 1 implies (#[trigger] pre[l]).idx_cell
                                == pre[l].n_cells() by {
                                if l == 0 {
                                    assert(m < pre.len());
                                }
                            }
                        }
                    }
                    break;
                }
                proof {
                    self.lemma_frames();
                    if path_valid(pager@, pre) {
                        lemma_path_prefix(pager@, before, before.len() - 1);
                        assert(before.take(before.len() - 1) =~= self.frames());
                        assert(links(pager@, before[before.len() - 2], before[before.len() - 1]));
                    }
                    assert(self.frames()[self.frames().len() - 1] == before[before.len() - 2]);
                    if last {
                        assert(before[before.len() - 2].idx_cell == before[before.len() - 2].n_cells());
                        assert forall|k: int| 0 <= k < self.frames().len() - 1 implies (#[trigger] self.frames()[k]).idx_cell
                            == self.frames()[k].n_cells() by {
                            assert(self.frames()[k] == before[k]);
                        }
                    }
                }
                proof {
                    if tleaf {
                        assert(before.drop_last() =~= pre.take(m - 1));
                        m = m - 1;
                    }
                }
                let ghost pre3 = self.frames();
                proof {
                    if path_valid(pager@, pre) {
                        lemma_path_set_last(pager@, pre3, (self.current_page.idx_cell + 1) as u16);
                    }
                }
                self.current_page.idx_cell += 1;
                proof {
                    self.lemma_frames();
                    assert(self.frames() =~= pre3.update(pre3.len() - 1, self.current_page));
                    if tleaf {
                        assert(self.frames() =~= pre.take(m).update(m - 1, advanced(pre[m - 1])));
                    }
                }
                let ghost pre4 = self.frames();
                proof {
                    if shaped {
                        self.lemma_frames();
                        lemma_shape_along(
                            pager@,
                            self.frames(),
                            self.frames().len() - 1,
                            MAX_DEPTH as nat,
                        );
                        assert(frame_valid(pager@, self.frames()[self.frames().len() - 1]));
                    }
                }
                if self.move_to_left_most(pager)? {
                    proof {
                        self.lemma_frames();
                        assert(self.frames()[self.frames().len() - 1].idx_cell == 0);
                        if tleaf {
                            let a = m - 1;
                            assert(self.frames().take(a + 1) =~= pre4);
                            assert(self.frames().take(a + 1) == pre.take(a + 1).update(
                                a,
                                advanced(pre[a]),
                            ));
                        }
                    }
                    break;
                }
            }
        } else {
            if !self.current_page.header.page_type.is_leaf() && self.current_page.idx_cell <= n {
                proof {
                    if shaped {
                        self.lemma_frames();
                        lemma_shape_along(
                            pager@,
                            self.frames(),
                            self.frames().len() - 1,
                            MAX_DEPTH as nat,
                        );
                        assert(frame_valid(pager@, self.frames()[self.frames().len() - 1]));
                    }
                }
                if !self.move_to_left_most(pager)? {
                    return Err(Error::Corrupt);
                }
                proof {
                    self.lemma_frames();
                    assert(self.frames()[self.frames().len() - 1].idx_cell == 0);
                }
            } else {
                let ghost ileaf = old(self).current().is_leaf();
                let ghost mut m: int = pre.len() as int;
                proof {
                    old(self).lemma_frames();
                }
                loop
                    invariant_except_break
                        last ==> self.current().idx_cell >= self.current().n_cells(),
                        ileaf ==> 1 <= m <= pre.len(),
                        ileaf && m == pre.len() ==> self.frames() == pre.update(
                            pre.len() - 1,
                            advanced(pre[pre.len() - 1]),
                        ),
                        ileaf && m < pre.len() ==> self.frames() == pre.take(m) && pre[m - 1].idx_cell
                            == pre[m - 1].n_cells(),
                        ileaf ==> forall|l: int|
                            m <= l < pre.len() - 1 ==> #[trigger] pre[l].idx_cell == pre[l].n_cells(),
                        last ==> forall|k: int|
                            0 <= k < self.frames().len() - 1 ==> (#[trigger] self.frames()[k]).idx_cell
                                == self.frames()[k].n_cells(),
                    invariant
                        self.wf(),
                        pager.wf(),
                        self.root() == old(self).root(),
                        self.spec_usable_size() == old(self).spec_usable_size(),
                        self.is_initialized(),
                        old(self).is_initialized(),
                        !old(self).is_completed(),
                        pre == old(self).frames(),
                        self.frames()[0].page_id == pre[0].page_id,
                        self.frames()[0].header == pre[0].header,
                    self.frames()[0].page_id == pre[0].page_id,
                    self.frames()[0].header == pre[0].header,
                        shaped == (path_valid(pager@, pre) && tree_shape(
                            pager@,
                            old(self).root() as int,
                            MAX_DEPTH as nat,
                        )),
                    shaped == (path_valid(pager@, pre) && tree_shape(
                        pager@,
                        old(self).root() as int,
                        MAX_DEPTH as nat,
                    )),
                        last == (old(self).at_last_entry() && path_valid(pager@, pre)),
                        ileaf == old(self).current().is_leaf(),
                        pre.len() == old(self).parent_pages@.len() + 1,
                        forall|k: int|
                            0 <= k < pre.len() - 1 ==> (#[trigger] pre[k]).idx_cell <= pre[k].n_cells(),
                        self.current().idx_cell <= self.current().n_cells() + 1,
                        path_valid(pager@, pre) ==> path_valid(pager@, self.frames()),
                    ensures
                        self.wf(),
                        self.root() == old(self).root(),
                        self.spec_usable_size() == old(self).spec_usable_size(),
                        self.is_initialized(),
                        path_valid(pager@, pre) ==> path_valid(pager@, self.frames()),
                        last ==> self.is_completed(),
                        self.frames()[0].page_id == pre[0].page_id,
                        self.frames()[0].header == pre[0].header,
                    self.frames()[0].page_id == pre[0].page_id,
                    self.frames()[0].header == pre[0].header,
                        self.frames().len() == 1 || self.current().idx_cell
                            <= self.current().n_cells(),
                    self.frames().len() == 1 || self.current().idx_cell <= self.current().n_cells(),
                        ileaf ==> {
                            ||| index_successor_up(pre, self.frames())
                            ||| self.is_completed() && forall|l: int|
                                0 <= l < pre.len() - 1 ==> (#[trigger] pre[l]).idx_cell
                                    == pre[l].n_cells()
                        },
                    decreases self.frames().len(),
                {
                    proof {
                        self.lemma_frames();
                    }
                    let ghost before = self.frames();
                    if self.back_to_parent() {
                        proof {
                            self.lemma_frames();
                            if path_valid(pager@, pre) {
                                lemma_path_prefix(pager@, before, before.len() - 1);
                                assert(before.take(before.len() - 1) =~= self.frames());
                            }
                            assert(self.frames()[self.frames().len() - 1] == before[before.len() - 2]);
                            if ileaf {
                                assert(before.drop_last() =~= pre.take(m - 1));
                                m = m - 1;
                            }
                        }
                        proof {
                            self.lemma_frames();
                        }
                        if self.current_page.idx_cell == self.current_page.header.n_cells {
                            continue;
                        }
                        proof {
                            if ileaf {
                                let a = m - 1;
                                assert(pre.take(a + 1) == self.frames());
                            }
                        }
                    } else {
                        let ghost pre2 = self.frames();
                        proof {
                            if path_valid(pager@, pre) {
                                lemma_path_set_last(pager@, pre2, (self.current_page.header.n_cells + 1) as u16);
                            }
                        }
                        self.current_page.idx_cell = self.current_page.header.n_cells + 1;
                        proof {
                            self.lemma_frames();
                            assert(self.frames() =~= pre2.update(pre2.len() - 1, self.current_page));
                            if ileaf {
                                assert(m == 1);
                                assert forall|l: int| 0 <= l < pre.len() - 1 implies (#[trigger] pre[l]).idx_cell
                                    == pre[l].n_cells() by {
                                    if l == 0 {
                                        assert(m < pre.len());
                                    }
                                }
                            }
                        }
                    }
                    break;
                }
            }
        }
        proof {
            self.lemma_frames();
            if path_valid(pager@, pre) && table_subtree(
                pager@,
                old(self).root() as int,
                None,
                None,
                MAX_DEPTH as nat,
            ) && table_nonempty(pager@, old(self).root() as int, MAX_DEPTH as nat)
                && old(self).current().is_leaf() && old(self).current().is_table()
                && old(self).current().idx_cell < old(self).current().n_cells() {
                if self.is_completed() {
                    lemma_last_is_max(pager@, pre, MAX_DEPTH as nat);
                } else {
                    lemma_successor_next_key(pager@, pre, self.frames(), MAX_DEPTH as nat);
                    lemma_nonempty_along(pager@, self.frames(), 0, MAX_DEPTH as nat);
                }
            }
        }
        Ok(())
    }

    /// The rowid of the current table cell; `None` where the position is past the leaf's cells.
    pub fn get_table_key(&self, pager: &Pager) -> (r: Result<Option<i64>, Error>)
        requires
            self.wf(),
            pager.wf(),
        ensures
            r == Err::<Option<i64>, Error>(Error::Uninitialized) <==> !self.is_initialized(),
            r == Err::<Option<i64>, Error>(Error::NotTable) <==> self.is_initialized()
                && !self.current().is_table(),
            r == Ok::<Option<i64>, Error>(None) <==> self.is_initialized() && self.current().is_table()
                && self.current().idx_cell >= self.current().n_cells(),
            r is Ok && r->Ok_0 is Some ==> self.current().is_leaf() && r->Ok_0 == key_at(
                pager@,
                self.current(),
                self.current().idx_cell as int,
            ),
            r is Err ==> r->Err_0 == Error::Uninitialized || r->Err_0 == Error::NotTable
                || r->Err_0 == Error::Corrupt || r->Err_0 == Error::PageNotFound,
            self.is_initialized() && self.current().is_table() && self.current().is_leaf()
                && self.current().idx_cell < self.current().n_cells() && frame_valid(
                pager@,
                self.current(),
            ) && key_at(pager@, self.current(), self.current().idx_cell as int) is Some ==> r
                == Ok::<Option<i64>, Error>(
                key_at(pager@, self.current(), self.current().idx_cell as int),
            ),
    {
        if !self.initialized {
            return Err(Error::Uninitialized);
        }
        if !self.current_page.header.page_type.is_table() {
            return Err(Error::NotTable);
        }
        if self.current_page.idx_cell >= self.current_page.header.n_cells {
            return Ok(None);
        }
        if !self.current_page.header.page_type.is_leaf() {
            return Err(Error::Corrupt);
        }
        let page = self.current_buffer(pager)?;
        let key = table_cell_key(
            page.as_slice(),
            self.current_page.page_id,
            &self.current_page.header,
            self.current_page.idx_cell,
        )?;
        Ok(Some(key))
    }

    /// The rowid and payload of the current table cell; `None` where the position is past the
    /// leaf's cells.
    pub fn get_table_payload<'p>(&self, pager: &'p Pager) -> (r: Result<
        Option<(i64, BtreePayload<'p>)>,
        Error,
    >)
        requires
            self.wf(),
            pager.wf(),
        ensures
            (r matches Err(e) && e == Error::Uninitialized) <==> !self.is_initialized(),
            (r matches Err(e) && e == Error::NotTable) <==> self.is_initialized()
                && !self.current().is_table(),
            (r matches Ok(None)) <==> self.is_initialized() && self.current().is_table()
                && self.current().idx_cell >= self.current().n_cells(),
            r matches Ok(Some((key, payload))) ==> {
                let f = self.current();
                let cell = spec_table_leaf_cell(
                    page_of(pager@, f.page_id as int),
                    f.page_id as int,
                    f.header,
                    f.idx_cell as int,
                    self.spec_usable_size(),
                );
                &&& cell is Some
                &&& key == cell->Some_0.0
                &&& payload.wf()
                &&& payload.spec_size() == cell->Some_0.1.payload_size
                &&& payload.spec_overflow() == cell->Some_0.1.overflow
                &&& payload.spec_local() == page_of(pager@, f.page_id as int).subrange(
                    cell->Some_0.1.local_start as int,
                    cell->Some_0.1.local_start + cell->Some_0.1.local_len,
                )
                &&& payload.spec_pages() == pager@
                &&& payload.spec_capacity() == pager.spec_usable_size() - 4
                &&& key_at(pager@, f, f.idx_cell as int) == Some(key)
            },
            r is Err ==> r->Err_0 == Error::Uninitialized || r->Err_0 == Error::NotTable
                || r->Err_0 == Error::Corrupt || r->Err_0 == Error::PageNotFound,
            self.is_initialized() && self.current().is_table() && self.current().is_leaf()
                && self.current().idx_cell < self.current().n_cells() && frame_valid(
                pager@,
                self.current(),
            ) && spec_table_leaf_cell(
                page_of(pager@, self.current().page_id as int),
                self.current().page_id as int,
                self.current().header,
                self.current().idx_cell as int,
                self.spec_usable_size(),
            ) is Some ==> r matches Ok(Some(_)),
    {
        if !self.initialized {
            return Err(Error::Uninitialized);
        }
        if !self.current_page.header.page_type.is_table() {
            return Err(Error::NotTable);
        }
        if self.current_page.idx_cell >= self.current_page.header.n_cells {
            return Ok(None);
        }
        if !self.current_page.header.page_type.is_leaf() {
            return Err(Error::Corrupt);
        }
        let page = self.current_buffer(pager)?;
        let (key, info) = parse_btree_leaf_table_cell(
            page.as_slice(),
            self.current_page.page_id,
            &self.current_page.header,
            self.current_page.idx_cell,
            self.usable_size,
        )?;
        proof {
            lemma_table_leaf_cell(
                page@,
                self.current_page.page_id as int,
                self.current_page.header,
                self.current_page.idx_cell as int,
                self.usable_size as int,
            );
        }
        Ok(Some((key, BtreePayload::from_page(pager, page, info))))
    }

    /// The payload of the current index cell, on a leaf or an interior page; `None` where the
    /// position is past the page's cells.
    pub fn get_index_payload<'p>(&self, pager: &'p Pager) -> (r: Result<
        Option<BtreePayload<'p>>,
        Error,
    >)
        requires
            self.wf(),
            pager.wf(),
        ensures
            (r matches Err(e) && e == Error::Uninitialized) <==> !self.is_initialized(),
            (r matches Err(e) && e == Error::NotIndex) <==> self.is_initialized()
                && self.current().is_table(),
            (r matches Ok(None)) <==> self.is_initialized() && !self.current().is_table()
                && self.current().idx_cell >= self.current().n_cells(),
            r matches Ok(Some(payload)) ==> {
                let f = self.current();
                let cell = spec_index_cell(
                    page_of(pager@, f.page_id as int),
                    f.page_id as int,
                    f.header,
                    f.idx_cell as int,
                    self.spec_usable_size(),
                );
                &&& cell is Some
                &&& payload.wf()
                &&& payload.spec_size() == cell->Some_0.payload_size
                &&& payload.spec_overflow() == cell->Some_0.overflow
                &&& payload.spec_local() == page_of(pager@, f.page_id as int).subrange(
                    cell->Some_0.local_start as int,
                    cell->Some_0.local_start + cell->Some_0.local_len,
                )
                &&& payload.spec_pages() == pager@
                &&& payload.spec_capacity() == pager.spec_usable_size() - 4
            },
            r is Err ==> r->Err_0 == Error::Uninitialized || r->Err_0 == Error::NotIndex
                || r->Err_0 == Error::Corrupt || r->Err_0 == Error::PageNotFound,
            self.is_initialized() && !self.current().is_table() && self.current().idx_cell
                < self.current().n_cells() && frame_valid(pager@, self.current()) && spec_index_cell(
                page_of(pager@, self.current().page_id as int),
                self.current().page_id as int,
                self.current().header,
                self.current().idx_cell as int,
                self.spec_usable_size(),
            ) is Some ==> r matches Ok(Some(_)),
    {
        if !self.initialized {
            return Err(Error::Uninitialized);
        }
        if self.current_page.header.page_type.is_table() {
            return Err(Error::NotIndex);
        }
        if self.current_page.idx_cell >= self.current_page.header.n_cells {
            return Ok(None);
        }
        let page = self.current_buffer(pager)?;
        let info = index_cell_payload(
            page.as_slice(),
            self.current_page.page_id,
            &self.current_page.header,
            self.current_page.idx_cell,
            self.usable_size,
        )?;
        proof {
            lemma_index_cell(
                page@,
                self.current_page.page_id as int,
                self.current_page.header,
                self.current_page.idx_cell as int,
                self.usable_size as int,
            );
        }
        Ok(Some(BtreePayload::from_page(pager, page, info)))
    }

    /// Positions on an index entry that compares equal to `keys`, or, where there is none, on
    /// the next entry in key order; completes the cursor where no entry follows. A match on
    /// an interior page stops the search there.
    pub fn index_move_to(&mut self, pager: &Pager, keys: &[ValueCmp]) -> (r: Result<(), Error>)
        requires
            old(self).wf(),
            pager.wf(),
        ensures
            final(self).wf(),
            final(self).root() == old(self).root(),
            final(self).spec_usable_size() == old(self).spec_usable_size(),
            r is Ok ==> {
                &&& final(self).is_initialized()
                &&& path_valid(pager@, final(self).frames())
                &&& spec_frame(pager@, old(self).root() as int) is Ok
                &&& spec_frame(pager@, old(self).root() as int)->Ok_0.header
                    == final(self).frames()[0].header
                &&& forall|k: int|
                    0 <= k < final(self).frames().len() ==> !(#[trigger] final(self).frames()[k]).is_table()
                        && frame_bounds_keys(
                        pager@,
                        final(self).frames()[k],
                        pager.spec_usable_size(),
                        keys@,
                    )
                &&& final(self).is_completed() || final(self).current().idx_cell
                    < final(self).current().n_cells()
                &&& frame_not_below(
                    pager@,
                    final(self).current(),
                    pager.spec_usable_size(),
                    keys@,
                )
            },
            r is Err ==> r->Err_0 == Error::Corrupt || r->Err_0 == Error::PageNotFound
                || r->Err_0 == Error::NotIndex,
            spec_frame(pager@, old(self).root() as int) is Ok && spec_frame(
                pager@,
                old(self).root() as int,
            )->Ok_0.is_table() ==> r == Err::<(), Error>(Error::NotIndex),
            spec_frame(pager@, old(self).root() as int) is Err ==> r is Err,
            index_decodes(pager@, old(self).root() as int, pager.spec_usable_size(), MAX_DEPTH as nat)
                ==> r is Ok,
            r is Ok && index_ordered(
                pager@,
                old(self).root() as int,
                pager.spec_usable_size(),
                keys@,
                0,
                2,
                MAX_DEPTH as nat,
            ) && index_has_match(
                pager@,
                old(self).root() as int,
                pager.spec_usable_size(),
                keys@,
                MAX_DEPTH as nat,
            ) ==> final(self).current().idx_cell < final(self).current().n_cells() && cell_cmp(
                pager@,
                final(self).current(),
                final(self).current().idx_cell as int,
                pager.spec_usable_size(),
                keys@,
            ) == Some(Ordering::Equal),
    {
        self.move_to_root(pager)?;
        let ghost root_frame = self.current();
        let ghost om = index_ordered(
            pager@,
            old(self).root() as int,
            pager.spec_usable_size(),
            keys@,
            0,
            2,
            MAX_DEPTH as nat,
        ) && index_has_match(
            pager@,
            old(self).root() as int,
            pager.spec_usable_size(),
            keys@,
            MAX_DEPTH as nat,
        );
        let ghost mut rlo: int = 0;
        let ghost mut rhi: int = 2;
        let ghost dec = index_decodes(
            pager@,
            old(self).root() as int,
            pager.spec_usable_size(),
            MAX_DEPTH as nat,
        );
        proof {
            self.lemma_frames();
        }
        loop
            invariant
                self.wf(),
                pager.wf(),
                self.root() == old(self).root(),
                self.spec_usable_size() == old(self).spec_usable_size(),
                spec_frame(pager@, old(self).root() as int) == Ok::<CursorPage, Error>(root_frame),
                self.frames()[0].header == root_frame.header,
                path_valid(pager@, self.frames()),
                forall|k: int|
                    0 <= k < self.frames().len() - 1 ==> !(#[trigger] self.frames()[k]).is_table()
                        && frame_not_below(pager@, self.frames()[k], pager.spec_usable_size(), keys@)
                        && frame_bounds_keys(pager@, self.frames()[k], pager.spec_usable_size(), keys@),
                dec == index_decodes(
                    pager@,
                    old(self).root() as int,
                    pager.spec_usable_size(),
                    MAX_DEPTH as nat,
                ),
                dec ==> index_decodes(
                    pager@,
                    self.current().page_id as int,
                    pager.spec_usable_size(),
                    self.depth_left(),
                ),
                om == (index_ordered(
                    pager@,
                    old(self).root() as int,
                    pager.spec_usable_size(),
                    keys@,
                    0,
                    2,
                    MAX_DEPTH as nat,
                ) && index_has_match(
                    pager@,
                    old(self).root() as int,
                    pager.spec_usable_size(),
                    keys@,
                    MAX_DEPTH as nat,
                )),
                om ==> index_ordered(
                    pager@,
                    self.current().page_id as int,
                    pager.spec_usable_size(),
                    keys@,
                    rlo,
                    rhi,
                    self.depth_left(),
                ) && index_has_match(
                    pager@,
                    self.current().page_id as int,
                    pager.spec_usable_size(),
                    keys@,
                    self.depth_left(),
                ),
            decreases MAX_DEPTH - self.frames().len(),
        {
            proof {
                self.lemma_frames();
                assert(frame_valid(pager@, self.frames()[self.frames().len() - 1]));
                if dec {
                    let g = spec_frame(pager@, self.current().page_id as int)->Ok_0;
                    assert(g.header == self.current().header);
                    assert forall|j: int| 0 <= j < self.current().n_cells() implies #[trigger] index_cell_record(
                        pager@,
                        page_of(pager@, self.current().page_id as int),
                        self.current().page_id as int,
                        self.current().header,
                        j,
                        pager.spec_usable_size(),
                    ) is Some by {
                        assert(index_cell_record(
                            pager@,
                            page_of(pager@, self.current().page_id as int),
                            self.current().page_id as int,
                            g.header,
                            j,
                            pager.spec_usable_size(),
                        ) is Some);
                    }
                }
            }
            if self.current_page.header.page_type.is_table() {
                return Err(Error::NotIndex);
            }
            let page = self.current_buffer(pager)?;
            let (idx, found) = search_index_page(
                pager,
                page,
                self.current_page.page_id,
                &self.current_page.header,
                pager.usable_size(),
                keys,
            )?;
            let ghost pre = self.frames();
            proof {
                lemma_path_set_last(pager@, pre, idx);
            }
            self.current_page.idx_cell = idx;
            proof {
                self.lemma_frames();
                assert(self.frames() =~= pre.update(pre.len() - 1, self.current_page));
            }
            let ghost cf = self.current();
            let ghost g = spec_frame(pager@, cf.page_id as int)->Ok_0;
            proof {
                if om {
                    assert(g.header == cf.header);
                    assert(forall|j: int| #[trigger] cell_cmp(pager@, g, j, pager.spec_usable_size(), keys@)
                        == cell_cmp(pager@, cf, j, pager.spec_usable_size(), keys@));
                    if !found {
                        // No cell of this page matches.
                        assert forall|j: int| 0 <= j < cf.n_cells() implies #[trigger] cell_cmp(
                            pager@,
                            g,
                            j,
                            pager.spec_usable_size(),
                            keys@,
                        ) != Some(Ordering::Equal) by {
                            assert(index_cell_cmp(
                                pager@,
                                page_of(pager@, cf.page_id as int),
                                cf.page_id as int,
                                cf.header,
                                j,
                                pager.spec_usable_size(),
                                keys@,
                            ) != Some(Ordering::Equal));
                        }
                    }
                }
            }
            if found {
                self.initialized = true;
                return Ok(());
            }
            if self.current_page.header.page_type.is_leaf() {
                if self.current_page.idx_cell == self.current_page.header.n_cells {
                    // Past the leaf's last cell: the next entry is the first ancestor cell not
                    // passed yet.
                    loop
                        invariant_except_break
                            self.current().idx_cell == self.current().n_cells(),
                        invariant
                            self.wf(),
                            pager.wf(),
                            self.root() == old(self).root(),
                            self.spec_usable_size() == old(self).spec_usable_size(),
                            self.frames()[0].header == root_frame.header,
                            path_valid(pager@, self.frames()),
                            forall|k: int|
                                0 <= k < self.frames().len() ==> !(#[trigger] self.frames()[k]).is_table()
                                    && frame_not_below(
                                    pager@,
                                    self.frames()[k],
                                    pager.spec_usable_size(),
                                    keys@,
                                ) && frame_bounds_keys(
                                    pager@,
                                    self.frames()[k],
                                    pager.spec_usable_size(),
                                    keys@,
                                ),
                            self.current().idx_cell <= self.current().n_cells() + 1,
                        ensures
                            self.wf(),
                            self.root() == old(self).root(),
                            self.spec_usable_size() == old(self).spec_usable_size(),
                            self.frames()[0].header == root_frame.header,
                            path_valid(pager@, self.frames()),
                            forall|k: int|
                                0 <= k < self.frames().len() ==> !(#[trigger] self.frames()[k]).is_table()
                                    && frame_not_below(
                                    pager@,
                                    self.frames()[k],
                                    pager.spec_usable_size(),
                                    keys@,
                                ) && frame_bounds_keys(
                                    pager@,
                                    self.frames()[k],
                                    pager.spec_usable_size(),
                                    keys@,
                                ),
                            self.is_completed() || self.current().idx_cell < self.current().n_cells(),
                        decreases self.frames().len(),
                    {
                        proof {
                            self.lemma_frames();
                        }
                        let ghost before = self.frames();
                        if self.back_to_parent() {
                            proof {
                                self.lemma_frames();
                                lemma_path_prefix(pager@, before, before.len() - 1);
                                assert(before.take(before.len() - 1) =~= self.frames());
                                assert(links(pager@, before[before.len() - 2], before[before.len() - 1]));
                                assert(self.frames()[self.frames().len() - 1] == before[before.len() - 2]);
                            }
                            if self.current_page.idx_cell == self.current_page.header.n_cells {
                                continue;
                            }
                        } else {
                            let ghost pre2 = self.frames();
                            proof {
                                lemma_path_set_last(
                                    pager@,
                                    pre2,
                                    (self.current_page.header.n_cells + 1) as u16,
                                );
                            }
                            self.current_page.idx_cell = self.current_page.header.n_cells + 1;
                            proof {
                                self.lemma_frames();
                                assert(self.frames() =~= pre2.update(pre2.len() - 1, self.current_page));
                            }
                        }
                        break;
                    }
                }
                proof {
                    self.lemma_frames();
                    assert(self.frames()[self.frames().len() - 1] == self.current_page);
                }
                self.initialized = true;
                return Ok(());
            }
            let ghost before = self.frames();
            let ghost cur = self.current();
            let ghost d0 = self.depth_left();
            proof {
                self.lemma_frames();
                assert(frame_valid(pager@, self.frames()[self.frames().len() - 1]));
                if dec {
                    lemma_shape_child(pager@, cur, d0);
                }
            }
            let child = self.child_page_id(page)?;
            self.move_to_child(pager, child)?;
            proof {
                lemma_path_push(pager@, before, self.current());
                self.lemma_frames();
                assert forall|k: int| 0 <= k < self.frames().len() - 1 implies self.frames()[k] == before[k] by {}
                if om {
                    let g = spec_frame(pager@, cur.page_id as int)->Ok_0;
                    let i = cur.idx_cell as int;
                    let n = g.n_cells();
                    let u = pager.spec_usable_size();
                    assert(g.header == cur.header);
                    assert(child_page(pager@, g, i) == child as int);
                    let j = choose|j: int|
                        0 <= j <= n && index_has_match(
                            pager@,
                            #[trigger] child_page(pager@, g, j),
                            u,
                            keys@,
                            (d0 - 1) as nat,
                        );
                    let clo = if j < n {
                        cell_rank(pager@, g, j, u, keys@)
                    } else {
                        rlo
                    };
                    let chi = if j > 0 {
                        cell_rank(pager@, g, j - 1, u, keys@)
                    } else {
                        rhi
                    };
                    assert(index_ordered(pager@, child_page(pager@, g, j), u, keys@, clo, chi, (d0
                        - 1) as nat));
                    lemma_match_in_bounds(
                        pager@,
                        child_page(pager@, g, j),
                        u,
                        keys@,
                        clo,
                        chi,
                        (d0 - 1) as nat,
                    );
                    assert(j == i);
                    rlo = if i < n {
                        cell_rank(pager@, g, i, u, keys@)
                    } else {
                        rlo
                    };
                    rhi = if i > 0 {
                        cell_rank(pager@, g, i - 1, u, keys@)
                    } else {
                        rhi
                    };
                }
                if dec {
                    let g = spec_frame(pager@, cur.page_id as int)->Ok_0;
                    assert(g.header == cur.header);
                    assert(child_page(pager@, g, cur.idx_cell as int) == child as int);
                    assert(index_decodes(
                        pager@,
                        child_page(pager@, g, cur.idx_cell as int),
                        pager.spec_usable_size(),
                        (d0 - 1) as nat,
                    ));
                }
            }
        }
    }

    /// Inserts a table row with rowid `key` and record `payload` into the leaf that the rowid
    /// belongs to. The new cell is written at the low end of the cell content area and its
    /// pointer is inserted at the searched position.
    ///
    /// Fails with `DuplicateKey` where the rowid is present, with `Unsupported` where the payload
    /// would need overflow pages or the leaf has freeblocks, and with `PageFull` where the leaf
    /// lacks room for the cell and its pointer.
    #[verifier::rlimit(80)]
    pub fn insert(&mut self, pager: &mut Pager, key: i64, payload: &[u8]) -> (r: Result<(), Error>)
        requires
            old(self).wf(),
            old(pager).wf(),
        ensures
            final(self).wf(),
            final(pager).wf(),
            final(self).root() == old(self).root(),
            final(pager).spec_page_size() == old(pager).spec_page_size(),
            final(pager).spec_usable_size() == old(pager).spec_usable_size(),
            final(pager).committed_view() == old(pager).committed_view(),
            r is Ok ==> {
                let id = final(self).current().page_id as int;
                let before = page_of(old(pager)@, id);
                let after = page_of(final(pager)@, id);
                let h = final(self).current().header;
                let t = h.page_type;
                let idx = final(self).current().idx_cell as int;
                let off = h.cell_content_area_offset as int;
                let cell = table_leaf_cell_bytes(key, payload@);
                &&& 1 <= id <= old(pager)@.len()
                &&& final(pager)@ == old(pager)@.update(id - 1, after)
                &&& final(self).current().is_leaf() && final(self).current().is_table()
                &&& spec_page_header(before, id) matches Some(hb) && hb == PageHeader {
                    n_cells: (h.n_cells - 1) as u16,
                    cell_content_area_offset: (off + cell.len()) as u32,
                    ..h
                } && frame_searched(
                    old(pager)@,
                    CursorPage { page_id: id as u32, idx_cell: idx as u16, header: hb },
                    key,
                )
                &&& spec_page_header(after, id) == Some(h)
                &&& cells_in_content_area(before, id, spec_page_header(before, id)->Some_0)
                    && keys_ascending(before, id, spec_page_header(before, id)->Some_0)
                    ==> keys_ascending(after, id, h)
                &&& idx < h.n_cells
                &&& after.subrange(off, off + cell.len()) == cell
                &&& cell_ptr(after, id, t, idx) == off
                &&& spec_table_leaf_cell(after, id, h, idx, old(self).spec_usable_size()) matches Some(
                    (k, info),
                ) && k == key && info.overflow is None && after.subrange(
                    info.local_start as int,
                    info.local_start + info.local_len,
                ) == payload@
                &&& forall|j: int|
                    0 <= j < idx ==> #[trigger] cell_ptr(after, id, t, j) == cell_ptr(before, id, t, j)
                &&& forall|j: int|
                    idx < j < h.n_cells ==> #[trigger] cell_ptr(after, id, t, j) == cell_ptr(
                        before,
                        id,
                        t,
                        j - 1,
                    )
                &&& forall|j: int|
                    0 <= j < after.len() && !(header_offset(id) <= j < header_offset(id) + 8) && !(
                    cell_pointer_offset(id, t, idx) <= j < cell_pointer_offset(id, t, h.n_cells as int))
                        && !(off <= j < off + cell.len()) ==> #[trigger] after[j] == before[j]
            },
            table_subtree(old(pager)@, old(self).root() as int, None, None, MAX_DEPTH as nat) ==> {
                let id = final(self).current().page_id as int;
                let before = page_of(old(pager)@, id);
                r == insert_outcome(
                    before,
                    id,
                    spec_page_header(before, id)->Some_0,
                    final(self).current().idx_cell as int,
                    key,
                    payload@,
                    old(self).spec_usable_size(),
                )
            },
            final(self).frames()[0].page_id == old(self).root(),
            r is Ok || r == Err::<(), Error>(Error::DuplicateKey) || r == Err::<(), Error>(
                Error::Unsupported,
            ) || r == Err::<(), Error>(Error::PageFull) || table_subtree(
                old(pager)@,
                old(self).root() as int,
                None,
                None,
                MAX_DEPTH as nat,
            ) ==> searched_path(
                old(pager)@,
                old(self).root() as int,
                with_leaf_header(
                    final(self).frames(),
                    spec_page_header(
                        page_of(old(pager)@, final(self).current().page_id as int),
                        final(self).current().page_id as int,
                    )->Some_0,
                ),
                key,
            ),
            r is Ok ==> path_valid(final(pager)@, final(self).frames()),
            table_subtree(old(pager)@, old(self).root() as int, None, None, MAX_DEPTH as nat)
                && table_contains(old(pager)@, old(self).root() as int, key, MAX_DEPTH as nat) ==> r
                == Err::<(), Error>(Error::DuplicateKey) && final(pager)@ == old(pager)@,
            r is Ok && table_subtree(old(pager)@, old(self).root() as int, None, None, MAX_DEPTH as nat)
                && cells_in_content_area(
                page_of(old(pager)@, final(self).current().page_id as int),
                final(self).current().page_id as int,
                spec_page_header(
                    page_of(old(pager)@, final(self).current().page_id as int),
                    final(self).current().page_id as int,
                )->Some_0,
            ) ==> {
                &&& path_at_lower_bounds(final(pager)@, final(self).frames(), key)
                &&& key_at(final(pager)@, final(self).current(), final(self).current().idx_cell as int)
                    == Some(key)
            },
            r is Err ==> final(pager)@ == old(pager)@ && (r->Err_0 == Error::DuplicateKey
                || r->Err_0 == Error::Unsupported || r->Err_0 == Error::PageFull || r->Err_0
                == Error::Corrupt || r->Err_0 == Error::PageNotFound || r->Err_0 == Error::NotTable),
    {
        let found = self.table_move_to(pager, key)?;
        let ghost path = self.frames();
        proof {
            self.lemma_frames();
            let id = self.current().page_id as int;
            assert(frame_valid(pager@, path[path.len() - 1]));
            assert(with_leaf_header(
                path,
                spec_page_header(page_of(pager@, id), id)->Some_0,
            ) =~= path);
        }
        let ghost searched = self.current();
        let ghost searched_key = found;
        proof {
            self.lemma_frames();
            assert(self.frames()[self.frames().len() - 1] == searched);
            assert(frame_searched(pager@, searched, key));
        }
        match found {
            Some(k) => {
                if k == key {
                    return Err(Error::DuplicateKey);
                }
            },
            None => {},
        }
        if payload.len() > self.usable_size - 35 {
            return Err(Error::Unsupported);
        }
        let mut cell: Vec<u8> = Vec::new();
        put_varint(&mut cell, payload.len() as u64);
        put_varint(&mut cell, #[verifier::truncate] (key as u64));
        let mut i: usize = 0;
        let ghost prefix = cell@;
        while i < payload.len()
            invariant
                i <= payload@.len(),
                cell@ == prefix + payload@.take(i as int),
                prefix.len() <= 18,
            decreases payload@.len() - i,
        {
            cell.push(payload[i]);
            i += 1;
            assert(cell@ =~= prefix + payload@.take(i as int));
        }
        assert(payload@.take(payload@.len() as int) =~= payload@);
        assert(cell@ =~= table_leaf_cell_bytes(key, payload@));
        proof {
            pager.lemma_wf();
        }
        let id = self.current_page.page_id;
        let h = self.current_page.header;
        proof {
            self.lemma_frames();
            assert(frame_valid(pager@, self.frames()[self.frames().len() - 1]));
        }
        let page = self.current_buffer(pager)?;
        if h.first_freeblock_offset != 0 || h.fragmented_free_bytes != 0 {
            return Err(Error::Unsupported);
        }
        let ho = page_header_offset(id);
        let hs = h.page_type.header_size();
        let n = h.n_cells as usize;
        let unallocated = ho + hs + 2 * n;
        let cca = h.cell_content_area_offset as usize;
        if cca > self.usable_size || cca > page.len() || cca < unallocated {
            return Err(Error::Corrupt);
        }
        if cca - unallocated < cell.len() + 2 {
            return Err(Error::PageFull);
        }
        proof {
            lemma_n_cells_bound(page@, id as int);
        }
        let (new_page, new_header) = place_cell(page, id, &h, self.current_page.idx_cell, &cell);
        let ghost q = new_page@;
        match pager.write_page(id, new_page) {
            Ok(()) => {},
            Err(e) => {
                return Err(e);
            },
        }
        proof {
            lemma_n_cells_bound(q, id as int);
            self.lemma_frames();
            lemma_leaf_cell_round_trip(
                q,
                id as int,
                new_header,
                self.current_page.idx_cell as int,
                self.usable_size as int,
                key,
                payload@,
            );
            let before = page@;
            let idx = self.current_page.idx_cell as int;
            if table_subtree(old(pager)@, old(self).root() as int, None, None, MAX_DEPTH as nat) {
                lemma_path_pages_ascend(old(pager)@, path, MAX_DEPTH as nat);
                assert(path[path.len() - 1] == self.current());
            }
            if cells_in_content_area(before, id as int, h) && keys_ascending(before, id as int, h) {
                assert(searched_key != Some(key));
                assert forall|j: int| h.cell_content_area_offset <= j < q.len() implies q[j]
                    == before[j] by {
                    assert(!(header_offset(id as int) <= j < header_offset(id as int) + 8));
                }
                lemma_insert_keeps_order(before, q, id as int, h, new_header, idx, key);
            }
        }
        let ghost pre_frames = self.frames();
        self.current_page.header = new_header;
        proof {
            self.lemma_frames();
            assert(self.frames() =~= with_leaf_header(path, new_header));
            lemma_path_after_leaf_write(old(pager)@, path, q, new_header);
            assert(with_leaf_header(self.frames(), h) =~= path);
            if table_subtree(old(pager)@, old(self).root() as int, None, None, MAX_DEPTH as nat)
                && cells_in_content_area(page@, id as int, h) {
                lemma_insert_keeps_search(old(pager)@, old(self).root() as int, path, q, new_header, key);
            }
            self.lemma_frames();
            assert(page_of(pager@, id as int) == q);
            assert forall|k: int| 0 <= k < self.frames().len() implies (#[trigger] self.frames()[k]).header.n_cells
                < 32767 && self.frames()[k].idx_cell <= self.frames()[k].header.n_cells + 1 by {
                if k < self.frames().len() - 1 {
                    assert(self.frames()[k] == pre_frames[k]);
                }
            }
            assert(self.frames()[0].page_id == pre_frames[0].page_id);
        }
        Ok(())
    }
}

} // verus!
