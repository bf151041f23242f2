use vstd::prelude::*;

use crate::btree::spec_child_at;
use crate::btree::spec_page_header;
use crate::btree::spec_table_cell_key;
use crate::btree::PageHeader;
use crate::cursor::at_lower_bound;
use crate::cursor::frame_searched;
use crate::cursor::frame_valid;
use crate::cursor::links;
use crate::cursor::child_of;
use crate::cursor::key_at;
use crate::cursor::keys_ascending;
use crate::cursor::page_of;
use crate::cursor::path_valid;
use crate::cursor::spec_frame;
use crate::cursor::advanced;
use crate::cursor::table_successor;
use crate::cursor::searched_path;
use crate::cursor::with_leaf_header;
use crate::cursor::MAX_DEPTH;
use crate::cursor::CursorPage;

verus! {

/// Whether `x` lies in `(lo, hi]`; a missing bound is open.
pub open spec fn in_range(x: i64, lo: Option<i64>, hi: Option<i64>) -> bool {
    &&& lo is Some ==> lo.unwrap() < x
    &&& hi is Some ==> x <= hi.unwrap()
}

/// The rowid of cell `j` of the page of frame `f`.
pub open spec fn sep(pages: Seq<Seq<u8>>, f: CursorPage, j: int) -> i64 {
    key_at(pages, f, j).unwrap()
}

/// The page that position `j` of interior frame `f` leads to.
pub open spec fn child_page(pages: Seq<Seq<u8>>, f: CursorPage, j: int) -> int {
    spec_child_at(page_of(pages, f.page_id as int), f.page_id as int, f.header, j).unwrap() as int
}

/// Lower bound of the rowids below position `j` of interior frame `f`.
pub open spec fn child_lo(pages: Seq<Seq<u8>>, f: CursorPage, j: int, lo: Option<i64>) -> Option<i64> {
    if j == 0 {
        lo
    } else {
        Some(sep(pages, f, j - 1))
    }
}

/// Upper bound of the rowids below position `j` of interior frame `f`.
pub open spec fn child_hi(pages: Seq<Seq<u8>>, f: CursorPage, j: int, hi: Option<i64>) -> Option<i64> {
    if j == f.n_cells() {
        hi
    } else {
        Some(sep(pages, f, j))
    }
}

/// Whether the table tree rooted at page `id` is well formed down to depth `d`, with every
/// rowid in `(lo, hi]`: the tree decodes; on each page the rowids decode, lie in the page's range and strictly
/// ascend; below interior cell `j` lie the rowids above cell `j - 1` and up to cell `j`, and
/// below the right-most child those above the last cell.
pub open spec fn table_subtree(
    pages: Seq<Seq<u8>>,
    id: int,
    lo: Option<i64>,
    hi: Option<i64>,
    d: nat,
) -> bool
    decreases d,
{
    if d == 0 {
        false
    } else {
        match spec_frame(pages, id) {
            Err(_) => false,
            Ok(f) => {
                &&& tree_shape(pages, id, d)
                &&& f.is_table()
                &&& keys_ascending(page_of(pages, id), id, f.header)
                &&& forall|j: int|
                    0 <= j < f.n_cells() ==> #[trigger] key_at(pages, f, j) is Some && in_range(
                        sep(pages, f, j),
                        lo,
                        hi,
                    )
                &&& !f.is_leaf() ==> forall|j: int|
                    0 <= j <= f.n_cells() ==> spec_child_at(
                        page_of(pages, id),
                        id,
                        f.header,
                        j,
                    ) is Some && table_subtree(
                        pages,
                        #[trigger] child_page(pages, f, j),
                        child_lo(pages, f, j, lo),
                        child_hi(pages, f, j, hi),
                        (d - 1) as nat,
                    )
            },
        }
    }
}

/// Whether the table tree rooted at page `id`, walked down to depth `d`, holds rowid `x`.
pub open spec fn table_contains(pages: Seq<Seq<u8>>, id: int, x: i64, d: nat) -> bool
    decreases d,
{
    if d == 0 {
        false
    } else {
        match spec_frame(pages, id) {
            Err(_) => false,
            Ok(f) => if f.is_leaf() {
                exists|j: int| 0 <= j < f.n_cells() && #[trigger] key_at(pages, f, j) == Some(x)
            } else {
                exists|j: int|
                    0 <= j <= f.n_cells() && table_contains(
                        pages,
                        #[trigger] child_page(pages, f, j),
                        x,
                        (d - 1) as nat,
                    )
            },
        }
    }
}

/// Every rowid that a well-formed subtree holds lies in its range.
pub proof fn lemma_contains_in_range(
    pages: Seq<Seq<u8>>,
    id: int,
    lo: Option<i64>,
    hi: Option<i64>,
    d: nat,
    x: i64,
)
    requires
        table_subtree(pages, id, lo, hi, d),
        table_contains(pages, id, x, d),
    ensures
        in_range(x, lo, hi),
    decreases d,
{
    assert(d > 0);
    assert(spec_frame(pages, id) is Ok);
    let f = spec_frame(pages, id)->Ok_0;
    if f.is_leaf() {
        let j = choose|j: int| 0 <= j < f.n_cells() && #[trigger] key_at(pages, f, j) == Some(x);
        assert(key_at(pages, f, j) is Some);
    } else {
        let j = choose|j: int|
            0 <= j <= f.n_cells() && table_contains(
                pages,
                #[trigger] child_page(pages, f, j),
                x,
                (d - 1) as nat,
            );
        assert(table_contains(pages, child_page(pages, f, j), x, (d - 1) as nat));
        assert(table_subtree(
            pages,
            child_page(pages, f, j),
            child_lo(pages, f, j, lo),
            child_hi(pages, f, j, hi),
            (d - 1) as nat,
        ));
        lemma_contains_in_range(
            pages,
            child_page(pages, f, j),
            child_lo(pages, f, j, lo),
            child_hi(pages, f, j, hi),
            (d - 1) as nat,
            x,
        );
        if j > 0 {
            assert(key_at(pages, f, j - 1) is Some);
        }
        if j < f.n_cells() {
            assert(key_at(pages, f, j) is Some);
        }
    }
}

/// From level `l` of a path that a table search for `key` took, in a well-formed tree: the
/// rowid at the end of the path is held by the subtree at level `l`, is not below `key`, and no
/// rowid of that subtree lies in `[key, found)`.
pub proof fn lemma_search_finds_least(
    pages: Seq<Seq<u8>>,
    frames: Seq<CursorPage>,
    l: int,
    lo: Option<i64>,
    hi: Option<i64>,
    d: nat,
    key: i64,
)
    requires
        path_valid(pages, frames),
        0 <= l < frames.len(),
        d >= frames.len() - l,
        table_subtree(pages, frames[l].page_id as int, lo, hi, d),
        forall|k: int| 0 <= k < frames.len() ==> frame_searched(pages, #[trigger] frames[k], key),
        frames.last().is_leaf(),
        frames.last().idx_cell < frames.last().n_cells(),
    ensures
        key_at(pages, frames.last(), frames.last().idx_cell as int) is Some,
        sep(pages, frames.last(), frames.last().idx_cell as int) >= key,
        table_contains(
            pages,
            frames[l].page_id as int,
            sep(pages, frames.last(), frames.last().idx_cell as int),
            d,
        ),
        forall|x: i64|
            table_contains(pages, frames[l].page_id as int, x, d) && x >= key ==> x >= sep(
                pages,
                frames.last(),
                frames.last().idx_cell as int,
            ),
    decreases frames.len() - l,
{
    let f = frames[l];
    let id = f.page_id as int;
    let last = frames.last();
    let found = sep(pages, last, last.idx_cell as int);
    assert(frame_valid(pages, f));
    let g = spec_frame(pages, id)->Ok_0;
    assert(g.header == f.header && g.page_id == f.page_id);
    assert(frame_searched(pages, f, key));
    if l == frames.len() - 1 {
        let i = f.idx_cell as int;
        assert(key_at(pages, g, i) is Some);
        assert(key_at(pages, f, i) == key_at(pages, g, i));
        assert(table_contains(pages, id, found, d));
        assert forall|x: i64| table_contains(pages, id, x, d) && x >= key implies x >= found by {
            let j = choose|j: int| 0 <= j < g.n_cells() && #[trigger] key_at(pages, g, j) == Some(x);
            assert(key_at(pages, f, j) == key_at(pages, g, j));
            if j < i {
                assert(key_at(pages, f, j) is Some);
            } else if j > i {
                assert(key_at(pages, f, i) is Some && key_at(pages, f, j) is Some);
            }
        }
    } else {
        let i = f.idx_cell as int;
        assert(links(pages, frames[l], frames[l + 1]));
        let c = frames[l + 1].page_id as int;
        assert(child_of(pages, f) == Some(frames[l + 1].page_id));
        assert(child_page(pages, g, i) == c);
        assert(table_subtree(
            pages,
            child_page(pages, g, i),
            child_lo(pages, g, i, lo),
            child_hi(pages, g, i, hi),
            (d - 1) as nat,
        ));
        lemma_search_finds_least(
            pages,
            frames,
            l + 1,
            child_lo(pages, g, i, lo),
            child_hi(pages, g, i, hi),
            (d - 1) as nat,
            key,
        );
        assert(table_contains(pages, child_page(pages, g, i), found, (d - 1) as nat));
        assert(table_contains(pages, id, found, d));
        assert forall|x: i64| table_contains(pages, id, x, d) && x >= key implies x >= found by {
            let j = choose|j: int|
                0 <= j <= g.n_cells() && table_contains(
                    pages,
                    #[trigger] child_page(pages, g, j),
                    x,
                    (d - 1) as nat,
                );
            if j != i {
                assert(table_subtree(
                    pages,
                    child_page(pages, g, j),
                    child_lo(pages, g, j, lo),
                    child_hi(pages, g, j, hi),
                    (d - 1) as nat,
                ));
                lemma_contains_in_range(
                    pages,
                    child_page(pages, g, j),
                    child_lo(pages, g, j, lo),
                    child_hi(pages, g, j, hi),
                    (d - 1) as nat,
                    x,
                );
                if j < i {
                    assert(key_at(pages, f, j) == key_at(pages, g, j));
                    assert(key_at(pages, f, j) is Some);
                } else {
                    lemma_contains_in_range(
                        pages,
                        child_page(pages, g, i),
                        child_lo(pages, g, i, lo),
                        child_hi(pages, g, i, hi),
                        (d - 1) as nat,
                        found,
                    );
                    if j - 1 > i {
                        assert(key_at(pages, g, i) is Some && key_at(pages, g, j - 1) is Some);
                    }
                }
            }
        }
    }
}

/// Whether, down to depth `d`, every interior cell's rowid is held by the subtree to its
/// left, as in a tree that rows were only added to.
pub open spec fn table_tight(pages: Seq<Seq<u8>>, id: int, d: nat) -> bool
    decreases d,
{
    if d == 0 {
        false
    } else {
        match spec_frame(pages, id) {
            Err(_) => false,
            Ok(f) => !f.is_leaf() ==> forall|j: int|
                0 <= j <= f.n_cells() ==> (j < f.n_cells() ==> table_contains(
                    pages,
                    #[trigger] child_page(pages, f, j),
                    sep(pages, f, j),
                    (d - 1) as nat,
                )) && table_tight(pages, child_page(pages, f, j), (d - 1) as nat),
        }
    }
}

/// From level `l` of a path that a table search for `key` took and that ends past the last cell
/// of its leaf, in a well-formed tree whose separators are held by their left subtrees: every
/// rowid of the subtree at level `l` is below `key`.
pub proof fn lemma_search_finds_none(
    pages: Seq<Seq<u8>>,
    frames: Seq<CursorPage>,
    l: int,
    lo: Option<i64>,
    hi: Option<i64>,
    d: nat,
    key: i64,
)
    requires
        path_valid(pages, frames),
        0 <= l < frames.len(),
        d >= frames.len() - l,
        table_subtree(pages, frames[l].page_id as int, lo, hi, d),
        table_tight(pages, frames[l].page_id as int, d),
        forall|k: int| 0 <= k < frames.len() ==> frame_searched(pages, #[trigger] frames[k], key),
        frames.last().is_leaf(),
        frames.last().idx_cell >= frames.last().n_cells(),
    ensures
        forall|x: i64| table_contains(pages, frames[l].page_id as int, x, d) ==> x < key,
        forall|k: int|
            l <= k < frames.len() - 1 ==> #[trigger] frames[k].idx_cell == frames[k].n_cells(),
    decreases frames.len() - l,
{
    let f = frames[l];
    let id = f.page_id as int;
    assert(frame_valid(pages, f));
    let g = spec_frame(pages, id)->Ok_0;
    assert(g.header == f.header && g.page_id == f.page_id);
    assert(frame_searched(pages, f, key));
    let i = f.idx_cell as int;
    if l == frames.len() - 1 {
        assert forall|x: i64| table_contains(pages, id, x, d) implies x < key by {
            let j = choose|j: int| 0 <= j < g.n_cells() && #[trigger] key_at(pages, g, j) == Some(x);
            assert(key_at(pages, f, j) == key_at(pages, g, j));
            assert(key_at(pages, f, j) is Some);
        }
    } else {
        assert(links(pages, frames[l], frames[l + 1]));
        assert(child_of(pages, f) == Some(frames[l + 1].page_id));
        assert(child_page(pages, g, i) == frames[l + 1].page_id as int);
        assert(table_subtree(
            pages,
            child_page(pages, g, i),
            child_lo(pages, g, i, lo),
            child_hi(pages, g, i, hi),
            (d - 1) as nat,
        ));
        assert(table_tight(pages, child_page(pages, g, i), (d - 1) as nat));
        lemma_search_finds_none(
            pages,
            frames,
            l + 1,
            child_lo(pages, g, i, lo),
            child_hi(pages, g, i, hi),
            (d - 1) as nat,
            key,
        );
        if i < g.n_cells() {
            // The left subtree of cell `i` holds its rowid, which is not below `key`.
            assert(table_contains(pages, child_page(pages, g, i), sep(pages, g, i), (d - 1) as nat));
            assert(key_at(pages, f, i) == key_at(pages, g, i));
            assert(key_at(pages, f, i) is Some);
            assert(false);
        }
        assert forall|x: i64| table_contains(pages, id, x, d) implies x < key by {
            let j = choose|j: int|
                0 <= j <= g.n_cells() && table_contains(
                    pages,
                    #[trigger] child_page(pages, g, j),
                    x,
                    (d - 1) as nat,
                );
            if j != i {
                assert(table_subtree(
                    pages,
                    child_page(pages, g, j),
                    child_lo(pages, g, j, lo),
                    child_hi(pages, g, j, hi),
                    (d - 1) as nat,
                ));
                lemma_contains_in_range(
                    pages,
                    child_page(pages, g, j),
                    child_lo(pages, g, j, lo),
                    child_hi(pages, g, j, hi),
                    (d - 1) as nat,
                    x,
                );
                assert(key_at(pages, f, j) == key_at(pages, g, j));
                assert(key_at(pages, f, j) is Some);
            }
        }
    }
}

/// Whether, down to depth `d`, every leaf below page `id` holds a cell.
pub open spec fn table_nonempty(pages: Seq<Seq<u8>>, id: int, d: nat) -> bool
    decreases d,
{
    if d == 0 {
        false
    } else {
        match spec_frame(pages, id) {
            Err(_) => false,
            Ok(f) => if f.is_leaf() {
                f.n_cells() >= 1
            } else {
                forall|j: int|
                    0 <= j <= f.n_cells() ==> table_nonempty(
                        pages,
                        #[trigger] child_page(pages, f, j),
                        (d - 1) as nat,
                    )
            },
        }
    }
}

/// The rowid at the position where a path ends.
pub open spec fn path_key(pages: Seq<Seq<u8>>, frames: Seq<CursorPage>) -> i64 {
    sep(pages, frames.last(), frames.last().idx_cell as int)
}

/// The facts of a valid path at level `l`, in terms of the page's own frame.
proof fn lemma_level(pages: Seq<Seq<u8>>, frames: Seq<CursorPage>, l: int)
    requires
        path_valid(pages, frames),
        0 <= l < frames.len(),
    ensures
        spec_frame(pages, frames[l].page_id as int) is Ok,
        spec_frame(pages, frames[l].page_id as int)->Ok_0.header == frames[l].header,
        spec_frame(pages, frames[l].page_id as int)->Ok_0.page_id == frames[l].page_id,
        forall|j: int| #[trigger] key_at(pages, frames[l], j) == key_at(
            pages,
            spec_frame(pages, frames[l].page_id as int)->Ok_0,
            j,
        ),
        l < frames.len() - 1 ==> !frames[l].is_leaf() && child_page(
            pages,
            spec_frame(pages, frames[l].page_id as int)->Ok_0,
            frames[l].idx_cell as int,
        ) == frames[l + 1].page_id as int && frames[l].idx_cell <= frames[l].n_cells(),
{
    assert(frame_valid(pages, frames[l]));
    if l < frames.len() - 1 {
        assert(links(pages, frames[l], frames[l + 1]));
    }
}

/// The rowid where a valid path ends on a cell is held by the subtree at each level.
pub proof fn lemma_path_key_contained(pages: Seq<Seq<u8>>, frames: Seq<CursorPage>, l: int, d: nat)
    requires
        path_valid(pages, frames),
        0 <= l < frames.len(),
        d >= frames.len() - l,
        frames.last().is_leaf(),
        frames.last().idx_cell < frames.last().n_cells(),
        key_at(pages, frames.last(), frames.last().idx_cell as int) is Some,
    ensures
        table_contains(pages, frames[l].page_id as int, path_key(pages, frames), d),
    decreases frames.len() - l,
{
    lemma_level(pages, frames, l);
    let g = spec_frame(pages, frames[l].page_id as int)->Ok_0;
    if l < frames.len() - 1 {
        lemma_path_key_contained(pages, frames, l + 1, (d - 1) as nat);
        assert(table_contains(
            pages,
            child_page(pages, g, frames[l].idx_cell as int),
            path_key(pages, frames),
            (d - 1) as nat,
        ));
    } else {
        assert(key_at(pages, g, frames[l].idx_cell as int) == Some(path_key(pages, frames)));
    }
}

/// Along a path that passes every interior page through its right-most child and ends on the
/// last cell of its leaf, the rowid at the end is the largest of the subtree.
pub proof fn lemma_right_most_is_max(
    pages: Seq<Seq<u8>>,
    frames: Seq<CursorPage>,
    l: int,
    lo: Option<i64>,
    hi: Option<i64>,
    d: nat,
)
    requires
        path_valid(pages, frames),
        0 <= l < frames.len(),
        d >= frames.len() - l,
        table_subtree(pages, frames[l].page_id as int, lo, hi, d),
        forall|k: int| l <= k < frames.len() - 1 ==> #[trigger] frames[k].idx_cell == frames[k].n_cells(),
        frames.last().is_leaf(),
        frames.last().idx_cell + 1 == frames.last().n_cells(),
    ensures
        key_at(pages, frames.last(), frames.last().idx_cell as int) is Some,
        forall|x: i64|
            table_contains(pages, frames[l].page_id as int, x, d) ==> x <= path_key(pages, frames),
    decreases frames.len() - l,
{
    lemma_level(pages, frames, l);
    let f = frames[l];
    let g = spec_frame(pages, f.page_id as int)->Ok_0;
    let id = f.page_id as int;
    let k0 = path_key(pages, frames);
    if l == frames.len() - 1 {
        assert(key_at(pages, g, f.idx_cell as int) is Some);
        assert forall|x: i64| table_contains(pages, id, x, d) implies x <= k0 by {
            let j = choose|j: int| 0 <= j < g.n_cells() && #[trigger] key_at(pages, g, j) == Some(x);
            if j < f.idx_cell {
                assert(key_at(pages, g, j) is Some && key_at(pages, g, f.idx_cell as int) is Some);
            }
        }
    } else {
        let n = g.n_cells();
        assert(f.idx_cell == f.n_cells());
        assert(table_subtree(
            pages,
            child_page(pages, g, n),
            child_lo(pages, g, n, lo),
            child_hi(pages, g, n, hi),
            (d - 1) as nat,
        ));
        lemma_right_most_is_max(
            pages,
            frames,
            l + 1,
            child_lo(pages, g, n, lo),
            child_hi(pages, g, n, hi),
            (d - 1) as nat,
        );
        lemma_path_key_contained(pages, frames, l + 1, (d - 1) as nat);
        lemma_contains_in_range(
            pages,
            child_page(pages, g, n),
            child_lo(pages, g, n, lo),
            child_hi(pages, g, n, hi),
            (d - 1) as nat,
            k0,
        );
        assert forall|x: i64| table_contains(pages, id, x, d) implies x <= k0 by {
            let j = choose|j: int|
                0 <= j <= g.n_cells() && table_contains(
                    pages,
                    #[trigger] child_page(pages, g, j),
                    x,
                    (d - 1) as nat,
                );
            if j < n {
                assert(table_subtree(
                    pages,
                    child_page(pages, g, j),
                    child_lo(pages, g, j, lo),
                    child_hi(pages, g, j, hi),
                    (d - 1) as nat,
                ));
                lemma_contains_in_range(
                    pages,
                    child_page(pages, g, j),
                    child_lo(pages, g, j, lo),
                    child_hi(pages, g, j, hi),
                    (d - 1) as nat,
                    x,
                );
                if j < n - 1 {
                    assert(key_at(pages, g, j) is Some && key_at(pages, g, n - 1) is Some);
                }
            }
        }
    }
}

/// Along a path that passes every page through its first position and ends on a leaf that
/// holds a cell, the rowid at the end is the smallest of the subtree.
pub proof fn lemma_left_most_is_min(
    pages: Seq<Seq<u8>>,
    frames: Seq<CursorPage>,
    l: int,
    lo: Option<i64>,
    hi: Option<i64>,
    d: nat,
)
    requires
        path_valid(pages, frames),
        0 <= l < frames.len(),
        d >= frames.len() - l,
        table_subtree(pages, frames[l].page_id as int, lo, hi, d),
        forall|k: int| l <= k < frames.len() ==> #[trigger] frames[k].idx_cell == 0,
        frames.last().is_leaf(),
        frames.last().n_cells() >= 1,
    ensures
        key_at(pages, frames.last(), 0) is Some,
        forall|x: i64|
            table_contains(pages, frames[l].page_id as int, x, d) ==> x >= path_key(pages, frames),
    decreases frames.len() - l,
{
    lemma_level(pages, frames, l);
    let f = frames[l];
    let g = spec_frame(pages, f.page_id as int)->Ok_0;
    let id = f.page_id as int;
    let k1 = path_key(pages, frames);
    assert(frames[frames.len() - 1].idx_cell == 0);
    if l == frames.len() - 1 {
        assert(key_at(pages, g, 0) is Some);
        assert forall|x: i64| table_contains(pages, id, x, d) implies x >= k1 by {
            let j = choose|j: int| 0 <= j < g.n_cells() && #[trigger] key_at(pages, g, j) == Some(x);
            if j > 0 {
                assert(key_at(pages, g, 0) is Some && key_at(pages, g, j) is Some);
            }
        }
    } else {
        assert(f.idx_cell == 0);
        assert(table_subtree(
            pages,
            child_page(pages, g, 0),
            child_lo(pages, g, 0, lo),
            child_hi(pages, g, 0, hi),
            (d - 1) as nat,
        ));
        lemma_left_most_is_min(
            pages,
            frames,
            l + 1,
            child_lo(pages, g, 0, lo),
            child_hi(pages, g, 0, hi),
            (d - 1) as nat,
        );
        lemma_path_key_contained(pages, frames, l + 1, (d - 1) as nat);
        lemma_contains_in_range(
            pages,
            child_page(pages, g, 0),
            child_lo(pages, g, 0, lo),
            child_hi(pages, g, 0, hi),
            (d - 1) as nat,
            k1,
        );
        assert forall|x: i64| table_contains(pages, id, x, d) implies x >= k1 by {
            let j = choose|j: int|
                0 <= j <= g.n_cells() && table_contains(
                    pages,
                    #[trigger] child_page(pages, g, j),
                    x,
                    (d - 1) as nat,
                );
            if j > 0 {
                assert(table_subtree(
                    pages,
                    child_page(pages, g, j),
                    child_lo(pages, g, j, lo),
                    child_hi(pages, g, j, hi),
                    (d - 1) as nat,
                ));
                lemma_contains_in_range(
                    pages,
                    child_page(pages, g, j),
                    child_lo(pages, g, j, lo),
                    child_hi(pages, g, j, hi),
                    (d - 1) as nat,
                    x,
                );
                if j - 1 > 0 {
                    assert(key_at(pages, g, 0) is Some && key_at(pages, g, j - 1) is Some);
                }
            }
        }
    }
}

/// A rowid held by the subtree at level `s` of a valid path is held at every level above.
pub proof fn lemma_contains_lifts(
    pages: Seq<Seq<u8>>,
    frames: Seq<CursorPage>,
    l: int,
    s: int,
    d: nat,
    y: i64,
)
    requires
        path_valid(pages, frames),
        0 <= l <= s < frames.len(),
        d >= s - l,
        table_contains(pages, frames[s].page_id as int, y, (d - (s - l)) as nat),
    ensures
        table_contains(pages, frames[l].page_id as int, y, d),
    decreases s - l,
{
    if l < s {
        lemma_contains_lifts(pages, frames, l + 1, s, (d - 1) as nat, y);
        lemma_level(pages, frames, l);
        let g = spec_frame(pages, frames[l].page_id as int)->Ok_0;
        assert(table_contains(
            pages,
            child_page(pages, g, frames[l].idx_cell as int),
            y,
            (d - 1) as nat,
        ));
    }
}

/// Below a well-formed subtree, the subtree at each lower level of a valid path is well formed.
pub proof fn lemma_subtree_along(
    pages: Seq<Seq<u8>>,
    frames: Seq<CursorPage>,
    l: int,
    s: int,
    lo: Option<i64>,
    hi: Option<i64>,
    d: nat,
)
    requires
        path_valid(pages, frames),
        0 <= l <= s < frames.len(),
        d >= s - l,
        table_subtree(pages, frames[l].page_id as int, lo, hi, d),
    ensures
        exists|lo2: Option<i64>, hi2: Option<i64>|
            #[trigger] table_subtree(pages, frames[s].page_id as int, lo2, hi2, (d - (s - l)) as nat),
    decreases s - l,
{
    if l == s {
        assert(table_subtree(pages, frames[s].page_id as int, lo, hi, (d - (s - l)) as nat));
    } else {
        lemma_level(pages, frames, l);
        let g = spec_frame(pages, frames[l].page_id as int)->Ok_0;
        let i = frames[l].idx_cell as int;
        assert(table_subtree(
            pages,
            child_page(pages, g, i),
            child_lo(pages, g, i, lo),
            child_hi(pages, g, i, hi),
            (d - 1) as nat,
        ));
        lemma_subtree_along(
            pages,
            frames,
            l + 1,
            s,
            child_lo(pages, g, i, lo),
            child_hi(pages, g, i, hi),
            (d - 1) as nat,
        );
    }
}

/// On a valid path, a rowid of the subtree at level `l` that lies strictly between two rowids
/// of the subtree at a lower level `s` belongs to that lower subtree.
pub proof fn lemma_between_stays_below(
    pages: Seq<Seq<u8>>,
    frames: Seq<CursorPage>,
    l: int,
    s: int,
    lo: Option<i64>,
    hi: Option<i64>,
    d: nat,
    k0: i64,
    k1: i64,
    x: i64,
)
    requires
        path_valid(pages, frames),
        0 <= l <= s < frames.len(),
        d >= s - l,
        table_subtree(pages, frames[l].page_id as int, lo, hi, d),
        table_contains(pages, frames[s].page_id as int, k0, (d - (s - l)) as nat),
        table_contains(pages, frames[s].page_id as int, k1, (d - (s - l)) as nat),
        table_contains(pages, frames[l].page_id as int, x, d),
        k0 < x < k1,
    ensures
        table_contains(pages, frames[s].page_id as int, x, (d - (s - l)) as nat),
    decreases s - l,
{
    if l < s {
        lemma_level(pages, frames, l);
        let g = spec_frame(pages, frames[l].page_id as int)->Ok_0;
        let i = frames[l].idx_cell as int;
        let ci = child_page(pages, g, i);
        assert(table_subtree(pages, ci, child_lo(pages, g, i, lo), child_hi(pages, g, i, hi), (d
            - 1) as nat));
        lemma_contains_lifts(pages, frames, l + 1, s, (d - 1) as nat, k0);
        lemma_contains_lifts(pages, frames, l + 1, s, (d - 1) as nat, k1);
        lemma_contains_in_range(
            pages,
            ci,
            child_lo(pages, g, i, lo),
            child_hi(pages, g, i, hi),
            (d - 1) as nat,
            k0,
        );
        lemma_contains_in_range(
            pages,
            ci,
            child_lo(pages, g, i, lo),
            child_hi(pages, g, i, hi),
            (d - 1) as nat,
            k1,
        );
        let j = choose|j: int|
            0 <= j <= g.n_cells() && table_contains(
                pages,
                #[trigger] child_page(pages, g, j),
                x,
                (d - 1) as nat,
            );
        if j != i {
            assert(table_subtree(
                pages,
                child_page(pages, g, j),
                child_lo(pages, g, j, lo),
                child_hi(pages, g, j, hi),
                (d - 1) as nat,
            ));
            lemma_contains_in_range(
                pages,
                child_page(pages, g, j),
                child_lo(pages, g, j, lo),
                child_hi(pages, g, j, hi),
                (d - 1) as nat,
                x,
            );
            if j < i - 1 {
                assert(key_at(pages, g, j) is Some && key_at(pages, g, i - 1) is Some);
            }
            if j - 1 > i {
                assert(key_at(pages, g, i) is Some && key_at(pages, g, j - 1) is Some);
            }
        }
        lemma_between_stays_below(
            pages,
            frames,
            l + 1,
            s,
            child_lo(pages, g, i, lo),
            child_hi(pages, g, i, hi),
            (d - 1) as nat,
            k0,
            k1,
            x,
        );
    }
}

/// Where every leaf below holds a cell, so does the leaf at the end of a valid path.
pub proof fn lemma_nonempty_along(pages: Seq<Seq<u8>>, frames: Seq<CursorPage>, l: int, d: nat)
    requires
        path_valid(pages, frames),
        0 <= l < frames.len(),
        table_nonempty(pages, frames[l].page_id as int, d),
        frames.last().is_leaf(),
    ensures
        frames.last().n_cells() >= 1,
    decreases frames.len() - l,
{
    lemma_level(pages, frames, l);
    let g = spec_frame(pages, frames[l].page_id as int)->Ok_0;
    if l < frames.len() - 1 {
        assert(table_nonempty(
            pages,
            child_page(pages, g, frames[l].idx_cell as int),
            (d - 1) as nat,
        ));
        lemma_nonempty_along(pages, frames, l + 1, (d - 1) as nat);
    }
}

/// In a well-formed table tree, no rowid lies strictly between two neighbouring cells of a
/// leaf that a valid path from the root reaches.
pub proof fn lemma_leaf_neighbours(pages: Seq<Seq<u8>>, frames: Seq<CursorPage>, d: nat, i: int)
    requires
        path_valid(pages, frames),
        d >= frames.len(),
        table_subtree(pages, frames[0].page_id as int, None, None, d),
        frames.last().is_leaf(),
        0 <= i,
        i + 1 < frames.last().n_cells(),
    ensures
        sep(pages, frames.last(), i) < sep(pages, frames.last(), i + 1),
        forall|x: i64|
            table_contains(pages, frames[0].page_id as int, x, d) ==> !(sep(pages, frames.last(), i)
                < x < sep(pages, frames.last(), i + 1)),
{
    let s = frames.len() - 1;
    let dl = (d - s) as nat;
    lemma_subtree_along(pages, frames, 0, s, None, None, d);
    let (lo2, hi2) = choose|lo2: Option<i64>, hi2: Option<i64>|
        #[trigger] table_subtree(pages, frames[s].page_id as int, lo2, hi2, dl);
    lemma_level(pages, frames, s);
    let g = spec_frame(pages, frames[s].page_id as int)->Ok_0;
    assert(key_at(pages, g, i) is Some && key_at(pages, g, i + 1) is Some);
    let k0 = sep(pages, frames.last(), i);
    let k1 = sep(pages, frames.last(), i + 1);
    assert(key_at(pages, frames[s], i) == key_at(pages, g, i));
    assert(key_at(pages, frames[s], i + 1) == key_at(pages, g, i + 1));
    assert(table_contains(pages, frames[s].page_id as int, k0, dl));
    assert(table_contains(pages, frames[s].page_id as int, k1, dl));
    assert forall|x: i64| table_contains(pages, frames[0].page_id as int, x, d) implies !(k0 < x
        < k1) by {
        if k0 < x < k1 {
            lemma_between_stays_below(pages, frames, 0, s, None, None, d, k0, k1, x);
            let j = choose|j: int| 0 <= j < g.n_cells() && #[trigger] key_at(pages, g, j) == Some(x);
            if j < i {
                assert(key_at(pages, g, j) is Some);
            } else if j > i + 1 {
                assert(key_at(pages, g, j) is Some);
            }
        }
    }
}

/// In a well-formed table tree whose leaves all hold a cell, the step that `move_next` takes
/// from the last cell of a leaf to the next leaf lands on the next larger rowid of the tree.
pub proof fn lemma_successor_next_key(
    pages: Seq<Seq<u8>>,
    before: Seq<CursorPage>,
    after: Seq<CursorPage>,
    d: nat,
)
    requires
        path_valid(pages, before),
        path_valid(pages, after),
        d >= before.len(),
        d >= after.len(),
        table_subtree(pages, before[0].page_id as int, None, None, d),
        table_nonempty(pages, before[0].page_id as int, d),
        before.last().is_leaf(),
        before.last().idx_cell + 1 == before.last().n_cells(),
        table_successor(before, after),
    ensures
        path_key(pages, before) < path_key(pages, after),
        forall|x: i64|
            table_contains(pages, before[0].page_id as int, x, d) ==> !(path_key(pages, before) < x
                < path_key(pages, after)),
{
    let a = choose|a: int|
        0 <= a < before.len() - 1 && after.len() > a + 1 && #[trigger] after.take(a + 1)
            == before.take(a + 1).update(a, advanced(before[a])) && before[a].idx_cell
            < before[a].n_cells() && (forall|l: int|
            a < l < before.len() - 1 ==> #[trigger] before[l].idx_cell == before[l].n_cells())
            && (forall|k: int| a < k < after.len() ==> #[trigger] after[k].idx_cell == 0)
            && after.last().is_leaf();
    assert(after.take(a + 1)[a] == after[a]);
    assert(after[a] == advanced(before[a]));
    assert(after.take(a + 1)[0] == after[0]);
    assert(after[0].page_id == before[0].page_id);
    let i = before[a].idx_cell as int;
    let da = (d - a) as nat;
    let k0 = path_key(pages, before);
    let k1 = path_key(pages, after);
    lemma_subtree_along(pages, before, 0, a, None, None, d);
    let (lo, hi) = choose|lo: Option<i64>, hi: Option<i64>|
        #[trigger] table_subtree(pages, before[a].page_id as int, lo, hi, da);
    lemma_level(pages, before, a);
    lemma_level(pages, after, a);
    let g = spec_frame(pages, before[a].page_id as int)->Ok_0;
    assert(spec_frame(pages, after[a].page_id as int)->Ok_0 == g);
    let ci = child_page(pages, g, i);
    let cj = child_page(pages, g, i + 1);
    assert(ci == before[a + 1].page_id as int);
    assert(cj == after[a + 1].page_id as int);
    assert(table_subtree(pages, ci, child_lo(pages, g, i, lo), child_hi(pages, g, i, hi), (da
        - 1) as nat));
    assert(table_subtree(
        pages,
        cj,
        child_lo(pages, g, i + 1, lo),
        child_hi(pages, g, i + 1, hi),
        (da - 1) as nat,
    ));
    lemma_nonempty_along(pages, after, 0, d);
    lemma_right_most_is_max(
        pages,
        before,
        a + 1,
        child_lo(pages, g, i, lo),
        child_hi(pages, g, i, hi),
        (da - 1) as nat,
    );
    lemma_left_most_is_min(
        pages,
        after,
        a + 1,
        child_lo(pages, g, i + 1, lo),
        child_hi(pages, g, i + 1, hi),
        (da - 1) as nat,
    );
    assert(after[after.len() - 1].idx_cell == 0);
    lemma_path_key_contained(pages, before, a + 1, (da - 1) as nat);
    lemma_path_key_contained(pages, after, a + 1, (da - 1) as nat);
    lemma_contains_in_range(
        pages,
        ci,
        child_lo(pages, g, i, lo),
        child_hi(pages, g, i, hi),
        (da - 1) as nat,
        k0,
    );
    lemma_contains_in_range(
        pages,
        cj,
        child_lo(pages, g, i + 1, lo),
        child_hi(pages, g, i + 1, hi),
        (da - 1) as nat,
        k1,
    );
    assert(key_at(pages, g, i) is Some);
    assert(table_contains(pages, child_page(pages, g, i), k0, (da - 1) as nat));
    assert(table_contains(pages, child_page(pages, g, i + 1), k1, (da - 1) as nat));
    assert(table_contains(pages, before[a].page_id as int, k0, da));
    assert(table_contains(pages, before[a].page_id as int, k1, da));
    assert forall|x: i64| table_contains(pages, before[0].page_id as int, x, d) implies !(k0 < x
        < k1) by {
        if k0 < x < k1 {
            lemma_between_stays_below(pages, before, 0, a, None, None, d, k0, k1, x);
            let j = choose|j: int|
                0 <= j <= g.n_cells() && table_contains(
                    pages,
                    #[trigger] child_page(pages, g, j),
                    x,
                    (da - 1) as nat,
                );
            if j != i && j != i + 1 {
                assert(table_subtree(
                    pages,
                    child_page(pages, g, j),
                    child_lo(pages, g, j, lo),
                    child_hi(pages, g, j, hi),
                    (da - 1) as nat,
                ));
                lemma_contains_in_range(
                    pages,
                    child_page(pages, g, j),
                    child_lo(pages, g, j, lo),
                    child_hi(pages, g, j, hi),
                    (da - 1) as nat,
                    x,
                );
                if j < i - 1 {
                    assert(key_at(pages, g, j) is Some && key_at(pages, g, i - 1) is Some);
                }
                if j - 1 > i + 1 {
                    assert(key_at(pages, g, i + 1) is Some && key_at(pages, g, j - 1) is Some);
                }
            }
        }
    }
}

/// In a well-formed table tree, the path that `move_to_last` takes ends on the largest rowid.
pub proof fn lemma_last_is_max(pages: Seq<Seq<u8>>, frames: Seq<CursorPage>, d: nat)
    requires
        path_valid(pages, frames),
        d >= frames.len(),
        table_subtree(pages, frames[0].page_id as int, None, None, d),
        forall|k: int| 0 <= k < frames.len() - 1 ==> #[trigger] frames[k].idx_cell == frames[k].n_cells(),
        frames.last().is_leaf(),
        frames.last().idx_cell + 1 == frames.last().n_cells(),
    ensures
        table_contains(pages, frames[0].page_id as int, path_key(pages, frames), d),
        forall|x: i64|
            table_contains(pages, frames[0].page_id as int, x, d) ==> x <= path_key(pages, frames),
{
    lemma_right_most_is_max(pages, frames, 0, None, None, d);
    lemma_path_key_contained(pages, frames, 0, d);
}

/// In a well-formed table tree, the path that `move_to_first` takes ends, where its leaf holds
/// a cell, on the smallest rowid.
pub proof fn lemma_first_is_min(pages: Seq<Seq<u8>>, frames: Seq<CursorPage>, d: nat)
    requires
        path_valid(pages, frames),
        d >= frames.len(),
        table_subtree(pages, frames[0].page_id as int, None, None, d),
        forall|k: int| 0 <= k < frames.len() ==> #[trigger] frames[k].idx_cell == 0,
        frames.last().is_leaf(),
        frames.last().n_cells() >= 1,
    ensures
        table_contains(pages, frames[0].page_id as int, path_key(pages, frames), d),
        forall|x: i64|
            table_contains(pages, frames[0].page_id as int, x, d) ==> x >= path_key(pages, frames),
{
    lemma_left_most_is_min(pages, frames, 0, None, None, d);
    assert(frames[frames.len() - 1].idx_cell == 0);
    lemma_path_key_contained(pages, frames, 0, d);
}

/// Whether the b-tree rooted at page `id` decodes down to depth `d`: every page is a b-tree
/// page, and every child pointer of an interior page decodes and leads to such a tree.
pub open spec fn tree_shape(pages: Seq<Seq<u8>>, id: int, d: nat) -> bool
    decreases d,
{
    if d == 0 {
        false
    } else {
        match spec_frame(pages, id) {
            Err(_) => false,
            Ok(f) => !f.is_leaf() ==> forall|j: int|
                0 <= j <= f.n_cells() ==> spec_child_at(page_of(pages, id), id, f.header, j) is Some
                    && tree_shape(pages, #[trigger] child_page(pages, f, j), (d - 1) as nat),
        }
    }
}

/// Along a valid path from the root of a tree that decodes, the subtree at each level decodes
/// to the remaining depth.
pub proof fn lemma_shape_along(pages: Seq<Seq<u8>>, frames: Seq<CursorPage>, l: int, d: nat)
    requires
        path_valid(pages, frames),
        0 <= l < frames.len(),
        d >= l,
        tree_shape(pages, frames[0].page_id as int, d),
    ensures
        tree_shape(pages, frames[l].page_id as int, (d - l) as nat),
    decreases l,
{
    if l > 0 {
        lemma_shape_along(pages, frames, l - 1, d);
        lemma_level(pages, frames, l - 1);
        let g = spec_frame(pages, frames[l - 1].page_id as int)->Ok_0;
        assert(tree_shape(
            pages,
            child_page(pages, g, frames[l - 1].idx_cell as int),
            (d - (l - 1) - 1) as nat,
        ));
        assert((d - (l - 1) - 1) as nat == (d - l) as nat);
    }
}

/// A frame that agrees with a page whose tree decodes can descend through any position up to
/// its right-most child: the child decodes, to one level less.
pub proof fn lemma_shape_child(pages: Seq<Seq<u8>>, f: CursorPage, d: nat)
    requires
        frame_valid(pages, f),
        tree_shape(pages, f.page_id as int, d),
        !f.is_leaf(),
        f.idx_cell <= f.n_cells(),
    ensures
        d >= 2,
        spec_child_at(page_of(pages, f.page_id as int), f.page_id as int, f.header, f.idx_cell as int)
            is Some,
        tree_shape(
            pages,
            spec_child_at(
                page_of(pages, f.page_id as int),
                f.page_id as int,
                f.header,
                f.idx_cell as int,
            ).unwrap() as int,
            (d - 1) as nat,
        ),
{
    let g = spec_frame(pages, f.page_id as int)->Ok_0;
    assert(g.header == f.header);
    assert(tree_shape(pages, child_page(pages, g, f.idx_cell as int), (d - 1) as nat));
}

proof fn lemma_walk_prefix(pages: Seq<Seq<u8>>, root: int, d: nat, ks: Seq<i64>, n: int, x: i64)
    requires
        1 <= n <= ks.len(),
        forall|x: i64| table_contains(pages, root, x, d) ==> x >= ks[0],
        forall|i: int, x: i64|
            0 <= i < ks.len() - 1 && #[trigger] table_contains(pages, root, x, d) ==> !(
            #[trigger] ks[i] < x && x < ks[i + 1]),
        table_contains(pages, root, x, d),
        x <= ks[n - 1],
    ensures
        exists|i: int| 0 <= i < n && ks[i] == x,
    decreases n,
{
    if n == 1 {
        assert(ks[0] == x);
    } else if x <= ks[n - 2] {
        lemma_walk_prefix(pages, root, d, ks, n - 1, x);
        let i = choose|i: int| 0 <= i < n - 1 && ks[i] == x;
        assert(0 <= i < n && ks[i] == x);
    } else {
        assert(!(ks[n - 2] < x && x < ks[n - 1]));
        assert(ks[n - 1] == x);
    }
}

proof fn lemma_walk_ascends(ks: Seq<i64>, i: int, j: int)
    requires
        forall|k: int| 0 <= k < ks.len() - 1 ==> #[trigger] ks[k] < ks[k + 1],
        0 <= i < j < ks.len(),
    ensures
        ks[i] < ks[j],
    decreases j - i,
{
    if j > i + 1 {
        lemma_walk_ascends(ks, i, j - 1);
        assert(ks[j - 1] < ks[j]);
    } else {
        assert(ks[i] < ks[i + 1]);
    }
}

/// A walk over the rowids of a table tree that starts at the smallest, steps each time to a
/// larger rowid with none of the tree's rowids in between, and ends at the largest visits every
/// rowid of the tree exactly once, in strictly ascending order.
pub proof fn lemma_walk_visits_all(pages: Seq<Seq<u8>>, root: int, d: nat, ks: Seq<i64>)
    requires
        ks.len() >= 1,
        forall|i: int| 0 <= i < ks.len() ==> table_contains(pages, root, #[trigger] ks[i], d),
        forall|x: i64| table_contains(pages, root, x, d) ==> x >= ks[0],
        forall|k: int| 0 <= k < ks.len() - 1 ==> #[trigger] ks[k] < ks[k + 1],
        forall|i: int, x: i64|
            0 <= i < ks.len() - 1 && #[trigger] table_contains(pages, root, x, d) ==> !(
            #[trigger] ks[i] < x && x < ks[i + 1]),
        forall|x: i64| table_contains(pages, root, x, d) ==> x <= ks.last(),
    ensures
        forall|i: int, j: int| 0 <= i < j < ks.len() ==> ks[i] < ks[j],
        forall|x: i64|
            table_contains(pages, root, x, d) <==> exists|i: int| 0 <= i < ks.len() && ks[i] == x,
{
    assert forall|i: int, j: int| 0 <= i < j < ks.len() implies ks[i] < ks[j] by {
        lemma_walk_ascends(ks, i, j);
    }
    assert forall|x: i64|
        table_contains(pages, root, x, d) <==> exists|i: int| 0 <= i < ks.len() && ks[i] == x by {
        if table_contains(pages, root, x, d) {
            lemma_walk_prefix(pages, root, d, ks, ks.len() as int, x);
        }
        if exists|i: int| 0 <= i < ks.len() && ks[i] == x {
            let i = choose|i: int| 0 <= i < ks.len() && ks[i] == x;
            assert(table_contains(pages, root, ks[i], d));
        }
    }
}

/// On a page whose rowids strictly ascend, the lower bound of a key is one position.
pub proof fn lemma_lower_bound_unique(s: Seq<u8>, id: int, h: PageHeader, i: int, j: int, key: i64)
    requires
        keys_ascending(s, id, h),
        0 <= i <= h.n_cells,
        0 <= j <= h.n_cells,
        at_lower_bound(s, id, h, i, key),
        at_lower_bound(s, id, h, j, key),
    ensures
        i == j,
{
    if i < j {
        assert(spec_table_cell_key(s, id, h, i) is Some);
    } else if j < i {
        assert(spec_table_cell_key(s, id, h, j) is Some);
    }
}

/// Whether every frame of `frames` stands on a page whose rowids ascend, at the lower bound of
/// `key`.
pub open spec fn path_at_lower_bounds(pages: Seq<Seq<u8>>, frames: Seq<CursorPage>, key: i64) -> bool {
    forall|k: int|
        0 <= k < frames.len() ==> keys_ascending(
            page_of(pages, frames[k].page_id as int),
            frames[k].page_id as int,
            frames[k].header,
        ) && at_lower_bound(
            page_of(pages, (#[trigger] frames[k]).page_id as int),
            frames[k].page_id as int,
            frames[k].header,
            frames[k].idx_cell as int,
            key,
        )
}

proof fn lemma_same_search_from(
    pages: Seq<Seq<u8>>,
    p1: Seq<CursorPage>,
    p2: Seq<CursorPage>,
    key: i64,
    l: int,
)
    requires
        path_valid(pages, p1),
        path_valid(pages, p2),
        p1.last().is_leaf(),
        p2.last().is_leaf(),
        p1.last().idx_cell <= p1.last().n_cells(),
        p2.last().idx_cell <= p2.last().n_cells(),
        path_at_lower_bounds(pages, p1, key),
        forall|k: int| 0 <= k < p2.len() ==> frame_searched(pages, #[trigger] p2[k], key),
        0 <= l < p1.len(),
        l < p2.len(),
        p1[l].page_id == p2[l].page_id,
    ensures
        p1.len() == p2.len(),
        forall|k: int| l <= k < p1.len() ==> p1[k] == p2[k],
    decreases p1.len() - l,
{
    assert(frame_valid(pages, p1[l]) && frame_valid(pages, p2[l]));
    assert(p1[l].header == p2[l].header);
    let s = page_of(pages, p1[l].page_id as int);
    let id = p1[l].page_id as int;
    assert(keys_ascending(s, id, p1[l].header) && at_lower_bound(
        s,
        id,
        p1[l].header,
        p1[l].idx_cell as int,
        key,
    ));
    assert(frame_searched(pages, p2[l], key));
    if l < p1.len() - 1 {
        assert(links(pages, p1[l], p1[l + 1]));
    }
    if l < p2.len() - 1 {
        assert(links(pages, p2[l], p2[l + 1]));
    }
    assert(p1[l].idx_cell <= p1[l].n_cells());
    assert(p2[l].idx_cell <= p2[l].n_cells());
    lemma_lower_bound_unique(s, id, p1[l].header, p1[l].idx_cell as int, p2[l].idx_cell as int, key);
    assert(p1[l] == p2[l]);
    if l == p1.len() - 1 {
        if l < p2.len() - 1 {
            assert(links(pages, p2[l], p2[l + 1]));
        }
    } else {
        if l == p2.len() - 1 {
            assert(links(pages, p1[l], p1[l + 1]));
        }
        assert(links(pages, p1[l], p1[l + 1]) && links(pages, p2[l], p2[l + 1]));
        lemma_same_search_from(pages, p1, p2, key, l + 1);
    }
}

/// A search for `key` from the root of a path whose pages all ascend and that stands at the
/// lower bound of `key` on each of them takes exactly that path; where that path ends on a cell
/// holding `key`, the search finds `key`.
pub proof fn lemma_search_takes_path(
    pages: Seq<Seq<u8>>,
    p1: Seq<CursorPage>,
    p2: Seq<CursorPage>,
    key: i64,
)
    requires
        path_valid(pages, p1),
        p1.last().is_leaf(),
        p1.last().idx_cell <= p1.last().n_cells(),
        path_at_lower_bounds(pages, p1, key),
        path_valid(pages, p2),
        p2.last().is_leaf(),
        p2.last().idx_cell <= p2.last().n_cells(),
        p1[0].page_id == p2[0].page_id,
        forall|k: int| 0 <= k < p2.len() ==> frame_searched(pages, #[trigger] p2[k], key),
    ensures
        p2 == p1,
        key_at(pages, p1.last(), p1.last().idx_cell as int) == Some(key) ==> key_at(
            pages,
            p2.last(),
            p2.last().idx_cell as int,
        ) == Some(key),
{
    lemma_same_search_from(pages, p1, p2, key, 0);
    assert(p2 =~= p1);
}

/// Every page on a valid path from the root of a well-formed table tree has ascending rowids.
pub proof fn lemma_path_pages_ascend(pages: Seq<Seq<u8>>, frames: Seq<CursorPage>, d: nat)
    requires
        path_valid(pages, frames),
        d >= frames.len(),
        table_subtree(pages, frames[0].page_id as int, None, None, d),
    ensures
        forall|k: int|
            0 <= k < frames.len() ==> keys_ascending(
                page_of(pages, (#[trigger] frames[k]).page_id as int),
                frames[k].page_id as int,
                frames[k].header,
            ),
{
    assert forall|k: int| 0 <= k < frames.len() implies keys_ascending(
        page_of(pages, (#[trigger] frames[k]).page_id as int),
        frames[k].page_id as int,
        frames[k].header,
    ) by {
        lemma_subtree_along(pages, frames, 0, k, None, None, d);
        let (lo, hi) = choose|lo: Option<i64>, hi: Option<i64>|
            #[trigger] table_subtree(pages, frames[k].page_id as int, lo, hi, (d - k) as nat);
        lemma_level(pages, frames, k);
    }
}

/// After the leaf at the end of a search path is rewritten with ascending rowids that hold
/// `key` at the searched position, the path stands at the lower bound of `key` on every page,
/// all of which ascend.
pub proof fn lemma_insert_keeps_search(
    pages: Seq<Seq<u8>>,
    root: int,
    path: Seq<CursorPage>,
    q: Seq<u8>,
    h: PageHeader,
    key: i64,
)
    requires
        searched_path(pages, root, path, key),
        path.len() <= MAX_DEPTH,
        table_subtree(pages, root, None, None, MAX_DEPTH as nat),
        h.page_type == path.last().header.page_type,
        spec_page_header(q, path.last().page_id as int) == Some(h),
        keys_ascending(q, path.last().page_id as int, h),
        path.last().idx_cell < h.n_cells,
        spec_table_cell_key(q, path.last().page_id as int, h, path.last().idx_cell as int) == Some(
            key,
        ),
    ensures
        path_at_lower_bounds(
            pages.update(path.last().page_id - 1, q),
            with_leaf_header(path, h),
            key,
        ),
{
    let id = path.last().page_id as int;
    let new_pages = pages.update(id - 1, q);
    let after = with_leaf_header(path, h);
    lemma_path_pages_ascend(pages, path, MAX_DEPTH as nat);
    assert(frame_valid(pages, path.last()));
    assert forall|k: int| 0 <= k < after.len() implies keys_ascending(
        page_of(new_pages, after[k].page_id as int),
        after[k].page_id as int,
        after[k].header,
    ) && at_lower_bound(
        page_of(new_pages, (#[trigger] after[k]).page_id as int),
        after[k].page_id as int,
        after[k].header,
        after[k].idx_cell as int,
        key,
    ) by {
        if k < path.len() - 1 {
            assert(frame_valid(pages, path[k]));
            assert(links(pages, path[k], path[k + 1]));
            assert(path[k].page_id != id);
            assert(frame_searched(pages, path[k], key));
            assert(keys_ascending(
                page_of(pages, path[k].page_id as int),
                path[k].page_id as int,
                path[k].header,
            ));
        } else {
            let i = path.last().idx_cell as int;
            assert forall|j: int| 0 <= j < i implies #[trigger] spec_table_cell_key(q, id, h, j)
                is Some && spec_table_cell_key(q, id, h, j).unwrap() < key by {
                assert(spec_table_cell_key(q, id, h, j) is Some && spec_table_cell_key(q, id, h, i)
                    is Some);
            }
            assert forall|j: int| i <= j < h.n_cells implies #[trigger] spec_table_cell_key(
                q,
                id,
                h,
                j,
            ) is Some && spec_table_cell_key(q, id, h, j).unwrap() >= key by {
                if j > i {
                    assert(spec_table_cell_key(q, id, h, j) is Some && spec_table_cell_key(
                        q,
                        id,
                        h,
                        i,
                    ) is Some);
                }
            }
        }
    }
}

/// A rowid that a well-formed subtree holds lies below every level of a search path for it: the
/// leaf at the end of the path holds it.
pub proof fn lemma_contained_follows_search(
    pages: Seq<Seq<u8>>,
    frames: Seq<CursorPage>,
    l: int,
    lo: Option<i64>,
    hi: Option<i64>,
    d: nat,
    key: i64,
)
    requires
        path_valid(pages, frames),
        0 <= l < frames.len(),
        d >= frames.len() - l,
        table_subtree(pages, frames[l].page_id as int, lo, hi, d),
        table_contains(pages, frames[l].page_id as int, key, d),
        forall|k: int| 0 <= k < frames.len() ==> frame_searched(pages, #[trigger] frames[k], key),
        frames.last().is_leaf(),
        frames.last().idx_cell <= frames.last().n_cells(),
    ensures
        frames.last().idx_cell < frames.last().n_cells(),
        key_at(pages, frames.last(), frames.last().idx_cell as int) == Some(key),
    decreases frames.len() - l,
{
    let f = frames[l];
    let id = f.page_id as int;
    lemma_level(pages, frames, l);
    let g = spec_frame(pages, id)->Ok_0;
    assert(frame_searched(pages, f, key));
    let i = f.idx_cell as int;
    if l == frames.len() - 1 {
        let j = choose|j: int| 0 <= j < g.n_cells() && #[trigger] key_at(pages, g, j) == Some(key);
        assert(key_at(pages, f, j) == key_at(pages, g, j));
        if j < i {
            assert(key_at(pages, f, j) is Some);
        } else if j > i {
            assert(key_at(pages, f, i) is Some && key_at(pages, f, j) is Some);
        }
    } else {
        let j = choose|j: int|
            0 <= j <= g.n_cells() && table_contains(
                pages,
                #[trigger] child_page(pages, g, j),
                key,
                (d - 1) as nat,
            );
        assert(table_subtree(
            pages,
            child_page(pages, g, j),
            child_lo(pages, g, j, lo),
            child_hi(pages, g, j, hi),
            (d - 1) as nat,
        ));
        lemma_contains_in_range(
            pages,
            child_page(pages, g, j),
            child_lo(pages, g, j, lo),
            child_hi(pages, g, j, hi),
            (d - 1) as nat,
            key,
        );
        if j < i {
            assert(key_at(pages, f, j) == key_at(pages, g, j));
            assert(key_at(pages, f, j) is Some);
        } else if j > i {
            assert(key_at(pages, f, i) == key_at(pages, g, i));
            assert(key_at(pages, f, j - 1) == key_at(pages, g, j - 1));
            assert(key_at(pages, f, i) is Some && key_at(pages, f, j - 1) is Some);
        }
        assert(j == i);
        lemma_contained_follows_search(
            pages,
            frames,
            l + 1,
            child_lo(pages, g, i, lo),
            child_hi(pages, g, i, hi),
            (d - 1) as nat,
            key,
        );
    }
}

/// After `insert(key, ..)` succeeded on a well-formed tree, the path it leaves stands at the
/// lower bound of `key` on ascending pages and ends on `key`; a later search for `key` on the
/// new pages takes that path and finds `key`.
pub proof fn lemma_inserted_row_found(
    pages: Seq<Seq<u8>>,
    root: int,
    ins: Seq<CursorPage>,
    later: Seq<CursorPage>,
    key: i64,
)
    requires
        path_valid(pages, ins),
        ins[0].page_id == root,
        ins.last().is_leaf(),
        ins.last().idx_cell < ins.last().n_cells(),
        path_at_lower_bounds(pages, ins, key),
        key_at(pages, ins.last(), ins.last().idx_cell as int) == Some(key),
        searched_path(pages, root, later, key),
    ensures
        later == ins,
        later.last().idx_cell < later.last().n_cells(),
        key_at(pages, later.last(), later.last().idx_cell as int) == Some(key),
{
    lemma_search_takes_path(pages, ins, later, key);
}

} // verus!
