// Database images for the tests, laid out in the file format by a small bulk loader.

use prsqlite::parse_record_payload;
use prsqlite::BtreeContext;
use prsqlite::BtreeCursor;
use prsqlite::BtreePayload;
use prsqlite::Columns;
use prsqlite::Pager;
use std::cmp::Ordering;

pub const PAGE_SIZE: usize = 4096;
pub const USABLE: usize = 4096;

pub fn varint(out: &mut Vec<u8>, v: u64) {
    if v > 0x00ff_ffff_ffff_ffff {
        let mut bytes = [0u8; 9];
        bytes[8] = (v & 0xff) as u8;
        let mut w = v >> 8;
        for i in (0..8).rev() {
            bytes[i] = ((w & 0x7f) as u8) | 0x80;
            w >>= 7;
        }
        out.extend_from_slice(&bytes);
        return;
    }
    let mut groups = Vec::new();
    let mut w = v;
    loop {
        groups.push((w & 0x7f) as u8);
        w >>= 7;
        if w == 0 {
            break;
        }
    }
    let n = groups.len();
    for (i, g) in groups.iter().rev().enumerate() {
        if i + 1 < n {
            out.push(g | 0x80);
        } else {
            out.push(*g);
        }
    }
}

#[derive(Clone, Debug)]
pub enum Col {
    Null,
    Int(i64),
    Real(f64),
    Text(Vec<u8>),
    Blob(Vec<u8>),
}

pub fn text(s: &str) -> Col {
    Col::Text(s.as_bytes().to_vec())
}

#[derive(Clone, Copy, Debug)]
pub enum Coll {
    Binary,
    NoCase,
    RTrim,
}

fn class(c: &Col) -> u8 {
    match c {
        Col::Null => 0,
        Col::Int(_) | Col::Real(_) => 1,
        Col::Text(_) => 2,
        Col::Blob(_) => 3,
    }
}

fn collate(t: &[u8], coll: Coll) -> Vec<u8> {
    match coll {
        Coll::Binary => t.to_vec(),
        Coll::NoCase => t.to_ascii_lowercase(),
        Coll::RTrim => {
            let mut n = t.len();
            while n > 0 && t[n - 1] == b' ' {
                n -= 1;
            }
            t[..n].to_vec()
        }
    }
}

pub fn cmp_col(a: &Col, b: &Col, coll: Coll) -> Ordering {
    let (ca, cb) = (class(a), class(b));
    if ca != cb {
        return ca.cmp(&cb);
    }
    match (a, b) {
        (Col::Int(x), Col::Int(y)) => x.cmp(y),
        (Col::Int(x), Col::Real(y)) => (*x as f64).partial_cmp(y).unwrap(),
        (Col::Real(x), Col::Int(y)) => x.partial_cmp(&(*y as f64)).unwrap(),
        (Col::Real(x), Col::Real(y)) => x.partial_cmp(y).unwrap(),
        (Col::Text(x), Col::Text(y)) => collate(x, coll).cmp(&collate(y, coll)),
        (Col::Blob(x), Col::Blob(y)) => x.cmp(y),
        _ => Ordering::Equal,
    }
}

pub fn cmp_cols(a: &[Col], b: &[Col], colls: &[Coll]) -> Ordering {
    for i in 0..a.len() {
        let o = cmp_col(&a[i], &b[i], colls[i]);
        if o != Ordering::Equal {
            return o;
        }
    }
    Ordering::Equal
}

/// The record of `cols` in the file format.
pub fn record(cols: &[Col]) -> Vec<u8> {
    let mut types = Vec::new();
    let mut body = Vec::new();
    for c in cols {
        match c {
            Col::Null => varint(&mut types, 0),
            Col::Int(0) => varint(&mut types, 8),
            Col::Int(1) => varint(&mut types, 9),
            Col::Int(i) => {
                let i = *i;
                let (t, n) = if (-128..=127).contains(&i) {
                    (1, 1)
                } else if (-32768..=32767).contains(&i) {
                    (2, 2)
                } else if (-8388608..=8388607).contains(&i) {
                    (3, 3)
                } else if (-2147483648..=2147483647).contains(&i) {
                    (4, 4)
                } else if (-140737488355328..=140737488355327).contains(&i) {
                    (5, 6)
                } else {
                    (6, 8)
                };
                varint(&mut types, t);
                body.extend_from_slice(&i.to_be_bytes()[8 - n..]);
            }
            Col::Real(f) => {
                varint(&mut types, 7);
                body.extend_from_slice(&f.to_bits().to_be_bytes());
            }
            Col::Text(t) => {
                varint(&mut types, (t.len() * 2 + 13) as u64);
                body.extend_from_slice(t);
            }
            Col::Blob(b) => {
                varint(&mut types, (b.len() * 2 + 12) as u64);
                body.extend_from_slice(b);
            }
        }
    }
    let mut header_len = types.len() + 1;
    loop {
        let mut h = Vec::new();
        varint(&mut h, header_len as u64);
        if h.len() + types.len() == header_len {
            break;
        }
        header_len = h.len() + types.len();
    }
    let mut out = Vec::new();
    varint(&mut out, header_len as u64);
    out.extend_from_slice(&types);
    out.extend_from_slice(&body);
    out
}

fn max_local(table_leaf: bool) -> usize {
    if table_leaf {
        USABLE - 35
    } else {
        (USABLE - 12) * 64 / 255 - 23
    }
}

fn min_local() -> usize {
    (USABLE - 12) * 32 / 255 - 23
}

pub struct Db {
    pages: Vec<Vec<u8>>,
}

impl Db {
    pub fn new() -> Db {
        Db { pages: vec![vec![0u8; PAGE_SIZE]] }
    }

    fn new_page(&mut self) -> u32 {
        self.pages.push(vec![0u8; PAGE_SIZE]);
        self.pages.len() as u32
    }

    /// The payload part of a cell: local bytes, then the first overflow page where needed.
    fn payload_part(&mut self, payload: &[u8], table_leaf: bool) -> Vec<u8> {
        let x = max_local(table_leaf);
        if payload.len() <= x {
            return payload.to_vec();
        }
        let m = min_local();
        let k = m + (payload.len() - m) % (USABLE - 4);
        let local = if k <= x { k } else { m };
        let rest = &payload[local..];
        let chunks: Vec<&[u8]> = rest.chunks(USABLE - 4).collect();
        let ids: Vec<u32> = chunks.iter().map(|_| self.new_page()).collect();
        for (i, chunk) in chunks.iter().enumerate() {
            let next = if i + 1 < ids.len() { ids[i + 1] } else { 0 };
            let page = &mut self.pages[ids[i] as usize - 1];
            page[..4].copy_from_slice(&next.to_be_bytes());
            page[4..4 + chunk.len()].copy_from_slice(chunk);
        }
        let mut out = payload[..local].to_vec();
        out.extend_from_slice(&ids[0].to_be_bytes());
        out
    }

    fn write_page(&mut self, id: u32, kind: u8, cells: &[Vec<u8>], right: u32) {
        let page = &mut self.pages[id as usize - 1];
        let header = if kind == 0x0d || kind == 0x0a { 8 } else { 12 };
        let mut content = PAGE_SIZE;
        for (i, cell) in cells.iter().enumerate() {
            content -= cell.len();
            page[content..content + cell.len()].copy_from_slice(cell);
            page[header + 2 * i..header + 2 * i + 2].copy_from_slice(&(content as u16).to_be_bytes());
        }
        page[0] = kind;
        page[3..5].copy_from_slice(&(cells.len() as u16).to_be_bytes());
        page[5..7].copy_from_slice(&((content % 65536) as u16).to_be_bytes());
        if header == 12 {
            page[8..12].copy_from_slice(&right.to_be_bytes());
        }
        assert!(header + 2 * cells.len() <= content);
    }

    /// A table b-tree holding `rows`, given in rowid order; returns its root page.
    pub fn table(&mut self, rows: &[(i64, Vec<u8>)]) -> u32 {
        let mut cells = Vec::new();
        for (rowid, payload) in rows {
            let mut cell = Vec::new();
            varint(&mut cell, payload.len() as u64);
            varint(&mut cell, *rowid as u64);
            let part = self.payload_part(payload, true);
            cell.extend_from_slice(&part);
            cells.push((*rowid, cell));
        }
        // Leaves.
        let mut level: Vec<(u32, i64)> = Vec::new();
        let mut i = 0;
        loop {
            let mut used = 8;
            let mut page_cells = Vec::new();
            let mut last = 0;
            while i < cells.len() && used + cells[i].1.len() + 2 <= PAGE_SIZE {
                used += cells[i].1.len() + 2;
                page_cells.push(cells[i].1.clone());
                last = cells[i].0;
                i += 1;
            }
            let id = self.new_page();
            self.write_page(id, 0x0d, &page_cells, 0);
            level.push((id, last));
            if i >= cells.len() {
                break;
            }
        }
        // Interior levels: each child but the last of a page is a cell keyed by its largest
        // rowid.
        while level.len() > 1 {
            let mut next: Vec<(u32, i64)> = Vec::new();
            let mut page_cells: Vec<Vec<u8>> = Vec::new();
            let mut used = 12;
            let mut pending: Option<(u32, i64)> = None;
            for child in level.iter() {
                if let Some((pid, pkey)) = pending {
                    let mut cell = pid.to_be_bytes().to_vec();
                    varint(&mut cell, pkey as u64);
                    if used + cell.len() + 2 <= PAGE_SIZE {
                        used += cell.len() + 2;
                        page_cells.push(cell);
                    } else {
                        let id = self.new_page();
                        self.write_page(id, 0x05, &page_cells, pid);
                        next.push((id, pkey));
                        page_cells.clear();
                        used = 12;
                    }
                }
                pending = Some(*child);
            }
            let (pid, pkey) = pending.unwrap();
            let id = self.new_page();
            self.write_page(id, 0x05, &page_cells, pid);
            next.push((id, pkey));
            level = next;
        }
        level[0].0
    }

    /// An index b-tree holding the records `keys`, given in key order; returns its root page.
    pub fn index(&mut self, keys: &[Vec<u8>]) -> u32 {
        let mut cells = Vec::new();
        for payload in keys {
            let mut cell = Vec::new();
            varint(&mut cell, payload.len() as u64);
            let part = self.payload_part(payload, false);
            cell.extend_from_slice(&part);
            cells.push(cell);
        }
        // Leaves, with one entry moved up between each two of them.
        let mut children: Vec<u32> = Vec::new();
        let mut dividers: Vec<Vec<u8>> = Vec::new();
        let mut i = 0;
        loop {
            let mut used = 8;
            let mut page_cells: Vec<Vec<u8>> = Vec::new();
            while i < cells.len() && used + cells[i].len() + 2 <= PAGE_SIZE {
                used += cells[i].len() + 2;
                page_cells.push(cells[i].clone());
                i += 1;
            }
            let mut divider = None;
            if i + 1 < cells.len() {
                divider = Some(cells[i].clone());
                i += 1;
            } else if i + 1 == cells.len() {
                divider = page_cells.pop();
            }
            let id = self.new_page();
            self.write_page(id, 0x0a, &page_cells, 0);
            children.push(id);
            match divider {
                Some(d) => dividers.push(d),
                None => break,
            }
        }
        // Interior levels: a cell holds a child and the entry that follows its subtree.
        while children.len() > 1 {
            let mut next_children: Vec<u32> = Vec::new();
            let mut next_dividers: Vec<Vec<u8>> = Vec::new();
            let mut page_cells: Vec<Vec<u8>> = Vec::new();
            let mut used = 12;
            let mut pending = children[0];
            for k in 0..dividers.len() {
                let mut cell = pending.to_be_bytes().to_vec();
                cell.extend_from_slice(&dividers[k]);
                if page_cells.is_empty() || used + cell.len() + 2 <= PAGE_SIZE {
                    used += cell.len() + 2;
                    page_cells.push(cell);
                } else {
                    let id = self.new_page();
                    self.write_page(id, 0x02, &page_cells, pending);
                    next_children.push(id);
                    next_dividers.push(dividers[k].clone());
                    page_cells.clear();
                    used = 12;
                }
                pending = children[k + 1];
            }
            let id = self.new_page();
            self.write_page(id, 0x02, &page_cells, pending);
            next_children.push(id);
            children = next_children;
            dividers = next_dividers;
        }
        children[0]
    }

    /// The image of the whole file.
    pub fn image(&self) -> Vec<u8> {
        let mut pages = self.pages.clone();
        let n = pages.len() as u32;
        let first = &mut pages[0];
        first[..16].copy_from_slice(b"SQLite format 3\0");
        first[16..18].copy_from_slice(&(PAGE_SIZE as u16).to_be_bytes());
        first[18] = 1;
        first[19] = 1;
        first[20] = (PAGE_SIZE - USABLE) as u8;
        first[21] = 64;
        first[22] = 32;
        first[23] = 32;
        first[28..32].copy_from_slice(&n.to_be_bytes());
        first[44..48].copy_from_slice(&4u32.to_be_bytes());
        first[56..60].copy_from_slice(&1u32.to_be_bytes());
        first[100] = 0x0d;
        first[105..107].copy_from_slice(&(PAGE_SIZE as u16).to_be_bytes());
        pages.concat()
    }

    pub fn pager(&self) -> Pager {
        Pager::from_image(&self.image()).unwrap()
    }
}

/// Table rows `(rowid, record)` for rows of single columns.
pub fn rows_of(cols: &[(i64, Vec<Col>)]) -> Vec<(i64, Vec<u8>)> {
    cols.iter().map(|(r, c)| (*r, record(c))).collect()
}

/// Index records of `(columns..., rowid)` sorted by the given collations.
pub fn index_records(entries: &[(Vec<Col>, i64)], colls: &[Coll]) -> Vec<Vec<u8>> {
    let mut keyed: Vec<Vec<Col>> = entries
        .iter()
        .map(|(cols, rowid)| {
            let mut k = cols.clone();
            k.push(Col::Int(*rowid));
            k
        })
        .collect();
    let mut all_colls = colls.to_vec();
    all_colls.push(Coll::Binary);
    keyed.sort_by(|a, b| cmp_cols(a, b, &all_colls));
    keyed.iter().map(|k| record(k)).collect()
}

pub fn open_cursor(root: u32, pager: &Pager) -> BtreeCursor {
    BtreeCursor::new(root, pager, &BtreeContext::new(USABLE as u32)).unwrap()
}

pub fn columns(payload: &BtreePayload) -> Columns {
    parse_record_payload(payload).unwrap()
}

use prsqlite::Collation;
use prsqlite::Value;
use prsqlite::ValueCmp;

fn int_rows(values: &[(i64, i64)]) -> Vec<(i64, Vec<u8>)> {
    values.iter().map(|(rowid, v)| (*rowid, record(&[Col::Int(*v)]))).collect()
}

/// Table `example(col)` with rows 1, 2, 3 holding 0, 1, 2, and its index on `col`.
fn three_rows(index_values: &[i64]) -> (Pager, u32, u32) {
    let mut db = Db::new();
    let table = db.table(&int_rows(&[(1, index_values[0]), (2, index_values[1]), (3, index_values[2])]));
    let entries: Vec<(Vec<Col>, i64)> =
        (0..3).map(|i| (vec![Col::Int(index_values[i])], i as i64 + 1)).collect();
    let index = db.index(&index_records(&entries, &[Coll::Binary]));
    (db.pager(), table, index)
}

fn key(v: Value) -> ValueCmp {
    ValueCmp::new(&v, &Collation::Binary)
}

fn last_int(c: &Columns) -> i64 {
    match c.get(c.len() - 1).unwrap() {
        Value::Integer(i) => *i,
        other => panic!("unexpected payload: {:?}", other),
    }
}

#[test]
fn test_btree_cursor_single_table_page() {
    let (pager, page_id, _) = three_rows(&[0, 1, 2]);
    let mut cursor = open_cursor(page_id, &pager);

    cursor.move_to_first(&pager).unwrap();
    let payload = cursor.get_table_payload(&pager).unwrap();
    assert!(payload.is_some());
    let (key, payload) = payload.unwrap();
    assert_eq!(key, 1);
    assert_eq!(payload.buf(), &[2, 8]);
    assert_eq!(payload.size(), payload.buf().len() as i32);
    assert!(cursor.get_index_payload(&pager).is_err());
    drop(payload);
    assert_eq!(cursor.get_table_key(&pager).unwrap().unwrap(), 1);

    cursor.move_next(&pager).unwrap();
    let payload = cursor.get_table_payload(&pager).unwrap();
    assert!(payload.is_some());
    let (key, payload) = payload.unwrap();
    assert_eq!(key, 2);
    assert_eq!(payload.buf(), &[2, 9]);
    assert_eq!(payload.size(), payload.buf().len() as i32);
    assert!(cursor.get_index_payload(&pager).is_err());
    drop(payload);
    assert_eq!(cursor.get_table_key(&pager).unwrap().unwrap(), 2);

    cursor.move_next(&pager).unwrap();
    let payload = cursor.get_table_payload(&pager).unwrap();
    assert!(payload.is_some());
    let (key, payload) = payload.unwrap();
    assert_eq!(key, 3);
    assert_eq!(payload.buf(), &[2, 1, 2]);
    assert_eq!(payload.size(), payload.buf().len() as i32);
    assert!(cursor.get_index_payload(&pager).is_err());
    drop(payload);
    assert_eq!(cursor.get_table_key(&pager).unwrap().unwrap(), 3);

    cursor.move_next(&pager).unwrap();
    assert!(cursor.get_table_payload(&pager).unwrap().is_none());
    assert!(cursor.get_index_payload(&pager).is_err());
    assert!(cursor.get_table_key(&pager).unwrap().is_none());

    cursor.move_to_last(&pager).unwrap();
    assert_eq!(cursor.get_table_key(&pager).unwrap().unwrap(), 3);

    cursor.move_to_first(&pager).unwrap();
    cursor.move_to_last(&pager).unwrap();
    assert_eq!(cursor.get_table_key(&pager).unwrap().unwrap(), 3);
}

#[test]
fn test_btree_cursor_single_index_page() {
    let (pager, _, page_id) = three_rows(&[1, 0, 2]);
    let mut cursor = open_cursor(page_id, &pager);

    cursor.move_to_first(&pager).unwrap();
    let payload = cursor.get_index_payload(&pager).unwrap();
    assert!(payload.is_some());
    let payload = payload.unwrap();
    assert_eq!(payload.buf(), &[3, 8, 1, 2]);
    assert_eq!(payload.size(), payload.buf().len() as i32);
    assert!(cursor.get_table_payload(&pager).is_err());
    drop(payload);

    cursor.move_next(&pager).unwrap();
    let payload = cursor.get_index_payload(&pager).unwrap();
    assert!(payload.is_some());
    let payload = payload.unwrap();
    assert_eq!(payload.buf(), &[3, 9, 9]);
    assert_eq!(payload.size(), payload.buf().len() as i32);
    assert!(cursor.get_table_payload(&pager).is_err());
    drop(payload);

    cursor.move_next(&pager).unwrap();
    let payload = cursor.get_index_payload(&pager).unwrap();
    assert!(payload.is_some());
    let payload = payload.unwrap();
    assert_eq!(payload.buf(), &[3, 1, 1, 2, 3]);
    assert_eq!(payload.size(), payload.buf().len() as i32);
    assert!(cursor.get_table_payload(&pager).is_err());
    drop(payload);

    cursor.move_next(&pager).unwrap();
    assert!(cursor.get_index_payload(&pager).unwrap().is_none());
    assert!(cursor.get_table_payload(&pager).is_err());

    cursor.move_to_last(&pager).unwrap();
    assert_eq!(cursor.get_index_payload(&pager).unwrap().unwrap().buf(), &[3, 1, 1, 2, 3]);

    cursor.move_to_first(&pager).unwrap();
    cursor.move_to_last(&pager).unwrap();
    assert_eq!(cursor.get_index_payload(&pager).unwrap().unwrap().buf(), &[3, 1, 1, 2, 3]);
}

#[test]
fn test_cursor_uninitialized() {
    let (pager, table_page_id, index_page_id) = three_rows(&[0, 1, 2]);
    let mut table_cursor = open_cursor(table_page_id, &pager);
    let mut index_cursor = open_cursor(index_page_id, &pager);

    assert!(table_cursor.move_next(&pager).is_err());
    assert!(table_cursor.get_table_payload(&pager).is_err());
    assert!(index_cursor.move_next(&pager).is_err());
    assert!(index_cursor.get_index_payload(&pager).is_err());
}

fn empty_table_and_index() -> (Pager, u32, u32) {
    let mut db = Db::new();
    let table = db.table(&[]);
    let index = db.index(&[]);
    (db.pager(), table, index)
}

#[test]
fn test_btree_cursor_empty_table() {
    let (pager, page_id, _) = empty_table_and_index();
    let mut cursor = open_cursor(page_id, &pager);
    cursor.move_to_first(&pager).unwrap();
    assert!(cursor.get_table_payload(&pager).unwrap().is_none());
    cursor.move_next(&pager).unwrap();
    assert!(cursor.get_table_payload(&pager).unwrap().is_none());
    assert!(cursor.table_move_to(&pager, 0).unwrap().is_none());
    assert!(cursor.get_table_payload(&pager).unwrap().is_none());
    cursor.move_to_last(&pager).unwrap();
    assert!(cursor.get_table_payload(&pager).unwrap().is_none());
}

#[test]
fn test_btree_cursor_empty_index() {
    let (pager, _, page_id) = empty_table_and_index();
    let mut cursor = open_cursor(page_id, &pager);
    cursor.move_to_first(&pager).unwrap();
    assert!(cursor.get_index_payload(&pager).unwrap().is_none());
    cursor.move_next(&pager).unwrap();
    assert!(cursor.get_index_payload(&pager).unwrap().is_none());
    cursor.index_move_to(&pager, &[key(Value::Integer(0))]).unwrap();
    assert!(cursor.get_index_payload(&pager).unwrap().is_none());
    cursor.move_to_last(&pager).unwrap();
    assert!(cursor.get_index_payload(&pager).unwrap().is_none());
}

#[test]
fn test_btree_cursor_multiple_level_pages() {
    // index record has 1 (header length) + 2 (bytes) + 1 (integer) bytes header +
    // at most 2 (integer) rowid.
    const BUFFER_SIZE: usize = 994;
    let buf = vec![0u8; BUFFER_SIZE];
    let mut rows = Vec::new();
    let mut index1 = Vec::new();
    let mut index2 = Vec::new();
    for i in 0..5000i64 {
        let blob = if i < 4000 { buf.clone() } else { vec![0xff] };
        rows.push((i + 1, vec![Col::Int(i), Col::Blob(blob.clone())]));
        index1.push((vec![Col::Blob(blob)], i + 1));
        index2.push((vec![Col::Int(i)], i + 1));
    }
    let mut db = Db::new();
    let table_page_id = db.table(&rows_of(&rows));
    let index1_page_id = db.index(&index_records(&index1, &[Coll::Binary]));
    let index2_page_id = db.index(&index_records(&index2, &[Coll::Binary]));
    let pager = db.pager();

    let mut table_cursor = open_cursor(table_page_id, &pager);
    table_cursor.move_to_first(&pager).unwrap();
    let mut index1_cursor = open_cursor(index1_page_id, &pager);
    index1_cursor.move_to_first(&pager).unwrap();
    let mut index2_cursor = open_cursor(index2_page_id, &pager);
    index2_cursor.move_to_first(&pager).unwrap();

    for i in 0..4000 {
        let payload = table_cursor.get_table_payload(&pager).unwrap();
        assert!(payload.is_some());
        let (rowid, payload) = payload.unwrap();
        assert_eq!(rowid, i + 1);
        assert!(payload.size() > BUFFER_SIZE as i32);
        assert_eq!(payload.size(), payload.buf().len() as i32);
        let table_record = columns(&payload);
        assert_eq!(table_record.get(0).unwrap(), &Value::Integer(i));
        drop(payload);
        assert_eq!(table_cursor.get_table_key(&pager).unwrap().unwrap(), i + 1);
        table_cursor.move_next(&pager).unwrap();

        let payload = index1_cursor.get_index_payload(&pager).unwrap();
        let payload = payload.unwrap();
        let index_record = columns(&payload);
        assert_eq!(index_record.get(1).unwrap(), &Value::Integer(i + 1));
        assert!(payload.size() > BUFFER_SIZE as i32, "{}", i);
        assert_eq!(payload.size(), payload.buf().len() as i32);
        drop(payload);
        index1_cursor.move_next(&pager).unwrap();

        let payload = index2_cursor.get_index_payload(&pager).unwrap();
        let payload = payload.unwrap();
        let index_record = columns(&payload);
        assert_eq!(index_record.get(0).unwrap(), &Value::Integer(i));
        assert_eq!(index_record.get(1).unwrap(), &Value::Integer(i + 1));
        assert_eq!(payload.size(), payload.buf().len() as i32);
        drop(payload);
        index2_cursor.move_next(&pager).unwrap();
    }
    for i in 4000..5000 {
        let payload = table_cursor.get_table_payload(&pager).unwrap();
        assert!(payload.is_some());
        let (rowid, payload) = payload.unwrap();
        assert_eq!(rowid, i + 1);
        let col_buf = (i as u16).to_be_bytes();
        assert_eq!(payload.buf(), &[3, 2, 14, col_buf[0], col_buf[1], 0xff]);
        assert_eq!(payload.size(), payload.buf().len() as i32);
        drop(payload);
        assert_eq!(table_cursor.get_table_key(&pager).unwrap().unwrap(), i + 1);
        table_cursor.move_next(&pager).unwrap();

        let payload = index1_cursor.get_index_payload(&pager).unwrap();
        let payload = payload.unwrap();
        let index_record = columns(&payload);
        assert_eq!(index_record.get(1).unwrap(), &Value::Integer(i + 1));
        let rowid_buf = (i as u16 + 1).to_be_bytes();
        assert_eq!(payload.buf(), &[3, 14, 2, 0xff, rowid_buf[0], rowid_buf[1]]);
        assert_eq!(payload.size(), payload.buf().len() as i32);
        drop(payload);
        index1_cursor.move_next(&pager).unwrap();

        let payload = index2_cursor.get_index_payload(&pager).unwrap();
        let payload = payload.unwrap();
        let index_record = columns(&payload);
        assert_eq!(index_record.get(0).unwrap(), &Value::Integer(i));
        assert_eq!(index_record.get(1).unwrap(), &Value::Integer(i + 1));
        assert_eq!(payload.size(), payload.buf().len() as i32);
        drop(payload);
        index2_cursor.move_next(&pager).unwrap();
    }

    assert!(table_cursor.get_table_payload(&pager).unwrap().is_none());
    assert!(index1_cursor.get_index_payload(&pager).unwrap().is_none());

    // move_to_last() for table
    table_cursor.move_to_last(&pager).unwrap();
    assert_eq!(table_cursor.get_table_key(&pager).unwrap().unwrap(), 5000);
    table_cursor.table_move_to(&pager, 1000).unwrap();
    table_cursor.move_to_last(&pager).unwrap();
    assert_eq!(table_cursor.get_table_key(&pager).unwrap().unwrap(), 5000);

    // move_to_last() for index
    index1_cursor.move_to_last(&pager).unwrap();
    assert_eq!(
        columns(&index1_cursor.get_index_payload(&pager).unwrap().unwrap()).get(1).unwrap(),
        &Value::Integer(5000)
    );
    index1_cursor.index_move_to(&pager, &[key(Value::Integer(1000))]).unwrap();
    index1_cursor.move_to_last(&pager).unwrap();
    assert_eq!(
        columns(&index1_cursor.get_index_payload(&pager).unwrap().unwrap()).get(1).unwrap(),
        &Value::Integer(5000)
    );

    table_cursor.table_move_to(&pager, 2000).unwrap();
    let payload = table_cursor.get_table_payload(&pager).unwrap();
    assert!(payload.is_some());
    let (rowid, _) = payload.unwrap();
    assert_eq!(rowid, 2000);

    index2_cursor.index_move_to(&pager, &[key(Value::Integer(2000))]).unwrap();
    let payload = index2_cursor.get_index_payload(&pager).unwrap();
    let payload = payload.unwrap();
    let index_record = columns(&payload);
    assert_eq!(index_record.get(0).unwrap(), &Value::Integer(2000));
    assert_eq!(index_record.get(1).unwrap(), &Value::Integer(2001));
    assert_eq!(payload.size(), payload.buf().len() as i32);
    drop(payload);

    index2_cursor
        .index_move_to(&pager, &[key(Value::Integer(3000)), key(Value::Integer(3001))])
        .unwrap();
    let payload = index2_cursor.get_index_payload(&pager).unwrap();
    let payload = payload.unwrap();
    let index_record = columns(&payload);
    assert_eq!(index_record.get(0).unwrap(), &Value::Integer(3000));
    assert_eq!(index_record.get(1).unwrap(), &Value::Integer(3001));
    assert_eq!(payload.size(), payload.buf().len() as i32);
    drop(payload);

    index2_cursor
        .index_move_to(&pager, &[key(Value::Integer(3000)), key(Value::Integer(3003))])
        .unwrap();
    let payload = index2_cursor.get_index_payload(&pager).unwrap();
    let payload = payload.unwrap();
    let index_record = columns(&payload);
    assert_eq!(index_record.get(0).unwrap(), &Value::Integer(3001));
    assert_eq!(index_record.get(1).unwrap(), &Value::Integer(3002));
    assert_eq!(payload.size(), payload.buf().len() as i32);
    drop(payload);
}

/// Bytes from a fixed linear congruential sequence.
fn pseudo_random_bytes(n: usize) -> Vec<u8> {
    let mut state: u64 = 0x2545_f491_4f6c_dd1d;
    let mut out = Vec::with_capacity(n);
    for _ in 0..n {
        state = state.wrapping_mul(6364136223846793005).wrapping_add(1442695040888963407);
        out.push((state >> 33) as u8);
    }
    out
}

#[test]
fn test_overflow_payload() {
    let buf = pseudo_random_bytes(10000);
    let mut db = Db::new();
    let table_page_id = db.table(&rows_of(&[(1, vec![Col::Blob(buf.clone())])]));
    let index_page_id = db.index(&index_records(&[(vec![Col::Blob(buf.clone())], 1)], &[Coll::Binary]));
    let pager = db.pager();

    let mut cursor = open_cursor(table_page_id, &pager);
    cursor.move_to_first(&pager).unwrap();

    let payload = cursor.get_table_payload(&pager).unwrap();
    assert!(payload.is_some());
    let (_, payload) = payload.unwrap();

    assert_eq!(payload.buf().len(), 1820);
    assert_eq!(payload.size(), 10004);

    let mut payload_buf = vec![0; 10010];
    let n = payload.load(0, &mut payload_buf).unwrap();
    assert_eq!(n, 10004);
    assert_eq!(payload_buf[0..4], [0x04, 0x81, 0x9c, 0x2c]);
    assert_eq!(&payload_buf[..payload.buf().len()], payload.buf());
    assert_eq!(payload_buf[4..10004], buf);

    let n = payload.load(3000, &mut payload_buf).unwrap();
    assert_eq!(n, 7004);
    assert_eq!(payload_buf[..7004], buf[2996..]);

    let n = payload.load(104, &mut payload_buf[..100]).unwrap();
    assert_eq!(n, 100);
    assert_eq!(payload_buf[..100], buf[100..200]);

    let n = payload.load(3000, &mut payload_buf[..100]).unwrap();
    assert_eq!(n, 100);
    assert_eq!(payload_buf[..100], buf[2996..3096]);

    let result = payload.load(10004, &mut payload_buf);
    assert!(result.is_err());

    let mut cursor = open_cursor(index_page_id, &pager);
    cursor.move_to_first(&pager).unwrap();

    let payload = cursor.get_index_payload(&pager).unwrap();
    assert!(payload.is_some());
    let payload = payload.unwrap();

    assert_eq!(payload.buf().len(), 489);
    assert_eq!(payload.size(), 10004 + 1);

    let mut payload_buf = vec![0; 10010];
    let n = payload.load(0, &mut payload_buf).unwrap();
    assert_eq!(n, 10004 + 1);
    assert_eq!(payload_buf[0..5], [0x05, 0x81, 0x9c, 0x2c, 0x09]);
    assert_eq!(&payload_buf[..payload.buf().len()], payload.buf());
    assert_eq!(payload_buf[5..10005], buf);

    let n = payload.load(3001, &mut payload_buf).unwrap();
    assert_eq!(n, 7004);
    assert_eq!(payload_buf[..7004], buf[2996..]);

    let n = payload.load(105, &mut payload_buf[..100]).unwrap();
    assert_eq!(n, 100);
    assert_eq!(payload_buf[..100], buf[100..200]);

    let n = payload.load(3001, &mut payload_buf[..100]).unwrap();
    assert_eq!(n, 100);
    assert_eq!(payload_buf[..100], buf[2996..3096]);

    let result = payload.load(10005, &mut payload_buf);
    assert!(result.is_err());
}

#[test]
fn test_table_move_to_in_single_page() {
    let rows: Vec<(i64, Vec<Col>)> = (0..8).map(|i| (2 * i + 1, vec![Col::Null])).collect();
    let mut db = Db::new();
    let page_id = db.table(&rows_of(&rows));
    let pager = db.pager();

    let mut cursor = open_cursor(page_id, &pager);

    for i in 0..8 {
        let cell_key = cursor.table_move_to(&pager, 2 * i).unwrap();
        assert!(cell_key.is_some());
        assert_eq!(cell_key.unwrap(), 2 * i + 1);
        let payload = cursor.get_table_payload(&pager).unwrap();
        assert!(payload.is_some());
        let (key, _) = payload.unwrap();
        assert_eq!(key, 2 * i + 1);

        let cell_key = cursor.table_move_to(&pager, 2 * i + 1).unwrap();
        assert!(cell_key.is_some());
        assert_eq!(cell_key.unwrap(), 2 * i + 1);
        let payload = cursor.get_table_payload(&pager).unwrap();
        assert!(payload.is_some());
        let (key, _) = payload.unwrap();
        assert_eq!(key, 2 * i + 1);
    }

    let cell_key = cursor.table_move_to(&pager, 16).unwrap();
    assert!(cell_key.is_none());
    let payload = cursor.get_table_payload(&pager).unwrap();
    assert!(payload.is_none());
}

#[test]
fn test_table_move_to_empty_rows() {
    let (pager, page_id, _) = empty_table_and_index();
    let mut cursor = open_cursor(page_id, &pager);

    for i in 0..3 {
        let cell_key = cursor.table_move_to(&pager, i).unwrap();
        assert!(cell_key.is_none());
        let payload = cursor.get_table_payload(&pager).unwrap();
        assert!(payload.is_none());
    }
}

#[test]
fn test_table_move_to_multiple_page() {
    let buf = vec![0u8; 4000];
    let mut rows = Vec::new();
    for i in 0..1000i64 {
        rows.push((2 * i + 1, vec![Col::Blob(buf.clone())]));
    }
    for i in 1000..2000i64 {
        rows.push((2 * i + 1, vec![Col::Null]));
    }
    let mut db = Db::new();
    let page_id = db.table(&rows_of(&rows));
    let pager = db.pager();

    let mut cursor = open_cursor(page_id, &pager);

    for i in 0..2000 {
        let cell_key = cursor.table_move_to(&pager, 2 * i).unwrap();
        assert!(cell_key.is_some());
        assert_eq!(cell_key.unwrap(), 2 * i + 1);
        let payload = cursor.get_table_payload(&pager).unwrap();
        assert!(payload.is_some());
        let (key, _) = payload.unwrap();
        assert_eq!(key, 2 * i + 1);

        let cell_key = cursor.table_move_to(&pager, 2 * i + 1).unwrap();
        assert!(cell_key.is_some());
        assert_eq!(cell_key.unwrap(), 2 * i + 1);
        let payload = cursor.get_table_payload(&pager).unwrap();
        assert!(payload.is_some());
        let (key, _) = payload.unwrap();
        assert_eq!(key, 2 * i + 1);
    }

    let cell_key = cursor.table_move_to(&pager, 40002).unwrap();
    assert!(cell_key.is_none());
    let payload = cursor.get_table_payload(&pager).unwrap();
    assert!(payload.is_none());
}

#[test]
fn test_index_move_to_in_single_page() {
    let pairs = [(1, 1), (3, 3), (5, 5), (10, 10), (11, 10), (12, 10), (15, 11), (14, 11)];
    let entries: Vec<(Vec<Col>, i64)> = pairs.iter().map(|(r, c)| (vec![Col::Int(*c)], *r)).collect();
    let mut db = Db::new();
    let page_id = db.index(&index_records(&entries, &[Coll::Binary]));
    let pager = db.pager();

    let mut cursor = open_cursor(page_id, &pager);

    for i in 0..3 {
        cursor.index_move_to(&pager, &[key(Value::Integer(2 * i))]).unwrap();
        let payload = cursor.get_index_payload(&pager).unwrap();
        assert!(payload.is_some());
        let record = columns(payload.as_ref().unwrap());
        assert_eq!(record.get(0).unwrap(), &Value::Integer(2 * i + 1));
        assert_eq!(record.get(1).unwrap(), &Value::Integer(2 * i + 1));
        drop(payload);

        cursor.index_move_to(&pager, &[key(Value::Integer(2 * i + 1))]).unwrap();
        let payload = cursor.get_index_payload(&pager).unwrap();
        assert!(payload.is_some());
        let record = columns(payload.as_ref().unwrap());
        assert_eq!(record.get(0).unwrap(), &Value::Integer(2 * i + 1));
        assert_eq!(record.get(1).unwrap(), &Value::Integer(2 * i + 1));
    }

    cursor.index_move_to(&pager, &[key(Value::Integer(10))]).unwrap();
    let payload = cursor.get_index_payload(&pager).unwrap();
    assert!(payload.is_some());
    let record = columns(payload.as_ref().unwrap());
    assert_eq!(record.get(0).unwrap(), &Value::Integer(10));
    // If there are multiple entries with the same key, one of the entries is
    // returned (not necessarily the first or last one).
    assert_eq!(record.get(1).unwrap(), &Value::Integer(11));
    drop(payload);

    for i in 10..13 {
        cursor.index_move_to(&pager, &[key(Value::Integer(10)), key(Value::Integer(i))]).unwrap();
        let payload = cursor.get_index_payload(&pager).unwrap();
        assert!(payload.is_some());
        let record = columns(payload.as_ref().unwrap());
        assert_eq!(record.get(0).unwrap(), &Value::Integer(10));
        assert_eq!(record.get(1).unwrap(), &Value::Integer(i));
    }

    cursor.index_move_to(&pager, &[key(Value::Integer(10)), key(Value::Integer(13))]).unwrap();
    let payload = cursor.get_index_payload(&pager).unwrap();
    assert!(payload.is_some());
    let record = columns(payload.as_ref().unwrap());
    assert_eq!(record.get(0).unwrap(), &Value::Integer(11));
    assert_eq!(record.get(1).unwrap(), &Value::Integer(14));
    drop(payload);

    cursor.index_move_to(&pager, &[key(Value::Integer(11)), key(Value::Integer(16))]).unwrap();
    let payload = cursor.get_index_payload(&pager).unwrap();
    assert!(payload.is_none());
}

fn text_value(s: &[u8]) -> Value {
    Value::Text(s.to_vec())
}

#[test]
fn test_index_move_to_multi_column() {
    let b = |v: &[u8]| Col::Blob(v.to_vec());
    let second = vec![
        Col::Null,
        Col::Null,
        Col::Int(-10),
        Col::Int(2),
        Col::Real(5.1),
        Col::Int(100),
        text(""),
        text("0123"),
        text("0123"),
        text("0124"),
        text("0125"),
        b(&[0x01, 0x23]),
        b(&[0x01, 0x24]),
        b(&[0x01, 0x25]),
    ];
    let first = vec![
        Col::Null,
        Col::Int(-10),
        Col::Int(2),
        Col::Real(5.1),
        Col::Int(100),
        text(""),
        text("0123"),
        text("0123"),
        text("0123"),
        text("0124"),
        text("0125"),
        b(&[0x01, 0x23]),
        b(&[0x01, 0x24]),
        b(&[0x01, 0x25]),
    ];
    let mut entries = Vec::new();
    let mut rowid = 0;
    for c in second {
        rowid += 1;
        entries.push((vec![Col::Int(1), c], rowid));
    }
    for c in first {
        rowid += 1;
        entries.push((vec![c, Col::Null], rowid));
    }
    let mut db = Db::new();
    let page_id = db.index(&index_records(&entries, &[Coll::Binary, Coll::Binary]));
    let pager = db.pager();

    let mut cursor = open_cursor(page_id, &pager);

    let null = || key(Value::Null);
    let int = |i: i64| key(Value::Integer(i));
    for (expected, keys) in [
        (15, vec![null(), null(), null()]),
        (1, vec![int(1), null(), null()]),
        (2, vec![int(1), null(), int(2)]),
        (4, vec![int(1), int(0), null()]),
        (3, vec![int(1), key(Value::Real((-10.1f64).to_bits())), null()]),
        (5, vec![int(1), int(5), null()]),
        (7, vec![int(1), int(101), null()]),
        (7, vec![int(1), key(text_value(b"")), null()]),
        (8, vec![int(1), key(text_value(b"\0")), null()]),
        (10, vec![int(1), key(text_value(b"01234")), null()]),
        (10, vec![int(1), key(text_value(b"0124")), null()]),
        (13, vec![int(1), key(Value::Blob(vec![0x01, 0x24])), null()]),
        (17, vec![int(1), key(Value::Blob(vec![0x01, 0x26])), null()]),
        (17, vec![int(2), null(), null()]),
        (18, vec![int(3), null(), null()]),
        (21, vec![key(text_value(b"0123")), null(), null()]),
        (22, vec![key(text_value(b"0123")), null(), int(22)]),
        (24, vec![key(text_value(b"0123")), int(1), null()]),
        (27, vec![key(Value::Blob(vec![0x01, 0x24])), null(), null()]),
    ] {
        cursor.index_move_to(&pager, &keys).unwrap();
        let payload = cursor.get_index_payload(&pager).unwrap();
        assert!(payload.is_some());
        let payload = payload.unwrap();
        let record = columns(&payload);
        assert_eq!(last_int(&record), expected);
    }
}

#[test]
fn test_index_move_to_collate_sequence() {
    let values = [
        "abcde1", "abcde2", "abcdef  ", "ABCDEF", "ABCDE", "ABCDE  ", "abcde  ", "abcde", "abcdef",
        "ABCDEF  ",
    ];
    let entries: Vec<(Vec<Col>, i64)> =
        values.iter().enumerate().map(|(i, v)| (vec![text(v)], i as i64 + 1)).collect();
    let mut db = Db::new();
    let index1 = db.index(&index_records(&entries, &[Coll::Binary]));
    let index2 = db.index(&index_records(&entries, &[Coll::NoCase]));
    let index3 = db.index(&index_records(&entries, &[Coll::RTrim]));
    let pager = db.pager();

    let mut cursor1 = open_cursor(index1, &pager);
    let mut cursor2 = open_cursor(index2, &pager);
    let mut cursor3 = open_cursor(index3, &pager);

    for (expected, k) in [
        ([8, 5, 7], b"abcde".as_slice()),
        ([5, 5, 5], b"ABCDE".as_slice()),
        ([7, 6, 7], b"abcde  ".as_slice()),
        ([6, 6, 5], b"ABCDE  ".as_slice()),
        ([9, 4, 3], b"abcdef".as_slice()),
        ([4, 4, 4], b"ABCDEF".as_slice()),
        ([10, 3, 4], b"ABCDEF  ".as_slice()),
    ] {
        let value = text_value(k);
        let keys = vec![ValueCmp::new(&value, &Collation::Binary), key(Value::Null)];
        cursor1.index_move_to(&pager, &keys).unwrap();
        let payload = cursor1.get_index_payload(&pager).unwrap();
        assert!(payload.is_some());
        assert_eq!(last_int(&columns(&payload.unwrap())), expected[0]);

        let keys = vec![ValueCmp::new(&value, &Collation::NoCase), key(Value::Null)];
        cursor2.index_move_to(&pager, &keys).unwrap();
        let payload = cursor2.get_index_payload(&pager).unwrap();
        assert!(payload.is_some());
        assert_eq!(last_int(&columns(&payload.unwrap())), expected[1]);

        let keys = vec![ValueCmp::new(&value, &Collation::RTrim), key(Value::Null)];
        cursor3.index_move_to(&pager, &keys).unwrap();
        let payload = cursor3.get_index_payload(&pager).unwrap();
        assert!(payload.is_some());
        assert_eq!(last_int(&columns(&payload.unwrap())), expected[2]);
    }
}

#[test]
fn test_index_move_to_empty_rows() {
    let (pager, _, page_id) = empty_table_and_index();
    let mut cursor = open_cursor(page_id, &pager);

    for i in 0..3 {
        cursor.index_move_to(&pager, &[key(Value::Integer(i))]).unwrap();
        let payload = cursor.get_index_payload(&pager).unwrap();
        assert!(payload.is_none());
    }
}

#[test]
fn test_index_move_to_multiple_page() {
    // index record has 1 (header length) + 2 (bytes) + 1 (integer) bytes header +
    // at most 2 (integer) rowid.
    const BUFFER_SIZE: usize = 994;
    let buf = vec![0u8; BUFFER_SIZE];
    let mut entries = Vec::new();
    for i in 0..5000i64 {
        let blob = if i < 4000 { buf.clone() } else { vec![0xff; 4] };
        entries.push((vec![Col::Int(2 * i + 1), Col::Blob(blob)], i));
    }
    let mut db = Db::new();
    let page_id = db.index(&index_records(&entries, &[Coll::Binary, Coll::Binary]));
    let pager = db.pager();

    let mut cursor = open_cursor(page_id, &pager);

    for i in 0..2000 {
        cursor.index_move_to(&pager, &[key(Value::Integer(2 * i))]).unwrap();
        let payload = cursor.get_index_payload(&pager).unwrap();
        assert!(payload.is_some(), "i = {}", i);
        let record = columns(payload.as_ref().unwrap());
        assert_eq!(record.get(0).unwrap(), &Value::Integer(2 * i + 1));
        assert_eq!(record.get(2).unwrap(), &Value::Integer(i));
        drop(payload);

        // Reset the cursor.
        cursor.move_to_first(&pager).unwrap();

        cursor.index_move_to(&pager, &[key(Value::Integer(2 * i + 1))]).unwrap();
        let payload = cursor.get_index_payload(&pager).unwrap();
        assert!(payload.is_some(), "i = {}", i);
        let record = columns(payload.as_ref().unwrap());
        assert_eq!(record.get(0).unwrap(), &Value::Integer(2 * i + 1));
        assert_eq!(record.get(2).unwrap(), &Value::Integer(i));
        drop(payload);

        // Reset the cursor.
        cursor.move_to_first(&pager).unwrap();
    }

    cursor.index_move_to(&pager, &[key(Value::Integer(10000))]).unwrap();
    let payload = cursor.get_index_payload(&pager).unwrap();
    assert!(payload.is_none());
}

fn assert_row(cursor: &BtreeCursor, pager: &Pager, rowid: i64, buf: &[u8]) {
    let (key, payload) = cursor.get_table_payload(pager).unwrap().unwrap();
    assert_eq!(key, rowid);
    assert_eq!(payload.buf(), buf);
}

#[test]
fn test_insert_empty_table() {
    let (mut pager, table_page_id, _) = empty_table_and_index();
    let mut cursor = open_cursor(table_page_id, &pager);

    cursor.insert(&mut pager, 1, &[1]).unwrap();
    cursor.move_to_first(&pager).unwrap();
    assert_row(&cursor, &pager, 1, &[1]);

    cursor.move_next(&pager).unwrap();
    assert!(cursor.get_table_payload(&pager).unwrap().is_none());

    cursor.insert(&mut pager, 2, &[2, 3]).unwrap();
    cursor.insert(&mut pager, 4, &[4, 5, 6]).unwrap();

    cursor.move_to_first(&pager).unwrap();
    assert_row(&cursor, &pager, 1, &[1]);
    cursor.move_next(&pager).unwrap();
    assert_row(&cursor, &pager, 2, &[2, 3]);
    cursor.move_next(&pager).unwrap();
    assert_row(&cursor, &pager, 4, &[4, 5, 6]);
    cursor.move_next(&pager).unwrap();
    assert!(cursor.get_table_payload(&pager).unwrap().is_none());

    cursor.insert(&mut pager, -1, &[255]).unwrap();
    cursor.insert(&mut pager, 3, &[]).unwrap();

    cursor.move_to_first(&pager).unwrap();
    assert_row(&cursor, &pager, -1, &[255]);
    cursor.move_next(&pager).unwrap();
    assert_row(&cursor, &pager, 1, &[1]);
    cursor.move_next(&pager).unwrap();
    assert_row(&cursor, &pager, 2, &[2, 3]);
    cursor.move_next(&pager).unwrap();
    assert_row(&cursor, &pager, 3, &[]);
    cursor.move_next(&pager).unwrap();
    assert_row(&cursor, &pager, 4, &[4, 5, 6]);
    cursor.move_next(&pager).unwrap();
    assert!(cursor.get_table_payload(&pager).unwrap().is_none());
}

#[test]
fn test_insert_existing_table() {
    let mut db = Db::new();
    let table_page_id = db.table(&int_rows(&[(1, 1), (2, 2), (5, 5)]));
    let mut pager = db.pager();
    let mut cursor = open_cursor(table_page_id, &pager);

    cursor.insert(&mut pager, 6, &[6]).unwrap();
    cursor.insert(&mut pager, -1, &[255]).unwrap();
    cursor.insert(&mut pager, 3, &[3]).unwrap();

    cursor.move_to_first(&pager).unwrap();
    assert_row(&cursor, &pager, -1, &[255]);

    cursor.move_next(&pager).unwrap();
    let (key, payload) = cursor.get_table_payload(&pager).unwrap().unwrap();
    assert_eq!(key, 1);
    assert_eq!(columns(&payload).get(0).unwrap(), &Value::Integer(1));
    drop(payload);

    cursor.move_next(&pager).unwrap();
    let (key, payload) = cursor.get_table_payload(&pager).unwrap().unwrap();
    assert_eq!(key, 2);
    assert_eq!(columns(&payload).get(0).unwrap(), &Value::Integer(2));
    drop(payload);

    cursor.move_next(&pager).unwrap();
    assert_row(&cursor, &pager, 3, &[3]);

    cursor.move_next(&pager).unwrap();
    let (key, payload) = cursor.get_table_payload(&pager).unwrap().unwrap();
    assert_eq!(key, 5);
    assert_eq!(columns(&payload).get(0).unwrap(), &Value::Integer(5));
    drop(payload);

    cursor.move_next(&pager).unwrap();
    assert_row(&cursor, &pager, 6, &[6]);

    cursor.move_next(&pager).unwrap();
    assert!(cursor.get_table_payload(&pager).unwrap().is_none());
}

use prsqlite::varint::parse_varint;
use prsqlite::varint::put_varint;
use prsqlite::record::compare_value;
use prsqlite::Error;
use prsqlite::Row;

#[test]
fn varint_round_trip_and_lengths() {
    for (v, len) in [
        (0u64, 1usize),
        (0x7f, 1),
        (0x80, 2),
        (0x3fff, 2),
        (0x4000, 3),
        (20012, 3),
        (0x00ff_ffff_ffff_ffff, 8),
        (0x0100_0000_0000_0000, 9),
        (u64::MAX, 9),
        ((-1i64) as u64, 9),
    ] {
        let mut out = Vec::new();
        put_varint(&mut out, v);
        assert_eq!(out.len(), len, "{}", v);
        out.push(0xaa);
        assert_eq!(parse_varint(&out, 0), Some((v, len)));
    }
    let mut out = vec![0x55];
    put_varint(&mut out, 20012);
    assert_eq!(out, vec![0x55, 0x81, 0x9c, 0x2c]);
    assert_eq!(parse_varint(&[0x81, 0x9c], 0), None);
    assert_eq!(parse_varint(&[0x81], 1), None);
}

#[test]
fn pager_rejects_bad_images() {
    let db = Db::new();
    let mut image = db.image();
    assert!(Pager::from_image(&image).is_ok());
    image[0] = b'X';
    assert_eq!(Pager::from_image(&image).err(), Some(Error::Corrupt));
    let mut image = db.image();
    image.push(0);
    assert_eq!(Pager::from_image(&image).err(), Some(Error::Corrupt));
    let mut image = db.image();
    image[16] = 0;
    image[17] = 100;
    assert_eq!(Pager::from_image(&image).err(), Some(Error::Corrupt));
    assert_eq!(Pager::from_image(&[]).err(), Some(Error::Corrupt));
}

#[test]
fn pager_pages_commit_and_abort() {
    let mut db = Db::new();
    let table = db.table(&int_rows(&[(1, 7)]));
    let mut pager = db.pager();
    assert_eq!(pager.num_pages(), 2);
    assert_eq!(pager.page_size(), PAGE_SIZE);
    assert_eq!(pager.usable_size(), USABLE);
    assert_eq!(pager.get_page(0).err(), Some(Error::PageNotFound));
    assert_eq!(pager.get_page(3).err(), Some(Error::PageNotFound));
    let original = pager.get_page(table).unwrap().clone();
    assert_eq!(pager.write_page(table, vec![1; 10]).err(), Some(Error::Corrupt));
    assert_eq!(pager.write_page(9, vec![1; PAGE_SIZE]).err(), Some(Error::PageNotFound));
    pager.write_page(table, vec![1; PAGE_SIZE]).unwrap();
    assert_eq!(pager.get_page(table).unwrap(), &vec![1; PAGE_SIZE]);
    pager.abort();
    assert_eq!(pager.get_page(table).unwrap(), &original);
    pager.write_page(table, vec![2; PAGE_SIZE]).unwrap();
    let written = pager.commit();
    assert_eq!(written, vec![(table, vec![2; PAGE_SIZE])]);
    pager.abort();
    assert_eq!(pager.get_page(table).unwrap(), &vec![2; PAGE_SIZE]);
    assert!(pager.commit().is_empty());
}

#[test]
fn cursor_new_rejects_bad_roots() {
    let db = Db::new();
    let pager = db.pager();
    let ctx = BtreeContext::new(USABLE as u32);
    assert_eq!(BtreeCursor::new(5, &pager, &ctx).err(), Some(Error::PageNotFound));
    assert_eq!(BtreeCursor::new(1, &pager, &BtreeContext::new(100)).err(), Some(Error::Corrupt));
    let mut db = Db::new();
    let _ = db.table(&[]);
    let mut image = db.image();
    image[PAGE_SIZE] = 0x07;
    let pager = Pager::from_image(&image).unwrap();
    assert_eq!(BtreeCursor::new(2, &pager, &ctx).err(), Some(Error::Corrupt));
}

#[test]
fn wrong_tree_kind_errors() {
    let (pager, table, index) = three_rows(&[0, 1, 2]);
    let mut t = open_cursor(table, &pager);
    let mut i = open_cursor(index, &pager);
    assert_eq!(t.index_move_to(&pager, &[key(Value::Integer(1))]).err(), Some(Error::NotIndex));
    assert_eq!(i.table_move_to(&pager, 1).err(), Some(Error::NotTable));
    assert_eq!(t.get_table_key(&pager).err(), Some(Error::Uninitialized));
    i.move_to_first(&pager).unwrap();
    assert_eq!(i.get_table_key(&pager).err(), Some(Error::NotTable));
    assert_eq!(i.get_table_payload(&pager).err(), Some(Error::NotTable));
    t.move_to_first(&pager).unwrap();
    assert_eq!(t.get_index_payload(&pager).err(), Some(Error::NotIndex));
}

#[test]
fn load_offset_errors_and_empty_buffer() {
    let (pager, table, _) = three_rows(&[0, 1, 2]);
    let mut c = open_cursor(table, &pager);
    c.move_to_first(&pager).unwrap();
    let (_, payload) = c.get_table_payload(&pager).unwrap().unwrap();
    let mut buf = [9u8; 4];
    assert_eq!(payload.load(-1, &mut buf).err(), Some(Error::OffsetOutOfRange));
    assert_eq!(payload.load(2, &mut buf).err(), Some(Error::OffsetOutOfRange));
    assert_eq!(payload.load(1, &mut buf[..0]).unwrap(), 0);
    assert_eq!(payload.load(1, &mut buf).unwrap(), 1);
    assert_eq!(buf, [8, 9, 9, 9]);
}

#[test]
fn load_from_any_offset_matches_whole_payload() {
    let blob = pseudo_random_bytes(20000);
    let mut db = Db::new();
    let table = db.table(&rows_of(&[(1, vec![Col::Blob(blob.clone())])]));
    let pager = db.pager();
    let mut c = open_cursor(table, &pager);
    c.move_to_first(&pager).unwrap();
    let (_, payload) = c.get_table_payload(&pager).unwrap().unwrap();
    let size = payload.size() as usize;
    let mut whole = vec![0u8; size + 7];
    assert_eq!(payload.load(0, &mut whole).unwrap(), size);
    assert_eq!(&whole[..payload.buf().len()], payload.buf());
    assert_eq!(&whole[size - 20000..size], &blob[..]);
    for offset in [0usize, 1, 1819, 1820, 1821, 5911, 5912, 10000, 19999, size - 1] {
        for len in [1usize, 3, 4092, 9000] {
            let mut part = vec![0u8; len];
            let n = payload.load(offset as i32, &mut part).unwrap();
            assert_eq!(n, len.min(size - offset));
            assert_eq!(&part[..n], &whole[offset..offset + n]);
        }
    }
}

#[test]
fn load_reports_broken_overflow_chain() {
    let blob = pseudo_random_bytes(9000);
    let mut db = Db::new();
    let table = db.table(&rows_of(&[(1, vec![Col::Blob(blob)])]));
    let mut image = db.image();
    // The first overflow page is the page after page 1; point its next-page id past the file.
    image[PAGE_SIZE..PAGE_SIZE + 4].copy_from_slice(&1000u32.to_be_bytes());
    let pager = Pager::from_image(&image).unwrap();
    let mut c = open_cursor(table, &pager);
    c.move_to_first(&pager).unwrap();
    let (_, payload) = c.get_table_payload(&pager).unwrap().unwrap();
    let mut small = vec![0u8; 100];
    assert!(payload.load(0, &mut small).is_ok());
    let mut whole = vec![0u8; 9100];
    assert_eq!(payload.load(0, &mut whole).err(), Some(Error::Corrupt));
}

fn large_table() -> (Pager, u32) {
    let blob = vec![7u8; 900];
    let rows: Vec<(i64, Vec<Col>)> =
        (0..3000i64).map(|i| (3 * i + 5, vec![Col::Int(i), Col::Blob(blob.clone())])).collect();
    let mut db = Db::new();
    let table = db.table(&rows_of(&rows));
    (db.pager(), table)
}

#[test]
fn full_traversal_visits_each_row_once_in_order() {
    let (pager, table) = large_table();
    let mut c = open_cursor(table, &pager);
    c.move_to_first(&pager).unwrap();
    let mut seen = Vec::new();
    while let Some(k) = c.get_table_key(&pager).unwrap() {
        seen.push(k);
        c.move_next(&pager).unwrap();
    }
    let expected: Vec<i64> = (0..3000i64).map(|i| 3 * i + 5).collect();
    assert_eq!(seen, expected);
    // Completed cursors stay completed.
    c.move_next(&pager).unwrap();
    c.move_next(&pager).unwrap();
    assert!(c.get_table_key(&pager).unwrap().is_none());
}

#[test]
fn index_traversal_yields_interior_entries_in_order() {
    let buf = vec![0u8; 990];
    let entries: Vec<(Vec<Col>, i64)> =
        (0..400i64).map(|i| (vec![Col::Int(i), Col::Blob(buf.clone())], 1000 - i)).collect();
    let mut db = Db::new();
    let index = db.index(&index_records(&entries, &[Coll::Binary, Coll::Binary]));
    let pager = db.pager();
    let mut c = open_cursor(index, &pager);
    c.move_to_first(&pager).unwrap();
    let mut seen = Vec::new();
    while let Some(p) = c.get_index_payload(&pager).unwrap() {
        let cols = columns(&p);
        match cols.get(0).unwrap() {
            Value::Integer(i) => seen.push(*i),
            other => panic!("{:?}", other),
        }
        drop(p);
        c.move_next(&pager).unwrap();
    }
    assert_eq!(seen, (0..400).collect::<Vec<i64>>());
}

#[test]
fn move_to_last_then_next_completes() {
    let (pager, table) = large_table();
    let mut c = open_cursor(table, &pager);
    c.table_move_to(&pager, 100).unwrap();
    c.move_to_last(&pager).unwrap();
    assert_eq!(c.get_table_key(&pager).unwrap(), Some(3 * 2999 + 5));
    c.move_next(&pager).unwrap();
    assert!(c.get_table_key(&pager).unwrap().is_none());
    assert!(c.get_table_payload(&pager).unwrap().is_none());
}

#[test]
fn table_move_to_finds_least_key_not_below() {
    let (pager, table) = large_table();
    let mut c = open_cursor(table, &pager);
    for k in [i64::MIN, -1, 0, 5, 6, 7, 8, 4000, 8999, 9000, 9001] {
        let expected = (0..3000i64).map(|i| 3 * i + 5).find(|x| *x >= k);
        assert_eq!(c.table_move_to(&pager, k).unwrap(), expected, "{}", k);
        assert_eq!(c.get_table_key(&pager).unwrap(), expected);
    }
    assert_eq!(c.table_move_to(&pager, 9003).unwrap(), None);
    assert_eq!(c.table_move_to(&pager, i64::MAX).unwrap(), None);
}

#[test]
fn insert_then_search_finds_row() {
    let (mut pager, table, _) = empty_table_and_index();
    let mut c = open_cursor(table, &pager);
    let payload = record(&[text("hello"), Col::Int(-300)]);
    c.insert(&mut pager, i64::MIN, &[1]).unwrap();
    c.insert(&mut pager, 77, &payload).unwrap();
    c.insert(&mut pager, i64::MAX, &[]).unwrap();
    assert_eq!(c.table_move_to(&pager, 77).unwrap(), Some(77));
    let (k, p) = c.get_table_payload(&pager).unwrap().unwrap();
    assert_eq!(k, 77);
    assert_eq!(p.buf(), &payload[..]);
    let cols = columns(&p);
    assert_eq!(cols.len(), 2);
    assert_eq!(cols.get(0).unwrap(), &Value::Text(b"hello".to_vec()));
    assert_eq!(cols.get(1).unwrap(), &Value::Integer(-300));
    assert!(cols.get(2).is_none());
    drop(p);
    assert_eq!(c.table_move_to(&pager, i64::MIN).unwrap(), Some(i64::MIN));
    assert_eq!(c.table_move_to(&pager, 78).unwrap(), Some(i64::MAX));
}

#[test]
fn insert_errors() {
    let (mut pager, table, index) = three_rows(&[0, 1, 2]);
    let mut c = open_cursor(table, &pager);
    assert_eq!(c.insert(&mut pager, 2, &[1]).err(), Some(Error::DuplicateKey));
    assert_eq!(c.insert(&mut pager, 9, &vec![0u8; USABLE - 34]).err(), Some(Error::Unsupported));
    let mut i = open_cursor(index, &pager);
    assert_eq!(i.insert(&mut pager, 9, &[1]).err(), Some(Error::NotTable));
    let big = vec![0u8; 1000];
    let mut k = 10;
    loop {
        match c.insert(&mut pager, k, &big) {
            Ok(()) => k += 1,
            Err(e) => {
                assert_eq!(e, Error::PageFull);
                break;
            }
        }
    }
    assert_eq!(k, 14);
    c.move_to_first(&pager).unwrap();
    let mut n = 0;
    while c.get_table_key(&pager).unwrap().is_some() {
        n += 1;
        c.move_next(&pager).unwrap();
    }
    assert_eq!(n, 7);
}

#[test]
fn insert_rejects_page_with_freeblocks() {
    let mut db = Db::new();
    let table = db.table(&int_rows(&[(1, 1)]));
    let mut image = db.image();
    let base = (table as usize - 1) * PAGE_SIZE;
    image[base + 1] = 0x0f;
    let mut pager = Pager::from_image(&image).unwrap();
    let mut c = open_cursor(table, &pager);
    assert_eq!(c.insert(&mut pager, 5, &[1]).err(), Some(Error::Unsupported));
}

#[test]
fn value_order_across_classes_and_collations() {
    let t = |s: &str| Value::Text(s.as_bytes().to_vec());
    let r = |f: f64| Value::Real(f.to_bits());
    let cases = [
        (Value::Null, Value::Null, Collation::Binary, Ordering::Equal),
        (Value::Null, Value::Integer(-5), Collation::Binary, Ordering::Less),
        (Value::Integer(3), t(""), Collation::Binary, Ordering::Less),
        (t("zzz"), Value::Blob(vec![]), Collation::Binary, Ordering::Less),
        (Value::Integer(5), r(5.1), Collation::Binary, Ordering::Less),
        (r(5.0), Value::Integer(5), Collation::Binary, Ordering::Equal),
        (r(-10.1), Value::Integer(-10), Collation::Binary, Ordering::Less),
        (Value::Integer(-11), r(-10.1), Collation::Binary, Ordering::Less),
        (Value::Integer(i64::MIN), r(-9.3e18), Collation::Binary, Ordering::Greater),
        (Value::Integer(i64::MAX), r(9.3e18), Collation::Binary, Ordering::Less),
        (Value::Integer(0), r(1e-300), Collation::Binary, Ordering::Less),
        (Value::Integer(0), r(-0.0), Collation::Binary, Ordering::Equal),
        (r(-0.0), r(0.0), Collation::Binary, Ordering::Equal),
        (r(f64::INFINITY), Value::Integer(i64::MAX), Collation::Binary, Ordering::Greater),
        (r(-1.5), r(-1.25), Collation::Binary, Ordering::Less),
        (t("ABC"), t("abc"), Collation::Binary, Ordering::Less),
        (t("ABC"), t("abc"), Collation::NoCase, Ordering::Equal),
        (t("abc  "), t("abc"), Collation::RTrim, Ordering::Equal),
        (t("abc  "), t("abc"), Collation::Binary, Ordering::Greater),
        (t("ab"), t("abc"), Collation::Binary, Ordering::Less),
        (Value::Blob(vec![1, 2]), Value::Blob(vec![1, 3]), Collation::Binary, Ordering::Less),
    ];
    for (a, b, c, expected) in cases {
        assert_eq!(compare_value(&a, c, &b), expected, "{:?} {:?} {:?}", a, b, c);
    }
}

#[test]
fn records_decode_every_serial_type() {
    let cols = vec![
        Col::Null,
        Col::Int(-100),
        Col::Int(-30000),
        Col::Int(-8000000),
        Col::Int(2000000000),
        Col::Int(-140737488355328),
        Col::Int(i64::MIN),
        Col::Real(2.5),
        Col::Int(0),
        Col::Int(1),
        text("x y"),
        Col::Blob(vec![0, 255]),
    ];
    let row = Row { rowid: 4, payload: record(&cols) };
    let parsed = row.parse().unwrap();
    assert_eq!(parsed.len(), 12);
    assert!(!parsed.is_empty());
    let expected = vec![
        Value::Null,
        Value::Integer(-100),
        Value::Integer(-30000),
        Value::Integer(-8000000),
        Value::Integer(2000000000),
        Value::Integer(-140737488355328),
        Value::Integer(i64::MIN),
        Value::Real(2.5f64.to_bits()),
        Value::Integer(0),
        Value::Integer(1),
        Value::Text(b"x y".to_vec()),
        Value::Blob(vec![0, 255]),
    ];
    assert_eq!(parsed.iter(), &expected[..]);
    let empty = Row { rowid: 1, payload: vec![1] }.parse().unwrap();
    assert!(empty.is_empty());
    assert!(Row { rowid: 1, payload: vec![] }.parse().is_err());
    assert!(Row { rowid: 1, payload: vec![2, 10] }.parse().is_err());
    assert!(Row { rowid: 1, payload: vec![2, 6, 1] }.parse().is_err());
}
