use sqlite_scan::engine::run_query;
use sqlite_scan::error::ScanError;
use sqlite_scan::scan::query;
use sqlite_scan::schema::find_table_root;
use sqlite_scan::varint::encode_varint;
use sqlite_scan::walker::collect_leaf_pages;

const PAGE_SIZE: usize = 4096;

/// A page image with `cells` placed at its tail and their pointers in the
/// cell pointer array.  `header_at` is 100 on page 1, 0 elsewhere; an
/// interior page stores `right` at header offset 8 and starts its pointer
/// array at 12, a leaf page starts its pointer array at 8.
fn page_with_cells(header_at: usize, page_type: u8, right: Option<u32>, cells: &[Vec<u8>]) -> Vec<u8> {
    let mut page = vec![0u8; PAGE_SIZE];
    page[header_at] = page_type;
    let nc = cells.len() as u16;
    page[header_at + 3..header_at + 5].copy_from_slice(&nc.to_be_bytes());
    let ptr_base = header_at + if page_type == 0x05 { 12 } else { 8 };
    if let Some(r) = right {
        page[header_at + 8..header_at + 12].copy_from_slice(&r.to_be_bytes());
    }
    let mut content_end = PAGE_SIZE;
    for (i, c) in cells.iter().enumerate() {
        content_end -= c.len();
        page[content_end..content_end + c.len()].copy_from_slice(c);
        let off = content_end as u16;
        page[ptr_base + 2 * i..ptr_base + 2 * i + 2].copy_from_slice(&off.to_be_bytes());
    }
    page
}

/// A schema row: type "table", the given name twice, a one-byte rootpage,
/// and a dummy sql column.
fn schema_cell(name: &str, root: u8) -> Vec<u8> {
    let name_type = (13 + 2 * name.len()) as u8;
    let mut record: Vec<u8> = vec![6, 23, name_type, name_type, 1, 15];
    record.extend_from_slice(b"table");
    record.extend_from_slice(name.as_bytes());
    record.extend_from_slice(name.as_bytes());
    record.push(root);
    record.extend_from_slice(b"x");
    let mut cell = encode_varint(record.len() as u64);
    cell.extend(encode_varint(1));
    cell.extend(record);
    cell
}

/// Page 1: the 100-byte file header (with the declared page size at offset
/// 16) followed by the schema leaf holding one row per named table.
fn schema_page(tables: &[(&str, u8)]) -> Vec<u8> {
    let cells: Vec<Vec<u8>> = tables.iter().map(|(n, r)| schema_cell(n, *r)).collect();
    let mut page = page_with_cells(100, 0x0d, None, &cells);
    page[16..18].copy_from_slice(&(PAGE_SIZE as u16).to_be_bytes());
    page
}

/// A leaf cell holding one row: hostname TEXT, cpu_pct REAL.
fn row_cell(rowid: u64, host: &str, cpu: f64) -> Vec<u8> {
    let host_type = (13 + 2 * host.len()) as u8;
    let mut record: Vec<u8> = vec![3, host_type, 7];
    record.extend_from_slice(host.as_bytes());
    record.extend_from_slice(&cpu.to_bits().to_be_bytes());
    let mut cell = encode_varint(record.len() as u64);
    cell.extend(encode_varint(rowid));
    cell.extend(record);
    cell
}

fn leaf_page(rows: &[(&str, f64)]) -> Vec<u8> {
    let cells: Vec<Vec<u8>> = rows
        .iter()
        .enumerate()
        .map(|(i, (h, c))| row_cell(i as u64 + 1, h, *c))
        .collect();
    page_with_cells(0, 0x0d, None, &cells)
}

/// An interior cell: the four-byte child page number, then a key varint.
fn interior_cell(child: u32) -> Vec<u8> {
    let mut cell = child.to_be_bytes().to_vec();
    cell.push(0x01);
    cell
}

fn interior_page(children: &[u32], right: u32) -> Vec<u8> {
    let cells: Vec<Vec<u8>> = children.iter().map(|c| interior_cell(*c)).collect();
    page_with_cells(0, 0x05, Some(right), &cells)
}

fn build_db(pages: Vec<Vec<u8>>) -> Vec<u8> {
    let mut db = Vec::new();
    for p in pages {
        assert_eq!(p.len(), PAGE_SIZE);
        db.extend(p);
    }
    db
}

#[test]
fn test_single_leaf_three_rows() {
    let db = build_db(vec![
        schema_page(&[("metrics", 2)]),
        leaf_page(&[("host-a", 50.0), ("host-b", 85.0), ("host-c", 99.9)]),
    ]);
    let counts = run_query(&db, b"metrics").unwrap();
    assert_eq!(counts.rows_scanned, 3);
    assert_eq!(counts.matching_rows, 2);
}

#[test]
fn test_two_level_tree_four_rows() {
    // one interior root: one cell child, one right-most child
    let db = build_db(vec![
        schema_page(&[("metrics", 2)]),
        interior_page(&[3], 4),
        leaf_page(&[("host-a", 81.0), ("host-b", 10.0)]),
        leaf_page(&[("host-c", 90.5), ("host-d", 80.0)]),
    ]);
    let counts = run_query(&db, b"metrics").unwrap();
    assert_eq!(counts.rows_scanned, 4);
    assert_eq!(counts.matching_rows, 2);
}

#[test]
fn test_rightmost_only_child_is_visited() {
    // the only leaf hangs off the right-most pointer: no cell points at it
    let db = build_db(vec![
        schema_page(&[("metrics", 2)]),
        interior_page(&[], 3),
        leaf_page(&[("host-a", 99.0)]),
    ]);
    let mut leaves: Vec<u32> = Vec::new();
    collect_leaf_pages(&db, PAGE_SIZE as u32, 2, &mut leaves).unwrap();
    assert_eq!(leaves, vec![3]);
    let counts = run_query(&db, b"metrics").unwrap();
    assert_eq!(counts.rows_scanned, 1);
    assert_eq!(counts.matching_rows, 1);
}

#[test]
fn test_rows_scanned_equals_sum_of_cell_counts() {
    let db = build_db(vec![
        schema_page(&[("metrics", 2)]),
        interior_page(&[3, 4], 5),
        leaf_page(&[("a", 1.0), ("b", 2.0), ("c", 3.0)]),
        leaf_page(&[("d", 90.0)]),
        leaf_page(&[("e", 80.5), ("f", 79.5)]),
    ]);
    let mut leaves: Vec<u32> = Vec::new();
    collect_leaf_pages(&db, PAGE_SIZE as u32, 2, &mut leaves).unwrap();
    assert_eq!(leaves, vec![3, 4, 5]);
    // sum of num_cells over the leaf pages: 3 + 1 + 2
    let counts = query(&db, PAGE_SIZE as u32, &leaves).unwrap();
    assert_eq!(counts.rows_scanned, 3 + 1 + 2);
    assert!(counts.matching_rows <= counts.rows_scanned);
    assert_eq!(counts.matching_rows, 2);
}

#[test]
fn test_threshold_boundary_is_strict() {
    let db = build_db(vec![
        schema_page(&[("metrics", 2)]),
        leaf_page(&[("edge", 80.0)]),
    ]);
    let counts = run_query(&db, b"metrics").unwrap();
    assert_eq!(counts.rows_scanned, 1);
    assert_eq!(counts.matching_rows, 0);

    let db2 = build_db(vec![
        schema_page(&[("metrics", 2)]),
        leaf_page(&[("edge", 80.00000001)]),
    ]);
    let counts2 = run_query(&db2, b"metrics").unwrap();
    assert_eq!(counts2.matching_rows, 1);
}

#[test]
fn test_negative_and_nan_do_not_match() {
    let db = build_db(vec![
        schema_page(&[("metrics", 2)]),
        leaf_page(&[("neg", -500.0), ("nan", f64::NAN), ("inf", f64::INFINITY)]),
    ]);
    let counts = run_query(&db, b"metrics").unwrap();
    assert_eq!(counts.rows_scanned, 3);
    // only positive infinity exceeds the threshold
    assert_eq!(counts.matching_rows, 1);
}

#[test]
fn test_find_table_root_deterministic() {
    let db = build_db(vec![
        schema_page(&[("other", 3), ("metrics", 2)]),
        leaf_page(&[("host-a", 85.0)]),
        leaf_page(&[]),
    ]);
    let first = find_table_root(&db, b"metrics");
    let second = find_table_root(&db, b"metrics");
    assert_eq!(first, second);
    assert_eq!(first, Ok(2));
    assert_eq!(find_table_root(&db, b"other"), Ok(3));
}

#[test]
fn test_missing_table_is_table_not_found() {
    let db = build_db(vec![
        schema_page(&[("metrics", 2)]),
        leaf_page(&[("host-a", 85.0)]),
    ]);
    assert_eq!(find_table_root(&db, b"absent"), Err(ScanError::TableNotFound));
    assert_eq!(run_query(&db, b"absent"), Err(ScanError::TableNotFound));
}

#[test]
fn test_rootpage_stored_as_two_byte_integer() {
    // a schema row whose rootpage column uses the two-byte integer type
    let name = "metrics";
    let name_type = (13 + 2 * name.len()) as u8;
    let mut record: Vec<u8> = vec![6, 23, name_type, name_type, 2, 15];
    record.extend_from_slice(b"table");
    record.extend_from_slice(name.as_bytes());
    record.extend_from_slice(name.as_bytes());
    record.extend_from_slice(&[0x00, 0x02]);
    record.extend_from_slice(b"x");
    let mut cell = encode_varint(record.len() as u64);
    cell.extend(encode_varint(1));
    cell.extend(record);
    let mut page1 = page_with_cells(100, 0x0d, None, &[cell]);
    page1[16..18].copy_from_slice(&(PAGE_SIZE as u16).to_be_bytes());
    let db = build_db(vec![page1, leaf_page(&[("host-a", 99.0)])]);
    assert_eq!(find_table_root(&db, b"metrics"), Ok(2));
    let counts = run_query(&db, b"metrics").unwrap();
    assert_eq!(counts.rows_scanned, 1);
    assert_eq!(counts.matching_rows, 1);
}

#[test]
fn test_short_buffer_is_format_error() {
    let db = vec![0u8; 99];
    assert_eq!(run_query(&db, b"metrics"), Err(ScanError::FormatError));
    let empty: Vec<u8> = Vec::new();
    assert_eq!(run_query(&empty, b"metrics"), Err(ScanError::FormatError));
}

#[test]
fn test_cyclic_tree_is_format_error() {
    // the interior page points back at itself
    let db = build_db(vec![
        schema_page(&[("metrics", 2)]),
        interior_page(&[2], 3),
        leaf_page(&[("host-a", 85.0)]),
    ]);
    let mut leaves: Vec<u32> = Vec::new();
    assert_eq!(
        collect_leaf_pages(&db, PAGE_SIZE as u32, 2, &mut leaves),
        Err(ScanError::FormatError)
    );
    assert!(leaves.is_empty());
}

#[test]
fn test_empty_leaf_list_is_empty_result() {
    // rootpage 0 never walks to a leaf: the walker rejects page zero, so
    // drive the empty case through a root whose page is an unknown type
    let mut unknown = vec![0u8; PAGE_SIZE];
    unknown[0] = 0x0A;
    let db = build_db(vec![schema_page(&[("metrics", 2)]), unknown]);
    assert_eq!(run_query(&db, b"metrics"), Err(ScanError::EmptyResult));
}
