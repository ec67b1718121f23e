use sqlite_reader::catalog::{column_names, find_index, find_table, root_page_number, text_is};
use sqlite_reader::query::{parse_select, parse_where};
use sqlite_reader::codec::{compare_bytes, read_be_int, read_varint};
use sqlite_reader::record::{decode_value, read_record_values};
use sqlite_reader::{Database, DbError, Page, PageType, Record, RecordValue};

// ------------------------------------------------------------ file builders

fn varint(v: u64) -> Vec<u8> {
    if v > 0x00ff_ffff_ffff_ffff {
        let hi = v >> 8;
        let mut out: Vec<u8> = (0..8).rev().map(|k| (((hi >> (7 * k)) & 0x7f) as u8) | 0x80).collect();
        out.push((v & 0xff) as u8);
        return out;
    }
    let mut n = 1;
    while n < 8 && v >= 1u64 << (7 * n) {
        n += 1;
    }
    (0..n)
        .map(|k| {
            let b = ((v >> (7 * (n - 1 - k))) & 0x7f) as u8;
            if k < n - 1 {
                b | 0x80
            } else {
                b
            }
        })
        .collect()
}

enum V<'a> {
    Null,
    Int(i64),
    Text(&'a str),
}

fn record(vals: &[V]) -> Vec<u8> {
    let mut types = Vec::new();
    let mut body = Vec::new();
    for v in vals {
        match v {
            V::Null => types.extend(varint(0)),
            V::Int(i) => {
                if *i >= -128 && *i <= 127 {
                    types.extend(varint(1));
                    body.push(*i as u8);
                } else {
                    types.extend(varint(6));
                    body.extend(i.to_be_bytes());
                }
            }
            V::Text(s) => {
                types.extend(varint(13 + 2 * s.len() as u64));
                body.extend(s.as_bytes());
            }
        }
    }
    let mut out = varint(types.len() as u64 + 1);
    out.extend(types);
    out.extend(body);
    out
}

fn table_leaf_cell(rowid: u64, vals: &[V]) -> Vec<u8> {
    let payload = record(vals);
    let mut out = varint(payload.len() as u64);
    out.extend(varint(rowid));
    out.extend(payload);
    out
}

fn table_interior_cell(child: u32, key: u64) -> Vec<u8> {
    let mut out = child.to_be_bytes().to_vec();
    out.extend(varint(key));
    out
}

fn index_leaf_cell(key: &str, rowid: i64) -> Vec<u8> {
    let payload = record(&[V::Text(key), V::Int(rowid)]);
    let mut out = varint(payload.len() as u64);
    out.extend(payload);
    out
}

fn index_interior_cell(child: u32, key: &str, rowid: i64) -> Vec<u8> {
    let payload = record(&[V::Text(key), V::Int(rowid)]);
    let mut out = child.to_be_bytes().to_vec();
    out.extend(varint(payload.len() as u64));
    out.extend(payload);
    out
}

/// One whole page; page 1 leaves its first 100 bytes for the file header.
fn page(page_size: usize, first: bool, kind: u8, cells: &[Vec<u8>], right: Option<u32>) -> Vec<u8> {
    let mut p = vec![0u8; page_size];
    let h = if first { 100 } else { 0 };
    p[h] = kind;
    p[h + 3..h + 5].copy_from_slice(&(cells.len() as u16).to_be_bytes());
    let hlen = if let Some(r) = right {
        p[h + 8..h + 12].copy_from_slice(&r.to_be_bytes());
        12
    } else {
        8
    };
    let mut end = page_size;
    for (i, c) in cells.iter().enumerate() {
        end -= c.len();
        p[end..end + c.len()].copy_from_slice(c);
        p[h + hlen + 2 * i..h + hlen + 2 * i + 2].copy_from_slice(&(end as u16).to_be_bytes());
    }
    p
}

fn file(page_size: usize, pages: Vec<Vec<u8>>) -> Vec<u8> {
    let mut out: Vec<u8> = pages.into_iter().flatten().collect();
    out[..16].copy_from_slice(b"SQLite format 3\0");
    out[16..18].copy_from_slice(&(page_size as u16).to_be_bytes());
    out
}

fn catalog_row(rowid: u64, kind: &str, name: &str, root: i64, sql: &str) -> Vec<u8> {
    table_leaf_cell(rowid, &[V::Text(kind), V::Text(name), V::Text(name), V::Int(root), V::Text(sql)])
}

/// A file of 4096-byte pages with the tables apples, oranges and sqlite_sequence.
fn fruit_db() -> Database {
    let ps = 4096;
    let catalog = page(
        ps,
        true,
        13,
        &[
            catalog_row(1, "table", "apples", 2, "CREATE TABLE apples (id integer primary key, name text, color text)"),
            catalog_row(2, "table", "oranges", 3, "CREATE TABLE oranges (id integer primary key, name text)"),
            catalog_row(3, "table", "sqlite_sequence", 4, "CREATE TABLE sqlite_sequence(name,seq)"),
        ],
        None,
    );
    let apples = page(
        ps,
        false,
        13,
        &[
            table_leaf_cell(1, &[V::Null, V::Text("Granny Smith"), V::Text("Light Green")]),
            table_leaf_cell(2, &[V::Null, V::Text("Fuji"), V::Text("Red")]),
            table_leaf_cell(3, &[V::Null, V::Text("Golden Delicious"), V::Text("Yellow")]),
            table_leaf_cell(4, &[V::Null, V::Text("Lemon Drop"), V::Text("Yellow")]),
        ],
        None,
    );
    let oranges = page(ps, false, 13, &[], None);
    let sequence = page(ps, false, 13, &[table_leaf_cell(1, &[V::Text("apples"), V::Int(4)])], None);
    Database::from_bytes(file(ps, vec![catalog, apples, oranges, sequence])).unwrap()
}

/// A file of 512-byte pages: `companies` spans two leaves under an interior
/// root, and `idx_companies_country` has an interior root whose separator
/// `eritrea` has equal keys on both of its sides.
fn company_db() -> Database {
    Database::from_bytes(company_file()).unwrap()
}

fn company_file() -> Vec<u8> {
    let ps = 512;
    let catalog = page(
        ps,
        true,
        13,
        &[
            catalog_row(1, "table", "companies", 2, "CREATE TABLE companies (id integer primary key, name text, country text)"),
            catalog_row(2, "index", "idx_companies_country", 5, "CREATE INDEX idx_companies_country on companies (country)"),
        ],
        None,
    );
    let root = page(ps, false, 5, &[table_interior_cell(3, 3)], Some(4));
    let left = page(
        ps,
        false,
        13,
        &[
            table_leaf_cell(1, &[V::Null, V::Text("Acme"), V::Text("eritrea")]),
            table_leaf_cell(2, &[V::Null, V::Text("Beta"), V::Text("chad")]),
            table_leaf_cell(3, &[V::Null, V::Text("Gamma"), V::Text("eritrea")]),
        ],
        None,
    );
    let right = page(
        ps,
        false,
        13,
        &[
            table_leaf_cell(4, &[V::Null, V::Text("Delta"), V::Text("france")]),
            table_leaf_cell(5, &[V::Null, V::Text("Epsilon"), V::Text("eritrea")]),
            table_leaf_cell(6, &[V::Null, V::Text("Zeta"), V::Text("peru")]),
        ],
        None,
    );
    let index_root = page(ps, false, 2, &[index_interior_cell(6, "eritrea", 3)], Some(7));
    let index_left = page(
        ps,
        false,
        10,
        &[index_leaf_cell("chad", 2), index_leaf_cell("eritrea", 1), index_leaf_cell("eritrea", 3)],
        None,
    );
    let index_right = page(
        ps,
        false,
        10,
        &[index_leaf_cell("eritrea", 5), index_leaf_cell("france", 4), index_leaf_cell("peru", 6)],
        None,
    );
    file(ps, vec![catalog, root, left, right, index_root, index_left, index_right])
}

fn text(v: &RecordValue) -> &str {
    match v {
        RecordValue::Text(s) => s.as_str(),
        other => panic!("expected text, got {:?}", other),
    }
}

fn table_root(db: &Database, name: &str) -> usize {
    let catalog = db.catalog().unwrap();
    let row = catalog.iter().find(|r| text(&r.values[1]) == name).unwrap();
    match row.values[3] {
        RecordValue::Int(n) => n as usize,
        _ => panic!("root page is not an integer"),
    }
}

fn ids(records: &[Record]) -> Vec<u64> {
    records.iter().map(|r| r.id).collect()
}

// ----------------------------------------------------------------- codec

#[test]
fn varint_single_byte() {
    assert_eq!(read_varint(&[0x7f], 1, 0), Ok((127, 1)));
    assert_eq!(read_varint(&[0x00], 1, 0), Ok((0, 1)));
}

#[test]
fn varint_two_bytes() {
    assert_eq!(read_varint(&[0x81, 0x00], 2, 0), Ok((128, 2)));
    assert_eq!(read_varint(&[0xaa, 0x81, 0x7f], 3, 1), Ok((255, 2)));
}

#[test]
fn varint_nine_bytes_take_all_bits_of_the_last() {
    assert_eq!(read_varint(&[0xff; 9], 9, 0), Ok((u64::MAX, 9)));
    let mut bytes = vec![0x80u8; 8];
    bytes.push(0x01);
    assert_eq!(read_varint(&bytes, 9, 0), Ok((1, 9)));
}

#[test]
fn varint_running_past_the_buffer_is_malformed() {
    assert_eq!(read_varint(&[0x81], 1, 0), Err(DbError::MalformedVarint));
    assert_eq!(read_varint(&[0x81, 0x01], 1, 0), Err(DbError::MalformedVarint));
    assert_eq!(read_varint(&[], 0, 0), Err(DbError::MalformedVarint));
}

#[test]
fn varint_round_trip_on_boundaries() {
    let values = [0u64, 1, 127, 128, 16383, 16384, (1 << 49) - 1, 1 << 49, (1 << 56) - 1, 1 << 56, u64::MAX - 1, u64::MAX];
    for v in values {
        let enc = varint(v);
        assert_eq!(read_varint(&enc, enc.len(), 0), Ok((v, enc.len())), "value {}", v);
    }
}

#[test]
fn big_endian_ints_sign_extend() {
    assert_eq!(read_be_int(&[0xff, 0xff, 0xfe], 0, 3), -2);
    assert_eq!(read_be_int(&[0x7f, 0xff, 0xff], 0, 3), 0x7f_ffff);
    assert_eq!(read_be_int(&[0xff, 0xff, 0xff, 0xff, 0xff, 0xff], 0, 6), -1);
    assert_eq!(read_be_int(&[0x00, 0x00, 0x01, 0x00, 0x00, 0x00], 0, 6), 1 << 24);
    assert_eq!(read_be_int(&[0x80, 0, 0, 0, 0, 0, 0, 0], 0, 8), i64::MIN);
    assert_eq!(read_be_int(&[0x12, 0x34], 0, 2), 0x1234);
    assert_eq!(read_be_int(&[0x80], 0, 1), -128);
}

#[test]
fn byte_strings_compare_lexicographically() {
    assert_eq!(compare_bytes(b"chad", b"eritrea"), -1);
    assert_eq!(compare_bytes(b"eritrea", b"eritrea"), 0);
    assert_eq!(compare_bytes(b"peru", b"france"), 1);
    assert_eq!(compare_bytes(b"eri", b"eritrea"), -1);
    assert_eq!(compare_bytes(b"", b""), 0);
}

#[test]
fn text_values_replace_invalid_utf8() {
    let d = [b'f', 0xff, b'x'];
    match decode_value(&d, 0, 13 + 2 * 3, 3) {
        RecordValue::Text(s) => assert_eq!(s, "f\u{FFFD}x"),
        other => panic!("expected text, got {:?}", other),
    }
    match decode_value(&d, 0, 13 + 2 * 2, 2) {
        RecordValue::Text(s) => assert_eq!(s, "f\u{FFFD}"),
        other => panic!("expected text, got {:?}", other),
    }
}

#[test]
fn serial_types_decode_to_their_values() {
    let d = [0x01, 0x02, 0x03, 0x04, 0x05, 0x06, 0x07, 0x08];
    assert!(matches!(decode_value(&d, 0, 0, 0), RecordValue::Null));
    assert!(matches!(decode_value(&d, 0, 1, 1), RecordValue::Int(1)));
    assert!(matches!(decode_value(&d, 0, 2, 2), RecordValue::Int(0x0102)));
    assert!(matches!(decode_value(&d, 0, 8, 0), RecordValue::Int(0)));
    assert!(matches!(decode_value(&d, 0, 9, 0), RecordValue::Int(1)));
    assert!(matches!(decode_value(&d, 0, 7, 8), RecordValue::Real(0x0102_0304_0506_0708)));
    match decode_value(&d, 1, 12 + 2 * 2, 2) {
        RecordValue::Blob(b) => assert_eq!(b, vec![0x02, 0x03]),
        other => panic!("expected blob, got {:?}", other),
    }
}

#[test]
fn reserved_serial_types_are_malformed() {
    // header size 2, serial type 10
    let d = [0x02, 0x0a];
    assert!(matches!(read_record_values(&d, 0, 2), Err(DbError::MalformedRecord)));
    let d = [0x02, 0x0b];
    assert!(matches!(read_record_values(&d, 0, 2), Err(DbError::MalformedRecord)));
}

#[test]
fn truncated_values_are_malformed() {
    // header size 2, serial type 6 (eight bytes) but only two follow
    let d = [0x02, 0x06, 0x00, 0x01];
    assert!(matches!(read_record_values(&d, 0, 4), Err(DbError::MalformedRecord)));
}

#[test]
fn record_with_long_header_varint() {
    let d = [0x03, 0x01, 0x0f, 0x2a, b'o'];
    let vals = read_record_values(&d, 0, 5).unwrap();
    assert_eq!(vals.len(), 2);
    assert!(matches!(vals[0], RecordValue::Int(42)));
    assert_eq!(text(&vals[1]), "o");
}

// ----------------------------------------------------------------- pages

#[test]
fn page_kind_byte_must_be_known() {
    let mut p = page(512, false, 13, &[], None);
    p[0] = 7;
    assert!(matches!(Page::from_data(512, p), Err(DbError::BadPageKind)));
}

#[test]
fn cell_offsets_index_into_the_payload() {
    let cells = vec![table_leaf_cell(1, &[V::Int(5)]), table_leaf_cell(2, &[V::Text("ab")])];
    let p = page(512, false, 13, &cells, None);
    let pg = Page::from_data(512, p).unwrap();
    assert!(matches!(pg.typ, PageType::TableLeaf));
    assert_eq!(pg.data.len(), 512 - 8 - 4);
    for &c in &pg.cell_pointers {
        assert!(c < pg.data.len());
    }
    assert_eq!(pg.cell_pointers[0], 512 - 12 - cells[0].len());
    assert_eq!(pg.right_most_child, None);
    let recs = pg.records().unwrap();
    assert_eq!(ids(&recs), vec![1, 2]);
    assert!(matches!(recs[0].values[0], RecordValue::Int(5)));
    assert_eq!(text(&recs[1].values[0]), "ab");
}

#[test]
fn cell_pointer_before_the_payload_is_rejected() {
    let mut p = page(512, false, 13, &[table_leaf_cell(1, &[V::Int(5)])], None);
    p[8..10].copy_from_slice(&4u16.to_be_bytes());
    assert!(matches!(Page::from_data(512, p), Err(DbError::MalformedPage)));
}

#[test]
fn interior_page_children_end_with_the_rightmost() {
    let p = page(512, false, 5, &[table_interior_cell(3, 10), table_interior_cell(4, 20)], Some(9));
    let pg = Page::from_data(512, p).unwrap();
    assert!(!pg.is_leaf());
    assert_eq!(pg.right_most_child, Some(9));
    assert_eq!(pg.get_child_pages().unwrap(), vec![3, 4, 9]);
    assert_eq!(pg.table_interior_entries().unwrap(), vec![(3, 10), (4, 20)]);
}

#[test]
fn leaf_page_has_no_children() {
    let pg = Page::from_data(512, page(512, false, 10, &[index_leaf_cell("a", 1)], None)).unwrap();
    assert!(pg.is_leaf());
    assert!(pg.get_child_pages().unwrap().is_empty());
}

#[test]
fn index_entries_decode_key_and_rowid() {
    let leaf = Page::from_data(512, page(512, false, 10, &[index_leaf_cell("chad", 2), index_leaf_cell("peru", 300)], None)).unwrap();
    assert_eq!(leaf.index_leaf_entries().unwrap(), vec![("chad".to_string(), 2), ("peru".to_string(), 300)]);
    let interior = Page::from_data(512, page(512, false, 2, &[index_interior_cell(6, "eritrea", 3)], Some(7))).unwrap();
    assert_eq!(interior.index_interior_entries().unwrap(), vec![("eritrea".to_string(), 6)]);
}

#[test]
fn oversized_cell_payload_is_unsupported() {
    let mut cell = varint(5000);
    cell.extend(varint(1));
    cell.extend(record(&[V::Int(1)]));
    let pg = Page::from_data(512, page(512, false, 13, &[cell], None)).unwrap();
    assert!(matches!(pg.records(), Err(DbError::UnsupportedOverflow)));
}

// -------------------------------------------------------------- database

#[test]
fn dbinfo_reports_page_size_and_catalog_rows() {
    let db = fruit_db();
    assert_eq!(format!("database page size: {}\nnumber of tables: {}\n", db.page_size, db.object_count()), "database page size: 4096\nnumber of tables: 3\n");
}

#[test]
fn tables_are_listed_in_catalog_order() {
    let db = fruit_db();
    let names: Vec<String> = db.catalog().unwrap().iter().map(|r| text(&r.values[2]).to_string()).collect();
    assert_eq!(names.join(" "), "apples oranges sqlite_sequence");
}

#[test]
fn count_of_apples_is_four() {
    let db = fruit_db();
    let rows = db.get_all_records(table_root(&db, "apples")).unwrap();
    assert_eq!(format!("{}\n", rows.len()), "4\n");
}

#[test]
fn select_two_columns_in_rowid_order() {
    let db = fruit_db();
    let rows = db.get_all_records(table_root(&db, "apples")).unwrap();
    let lines: Vec<String> = rows.iter().map(|r| format!("{}|{}", text(&r.values[1]), text(&r.values[2]))).collect();
    assert_eq!(lines, vec!["Granny Smith|Light Green", "Fuji|Red", "Golden Delicious|Yellow", "Lemon Drop|Yellow"]);
    assert_eq!(ids(&rows), vec![1, 2, 3, 4]);
}

#[test]
fn select_with_where_keeps_matching_rows_in_order() {
    let db = fruit_db();
    let rows = db.get_all_records(table_root(&db, "apples")).unwrap();
    let names: Vec<&str> = rows.iter().filter(|r| text(&r.values[2]) == "Yellow").map(|r| text(&r.values[1])).collect();
    assert_eq!(names, vec!["Golden Delicious", "Lemon Drop"]);
}

#[test]
fn empty_table_scans_to_nothing() {
    let db = fruit_db();
    let root = table_root(&db, "oranges");
    assert!(db.get_all_records(root).unwrap().is_empty());
    assert!(db.fetch_record_by_rowid(root, 1).unwrap().is_none());
}

#[test]
fn scan_of_two_level_table_is_in_rowid_order() {
    let db = company_db();
    let rows = db.get_all_records(2).unwrap();
    assert_eq!(ids(&rows), vec![1, 2, 3, 4, 5, 6]);
    assert_eq!(text(&rows[4].values[1]), "Epsilon");
}

#[test]
fn every_scanned_row_is_found_by_rowid() {
    let db = company_db();
    for row in db.get_all_records(2).unwrap() {
        let found = db.fetch_record_by_rowid(2, row.id).unwrap().unwrap();
        assert_eq!(found.id, row.id);
        assert_eq!(text(&found.values[1]), text(&row.values[1]));
        assert_eq!(text(&found.values[2]), text(&row.values[2]));
    }
}

#[test]
fn missing_rowid_is_none() {
    let db = company_db();
    assert!(db.fetch_record_by_rowid(2, 0).unwrap().is_none());
    assert!(db.fetch_record_by_rowid(2, 7).unwrap().is_none());
}

#[test]
fn index_lookup_collects_keys_on_both_sides_of_an_equal_separator() {
    let db = company_db();
    let rowids = db.lookup_rowids_by_country(5, "eritrea").unwrap();
    assert_eq!(rowids, vec![1, 3, 5]);
    let rows = db.fetch_records_by_rowids(2, &rowids).unwrap();
    let lines: Vec<String> = rows.iter().map(|r| format!("{}|{}", r.id, text(&r.values[1]))).collect();
    assert_eq!(lines, vec!["1|Acme", "3|Gamma", "5|Epsilon"]);
    let scanned: Vec<u64> = db.get_all_records(2).unwrap().iter().filter(|r| text(&r.values[2]) == "eritrea").map(|r| r.id).collect();
    assert_eq!(scanned, rowids);
}

#[test]
fn index_assisted_query_matches_a_full_scan() {
    let db = company_db();
    let rows = db.find_by_index(2, 5, "eritrea").unwrap();
    assert_eq!(ids(&rows), vec![1, 3, 5]);
    let names: Vec<&str> = rows.iter().map(|r| text(&r.values[1])).collect();
    assert_eq!(names, vec!["Acme", "Gamma", "Epsilon"]);
    assert!(db.find_by_index(2, 5, "narnia").unwrap().is_empty());
    assert!(matches!(db.find_by_index(2, 3, "eritrea"), Err(DbError::CorruptLink)));
}

#[test]
fn index_lookup_left_right_and_absent_keys() {
    let db = company_db();
    assert_eq!(db.lookup_rowids_by_country(5, "chad").unwrap(), vec![2]);
    assert_eq!(db.lookup_rowids_by_country(5, "peru").unwrap(), vec![6]);
    assert_eq!(db.lookup_rowids_by_country(5, "france").unwrap(), vec![4]);
    assert!(db.lookup_rowids_by_country(5, "brazil").unwrap().is_empty());
    assert!(db.lookup_rowids_by_country(5, "zambia").unwrap().is_empty());
}

#[test]
fn fetch_many_skips_missing_rowids() {
    let db = company_db();
    let rows = db.fetch_records_by_rowids(2, &[6, 9, 1]).unwrap();
    assert_eq!(ids(&rows), vec![6, 1]);
}

#[test]
fn page_numbers_outside_the_file_are_invalid() {
    let db = company_db();
    assert!(matches!(db.load_page(0), Err(DbError::InvalidPageNumber)));
    assert!(matches!(db.load_page(8), Err(DbError::InvalidPageNumber)));
    assert!(matches!(db.load_page(6).map(|p| p.typ), Ok(PageType::IndexLeaf)));
    assert!(matches!(db.load_page(1).map(|p| p.typ), Ok(PageType::TableLeaf)));
}

#[test]
fn index_page_inside_a_table_tree_is_a_corrupt_link() {
    let db = company_db();
    assert!(matches!(db.get_all_records(5), Err(DbError::CorruptLink)));
    assert!(matches!(db.fetch_record_by_rowid(6, 1), Err(DbError::CorruptLink)));
    assert!(matches!(db.lookup_rowids_by_country(2, "chad"), Err(DbError::CorruptLink)));
}

#[test]
fn cycle_of_child_links_is_a_corrupt_link() {
    let ps = 512;
    let catalog = page(ps, true, 13, &[], None);
    let looping = page(ps, false, 5, &[table_interior_cell(2, 10)], Some(2));
    let db = Database::from_bytes(file(ps, vec![catalog, looping])).unwrap();
    assert!(matches!(db.get_all_records(2), Err(DbError::CorruptLink)));
    assert!(matches!(db.fetch_record_by_rowid(2, 3), Err(DbError::CorruptLink)));
}

#[test]
fn child_page_zero_is_skipped_in_a_scan() {
    let ps = 512;
    let catalog = page(ps, true, 13, &[], None);
    let root = page(ps, false, 5, &[table_interior_cell(0, 1)], Some(3));
    let leaf = page(ps, false, 13, &[table_leaf_cell(7, &[V::Int(1)])], None);
    let db = Database::from_bytes(file(ps, vec![catalog, root, leaf])).unwrap();
    assert_eq!(ids(&db.get_all_records(2).unwrap()), vec![7]);
}

#[test]
fn unusable_page_size_is_a_malformed_header() {
    let ps = 512;
    let mut bytes = file(ps, vec![page(ps, true, 13, &[], None)]);
    bytes[16..18].copy_from_slice(&1000u16.to_be_bytes());
    assert!(matches!(Database::from_bytes(bytes), Err(DbError::MalformedHeader)));
    assert!(matches!(Database::from_bytes(vec![0u8; 50]), Err(DbError::MalformedHeader)));
}

// ---------------------------------------------------------------- catalog

#[test]
fn catalog_lookup_by_name() {
    let db = fruit_db();
    let catalog = db.catalog().unwrap();
    assert_eq!(find_table(&catalog, "apples"), Some(0));
    assert_eq!(find_table(&catalog, "sqlite_sequence"), Some(2));
    assert_eq!(find_table(&catalog, "pears"), None);
    assert_eq!(find_table(&catalog, "Apples"), None);
    assert_eq!(root_page_number(&catalog[1]), Some(3));
}

#[test]
fn root_page_must_be_a_positive_integer() {
    let text_root = Record { id: 1, values: vec![RecordValue::Null, RecordValue::Null, RecordValue::Null, RecordValue::Text("2".to_string())] };
    assert_eq!(root_page_number(&text_root), None);
    let zero_root = Record { id: 1, values: vec![RecordValue::Null, RecordValue::Null, RecordValue::Null, RecordValue::Int(0)] };
    assert_eq!(root_page_number(&zero_root), None);
    let short = Record { id: 1, values: vec![RecordValue::Int(2)] };
    assert_eq!(root_page_number(&short), None);
}

#[test]
fn text_comparison_is_exact() {
    assert!(text_is(&RecordValue::Text("eritrea".to_string()), "eritrea"));
    assert!(!text_is(&RecordValue::Text("eritrea".to_string()), "Eritrea"));
    assert!(!text_is(&RecordValue::Text("eri".to_string()), "eritrea"));
    assert!(!text_is(&RecordValue::Int(1), "1"));
}

#[test]
fn column_names_take_the_first_word_of_each_field() {
    let names = column_names("CREATE TABLE apples (id integer primary key, name text, color text)").unwrap();
    assert_eq!(names, vec!["id", "name", "color"]);
    let names = column_names("CREATE TABLE t(\n\tid integer,\n  country   text\n)").unwrap();
    assert_eq!(names, vec!["id", "country"]);
}

#[test]
fn column_names_keep_the_split_on_every_comma() {
    assert_eq!(column_names("CREATE TABLE sqlite_sequence(name,seq)").unwrap(), vec!["name", "seq)"]);
    assert_eq!(column_names("CREATE TABLE p (price DECIMAL(10,2), qty int)").unwrap(), vec!["price", "2)", "qty"]);
    assert_eq!(column_names("CREATE TABLE e ()").unwrap(), vec![")"]);
    assert_eq!(column_names("CREATE TABLE e (a,)").unwrap(), vec!["a", ")"]);
    assert_eq!(column_names("CREATE TABLE e (a, ,b)").unwrap(), vec!["a", "", "b)"]);
    assert_eq!(column_names("no parenthesis"), None);
}

// ------------------------------------------------------------------ query

#[test]
fn where_clause_splits_at_the_first_equals() {
    assert_eq!(parse_where("color = 'Yellow'"), Some(("color".to_string(), "Yellow".to_string())));
    assert_eq!(parse_where("  country =   eritrea  "), Some(("country".to_string(), "eritrea".to_string())));
    assert_eq!(parse_where("name = 'a = b'"), Some(("name".to_string(), "a = b".to_string())));
    assert_eq!(parse_where("name = 'Golden Delicious'"), Some(("name".to_string(), "Golden Delicious".to_string())));
}

#[test]
fn where_clause_keeps_unpaired_quotes() {
    assert_eq!(parse_where("name = 'x"), Some(("name".to_string(), "'x".to_string())));
    assert_eq!(parse_where("name = '"), Some(("name".to_string(), "'".to_string())));
    assert_eq!(parse_where("name = ''"), Some(("name".to_string(), "".to_string())));
}

#[test]
fn where_clause_without_equals_is_rejected() {
    assert_eq!(parse_where("color='Yellow'"), None);
    assert_eq!(parse_where(""), None);
    assert_eq!(parse_where(" ="), None);
}

#[test]
fn select_command_splits_into_columns_table_and_filter() {
    let q = parse_select("SELECT name, color FROM apples").unwrap();
    assert_eq!(q.columns, vec!["name", "color"]);
    assert_eq!(q.table, "apples");
    assert_eq!(q.where_clause, None);
    let q = parse_select("select   id,name  from companies where country =  'eritrea'").unwrap();
    assert_eq!(q.columns, vec!["id", "name"]);
    assert_eq!(q.table, "companies");
    assert_eq!(q.where_clause, Some("country = 'eritrea'".to_string()));
    assert_eq!(parse_where(q.where_clause.as_deref().unwrap()), Some(("country".to_string(), "eritrea".to_string())));
}

#[test]
fn select_command_needs_select_from_and_a_table() {
    assert!(parse_select("SELECT name FROM").is_none());
    assert!(parse_select("name FROM apples").is_none());
    assert!(parse_select("FROM apples SELECT name").is_none());
    let q = parse_select("SeLeCt count(*) FrOm apples").unwrap();
    assert_eq!(q.columns, vec!["count(*)"]);
    assert_eq!(q.table, "apples");
    let q = parse_select("SELECT FROM apples").unwrap();
    assert_eq!(q.columns, vec![""]);
}

#[test]
fn lookups_read_only_the_pages_on_their_path() {
    // page 7 (the right index leaf) and page 4 (the right table leaf) get a bad kind byte
    let mut bytes = company_file();
    bytes[6 * 512] = 0;
    bytes[3 * 512] = 0;
    let db = Database::from_bytes(bytes).unwrap();
    assert_eq!(db.lookup_rowids_by_country(5, "chad").unwrap(), vec![2]);
    assert!(matches!(db.lookup_rowids_by_country(5, "peru"), Err(DbError::BadPageKind)));
    assert_eq!(db.fetch_record_by_rowid(2, 2).unwrap().unwrap().id, 2);
    assert!(matches!(db.fetch_record_by_rowid(2, 5), Err(DbError::BadPageKind)));
    assert!(matches!(db.get_all_records(2), Err(DbError::BadPageKind)));
}

#[test]
fn interior_cell_too_short_for_a_child_is_malformed() {
    let pg = Page::from_data(512, page(512, false, 5, &[vec![0, 3]], Some(9))).unwrap();
    assert!(matches!(pg.get_child_pages(), Err(DbError::MalformedRecord)));
    assert!(matches!(pg.table_interior_entries(), Err(DbError::MalformedRecord)));
    let ps = 512;
    let catalog = page(ps, true, 13, &[], None);
    let root = page(ps, false, 5, &[vec![0, 3]], Some(3));
    let leaf = page(ps, false, 13, &[table_leaf_cell(7, &[V::Int(1)])], None);
    let db = Database::from_bytes(file(ps, vec![catalog, root, leaf])).unwrap();
    assert!(matches!(db.get_all_records(2), Err(DbError::MalformedRecord)));
    assert!(matches!(db.fetch_record_by_rowid(2, 7), Err(DbError::MalformedRecord)));
}

#[test]
fn index_is_found_by_lower_case_name() {
    let db = company_db();
    let catalog = db.catalog().unwrap();
    assert_eq!(find_index(&catalog, "idx_companies_country"), Some(1));
    assert_eq!(find_index(&catalog, "companies"), None);
    assert_eq!(find_index(&catalog, "idx_companies_name"), None);
    let upper = vec![Record {
        id: 1,
        values: vec![
            RecordValue::Text("index".to_string()),
            RecordValue::Text("IDX_Companies_Country".to_string()),
            RecordValue::Text("companies".to_string()),
            RecordValue::Int(5),
        ],
    }];
    assert_eq!(find_index(&upper, "idx_companies_country"), Some(0));
    let table_row = vec![Record {
        id: 1,
        values: vec![RecordValue::Text("table".to_string()), RecordValue::Text("idx_companies_country".to_string())],
    }];
    assert_eq!(find_index(&table_row, "idx_companies_country"), None);
}
