//! Behaviour of the pager, the table walk and the statement layer,
//! with the backing file simulated as a byte buffer.

use pagestore::error::{DbError, PrepareError};
use pagestore::node::LEAF_NODE_MAX_CELLS;
use pagestore::pager::{new_pager, PageFetch, PAGE_SIZE, TABLE_MAX_PAGES};
use pagestore::row::Row;
use pagestore::statement::{prepare_statement, ExecOutcome, StatementType};
use pagestore::table::{close_table, free_table, new_table, Table};

fn make_row(id: u32, username: &str, email: &str) -> Row {
    Row { id, username: String::from(username), email: String::from(email) }
}

/// Loads the root page into a fresh table over the simulated file, the
/// way a caller with a real file would.
fn open_with_file(file: &[u8]) -> Table {
    let mut table = new_table(file.len());
    match table.pager.get_page(0).unwrap() {
        PageFetch::Ready => {}
        PageFetch::NeedsDiskRead { offset } => {
            table.pager.install_page(0, &file[offset..offset + PAGE_SIZE]).unwrap();
        }
    }
    table
}

/// Applies the pending writes of a close to the simulated file.
fn apply_writes(table: &Table, file: &mut Vec<u8>) {
    for w in close_table(table) {
        if file.len() < w.offset + PAGE_SIZE {
            file.resize(w.offset + PAGE_SIZE, 0);
        }
        file[w.offset..w.offset + PAGE_SIZE].copy_from_slice(&w.bytes);
    }
}

fn scan(table: &mut Table) -> Vec<(u32, String, String)> {
    let mut out = Vec::new();
    let mut cursor = table.table_start();
    while !table.is_end_of_table(&cursor) {
        let row = table.cursor_value(&cursor).unwrap();
        out.push((row.id, row.username.clone(), row.email.clone()));
        cursor.cursor_advance();
    }
    out
}

#[test]
fn capacity_is_enforced() {
    let mut table = new_table(0);
    for i in 0..LEAF_NODE_MAX_CELLS as u32 {
        table.insert_row(make_row(i, "u", "e@x")).unwrap();
    }
    let before = scan(&mut table).len();
    assert_eq!(before, LEAF_NODE_MAX_CELLS);
    let err = table.insert_row(make_row(999, "late", "late@x")).unwrap_err();
    assert_eq!(err, DbError::NodeFull);
    // the failed insert left the cell count unchanged
    assert_eq!(scan(&mut table).len(), LEAF_NODE_MAX_CELLS);
}

#[test]
fn scan_preserves_insertion_order() {
    let mut table = new_table(0);
    for id in [5u32, 3, 9, 1] {
        table
            .insert_row(make_row(id, &format!("user{}", id), &format!("user{}@x.com", id)))
            .unwrap();
    }
    let rows = scan(&mut table);
    let ids: Vec<u32> = rows.iter().map(|r| r.0).collect();
    assert_eq!(ids, vec![5, 3, 9, 1]);
}

#[test]
fn table_end_fails_when_full() {
    let mut table = new_table(0);
    for i in 0..LEAF_NODE_MAX_CELLS as u32 {
        table.insert_row(make_row(i, "u", "e@x")).unwrap();
    }
    assert_eq!(table.table_end().unwrap_err(), DbError::NodeFull);
}

#[test]
fn cursor_walks_by_one() {
    let mut table = new_table(0);
    table.insert_row(make_row(1, "a", "a@x")).unwrap();
    table.insert_row(make_row(2, "b", "b@x")).unwrap();
    let mut cursor = table.table_start();
    assert!(!table.is_end_of_table(&cursor));
    assert_eq!(table.cursor_value(&cursor).unwrap().id, 1);
    cursor.cursor_advance();
    assert_eq!(table.cursor_value(&cursor).unwrap().id, 2);
    cursor.cursor_advance();
    assert!(table.is_end_of_table(&cursor));
    assert!(table.cursor_value(&cursor).is_none());
}

#[test]
fn empty_table_is_at_its_end() {
    let mut table = new_table(0);
    let cursor = table.table_start();
    assert!(table.is_end_of_table(&cursor));
}

#[test]
fn persistence_round_trip() {
    let mut file: Vec<u8> = Vec::new();
    let mut table = new_table(file.len());
    table.insert_row(make_row(1, "user1", "user1@x.com")).unwrap();
    table.insert_row(make_row(2, "user2", "user2@x.com")).unwrap();
    apply_writes(&table, &mut file);
    free_table(table);
    assert_eq!(file.len(), PAGE_SIZE);

    let mut reopened = open_with_file(&file);
    let rows = scan(&mut reopened);
    assert_eq!(rows.len(), 2);
    assert_eq!(rows[0], (1, String::from("user1"), String::from("user1@x.com")));
    assert_eq!(rows[1], (2, String::from("user2"), String::from("user2@x.com")));
}

#[test]
fn pager_loads_lazily_from_the_file() {
    // build a one-page file with three rows
    let mut file: Vec<u8> = Vec::new();
    let mut table = new_table(0);
    for i in 1..=3u32 {
        table.insert_row(make_row(i, "u", "e@x")).unwrap();
    }
    apply_writes(&table, &mut file);

    // a fresh pager over that file asks for the page bytes on first
    // touch, and the installed node carries what was flushed
    let (mut pager, root) = new_pager(file.len());
    assert_eq!(root, 0);
    match pager.get_page(0).unwrap() {
        PageFetch::NeedsDiskRead { offset } => {
            assert_eq!(offset, 0);
            pager.install_page(0, &file[0..PAGE_SIZE]).unwrap();
        }
        PageFetch::Ready => panic!("expected a disk read for an uncached page"),
    }
    assert_eq!(pager.node_at(0).unwrap().get_num_cells(), 3);
    // cached now: a second look needs no read
    assert!(matches!(pager.get_page(0).unwrap(), PageFetch::Ready));
}

#[test]
fn flush_of_untouched_page_is_refused() {
    let (pager, _) = new_pager(3 * PAGE_SIZE);
    let err = pager.page_flush(2).unwrap_err();
    assert_eq!(err, DbError::NullPage { page_num: 2 });
}

#[test]
fn page_index_is_bounded() {
    let (mut pager, _) = new_pager(0);
    let err = pager.get_page(TABLE_MAX_PAGES).unwrap_err();
    assert_eq!(err, DbError::PageOutOfBounds { page_num: TABLE_MAX_PAGES, limit: TABLE_MAX_PAGES });
}

#[test]
fn close_skips_uncached_pages() {
    // two pages on file, none ever touched: nothing to flush
    let table = new_table(2 * PAGE_SIZE);
    assert!(close_table(&table).is_empty());
}

fn run(table: &mut Table, line: &str) -> Result<ExecOutcome, DbError> {
    prepare_statement(&String::from(line)).unwrap().execute_statement(table)
}

#[test]
fn statements_end_to_end() {
    let mut file: Vec<u8> = Vec::new();
    let mut table = open_with_file(&file);
    assert!(matches!(run(&mut table, "insert 1 user1 user1@x.com"), Ok(ExecOutcome::Inserted)));
    assert!(matches!(run(&mut table, "insert 2 user2 user2@x.com"), Ok(ExecOutcome::Inserted)));
    match run(&mut table, "select").unwrap() {
        ExecOutcome::Selected(rows) => {
            assert_eq!(rows.len(), 2);
            assert_eq!(rows[0].id, 1);
            assert_eq!(rows[0].username, "user1");
            assert_eq!(rows[0].email, "user1@x.com");
            assert_eq!(rows[1].id, 2);
            assert_eq!(rows[1].username, "user2");
            assert_eq!(rows[1].email, "user2@x.com");
        }
        ExecOutcome::Inserted => panic!("select must yield rows"),
    }
    apply_writes(&table, &mut file);
    free_table(table);

    // reopening the same file reproduces the same two rows
    let mut reopened = open_with_file(&file);
    match run(&mut reopened, "select").unwrap() {
        ExecOutcome::Selected(rows) => {
            assert_eq!(rows.len(), 2);
            assert_eq!(rows[0].username, "user1");
            assert_eq!(rows[1].username, "user2");
        }
        ExecOutcome::Inserted => panic!("select must yield rows"),
    }
}

#[test]
fn insert_statement_reports_a_full_node() {
    let mut table = new_table(0);
    for i in 0..LEAF_NODE_MAX_CELLS as u32 {
        table.insert_row(make_row(i, "u", "e@x")).unwrap();
    }
    assert_eq!(run(&mut table, "insert 777 u e@x").unwrap_err(), DbError::NodeFull);
}

#[test]
fn table_reports_an_unloaded_root() {
    // a non-empty file whose root page was never handed to the cache
    let mut file: Vec<u8> = Vec::new();
    let mut seed = new_table(0);
    seed.insert_row(make_row(1, "a", "a@x")).unwrap();
    apply_writes(&seed, &mut file);

    let mut table = new_table(file.len());
    assert_eq!(table.table_end().unwrap_err(), DbError::PageNotLoaded { page_num: 0 });
    assert_eq!(
        table.insert_row(make_row(2, "b", "b@x")).unwrap_err(),
        DbError::PageNotLoaded { page_num: 0 }
    );
}

#[test]
fn parse_insert_splits_the_words() {
    let (id, username, email) =
        pagestore::statement::parse_insert_statement(&String::from("insert 7 bob bob@x")).unwrap();
    assert_eq!(id, 7);
    assert_eq!(username, "bob");
    assert_eq!(email, "bob@x");
    // words may be separated by any run of ASCII whitespace
    let (id2, username2, _) =
        pagestore::statement::parse_insert_statement(&String::from("insert	 8  carl 	 c@x"))
            .unwrap();
    assert_eq!(id2, 8);
    assert_eq!(username2, "carl");
    let err = pagestore::statement::parse_insert_statement(&String::from("   ")).unwrap_err();
    assert_eq!(err, PrepareError::NoTokens);
}

#[test]
fn prepare_parses_insert() {
    let stmt = prepare_statement(&String::from("insert 12 alice alice@x.com")).unwrap();
    assert_eq!(stmt.statement_type, StatementType::Insert);
    let row = stmt.row_to_insert.unwrap();
    assert_eq!(row.id, 12);
    assert_eq!(row.username, "alice");
    assert_eq!(row.email, "alice@x.com");
}

#[test]
fn prepare_parses_select() {
    let stmt = prepare_statement(&String::from("select")).unwrap();
    assert_eq!(stmt.statement_type, StatementType::Select);
    assert!(stmt.row_to_insert.is_none());
    // anything after the keyword is ignored, as is extra whitespace
    let stmt2 = prepare_statement(&String::from("select * from x")).unwrap();
    assert_eq!(stmt2.statement_type, StatementType::Select);
}

#[test]
fn prepare_accepts_plus_and_max_id() {
    let stmt = prepare_statement(&String::from("insert +123 a b@x")).unwrap();
    assert_eq!(stmt.row_to_insert.unwrap().id, 123);
    let stmt2 = prepare_statement(&String::from("insert 4294967295 a b@x")).unwrap();
    assert_eq!(stmt2.row_to_insert.unwrap().id, u32::MAX);
}

fn prepare_err(line: &str) -> PrepareError {
    prepare_statement(&String::from(line)).unwrap_err()
}

#[test]
fn prepare_reports_each_error() {
    assert_eq!(prepare_err(""), PrepareError::Unrecognized);
    assert_eq!(prepare_err("delete 1"), PrepareError::Unrecognized);
    assert_eq!(prepare_err("insertx 1 a b@x"), PrepareError::FirstWordNotInsert);
    assert_eq!(prepare_err("insert"), PrepareError::MissingId);
    assert_eq!(prepare_err("insert abc a b@x"), PrepareError::IdNotANumber);
    assert_eq!(prepare_err("insert -1 a b@x"), PrepareError::IdNotANumber);
    assert_eq!(prepare_err("insert 4294967296 a b@x"), PrepareError::IdTooLarge);
    assert_eq!(prepare_err("insert 1"), PrepareError::MissingUsername);
    assert_eq!(prepare_err("insert 1 a"), PrepareError::MissingEmail);
    assert_eq!(prepare_err("insert 1 a b@x extra"), PrepareError::ExtraWord);
    let long33 = "a".repeat(33);
    assert_eq!(prepare_err(&format!("insert 1 {} b@x", long33)), PrepareError::StringTooLong);
    let long256 = "e".repeat(256);
    assert_eq!(prepare_err(&format!("insert 1 a {}", long256)), PrepareError::StringTooLong);
}

#[test]
fn widths_at_the_limit_are_accepted() {
    let user32 = "u".repeat(32);
    let mail255 = "m".repeat(255);
    let stmt = prepare_statement(&String::from(format!("insert 1 {} {}", user32, mail255)))
        .unwrap();
    let row = stmt.row_to_insert.unwrap();
    assert_eq!(row.username.len(), 32);
    assert_eq!(row.email.len(), 255);
}
