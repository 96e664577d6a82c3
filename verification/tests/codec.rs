//! Byte-level checks of the row and node codecs.

use pagestore::error::DbError;
use pagestore::node::{
    deserialize_node, new_node, KeyValuePair, Node, NodeType, LEAF_NODE_CELL_SIZE,
    LEAF_NODE_HEADER_SIZE, LEAF_NODE_MAX_CELLS,
};
use pagestore::pager::PAGE_SIZE;
use pagestore::row::{deserialize_row, serialize_row, Row, ROW_SIZE};
use pagestore::util::{read_u32, read_u8};

fn make_row(id: u32, username: &str, email: &str) -> Row {
    Row { id, username: String::from(username), email: String::from(email) }
}

#[test]
fn layout_constants_hold() {
    assert_eq!(ROW_SIZE, 291);
    assert_eq!(LEAF_NODE_HEADER_SIZE, 10);
    assert_eq!(LEAF_NODE_CELL_SIZE, 295);
    assert_eq!(LEAF_NODE_MAX_CELLS, 13);
    assert_eq!(PAGE_SIZE, 4096);
}

#[test]
fn read_helpers_are_big_endian() {
    let bytes = [0x12u8, 0x34, 0x56, 0x78, 0x9a];
    assert_eq!(read_u8(&bytes), 0x12);
    assert_eq!(read_u32(&bytes), 0x12345678);
    assert_eq!(read_u32(&[0, 0, 0, 1]), 1);
    assert_eq!(read_u32(&[0xff, 0xff, 0xff, 0xff]), u32::MAX);
}

#[test]
fn row_image_has_fixed_layout() {
    let row = make_row(1, "user1", "user1@x.com");
    let bytes = serialize_row(&row);
    assert_eq!(bytes.len(), ROW_SIZE);
    // id as four big-endian bytes at offset 0
    assert_eq!(&bytes[0..4], &[0, 0, 0, 1]);
    // username at offset 4, zero-padded to 32
    assert_eq!(&bytes[4..9], b"user1");
    assert!(bytes[9..36].iter().all(|&b| b == 0));
    // email at offset 36, zero-padded to 255
    assert_eq!(&bytes[36..47], b"user1@x.com");
    assert!(bytes[47..291].iter().all(|&b| b == 0));
}

#[test]
fn row_round_trip() {
    let row = make_row(42, "alice", "alice@example.org");
    let bytes = serialize_row(&row);
    let back = deserialize_row(&bytes).unwrap();
    assert_eq!(back.id, 42);
    assert_eq!(back.username, "alice");
    assert_eq!(back.email, "alice@example.org");
}

#[test]
fn row_round_trip_full_width_fields() {
    // a username of exactly 32 bytes consumes the whole field, with no
    // terminator
    let username = "abcdefghijklmnopqrstuvwxyz012345";
    assert_eq!(username.len(), 32);
    let row = make_row(7, username, "e@x");
    let bytes = serialize_row(&row);
    let back = deserialize_row(&bytes).unwrap();
    assert_eq!(back.username, username);
    assert_eq!(back.email, "e@x");
}

#[test]
fn row_round_trip_empty_fields() {
    let row = make_row(0, "", "");
    let bytes = serialize_row(&row);
    let back = deserialize_row(&bytes).unwrap();
    assert_eq!(back.id, 0);
    assert_eq!(back.username, "");
    assert_eq!(back.email, "");
}

#[test]
fn row_round_trip_multibyte_text() {
    let row = make_row(5, "h\u{e9}llo", "caf\u{e9}@x.com");
    let bytes = serialize_row(&row);
    let back = deserialize_row(&bytes).unwrap();
    assert_eq!(back.username, "h\u{e9}llo");
    assert_eq!(back.email, "caf\u{e9}@x.com");
}

#[test]
fn row_decode_rejects_invalid_text() {
    let row = make_row(9, "ok", "ok@x");
    let mut bytes = serialize_row(&row);
    bytes[4] = 0xff; // not valid UTF-8 on its own
    assert_eq!(deserialize_row(&bytes).unwrap_err(), DbError::InvalidRowText);
}

#[test]
fn row_decode_stops_at_first_zero() {
    let row = make_row(3, "abc", "d@e");
    let mut bytes = serialize_row(&row);
    // a byte after the terminator is invisible to the decoder
    bytes[10] = b'z';
    let back = deserialize_row(&bytes).unwrap();
    assert_eq!(back.username, "abc");
}

fn filled_node(count: u32) -> Node {
    let mut node = new_node(NodeType::Leaf, true, 0);
    for i in 0..count {
        let row = make_row(i + 1, &format!("user{}", i + 1), &format!("user{}@x.com", i + 1));
        node.insert_row(row);
    }
    node
}

#[test]
fn node_image_has_fixed_header() {
    let node = filled_node(2);
    let page = node.serialize_node();
    assert_eq!(page.len(), PAGE_SIZE);
    assert_eq!(page[0], 2); // leaf tag
    assert_eq!(page[1], 1); // root flag
    assert_eq!(&page[2..6], &[0, 0, 0, 0]); // parent pointer
    assert_eq!(&page[6..10], &[0, 0, 0, 2]); // cell count
    // first cell at the header boundary: key, then the row image
    assert_eq!(&page[10..14], &[0, 0, 0, 1]); // key
    assert_eq!(&page[14..18], &[0, 0, 0, 1]); // row id
    assert_eq!(&page[18..23], b"user1");
}

#[test]
fn node_round_trip() {
    let node = filled_node(3);
    let page = node.serialize_node();
    let back = deserialize_node(&page).unwrap();
    assert_eq!(back.get_num_cells(), 3);
    for i in 0..3usize {
        let cell: &KeyValuePair = back.get_cell(i).unwrap();
        assert_eq!(cell.key, (i + 1) as u32);
        assert_eq!(cell.value.id, (i + 1) as u32);
        assert_eq!(cell.value.username, format!("user{}", i + 1));
        assert_eq!(cell.value.email, format!("user{}@x.com", i + 1));
    }
    assert!(back.get_cell(3).is_none());
}

#[test]
fn node_round_trip_empty_and_full() {
    for count in [0u32, LEAF_NODE_MAX_CELLS as u32] {
        let node = filled_node(count);
        let page = node.serialize_node();
        let back = deserialize_node(&page).unwrap();
        assert_eq!(back.get_num_cells(), count);
    }
}

#[test]
fn node_decode_rejects_unknown_tag() {
    let node = filled_node(1);
    let mut page = node.serialize_node();
    page[0] = 7;
    assert_eq!(deserialize_node(&page).unwrap_err(), DbError::UnknownNodeType { tag: 7 });
}

#[test]
fn node_decode_rejects_oversized_cell_count() {
    let node = filled_node(1);
    let mut page = node.serialize_node();
    page[9] = 14; // one more than fits in a page
    assert_eq!(deserialize_node(&page).unwrap_err(), DbError::CellCountTooLarge { num_cells: 14 });
}

#[test]
fn node_decode_rejects_invalid_row_text() {
    let node = filled_node(1);
    let mut page = node.serialize_node();
    page[18] = 0xff; // first byte of the first row's username
    assert_eq!(deserialize_node(&page).unwrap_err(), DbError::InvalidRowText);
}

#[test]
fn node_is_full_at_capacity() {
    let mut node = filled_node(LEAF_NODE_MAX_CELLS as u32 - 1);
    assert!(!node.is_node_full());
    node.insert_row(make_row(99, "last", "last@x"));
    assert!(node.is_node_full());
    assert_eq!(node.get_num_cells(), LEAF_NODE_MAX_CELLS as u32);
}
