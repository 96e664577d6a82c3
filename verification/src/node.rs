//! The decoded form of one page: a header and an array of (key, row)
//! cells, with its binary codec.
//!
//! Page layout, big-endian multi-byte fields: node-type tag (1 byte at
//! offset 0), is-root flag (1 byte at offset 1), parent pointer (4 bytes
//! at offset 2), cell count (4 bytes at offset 6), and the cells from
//! offset 10 on, each a 4-byte key followed by a row image.  The bytes
//! past the last cell are zero in a freshly encoded page.

use crate::error::DbError;
use crate::pager::PAGE_SIZE;
use crate::row::{
    deserialize_row, row_no_zero_bytes, row_wf, serialize_row, spec_parse_row, spec_pad,
    spec_row_bytes, Row, RowView, ROW_SIZE,
};
use crate::util::{read_u32, read_u8, spec_u32_from_be, spec_u32_to_be, write_u32_be};
use vstd::prelude::*;

verus! {

pub const NODE_TYPE_SIZE: usize = 1;

pub const NODE_TYPE_OFFSET: usize = 0;

pub const IS_ROOT_SIZE: usize = 1;

pub const IS_ROOT_OFFSET: usize = NODE_TYPE_SIZE;

pub const PARENT_POINTER_SIZE: usize = 4;

pub const PARENT_POINTER_OFFSET: usize = IS_ROOT_OFFSET + IS_ROOT_SIZE;

pub const COMMON_NODE_HEADER_SIZE: usize = NODE_TYPE_SIZE + IS_ROOT_SIZE + PARENT_POINTER_SIZE;

pub const LEAF_NODE_NUM_CELLS_SIZE: usize = 4;

pub const LEAF_NODE_NUM_CELLS_OFFSET: usize = COMMON_NODE_HEADER_SIZE;

pub const LEAF_NODE_HEADER_SIZE: usize = COMMON_NODE_HEADER_SIZE + LEAF_NODE_NUM_CELLS_SIZE;

pub const LEAF_NODE_KEY_SIZE: usize = 4;

pub const LEAF_NODE_VALUE_SIZE: usize = ROW_SIZE;

pub const LEAF_NODE_CELL_SIZE: usize = LEAF_NODE_KEY_SIZE + LEAF_NODE_VALUE_SIZE;

pub const LEAF_NODE_SPACE_FOR_CELLS: usize = PAGE_SIZE - LEAF_NODE_HEADER_SIZE;

pub const LEAF_NODE_MAX_CELLS: usize = LEAF_NODE_SPACE_FOR_CELLS / LEAF_NODE_CELL_SIZE;

/// The kind of a node.  Only leaves carry cells in this version; the
/// internal tag exists in the format but no internal behaviour does.
#[derive(Clone, Copy, Debug, PartialEq, Eq, Structural)]
pub enum NodeType {
    Internal,
    Leaf,
}

/// The tag byte that encodes a node type.
pub open spec fn spec_node_type_tag(t: NodeType) -> u8 {
    match t {
        NodeType::Internal => 1,
        NodeType::Leaf => 2,
    }
}

/// The node type a tag byte names, or nothing for an unknown tag.
pub open spec fn spec_parse_node_type(tag: u8) -> Option<NodeType> {
    if tag == 1 {
        Some(NodeType::Internal)
    } else if tag == 2 {
        Some(NodeType::Leaf)
    } else {
        None
    }
}

fn node_type_tag(t: NodeType) -> (r: u8)
    ensures
        r == spec_node_type_tag(t),
{
    match t {
        NodeType::Internal => 1,
        NodeType::Leaf => 2,
    }
}

fn parse_node_type(tag: u8) -> (r: Option<NodeType>)
    ensures
        r == spec_parse_node_type(tag),
{
    if tag == 1 {
        Some(NodeType::Internal)
    } else if tag == 2 {
        Some(NodeType::Leaf)
    } else {
        None
    }
}

/// One cell: a key and the row stored under it.
#[derive(Debug)]
pub struct KeyValuePair {
    pub key: u32,
    pub value: Row,
}

impl View for KeyValuePair {
    type V = (u32, RowView);

    open spec fn view(&self) -> (u32, RowView) {
        (self.key, self.value@)
    }
}

/// One page's worth of header and cells.
#[derive(Debug)]
pub struct Node {
    node_type: NodeType,
    is_root: bool,
    parent_pointer: u32,
    cells: Vec<KeyValuePair>,
}

/// The mathematical content of a [`Node`].
pub ghost struct NodeView {
    pub node_type: NodeType,
    pub is_root: bool,
    pub parent_pointer: u32,
    pub cells: Seq<(u32, RowView)>,
}

impl View for Node {
    type V = NodeView;

    closed spec fn view(&self) -> NodeView {
        NodeView {
            node_type: self.node_type,
            is_root: self.is_root,
            parent_pointer: self.parent_pointer,
            cells: cells_view(self.cells@),
        }
    }
}

/// The views of a cell sequence, in order.
pub open spec fn cells_view(cells: Seq<KeyValuePair>) -> Seq<(u32, RowView)> {
    cells.map_values(|c: KeyValuePair| c@)
}

/// The derived layout constants, written out.
pub proof fn lemma_layout_constants()
    ensures
        LEAF_NODE_HEADER_SIZE == 10,
        LEAF_NODE_CELL_SIZE == 295,
        LEAF_NODE_MAX_CELLS == 13,
{
    assert(LEAF_NODE_SPACE_FOR_CELLS == 4086);
    assert(4086usize / 295usize == 13);
}

/// A node respects the page capacity and every stored row fits its
/// columns.
pub open spec fn node_wf(n: NodeView) -> bool {
    &&& n.cells.len() <= LEAF_NODE_MAX_CELLS
    &&& forall|i: int| 0 <= i < n.cells.len() ==> row_wf(#[trigger] n.cells[i].1)
}

/// The byte image of one cell.
pub open spec fn spec_cell_bytes(c: (u32, RowView)) -> Seq<u8> {
    spec_u32_to_be(c.0) + spec_row_bytes(c.1)
}

/// The byte image of a cell sequence, one cell after the other.
pub open spec fn spec_cells_bytes(cells: Seq<(u32, RowView)>) -> Seq<u8>
    decreases cells.len(),
{
    if cells.len() == 0 {
        Seq::empty()
    } else {
        spec_cell_bytes(cells[0]) + spec_cells_bytes(cells.drop_first())
    }
}

/// The exact [`PAGE_SIZE`]-byte image of a node: header, cells, zero
/// padding.
pub open spec fn spec_node_bytes(n: NodeView) -> Seq<u8> {
    spec_pad(
        seq![
            spec_node_type_tag(n.node_type),
            if n.is_root {
                1u8
            } else {
                0u8
            },
        ] + spec_u32_to_be(n.parent_pointer) + spec_u32_to_be(n.cells.len() as u32)
            + spec_cells_bytes(n.cells),
        PAGE_SIZE as int,
    )
}

/// The first `k` cells read off the front of the given bytes, or nothing
/// when some row is invalid.
pub open spec fn spec_parse_cells(bytes: Seq<u8>, k: nat) -> Option<Seq<(u32, RowView)>>
    recommends
        bytes.len() >= k * LEAF_NODE_CELL_SIZE,
    decreases k,
{
    if k == 0 {
        Some(Seq::empty())
    } else {
        match spec_parse_row(bytes.subrange(LEAF_NODE_KEY_SIZE as int, LEAF_NODE_CELL_SIZE as int)) {
            Option::None => None,
            Option::Some(row) => {
                match spec_parse_cells(bytes.skip(LEAF_NODE_CELL_SIZE as int), (k - 1) as nat) {
                    Option::None => None,
                    Option::Some(rest) => Some(
                        seq![(spec_u32_from_be(bytes), row)] + rest,
                    ),
                }
            },
        }
    }
}

/// The node a page image holds, or nothing when the tag is unknown, the
/// cell count exceeds the capacity, or some row is invalid.
pub open spec fn spec_parse_node(bytes: Seq<u8>) -> Option<NodeView>
    recommends
        bytes.len() == PAGE_SIZE,
{
    match spec_parse_node_type(bytes[NODE_TYPE_OFFSET as int]) {
        Option::None => None,
        Option::Some(t) => {
            let num = spec_u32_from_be(
                bytes.subrange(LEAF_NODE_NUM_CELLS_OFFSET as int, LEAF_NODE_HEADER_SIZE as int),
            );
            if num > LEAF_NODE_MAX_CELLS {
                None
            } else {
                match spec_parse_cells(bytes.skip(LEAF_NODE_HEADER_SIZE as int), num as nat) {
                    Option::None => None,
                    Option::Some(cells) => Some(
                        NodeView {
                            node_type: t,
                            is_root: bytes[IS_ROOT_OFFSET as int] != 0,
                            parent_pointer: spec_u32_from_be(
                                bytes.subrange(
                                    PARENT_POINTER_OFFSET as int,
                                    LEAF_NODE_NUM_CELLS_OFFSET as int,
                                ),
                            ),
                            cells,
                        },
                    ),
                }
            }
        },
    }
}

/// The image of a well-formed cell sequence is one cell size per cell.
pub proof fn lemma_cells_bytes_len(cells: Seq<(u32, RowView)>)
    requires
        forall|i: int| 0 <= i < cells.len() ==> row_wf(#[trigger] cells[i].1),
    ensures
        spec_cells_bytes(cells).len() == cells.len() * LEAF_NODE_CELL_SIZE,
    decreases cells.len(),
{
    if cells.len() == 0 {
    } else {
        assert(row_wf(cells[0].1));
        assert(spec_cell_bytes(cells[0]).len() == LEAF_NODE_CELL_SIZE);
        assert forall|i: int| 0 <= i < cells.drop_first().len() implies row_wf(
            #[trigger] cells.drop_first()[i].1,
        ) by {
            assert(cells.drop_first()[i] == cells[i + 1]);
        }
        lemma_cells_bytes_len(cells.drop_first());
        assert(spec_cells_bytes(cells).len() == LEAF_NODE_CELL_SIZE + spec_cells_bytes(
            cells.drop_first(),
        ).len());
        assert(LEAF_NODE_CELL_SIZE as int + (cells.len() - 1) * LEAF_NODE_CELL_SIZE == cells.len()
            * LEAF_NODE_CELL_SIZE) by (nonlinear_arith)
            requires
                cells.len() >= 1,
        ;
    }
}

/// Extending a prefix by one cell appends that cell's image.
pub proof fn lemma_cells_bytes_snoc(cells: Seq<(u32, RowView)>, i: int)
    requires
        0 <= i < cells.len(),
    ensures
        spec_cells_bytes(cells.take(i + 1)) == spec_cells_bytes(cells.take(i)) + spec_cell_bytes(
            cells[i],
        ),
    decreases i,
{
    if i == 0 {
        assert(cells.take(0) =~= Seq::<(u32, RowView)>::empty());
        assert(cells.take(1).drop_first() =~= Seq::<(u32, RowView)>::empty());
        assert(cells.take(1)[0] == cells[0]);
        assert(spec_cells_bytes(cells.take(1)) =~= spec_cells_bytes(cells.take(0))
            + spec_cell_bytes(cells[0]));
    } else {
        lemma_cells_bytes_snoc(cells.drop_first(), i - 1);
        assert(cells.take(i + 1).drop_first() =~= cells.drop_first().take(i));
        assert(cells.take(i).drop_first() =~= cells.drop_first().take(i - 1));
        assert(cells.take(i + 1)[0] == cells[0]);
        assert(cells.take(i)[0] == cells[0]);
        assert(cells.drop_first()[i - 1] == cells[i]);
        assert(spec_cell_bytes(cells[0]) + (spec_cells_bytes(cells.drop_first().take(i - 1))
            + spec_cell_bytes(cells[i])) =~= (spec_cell_bytes(cells[0]) + spec_cells_bytes(
            cells.drop_first().take(i - 1),
        )) + spec_cell_bytes(cells[i]));
    }
}

/// Builds an empty node with the given header fields.
pub fn new_node(node_type: NodeType, is_root: bool, parent_pointer: u32) -> (n: Node)
    ensures
        n@.node_type == node_type,
        n@.is_root == is_root,
        n@.parent_pointer == parent_pointer,
        n@.cells.len() == 0,
        node_wf(n@),
{
    let n = Node { node_type, is_root, parent_pointer, cells: Vec::new() };
    proof {
        assert(n@.cells =~= Seq::<(u32, RowView)>::empty());
    }
    n
}

impl Node {
    /// True when no further cell fits.
    pub fn is_node_full(&self) -> (r: bool)
        ensures
            r == (self@.cells.len() >= LEAF_NODE_MAX_CELLS),
    {
        self.cells.len() >= LEAF_NODE_MAX_CELLS
    }

    /// Bounds-checked read of one cell.
    pub fn get_cell(&self, cell_num: usize) -> (r: Option<&KeyValuePair>)
        ensures
            match r {
                Some(c) => cell_num < self@.cells.len() && c@ == self@.cells[cell_num as int],
                None => cell_num >= self@.cells.len(),
            },
    {
        if cell_num < self.cells.len() {
            Some(&self.cells[cell_num])
        } else {
            None
        }
    }

    /// Appends a cell keyed by the row's id.  The caller checks for room
    /// first.
    pub fn insert_row(&mut self, row: Row)
        requires
            old(self)@.cells.len() < LEAF_NODE_MAX_CELLS,
            row_wf(row@),
        ensures
            final(self)@.node_type == old(self)@.node_type,
            final(self)@.is_root == old(self)@.is_root,
            final(self)@.parent_pointer == old(self)@.parent_pointer,
            final(self)@.cells == old(self)@.cells.push((row.id, row@)),
    {
        let key: u32 = row.id;
        let ghost pushed: (u32, RowView) = (row.id, row@);
        self.cells.push(KeyValuePair { key, value: row });
        proof {
            assert(self@.cells =~= old(self)@.cells.push(pushed));
        }
    }

    /// Encodes the node into its exact [`PAGE_SIZE`]-byte image: header,
    /// cells, zero padding.
    pub fn serialize_node(&self) -> (out: Vec<u8>)
        requires
            node_wf(self@),
        ensures
            out@ == spec_node_bytes(self@),
            out@.len() == PAGE_SIZE,
    {
        let mut out: Vec<u8> = Vec::new();
        out.push(node_type_tag(self.node_type));
        if self.is_root {
            out.push(1u8);
        } else {
            out.push(0u8);
        }
        write_u32_be(&mut out, self.parent_pointer);
        let n: usize = self.cells.len();
        write_u32_be(&mut out, n as u32);
        let ghost header: Seq<u8> = seq![
            spec_node_type_tag(self@.node_type),
            if self@.is_root {
                1u8
            } else {
                0u8
            },
        ] + spec_u32_to_be(self@.parent_pointer) + spec_u32_to_be(self@.cells.len() as u32);
        proof {
            assert(self@.cells.take(0) =~= Seq::<(u32, RowView)>::empty());
            assert(out@ =~= header + spec_cells_bytes(self@.cells.take(0)));
        }
        let mut i: usize = 0;
        while i < n
            invariant
                n == self@.cells.len(),
                node_wf(self@),
                i <= n,
                out@ == header + spec_cells_bytes(self@.cells.take(i as int)),
            decreases n - i,
        {
            let cell: &KeyValuePair = &self.cells[i];
            proof {
                assert(cell@ == self@.cells[i as int]);
                assert(row_wf(self@.cells[i as int].1));
            }
            write_u32_be(&mut out, cell.key);
            let rb: Vec<u8> = serialize_row(&cell.value);
            out.extend_from_slice(rb.as_slice());
            proof {
                lemma_cells_bytes_snoc(self@.cells, i as int);
                assert(out@ =~= header + spec_cells_bytes(self@.cells.take(i as int + 1)));
            }
            i = i + 1;
        }
        proof {
            assert(self@.cells.take(n as int) =~= self@.cells);
        }
        let ghost body: Seq<u8> = header + spec_cells_bytes(self@.cells);
        proof {
            lemma_cells_bytes_len(self@.cells);
            lemma_layout_constants();
            let cl: int = self@.cells.len() as int;
            assert(cl <= 13);
            assert(spec_cells_bytes(self@.cells).len() == cl * 295) by (nonlinear_arith)
                requires
                    spec_cells_bytes(self@.cells).len() == cl * (LEAF_NODE_CELL_SIZE as int),
                    LEAF_NODE_CELL_SIZE == 295,
            ;
            assert(cl * 295 <= 3835);
            assert(header.len() == 10);
            assert(body.len() <= PAGE_SIZE);
        }
        while out.len() < PAGE_SIZE
            invariant
                body.len() <= PAGE_SIZE,
                body.len() <= out@.len() <= PAGE_SIZE,
                out@ == body + Seq::new((out@.len() - body.len()) as nat, |j: int| 0u8),
            decreases PAGE_SIZE - out@.len(),
        {
            out.push(0u8);
            assert(out@ =~= body + Seq::new((out@.len() - body.len()) as nat, |j: int| 0u8));
        }
        proof {
            assert(out@ =~= spec_node_bytes(self@));
        }
        out
    }

    /// The number of populated cells.
    pub fn get_num_cells(&self) -> (r: u32)
        requires
            self@.cells.len() <= LEAF_NODE_MAX_CELLS,
        ensures
            r == self@.cells.len(),
    {
        self.cells.len() as u32
    }
}

/// A cell-sequence image, followed by anything, parses back to the same
/// cells, for cells whose rows fit their columns and store no zero byte
/// in a text field.
pub proof fn lemma_parse_cells_round_trip(cells: Seq<(u32, RowView)>, extra: Seq<u8>)
    requires
        forall|i: int| 0 <= i < cells.len() ==> row_wf(#[trigger] cells[i].1),
        forall|i: int| 0 <= i < cells.len() ==> row_no_zero_bytes(#[trigger] cells[i].1),
    ensures
        spec_parse_cells(spec_cells_bytes(cells) + extra, cells.len()) == Some(cells),
    decreases cells.len(),
{
    lemma_layout_constants();
    if cells.len() == 0 {
        assert(cells =~= Seq::<(u32, RowView)>::empty());
    } else {
        let c0 = cells[0];
        let bytes = spec_cells_bytes(cells) + extra;
        assert(row_wf(c0.1));
        assert(spec_cell_bytes(c0).len() == LEAF_NODE_CELL_SIZE);
        assert(bytes[0] == spec_u32_to_be(c0.0)[0]);
        assert(bytes[1] == spec_u32_to_be(c0.0)[1]);
        assert(bytes[2] == spec_u32_to_be(c0.0)[2]);
        assert(bytes[3] == spec_u32_to_be(c0.0)[3]);
        crate::util::lemma_u32_be_round_trip(c0.0);
        assert(spec_u32_from_be(bytes) == c0.0);
        assert(bytes.subrange(LEAF_NODE_KEY_SIZE as int, LEAF_NODE_CELL_SIZE as int)
            =~= spec_row_bytes(c0.1));
        crate::row::lemma_row_round_trip(c0.1);
        assert(spec_parse_row(bytes.subrange(LEAF_NODE_KEY_SIZE as int, LEAF_NODE_CELL_SIZE as int))
            == Some(c0.1));
        let rest = cells.drop_first();
        assert forall|i: int| 0 <= i < rest.len() implies row_wf(#[trigger] rest[i].1)
            && row_no_zero_bytes(rest[i].1) by {
            assert(rest[i] == cells[i + 1]);
        }
        assert(bytes.skip(LEAF_NODE_CELL_SIZE as int) =~= spec_cells_bytes(rest) + extra);
        lemma_parse_cells_round_trip(rest, extra);
        assert(seq![(c0.0, c0.1)] + rest =~= cells);
    }
}

/// Encoding a node and decoding the image yields the node back, for
/// every node within capacity whose rows fit their columns and store no
/// zero byte in a text field.
pub proof fn lemma_node_round_trip(n: NodeView)
    requires
        node_wf(n),
        forall|i: int| 0 <= i < n.cells.len() ==> row_no_zero_bytes(#[trigger] n.cells[i].1),
    ensures
        spec_parse_node(spec_node_bytes(n)) == Some(n),
{
    lemma_layout_constants();
    lemma_cells_bytes_len(n.cells);
    let header = seq![
        spec_node_type_tag(n.node_type),
        if n.is_root {
            1u8
        } else {
            0u8
        },
    ] + spec_u32_to_be(n.parent_pointer) + spec_u32_to_be(n.cells.len() as u32);
    let body = header + spec_cells_bytes(n.cells);
    let bytes = spec_node_bytes(n);
    let cl: int = n.cells.len() as int;
    assert(spec_cells_bytes(n.cells).len() == cl * 295) by (nonlinear_arith)
        requires
            spec_cells_bytes(n.cells).len() == cl * (LEAF_NODE_CELL_SIZE as int),
            LEAF_NODE_CELL_SIZE == 295,
    ;
    assert(cl * 295 <= 3835);
    assert(header.len() == 10);
    assert(body.len() <= PAGE_SIZE);
    assert(bytes == spec_pad(body, PAGE_SIZE as int));
    assert(bytes.len() == PAGE_SIZE);
    assert(bytes[NODE_TYPE_OFFSET as int] == spec_node_type_tag(n.node_type));
    assert(spec_parse_node_type(spec_node_type_tag(n.node_type)) == Some(n.node_type));
    assert(bytes[IS_ROOT_OFFSET as int] == if n.is_root {
        1u8
    } else {
        0u8
    });
    assert((bytes[IS_ROOT_OFFSET as int] != 0) == n.is_root);
    assert(bytes.subrange(PARENT_POINTER_OFFSET as int, LEAF_NODE_NUM_CELLS_OFFSET as int)
        =~= spec_u32_to_be(n.parent_pointer));
    crate::util::lemma_u32_be_round_trip(n.parent_pointer);
    assert(bytes.subrange(LEAF_NODE_NUM_CELLS_OFFSET as int, LEAF_NODE_HEADER_SIZE as int)
        =~= spec_u32_to_be(n.cells.len() as u32));
    crate::util::lemma_u32_be_round_trip(n.cells.len() as u32);
    let num = spec_u32_from_be(
        bytes.subrange(LEAF_NODE_NUM_CELLS_OFFSET as int, LEAF_NODE_HEADER_SIZE as int),
    );
    assert(num == n.cells.len());
    let zeros = Seq::new((PAGE_SIZE - body.len()) as nat, |i: int| 0u8);
    assert(bytes.skip(LEAF_NODE_HEADER_SIZE as int) =~= spec_cells_bytes(n.cells) + zeros);
    lemma_parse_cells_round_trip(n.cells, zeros);
    assert(spec_parse_cells(bytes.skip(LEAF_NODE_HEADER_SIZE as int), num as nat) == Some(n.cells));
    assert(spec_parse_node(bytes) == Some(n));
}

/// The error a page image decodes to when it holds no node.
pub open spec fn spec_node_decode_error(bytes: Seq<u8>) -> DbError
    recommends
        spec_parse_node(bytes) is None,
{
    if spec_parse_node_type(bytes[NODE_TYPE_OFFSET as int]) is None {
        DbError::UnknownNodeType { tag: bytes[NODE_TYPE_OFFSET as int] }
    } else if spec_u32_from_be(
        bytes.subrange(LEAF_NODE_NUM_CELLS_OFFSET as int, LEAF_NODE_HEADER_SIZE as int),
    ) > LEAF_NODE_MAX_CELLS {
        DbError::CellCountTooLarge {
            num_cells: spec_u32_from_be(
                bytes.subrange(LEAF_NODE_NUM_CELLS_OFFSET as int, LEAF_NODE_HEADER_SIZE as int),
            ),
        }
    } else {
        DbError::InvalidRowText
    }
}

/// Decodes a node from a page image.  Fails exactly when the image holds
/// no node, with the error [`spec_node_decode_error`] names.
#[verifier::loop_isolation(false)]
#[verifier::rlimit(60)]
pub fn deserialize_node(source: &[u8]) -> (r: Result<Node, DbError>)
    requires
        source@.len() == PAGE_SIZE,
    ensures
        match r {
            Ok(node) => spec_parse_node(source@) == Some(node@) && node_wf(node@),
            Err(e) => spec_parse_node(source@) is None && e == spec_node_decode_error(source@),
        },
{
    let tag: u8 = read_u8(source);
    let node_type: NodeType = match parse_node_type(tag) {
        Some(t) => t,
        None => {
            return Err(DbError::UnknownNodeType { tag });
        },
    };
    let is_root_byte: u8 = source[IS_ROOT_OFFSET];
    let parent_pointer: u32 = read_u32(&source[PARENT_POINTER_OFFSET..LEAF_NODE_NUM_CELLS_OFFSET]);
    let num_cells: u32 = read_u32(&source[LEAF_NODE_NUM_CELLS_OFFSET..LEAF_NODE_HEADER_SIZE]);
    if num_cells as usize > LEAF_NODE_MAX_CELLS {
        return Err(DbError::CellCountTooLarge { num_cells });
    }
    let num: usize = num_cells as usize;
    let ghost region: Seq<u8> = source@.skip(LEAF_NODE_HEADER_SIZE as int);
    let mut cells: Vec<KeyValuePair> = Vec::new();
    proof {
        lemma_layout_constants();
        assert(cells_view(cells@) =~= Seq::<(u32, RowView)>::empty());
        assert(region.skip(0) =~= region);
    }
    let mut i: usize = 0;
    while i < num
        invariant
            num <= LEAF_NODE_MAX_CELLS,
            i <= num,
            source@.len() == PAGE_SIZE,
            region == source@.skip(LEAF_NODE_HEADER_SIZE as int),
            cells@.len() == i,
            LEAF_NODE_CELL_SIZE == 295,
            forall|j: int| 0 <= j < i ==> row_wf((#[trigger] cells@[j])@.1),
            spec_parse_cells(region, num as nat) == (match spec_parse_cells(
                region.skip(i as int * LEAF_NODE_CELL_SIZE as int),
                (num - i) as nat,
            ) {
                Option::None => Option::<Seq<(u32, RowView)>>::None,
                Option::Some(rest) => Some(cells_view(cells@) + rest),
            }),
        decreases num - i,
    {
        let off: usize = LEAF_NODE_HEADER_SIZE + LEAF_NODE_CELL_SIZE * i;
        let ghost r_i: Seq<u8> = region.skip(i as int * LEAF_NODE_CELL_SIZE as int);
        proof {
            assert(r_i.subrange(0, LEAF_NODE_KEY_SIZE as int) =~= source@.subrange(
                off as int,
                off as int + LEAF_NODE_KEY_SIZE as int,
            ));
            assert(r_i.subrange(LEAF_NODE_KEY_SIZE as int, LEAF_NODE_CELL_SIZE as int)
                =~= source@.subrange(
                off as int + LEAF_NODE_KEY_SIZE as int,
                off as int + LEAF_NODE_CELL_SIZE as int,
            ));
        }
        let key: u32 = read_u32(&source[off..off + LEAF_NODE_KEY_SIZE]);
        proof {
            assert(key == spec_u32_from_be(r_i));
        }
        let value: Row = match deserialize_row(&source[off + LEAF_NODE_KEY_SIZE..off
            + LEAF_NODE_CELL_SIZE]) {
            Ok(row) => row,
            Err(e) => {
                proof {
                    assert(spec_parse_cells(r_i, (num - i) as nat) is None);
                }
                return Err(e);
            },
        };
        proof {
            assert(r_i.skip(LEAF_NODE_CELL_SIZE as int) =~= region.skip(
                (i + 1) as int * LEAF_NODE_CELL_SIZE as int,
            ));
        }
        let ghost cells_before: Seq<(u32, RowView)> = cells_view(cells@);
        cells.push(KeyValuePair { key, value });
        i = i + 1;
        proof {
            let cv: (u32, RowView) = (key, value@);
            assert(cells_view(cells@) =~= cells_before + seq![cv]);
            let next = spec_parse_cells(
                region.skip(i as int * LEAF_NODE_CELL_SIZE as int),
                (num - i) as nat,
            );
            if next is Some {
                assert(cells_before + (seq![cv] + next->Some_0) =~= (cells_before + seq![cv])
                    + next->Some_0);
            }
        }
    }
    proof {
        assert(spec_parse_cells(region.skip(i as int * LEAF_NODE_CELL_SIZE as int), 0) == Some(
            Seq::<(u32, RowView)>::empty(),
        ));
        assert(cells_view(cells@) + Seq::<(u32, RowView)>::empty() =~= cells_view(cells@));
    }
    let node = Node { node_type, is_root: is_root_byte != 0, parent_pointer, cells };
    proof {
        assert(node@.cells == cells_view(node.cells@));
        assert(spec_parse_node(source@) == Some(node@));
        assert forall|j: int| 0 <= j < node@.cells.len() implies row_wf(
            #[trigger] node@.cells[j].1,
        ) by {
            assert(node@.cells[j] == node.cells@[j]@);
        }
    }
    Ok(node)
}

} // verus!
