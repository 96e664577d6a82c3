//! The table: the root page plus the pager, walked by a cursor.
//!
//! A cursor is a pair of coordinates (page, cell) and carries no data.
//! Table operations work on the root node in the cache; when the root
//! page exists on disk but was not read yet they report
//! [`DbError::PageNotLoaded`], and the caller reads the page and hands
//! it to the pager before retrying.

use crate::error::DbError;
use crate::node::{NodeType, NodeView, LEAF_NODE_MAX_CELLS};
use crate::pager::{new_pager, spec_file_pages, PageFetch, Pager, PAGE_SIZE};
use crate::row::{row_wf, Row, RowView};
use vstd::prelude::*;

verus! {

/// The single-table store: a root page number (always zero in this
/// version) and the page cache.
pub struct Table {
    pub root_page_num: u32,
    pub pager: Pager,
}

/// A position in a node's cell sequence.  It holds coordinates only and
/// becomes stale if the underlying cell count changes beneath it.
#[derive(Clone, Copy, Debug, PartialEq, Eq, Structural)]
pub struct Cursor {
    pub page_num: u32,
    pub cell_num: u32,
}

impl Cursor {
    /// Steps to the next cell.  No bound is checked here; the walk stops
    /// where `is_end_of_table` says so.
    pub fn cursor_advance(&mut self)
        requires
            old(self).cell_num < u32::MAX,
        ensures
            final(self).page_num == old(self).page_num,
            final(self).cell_num == old(self).cell_num + 1,
    {
        self.cell_num = self.cell_num + 1;
    }
}

impl Table {
    /// The root is page zero and the pager is well formed.
    pub open spec fn wf(&self) -> bool {
        &&& self.root_page_num == 0
        &&& self.pager.wf()
    }

    /// The root page stands in the cache.
    pub open spec fn root_cached(&self) -> bool {
        self.pager.is_cached(self.root_page_num as int)
    }

    /// The cached root node.
    pub open spec fn root_node(&self) -> NodeView
        recommends
            self.root_cached(),
    {
        self.pager.cached_node(self.root_page_num as int)
    }

    /// The backing file already holds the root page.
    pub open spec fn root_on_disk(&self) -> bool {
        spec_file_pages(self.pager.file_length) > self.root_page_num as int
    }

    /// The root can be produced without reading the file: it is cached,
    /// or it is not on disk and a fresh leaf stands in for it.
    pub open spec fn root_available(&self) -> bool {
        self.root_cached() || !self.root_on_disk()
    }

    /// The rows the table holds, in insertion order.
    pub open spec fn rows(&self) -> Seq<RowView>
        recommends
            self.root_cached(),
    {
        cells_rows(self.root_node().cells)
    }
}

/// The rows a cell sequence stores, in order.
pub open spec fn cells_rows(cells: Seq<(u32, RowView)>) -> Seq<RowView> {
    cells.map_values(|c: (u32, RowView)| c.1)
}

/// A sequence of appends, each keyed by the row's id, one row at a time.
pub open spec fn spec_insert_all(cells: Seq<(u32, RowView)>, rows: Seq<RowView>) -> Seq<
    (u32, RowView),
>
    decreases rows.len(),
{
    if rows.len() == 0 {
        cells
    } else {
        spec_insert_all(cells.push((rows[0].id, rows[0])), rows.drop_first())
    }
}

/// Appending rows one at a time grows the cell count by exactly one per
/// row: starting from an empty root, `insert_row` accepts exactly the
/// leaf capacity before it reports the node full.
pub proof fn lemma_insert_all_len(cells: Seq<(u32, RowView)>, rows: Seq<RowView>)
    ensures
        spec_insert_all(cells, rows).len() == cells.len() + rows.len(),
    decreases rows.len(),
{
    if rows.len() > 0 {
        lemma_insert_all_len(cells.push((rows[0].id, rows[0])), rows.drop_first());
    }
}

/// Appending rows one at a time extends the stored rows by exactly
/// those rows, in insertion order: a scan after the appends yields them
/// as they were inserted, whatever their ids.
pub proof fn lemma_insertion_order(cells: Seq<(u32, RowView)>, rows: Seq<RowView>)
    ensures
        cells_rows(spec_insert_all(cells, rows)) == cells_rows(cells) + rows,
    decreases rows.len(),
{
    if rows.len() == 0 {
        assert(cells_rows(cells) + rows =~= cells_rows(cells));
    } else {
        let first: (u32, RowView) = (rows[0].id, rows[0]);
        lemma_insertion_order(cells.push(first), rows.drop_first());
        assert(cells_rows(cells.push(first)) =~= cells_rows(cells).push(rows[0]));
        assert(cells_rows(cells).push(rows[0]) + rows.drop_first() =~= cells_rows(cells) + rows);
    }
}

/// Opens a table over a backing file of the given byte length.  The root
/// page number is fixed at zero.
pub fn new_table(file_length: usize) -> (t: Table)
    ensures
        t.wf(),
        t.pager.file_length == file_length,
        t.pager.num_pages == 0,
        forall|i: int| !t.pager.is_cached(i),
{
    let (pager, root_page_num) = new_pager(file_length);
    Table { root_page_num, pager }
}

/// One pending page write: the page image and where it belongs in the
/// file.
pub struct PageWrite {
    pub page_num: usize,
    pub offset: usize,
    pub bytes: Vec<u8>,
}

impl View for PageWrite {
    type V = (int, Seq<u8>);

    open spec fn view(&self) -> (int, Seq<u8>) {
        (self.page_num as int, self.bytes@)
    }
}

/// The views of a write list, in order.
pub open spec fn writes_view(ws: Seq<PageWrite>) -> Seq<(int, Seq<u8>)> {
    ws.map_values(|w: PageWrite| w@)
}

/// The images of the cached pages below `n`, in page order, each paired
/// with its page number.  Uncached slots are skipped.
pub open spec fn spec_close_writes(pages: Seq<Option<crate::node::Node>>, n: int) -> Seq<
    (int, Seq<u8>),
>
    decreases n,
{
    if n <= 0 {
        Seq::empty()
    } else {
        spec_close_writes(pages, n - 1) + (match pages[n - 1] {
            Option::Some(node) => seq![(n - 1, crate::node::spec_node_bytes(node@))],
            Option::None => Seq::empty(),
        })
    }
}

/// Flushes the table: returns the image of every cached page up to the
/// known page count, in page order, each destined for file offset
/// `page_num * PAGE_SIZE`.  Uncached pages are skipped.
pub fn close_table(table: &Table) -> (writes: Vec<PageWrite>)
    requires
        table.wf(),
    ensures
        writes_view(writes@) == spec_close_writes(
            table.pager.pages@,
            table.pager.num_pages as int,
        ),
        forall|k: int|
            0 <= k < writes@.len() ==> (#[trigger] writes@[k]).offset == writes@[k].page_num
                * PAGE_SIZE,
        forall|k: int|
            0 <= k < writes@.len() ==> (#[trigger] writes@[k]).page_num < table.pager.num_pages,
{
    let mut writes: Vec<PageWrite> = Vec::new();
    let n: usize = table.pager.num_pages;
    let mut i: usize = 0;
    proof {
        assert(writes_view(writes@) =~= spec_close_writes(table.pager.pages@, 0));
    }
    while i < n
        invariant
            table.wf(),
            n == table.pager.num_pages,
            i <= n,
            writes_view(writes@) == spec_close_writes(table.pager.pages@, i as int),
            forall|k: int|
                0 <= k < writes@.len() ==> (#[trigger] writes@[k]).offset == writes@[k].page_num
                    * PAGE_SIZE,
            forall|k: int| 0 <= k < writes@.len() ==> (#[trigger] writes@[k]).page_num < i,
        decreases n - i,
    {
        let ghost before = writes_view(writes@);
        match table.pager.page_flush(i) {
            Ok(bytes) => {
                let offset: usize = i * PAGE_SIZE;
                let ghost entry: (int, Seq<u8>) = (i as int, bytes@);
                writes.push(PageWrite { page_num: i, offset, bytes });
                proof {
                    assert(writes_view(writes@) =~= before + seq![entry]);
                    assert(writes_view(writes@) =~= spec_close_writes(
                        table.pager.pages@,
                        i as int + 1,
                    ));
                }
            },
            Err(_) => {
                proof {
                    assert(writes_view(writes@) =~= spec_close_writes(
                        table.pager.pages@,
                        i as int + 1,
                    ));
                }
            },
        }
        i = i + 1;
    }
    writes
}

/// Releases the table.  The caller drops its file handle alongside.
pub fn free_table(table: Table) {
    let _own = table;
}

impl Table {
    /// A cursor at the first cell of the root node.
    pub fn table_start(&self) -> (c: Cursor)
        ensures
            c.page_num == self.root_page_num,
            c.cell_num == 0,
    {
        Cursor { page_num: self.root_page_num, cell_num: 0 }
    }

    /// A cursor one past the last cell of the root node, where the next
    /// row would land.  Fails with [`DbError::NodeFull`] when the root
    /// has no room, and with [`DbError::PageNotLoaded`] when the root
    /// page must first be read from the file.
    pub fn table_end(&mut self) -> (r: Result<Cursor, DbError>)
        requires
            old(self).wf(),
        ensures
            final(self).wf(),
            final(self).root_page_num == old(self).root_page_num,
            final(self).pager.file_length == old(self).pager.file_length,
            ({
                let was_cached = old(self).root_cached();
                let on_disk = old(self).root_on_disk();
                if !was_cached && on_disk {
                    &&& r == Err::<Cursor, DbError>(
                        DbError::PageNotLoaded { page_num: old(self).root_page_num as usize },
                    )
                    &&& final(self).pager.pages@ == old(self).pager.pages@
                } else if was_cached && old(self).root_node().cells.len()
                    >= LEAF_NODE_MAX_CELLS {
                    &&& r == Err::<Cursor, DbError>(DbError::NodeFull)
                    &&& final(self).pager == old(self).pager
                } else {
                    &&& final(self).root_cached()
                    &&& final(self).root_node().cells.len() < LEAF_NODE_MAX_CELLS
                    &&& (was_cached ==> final(self).pager == old(self).pager)
                    &&& (!was_cached ==> final(self).root_node().cells.len() == 0
                        && final(self).root_node().node_type == NodeType::Leaf
                        && final(self).root_node().is_root
                        && final(self).root_node().parent_pointer == 0u32)
                    &&& r matches Ok(c) && c.page_num == old(self).root_page_num
                        && c.cell_num == final(self).root_node().cells.len()
                }
            }),
    {
        proof {
            crate::node::lemma_layout_constants();
        }
        let root: usize = self.root_page_num as usize;
        match self.pager.get_page(root) {
            Ok(PageFetch::Ready) => {},
            Ok(PageFetch::NeedsDiskRead { offset: _ }) => {
                return Err(DbError::PageNotLoaded { page_num: root });
            },
            Err(e) => {
                return Err(e);
            },
        }
        let num_cells: u32 = match self.pager.node_at(root) {
            Some(node) => {
                if node.is_node_full() {
                    return Err(DbError::NodeFull);
                }
                node.get_num_cells()
            },
            None => {
                return Err(DbError::PageNotLoaded { page_num: root });
            },
        };
        Ok(Cursor { page_num: self.root_page_num, cell_num: num_cells })
    }

    /// True exactly at the position one past the last cell.
    pub fn is_end_of_table(&mut self, cursor: &Cursor) -> (r: bool)
        requires
            old(self).wf(),
            old(self).root_available(),
        ensures
            final(self).wf(),
            final(self).root_cached(),
            final(self).root_page_num == old(self).root_page_num,
            final(self).pager.file_length == old(self).pager.file_length,
            (old(self).root_cached() ==> final(self).pager == old(self).pager),
            (!old(self).root_cached() ==> final(self).root_node().cells.len() == 0),
            r == (cursor.cell_num == final(self).root_node().cells.len()),
    {
        let root: usize = self.root_page_num as usize;
        match self.pager.get_page(root) {
            Ok(_) => {},
            Err(_) => {
                proof {
                    assert(false);
                }
            },
        }
        match self.pager.node_at(root) {
            Some(node) => cursor.cell_num == node.get_num_cells(),
            None => {
                proof {
                    assert(false);
                }
                false
            },
        }
    }

    /// The row under the cursor, or nothing when the page is uncached or
    /// the position is past the cells.  This never triggers a load.
    pub fn cursor_value(&self, cursor: &Cursor) -> (r: Option<&Row>)
        ensures
            match r {
                Some(row) => {
                    &&& self.pager.is_cached(cursor.page_num as int)
                    &&& (cursor.cell_num as int) < self.pager.cached_node(
                        cursor.page_num as int,
                    ).cells.len()
                    &&& row@ == self.pager.cached_node(cursor.page_num as int).cells[
                        cursor.cell_num as int
                    ].1
                },
                None => !self.pager.is_cached(cursor.page_num as int) || (cursor.cell_num as int)
                    >= self.pager.cached_node(cursor.page_num as int).cells.len(),
            },
    {
        match self.pager.node_at(cursor.page_num as usize) {
            None => None,
            Some(node) => {
                match node.get_cell(cursor.cell_num as usize) {
                    None => None,
                    Some(cell) => Some(&cell.value),
                }
            },
        }
    }

    /// Appends a row at the end of the root node, keyed by its id.
    /// Fails with [`DbError::NodeFull`] when the root has no room, and
    /// with [`DbError::PageNotLoaded`] when the root page must first be
    /// read from the file; nothing changes on a failure.
    pub fn insert_row(&mut self, row: Row) -> (r: Result<(), DbError>)
        requires
            old(self).wf(),
            row_wf(row@),
        ensures
            final(self).wf(),
            final(self).root_page_num == old(self).root_page_num,
            final(self).pager.file_length == old(self).pager.file_length,
            ({
                let was_cached = old(self).root_cached();
                let on_disk = old(self).root_on_disk();
                if !was_cached && on_disk {
                    &&& r == Err::<(), DbError>(
                        DbError::PageNotLoaded { page_num: old(self).root_page_num as usize },
                    )
                    &&& final(self).pager.pages@ == old(self).pager.pages@
                } else if was_cached && old(self).root_node().cells.len()
                    >= LEAF_NODE_MAX_CELLS {
                    &&& r == Err::<(), DbError>(DbError::NodeFull)
                    &&& final(self).pager == old(self).pager
                } else {
                    &&& r == Ok::<(), DbError>(())
                    &&& final(self).root_cached()
                    &&& final(self).root_node().cells == (if was_cached {
                        old(self).root_node().cells
                    } else {
                        Seq::<(u32, RowView)>::empty()
                    }).push((row.id, row@))
                    &&& final(self).root_node().node_type == (if was_cached {
                        old(self).root_node().node_type
                    } else {
                        NodeType::Leaf
                    })
                    &&& final(self).root_node().is_root == (if was_cached {
                        old(self).root_node().is_root
                    } else {
                        true
                    })
                }
            }),
    {
        let cursor: Cursor = match self.table_end() {
            Ok(c) => c,
            Err(e) => {
                return Err(e);
            },
        };
        self.pager.insert_into_page(cursor.page_num as usize, row);
        Ok(())
    }
}

} // verus!
