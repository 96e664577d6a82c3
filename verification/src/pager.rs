//! The page cache: maps a page index to an in-memory node, tracks the
//! backing file's length, and names the byte ranges to read or write.
//!
//! The pager never touches a file itself.  On a cache miss over a page
//! that exists on disk it answers with the offset to read, and the bytes
//! come back through [`Pager::install_page`]; a flush hands back the
//! page image for the caller to write at `page_num * PAGE_SIZE`.  Once a
//! page is cached the cache is authoritative: it is never re-read.

use crate::error::DbError;
use crate::node::{
    new_node, node_wf, spec_node_bytes, spec_node_decode_error, spec_parse_node, deserialize_node,
    Node, NodeType, LEAF_NODE_MAX_CELLS,
};
use crate::row::{row_wf, Row};
use vstd::prelude::*;

verus! {

/// The size of one page, the unit of file I/O and of caching.
pub const PAGE_SIZE: usize = 4096;

/// The capacity of the page table.
pub const TABLE_MAX_PAGES: usize = 100;

/// What a page request found: the node stands ready in the cache, or its
/// bytes must first be read from the file at the given offset and handed
/// to [`Pager::install_page`].
#[derive(Clone, Copy, Debug, PartialEq, Eq, Structural)]
pub enum PageFetch {
    Ready,
    NeedsDiskRead { offset: usize },
}

/// The page cache.  It owns the in-memory nodes; the backing file stays
/// with the caller, who performs the reads and writes this type asks
/// for.
pub struct Pager {
    /// The byte length of the backing file when the pager was opened.
    pub file_length: usize,
    /// The cache: one optional node per page index.
    pub pages: Vec<Option<Node>>,
    /// The number of pages known to exist, on disk or freshly allocated.
    pub num_pages: usize,
}

/// The number of whole pages a file of the given length holds.
pub open spec fn spec_file_pages(file_length: usize) -> int {
    file_length as int / PAGE_SIZE as int
}

impl Pager {
    /// The cache has its fixed shape and every cached node is well
    /// formed.
    pub open spec fn wf(&self) -> bool {
        &&& self.pages@.len() == TABLE_MAX_PAGES
        &&& self.num_pages <= TABLE_MAX_PAGES
        &&& forall|i: int|
            0 <= i < self.pages@.len() ==> ((#[trigger] self.pages@[i]) matches Some(n)
                ==> node_wf(n@))
    }

    /// Whether the page at index `i` is cached.
    pub open spec fn is_cached(&self, i: int) -> bool {
        0 <= i < self.pages@.len() && self.pages@[i] is Some
    }

    /// The cached node at index `i`.
    pub open spec fn cached_node(&self, i: int) -> crate::node::NodeView
        recommends
            self.is_cached(i),
    {
        self.pages@[i]->Some_0@
    }
}

/// Builds a pager over a backing file of the given byte length.  The
/// cache starts empty; the page count stays zero until the first lookup
/// recomputes it.  The second result is the root page number.
pub fn new_pager(file_length: usize) -> (r: (Pager, u32))
    ensures
        r.0.wf(),
        r.0.file_length == file_length,
        r.0.num_pages == 0,
        forall|i: int| !r.0.is_cached(i),
        r.1 == 0u32,
{
    let mut pages: Vec<Option<Node>> = Vec::new();
    let mut i: usize = 0;
    while i < TABLE_MAX_PAGES
        invariant
            i <= TABLE_MAX_PAGES,
            pages@.len() == i,
            forall|j: int| 0 <= j < i ==> (#[trigger] pages@[j]) is None,
        decreases TABLE_MAX_PAGES - i,
    {
        pages.push(None);
        i = i + 1;
    }
    (Pager { file_length, pages, num_pages: 0 }, 0)
}

impl Pager {
    /// Looks a page up.  In bounds there are three outcomes: the page is
    /// already cached and nothing changes; it lies within the file but
    /// is uncached, and the caller must read one page at the returned
    /// offset; or it lies past the file, and a fresh empty leaf is
    /// allocated and cached, marked root exactly for page zero.
    pub fn get_page(&mut self, page_num: usize) -> (r: Result<PageFetch, DbError>)
        requires
            old(self).wf(),
        ensures
            final(self).wf(),
            final(self).file_length == old(self).file_length,
            match r {
                Err(e) => {
                    &&& page_num >= TABLE_MAX_PAGES
                    &&& e == (DbError::PageOutOfBounds { page_num, limit: TABLE_MAX_PAGES })
                    &&& *final(self) == *old(self)
                },
                Ok(PageFetch::Ready) => {
                    &&& page_num < TABLE_MAX_PAGES
                    &&& final(self).is_cached(page_num as int)
                    &&& if old(self).is_cached(page_num as int) {
                        *final(self) == *old(self)
                    } else {
                        &&& page_num >= spec_file_pages(old(self).file_length)
                        &&& final(self).cached_node(page_num as int).node_type == NodeType::Leaf
                        &&& final(self).cached_node(page_num as int).is_root == (page_num == 0)
                        &&& final(self).cached_node(page_num as int).parent_pointer == 0u32
                        &&& final(self).cached_node(page_num as int).cells.len() == 0
                        &&& final(self).num_pages == spec_file_pages(old(self).file_length) + 1
                        &&& forall|j: int|
                            0 <= j < old(self).pages@.len() && j != page_num
                                ==> final(self).pages@[j] == old(self).pages@[j]
                    }
                },
                Ok(PageFetch::NeedsDiskRead { offset }) => {
                    &&& page_num < TABLE_MAX_PAGES
                    &&& !old(self).is_cached(page_num as int)
                    &&& page_num < spec_file_pages(old(self).file_length)
                    &&& offset == page_num * PAGE_SIZE
                    &&& final(self).pages@ == old(self).pages@
                    &&& final(self).num_pages == (if spec_file_pages(old(self).file_length)
                        <= TABLE_MAX_PAGES {
                        spec_file_pages(old(self).file_length)
                    } else {
                        TABLE_MAX_PAGES as int
                    })
                },
            },
    {
        if page_num >= TABLE_MAX_PAGES {
            return Err(DbError::PageOutOfBounds { page_num, limit: TABLE_MAX_PAGES });
        }
        if self.pages[page_num].is_some() {
            return Ok(PageFetch::Ready);
        }
        let file_pages: usize = self.file_length / PAGE_SIZE;
        if page_num < file_pages {
            self.num_pages = if file_pages <= TABLE_MAX_PAGES {
                file_pages
            } else {
                TABLE_MAX_PAGES
            };
            let offset: usize = page_num * PAGE_SIZE;
            Ok(PageFetch::NeedsDiskRead { offset })
        } else {
            let node: Node = new_node(NodeType::Leaf, page_num == 0, 0);
            self.pages[page_num] = Some(node);
            self.num_pages = file_pages + 1;
            Ok(PageFetch::Ready)
        }
    }

    /// Decodes a page image read from the file and caches it.  Fails
    /// exactly when the image holds no node; nothing changes then.
    pub fn install_page(&mut self, page_num: usize, bytes: &[u8]) -> (r: Result<(), DbError>)
        requires
            old(self).wf(),
            page_num < TABLE_MAX_PAGES,
            bytes@.len() == PAGE_SIZE,
        ensures
            final(self).wf(),
            final(self).file_length == old(self).file_length,
            final(self).num_pages == old(self).num_pages,
            match r {
                Ok(()) => {
                    &&& final(self).is_cached(page_num as int)
                    &&& spec_parse_node(bytes@) == Some(final(self).cached_node(page_num as int))
                    &&& forall|j: int|
                        0 <= j < old(self).pages@.len() && j != page_num ==> final(self).pages@[j] == old(self).pages@[j]
                },
                Err(e) => {
                    &&& spec_parse_node(bytes@) is None
                    &&& e == spec_node_decode_error(bytes@)
                    &&& *final(self) == *old(self)
                },
            },
    {
        match deserialize_node(bytes) {
            Ok(node) => {
                self.pages[page_num] = Some(node);
                Ok(())
            },
            Err(e) => Err(e),
        }
    }

    /// The byte image to write for a cached page, destined for file
    /// offset `page_num * PAGE_SIZE`.  Fails exactly when the page was
    /// never cached, and nothing is produced then.
    pub fn page_flush(&self, page_num: usize) -> (r: Result<Vec<u8>, DbError>)
        requires
            self.wf(),
            page_num < TABLE_MAX_PAGES,
        ensures
            match r {
                Ok(bytes) => {
                    &&& self.is_cached(page_num as int)
                    &&& bytes@ == spec_node_bytes(self.cached_node(page_num as int))
                    &&& bytes@.len() == PAGE_SIZE
                },
                Err(e) => {
                    &&& !self.is_cached(page_num as int)
                    &&& e == (DbError::NullPage { page_num })
                },
            },
    {
        match &self.pages[page_num] {
            None => Err(DbError::NullPage { page_num }),
            Some(node) => Ok(node.serialize_node()),
        }
    }

    /// The cached node at a page index, if any.  This never triggers a
    /// load.
    pub fn node_at(&self, page_num: usize) -> (r: Option<&Node>)
        ensures
            match r {
                Some(n) => self.is_cached(page_num as int) && n@ == self.cached_node(
                    page_num as int,
                ),
                None => !self.is_cached(page_num as int),
            },
    {
        if page_num < self.pages.len() {
            match &self.pages[page_num] {
                Some(n) => Some(n),
                None => None,
            }
        } else {
            None
        }
    }

    /// Appends a row, keyed by its id, to the node cached at a page
    /// index.  The page must be cached and its node must have room.
    pub fn insert_into_page(&mut self, page_num: usize, row: Row)
        requires
            old(self).wf(),
            page_num < TABLE_MAX_PAGES,
            old(self).is_cached(page_num as int),
            old(self).cached_node(page_num as int).cells.len() < LEAF_NODE_MAX_CELLS,
            row_wf(row@),
        ensures
            final(self).wf(),
            final(self).file_length == old(self).file_length,
            final(self).num_pages == old(self).num_pages,
            final(self).is_cached(page_num as int),
            final(self).cached_node(page_num as int).node_type == old(self).cached_node(
                page_num as int,
            ).node_type,
            final(self).cached_node(page_num as int).is_root == old(self).cached_node(
                page_num as int,
            ).is_root,
            final(self).cached_node(page_num as int).parent_pointer == old(self).cached_node(
                page_num as int,
            ).parent_pointer,
            final(self).cached_node(page_num as int).cells == old(self).cached_node(
                page_num as int,
            ).cells.push((row.id, row@)),
            forall|j: int|
                0 <= j < old(self).pages@.len() && j != page_num ==> final(self).pages@[j] == old(self).pages@[j],
    {
        let ghost old_node = old(self).cached_node(page_num as int);
        match self.pages[page_num].as_mut() {
            Some(node) => {
                node.insert_row(row);
                proof {
                    assert(node_wf(self.cached_node(page_num as int))) by {
                        let nv = self.cached_node(page_num as int);
                        assert forall|i: int| 0 <= i < nv.cells.len() implies row_wf(
                            #[trigger] nv.cells[i].1,
                        ) by {
                            if i < old_node.cells.len() {
                                assert(nv.cells[i] == old_node.cells[i]);
                            }
                        }
                    }
                }
            },
            None => {
                proof {
                    assert(false);
                }
            },
        }
    }
}

/// What a flush writes, read back and decoded, yields the flushed node
/// again, for every cached node whose rows store no zero byte in a text
/// field.
pub proof fn lemma_flush_round_trip(p: &Pager, i: int)
    requires
        p.wf(),
        p.is_cached(i),
        forall|k: int|
            0 <= k < p.cached_node(i).cells.len() ==> crate::row::row_no_zero_bytes(
                #[trigger] p.cached_node(i).cells[k].1,
            ),
    ensures
        spec_parse_node(spec_node_bytes(p.cached_node(i))) == Some(p.cached_node(i)),
{
    crate::node::lemma_node_round_trip(p.cached_node(i));
}

} // verus!
