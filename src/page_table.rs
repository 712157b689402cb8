use vstd::prelude::*;

use crate::errors::{fails_execution, fails_integrity, fails_io, integrity_error, is_io_kind, io_error, DBError, IoErrorKind, Result};
use crate::page::{
    decode_page, item_matches, lemma_insert_effect, lemma_mark_dead_effect, lemma_overwrite_effect, row_of,
    lemma_slot_index, page_bytes, Page, PageCursor, PageView, RowView, PAGE_DATA_SIZE, PAGE_SIZE,
};
use crate::serializer::BinaryReader;
use crate::table::Table;
use crate::tuple::{conforms, tuple_size, Tuple};
use crate::values::DBType;

verus! {

/// The page that `Page::new` makes.
pub open spec fn empty_page(schema: Seq<DBType>, id: u32) -> PageView {
    PageView {
        id,
        free_space_end: 0,
        dead_space: 0,
        data: Seq::new(PAGE_DATA_SIZE as nat, |i: int| 0u8),
        schema,
    }
}

/// `b` holds a well-formed page whose stored id is `id`.
pub open spec fn decodes_page(schema: Seq<DBType>, b: Seq<u8>, id: u32) -> bool {
    decode_page(schema, b) matches Some(p) && p.id == id
}

/// The length of a page file after a page is written at its place: the file
/// grows when the page lies past its end.
pub open spec fn len_after_save(len: int, page_id: int) -> int {
    let end = (page_id + 1) * PAGE_SIZE;
    if end > len {
        end
    } else {
        len
    }
}

/// Writing pages at their places keeps a page file's length a multiple of
/// `PAGE_SIZE`.
pub proof fn lemma_file_len_multiple(len: int, page_id: int)
    requires
        len % (PAGE_SIZE as int) == 0,
    ensures
        len_after_save(len, page_id) % (PAGE_SIZE as int) == 0,
{
    assert(((page_id + 1) * PAGE_SIZE) % (PAGE_SIZE as int) == 0) by (nonlinear_arith);
}

/// Number of live rows over a table's pages.
pub open spec fn live_count(pages: Seq<PageView>) -> nat
    decreases pages.len(),
{
    if pages.len() == 0 {
        0
    } else {
        live_count(pages.drop_last()) + pages.last().rows().len()
    }
}

/// Putting page `q` in place of page `i` changes the table's live count by
/// the difference of the two pages' row counts; appending adds its rows.
pub proof fn lemma_live_count_update(pages: Seq<PageView>, i: int, q: PageView)
    requires
        0 <= i <= pages.len(),
    ensures
        i < pages.len() ==> live_count(pages.update(i, q)) + pages[i].rows().len() == live_count(pages)
            + q.rows().len(),
        i == pages.len() ==> live_count(pages.push(q)) == live_count(pages) + q.rows().len(),
    decreases pages.len(),
{
    if i == pages.len() {
        assert(pages.push(q).drop_last() =~= pages);
    } else if i == pages.len() - 1 {
        assert(pages.update(i, q).drop_last() =~= pages.drop_last());
    } else {
        lemma_live_count_update(pages.drop_last(), i, q);
        assert(pages.update(i, q).drop_last() =~= pages.drop_last().update(i, q));
    }
}

/// Inserting a row into a page adds one live row to the table.
pub proof fn lemma_insert_counts(pages: Seq<PageView>, i: int, vs: Seq<crate::values::ValueView>)
    requires
        0 <= i < pages.len(),
        pages[i].wf(),
        pages[i].can_fit(tuple_size(vs)),
        conforms(vs, pages[i].schema),
    ensures
        live_count(pages.update(i, pages[i].insert(vs))) == live_count(pages) + 1,
{
    lemma_insert_effect(pages[i], vs);
    lemma_live_count_update(pages, i, pages[i].insert(vs));
}

/// Inserting a row into a fresh page appended to the table adds one live row.
pub proof fn lemma_insert_new_page_counts(pages: Seq<PageView>, q: PageView, vs: Seq<crate::values::ValueView>)
    requires
        q.wf(),
        q.rows().len() == 0,
        q.can_fit(tuple_size(vs)),
        conforms(vs, q.schema),
    ensures
        live_count(pages.push(q.insert(vs))) == live_count(pages) + 1,
{
    lemma_insert_effect(q, vs);
    lemma_live_count_update(pages, pages.len() as int, q.insert(vs));
}

/// Tombstoning a live row removes one live row from the table.
pub proof fn lemma_delete_counts(pages: Seq<PageView>, i: int, o: int)
    requires
        0 <= i < pages.len(),
        pages[i].wf(),
        pages[i].is_live_slot(o),
    ensures
        live_count(pages.update(i, pages[i].mark_dead(o))) + 1 == live_count(pages),
{
    let p = pages[i];
    let k = choose|k: int| 0 <= k < p.slots().len() && #[trigger] p.slots()[k].offset == o;
    crate::page::lemma_walk_facts(p.data, 0, p.free_space_end as int);
    lemma_mark_dead_effect(p, k);
    lemma_live_count_update(pages, i, p.mark_dead(o));
}

/// Rewriting a row in place leaves the number of live rows unchanged.
pub proof fn lemma_overwrite_counts(pages: Seq<PageView>, i: int, o: int, vs: Seq<crate::values::ValueView>)
    requires
        0 <= i < pages.len(),
        pages[i].wf(),
        pages[i].is_live_slot(o),
        conforms(vs, pages[i].schema),
        tuple_size(vs) <= pages[i].slot_len(o),
    ensures
        live_count(pages.update(i, pages[i].overwrite(o, vs))) == live_count(pages),
{
    let p = pages[i];
    let k = choose|k: int| 0 <= k < p.slots().len() && #[trigger] p.slots()[k].offset == o;
    crate::page::lemma_walk_facts(p.data, 0, p.free_space_end as int);
    assert(p.slots()[k].alive && p.slots()[k].len == p.slot_len(o));
    lemma_overwrite_effect(p, k, vs);
    lemma_mark_dead_effect(p, k);
    let q = p.overwrite(o, vs);
    assert(q.rows().len() == p.rows().len());
    lemma_live_count_update(pages, i, q);
}

/// Rows of a page, each with the page's id.
pub open spec fn tagged(pid: int, rows: Seq<RowView>) -> Seq<(int, RowView)> {
    rows.map_values(|r: RowView| (pid, r))
}

/// The rows a scan of pages `lo..hi` yields, page by page.
pub open spec fn scan_range(pages: Seq<PageView>, lo: int, hi: int) -> Seq<(int, RowView)>
    decreases hi - lo,
{
    if hi <= lo {
        Seq::empty()
    } else {
        scan_range(pages, lo, hi - 1) + tagged(hi - 1, pages[hi - 1].rows())
    }
}

/// The rows a scan of the whole table yields, with their page ids.
pub open spec fn scan_rows(pages: Seq<PageView>) -> Seq<(int, RowView)> {
    scan_range(pages, 0, pages.len() as int)
}

proof fn lemma_scan_frame(pages: Seq<PageView>, pages2: Seq<PageView>, lo: int, hi: int)
    requires
        forall|j: int| lo <= j < hi ==> pages[j] == pages2[j],
    ensures
        scan_range(pages, lo, hi) == scan_range(pages2, lo, hi),
    decreases hi - lo,
{
    if hi > lo {
        lemma_scan_frame(pages, pages2, lo, hi - 1);
    }
}

proof fn lemma_scan_split(pages: Seq<PageView>, lo: int, i: int, hi: int)
    requires
        lo <= i < hi,
    ensures
        scan_range(pages, lo, hi) == scan_range(pages, lo, i) + tagged(i, pages[i].rows()) + scan_range(
            pages,
            i + 1,
            hi,
        ),
    decreases hi - lo,
{
    if hi - 1 == i {
        assert(scan_range(pages, i + 1, hi) =~= Seq::<(int, RowView)>::empty());
        assert(scan_range(pages, lo, hi) =~= scan_range(pages, lo, i) + tagged(i, pages[i].rows())
            + Seq::<(int, RowView)>::empty());
    } else {
        lemma_scan_split(pages, lo, i, hi - 1);
        assert(scan_range(pages, lo, hi) =~= scan_range(pages, lo, i) + tagged(i, pages[i].rows())
            + scan_range(pages, i + 1, hi));
    }
}

/// Putting page `q` in place of page `i` changes the scan only in page `i`'s rows.
pub proof fn lemma_scan_update(pages: Seq<PageView>, i: int, q: PageView)
    requires
        0 <= i < pages.len(),
    ensures
        scan_rows(pages) == scan_range(pages, 0, i) + tagged(i, pages[i].rows()) + scan_range(
            pages,
            i + 1,
            pages.len() as int,
        ),
        scan_rows(pages.update(i, q)) == scan_range(pages, 0, i) + tagged(i, q.rows()) + scan_range(
            pages,
            i + 1,
            pages.len() as int,
        ),
{
    let p2 = pages.update(i, q);
    lemma_scan_split(pages, 0, i, pages.len() as int);
    lemma_scan_split(p2, 0, i, pages.len() as int);
    lemma_scan_frame(pages, p2, 0, i);
    lemma_scan_frame(pages, p2, i + 1, pages.len() as int);
}

/// Inserting into the table's last page adds exactly one scanned row, at the
/// end: the inserted row, at the slot the insert returned.
pub proof fn lemma_scan_insert_last(pages: Seq<PageView>, vs: Seq<crate::values::ValueView>)
    requires
        pages.len() > 0,
        pages.last().wf(),
        pages.last().can_fit(tuple_size(vs)),
        conforms(vs, pages.last().schema),
    ensures
        scan_rows(pages.update(pages.len() - 1, pages.last().insert(vs))) == scan_rows(pages).push(
            (pages.len() - 1, RowView { offset: pages.last().free_space_end as int, tuple: Some(vs) }),
        ),
{
    let i = pages.len() - 1;
    let p = pages.last();
    let row = RowView { offset: p.free_space_end as int, tuple: Some(vs) };
    lemma_insert_effect(p, vs);
    lemma_scan_update(pages, i, p.insert(vs));
    assert(scan_range(pages, i + 1, pages.len() as int) =~= Seq::<(int, RowView)>::empty());
    assert(tagged(i, p.rows().push(row)) =~= tagged(i, p.rows()).push((i, row)));
    assert(scan_rows(pages.update(i, p.insert(vs))) =~= scan_rows(pages).push((i, row)));
}

/// Inserting into a fresh page after the last adds exactly one scanned row,
/// at the end.
pub proof fn lemma_scan_insert_new_page(pages: Seq<PageView>, q: PageView, vs: Seq<crate::values::ValueView>)
    requires
        q.wf(),
        q.rows().len() == 0,
        q.can_fit(tuple_size(vs)),
        conforms(vs, q.schema),
    ensures
        scan_rows(pages.push(q.insert(vs))) == scan_rows(pages).push(
            (pages.len() as int, RowView { offset: q.free_space_end as int, tuple: Some(vs) }),
        ),
{
    let n = pages.len() as int;
    let p2 = pages.push(q.insert(vs));
    let row = RowView { offset: q.free_space_end as int, tuple: Some(vs) };
    lemma_insert_effect(q, vs);
    lemma_scan_frame(pages, p2, 0, n);
    assert(q.rows().push(row) =~= seq![row]);
    assert(tagged(n, seq![row]) =~= seq![(n, row)]);
    assert(scan_rows(p2) =~= scan_range(p2, 0, n) + tagged(n, q.insert(vs).rows()));
}

/// Deleting a live row removes exactly its scanned row; the others keep
/// their order.
pub proof fn lemma_scan_delete(pages: Seq<PageView>, i: int, o: int)
    requires
        0 <= i < pages.len(),
        pages[i].wf(),
        pages[i].is_live_slot(o),
    ensures
        ({
            let p = pages[i];
            let before = scan_range(pages, 0, i) + tagged(i, p.rows_before(o));
            let after = tagged(i, p.rows_after(o)) + scan_range(pages, i + 1, pages.len() as int);
            let row = row_of(p.data, p.schema, p.slots()[p.slot_index(o)]);
            &&& scan_rows(pages) == before + seq![(i, row)] + after
            &&& scan_rows(pages.update(i, p.mark_dead(o))) == before + after
        }),
{
    let p = pages[i];
    let k = choose|k: int| 0 <= k < p.slots().len() && #[trigger] p.slots()[k].offset == o;
    crate::page::lemma_walk_facts(p.data, 0, p.free_space_end as int);
    lemma_slot_index(p, k);
    lemma_mark_dead_effect(p, k);
    lemma_scan_update(pages, i, p.mark_dead(o));
    let row = row_of(p.data, p.schema, p.slots()[k]);
    let a = scan_range(pages, 0, i);
    let c = scan_range(pages, i + 1, pages.len() as int);
    assert(tagged(i, p.rows_before(o) + seq![row] + p.rows_after(o)) =~= tagged(i, p.rows_before(o))
        + seq![(i, row)] + tagged(i, p.rows_after(o)));
    assert(tagged(i, p.rows_before(o) + p.rows_after(o)) =~= tagged(i, p.rows_before(o)) + tagged(
        i,
        p.rows_after(o),
    ));
    assert(scan_rows(pages) =~= a + tagged(i, p.rows_before(o)) + seq![(i, row)] + (tagged(i, p.rows_after(o)) + c));
    assert(scan_rows(pages.update(i, p.mark_dead(o))) =~= a + tagged(i, p.rows_before(o)) + (tagged(
        i,
        p.rows_after(o),
    ) + c));
}

/// Rewriting a row in its slot replaces exactly its scanned row, in place.
pub proof fn lemma_scan_overwrite(pages: Seq<PageView>, i: int, o: int, vs: Seq<crate::values::ValueView>)
    requires
        0 <= i < pages.len(),
        pages[i].wf(),
        pages[i].is_live_slot(o),
        conforms(vs, pages[i].schema),
        tuple_size(vs) <= pages[i].slot_len(o),
    ensures
        ({
            let p = pages[i];
            let before = scan_range(pages, 0, i) + tagged(i, p.rows_before(o));
            let after = tagged(i, p.rows_after(o)) + scan_range(pages, i + 1, pages.len() as int);
            let row = row_of(p.data, p.schema, p.slots()[p.slot_index(o)]);
            &&& scan_rows(pages) == before + seq![(i, row)] + after
            &&& scan_rows(pages.update(i, p.overwrite(o, vs))) == before + seq![
                (i, RowView { offset: o, tuple: Some(vs) }),
            ] + after
        }),
{
    let p = pages[i];
    let k = choose|k: int| 0 <= k < p.slots().len() && #[trigger] p.slots()[k].offset == o;
    crate::page::lemma_walk_facts(p.data, 0, p.free_space_end as int);
    lemma_slot_index(p, k);
    assert(p.slots()[k].alive && p.slots()[k].len == p.slot_len(o));
    lemma_mark_dead_effect(p, k);
    lemma_overwrite_effect(p, k, vs);
    lemma_scan_update(pages, i, p.overwrite(o, vs));
    let row = row_of(p.data, p.schema, p.slots()[k]);
    let nrow = RowView { offset: o, tuple: Some(vs) };
    let a = scan_range(pages, 0, i);
    let c = scan_range(pages, i + 1, pages.len() as int);
    assert(tagged(i, p.rows_before(o) + seq![row] + p.rows_after(o)) =~= tagged(i, p.rows_before(o))
        + seq![(i, row)] + tagged(i, p.rows_after(o)));
    assert(tagged(i, p.rows_before(o) + seq![nrow] + p.rows_after(o)) =~= tagged(i, p.rows_before(o))
        + seq![(i, nrow)] + tagged(i, p.rows_after(o)));
    assert(scan_rows(pages) =~= a + tagged(i, p.rows_before(o)) + seq![(i, row)] + (tagged(i, p.rows_after(o)) + c));
    assert(scan_rows(pages.update(i, p.overwrite(o, vs))) =~= a + tagged(i, p.rows_before(o)) + seq![(i, nrow)]
        + (tagged(i, p.rows_after(o)) + c));
}

/// Where an updated row went, as decided from the page that held it.
pub enum OverwriteOutcome<'a> {
    /// Rewritten in its slot: save the page.
    InPlace(Page<'a>),
    /// Moved to a new slot at the end of the same page: save the page.
    SamePage(Page<'a>, u16),
    /// The old slot is tombstoned and the page is full: save the page, then
    /// insert the row into the table's last page.
    Relocate(Page<'a>),
}

/// The pages of one table, stored one after another in a file, `PAGE_SIZE`
/// bytes each. The file itself is read and written by the caller, at the
/// offsets and with the bytes that these methods give.
pub struct PageTable<'a> {
    table: &'a Table,
    page_count: u32,
}

impl<'a> PageTable<'a> {
    pub closed spec fn table(&self) -> &'a Table {
        self.table
    }

    pub closed spec fn count(&self) -> nat {
        self.page_count as nat
    }

    /// The page table of a file of `file_len` bytes; a length that is not a
    /// whole number of pages is invalid data.
    pub fn load(table: &'a Table, file_len: u64) -> (r: Result<Self>)
        ensures
            r is Ok <==> file_len % (PAGE_SIZE as u64) == 0 && file_len / (PAGE_SIZE as u64) <= u32::MAX,
            r matches Ok(pt) ==> pt.count() == file_len / (PAGE_SIZE as u64) && pt.table() == table
                && pt.count() <= u32::MAX,
            r matches Err(e) ==> is_io_kind(e, IoErrorKind::InvalidData),
    {
        if file_len % (PAGE_SIZE as u64) != 0 {
            return Err(io_error(IoErrorKind::InvalidData, "Page file size is not a multiple of page size"));
        }
        let n = file_len / (PAGE_SIZE as u64);
        if n > u32::MAX as u64 {
            return Err(io_error(IoErrorKind::InvalidData, "Page file holds too many pages"));
        }
        Ok(PageTable { table, page_count: n as u32 })
    }

    /// A new page table of one empty page, and the bytes of that page, which
    /// make up the new file.
    pub fn init(table: &'a Table) -> (r: (Self, Vec<u8>))
        ensures
            r.0.count() == 1,
            r.0.count() <= u32::MAX,
            r.0.table() == table,
            r.1@ == page_bytes(empty_page(table@.schema(), 0)),
            r.1@.len() == PAGE_SIZE,
    {
        let page = Page::new(table, 0);
        let bytes = page.to_bytes();
        (PageTable { table, page_count: 1 }, bytes)
    }

    pub fn page_count(&self) -> (r: u32)
        ensures
            r == self.count(),
    {
        self.page_count
    }

    pub fn table_ref(&self) -> (t: &'a Table)
        ensures
            t == self.table(),
    {
        self.table
    }

    /// Where page `page_id` starts in the file; a page past the last is an
    /// integrity error.
    pub fn page_offset(&self, page_id: u32) -> (r: Result<u64>)
        ensures
            r is Ok <==> page_id < self.count(),
            r matches Ok(off) ==> off == page_id * PAGE_SIZE,
            r matches Err(e) ==> e is Integrity,
    {
        if page_id >= self.page_count {
            return Err(integrity_error("Attempted to load a page that does not exist"));
        }
        let page_size = PAGE_SIZE as u64;
        assert(page_id as u64 * page_size <= u32::MAX as u64 * 8192) by (nonlinear_arith)
            requires
                page_size == 8192,
                page_id <= u32::MAX,
        ;
        Ok(page_id as u64 * page_size)
    }

    /// Page `page_id`, from the bytes read at its offset.
    pub fn get_page(&self, page_id: u32, bytes: &[u8]) -> (r: Result<Page<'a>>)
        ensures
            page_id >= self.count() ==> fails_integrity(r),
            page_id < self.count() ==> (r is Ok <==> decodes_page(self.table()@.schema(), bytes@, page_id)),
            r matches Ok(p) ==> Some(p@) == decode_page(self.table()@.schema(), bytes@) && p.table()
                == self.table() && p@.id == page_id,
            page_id < self.count() && r is Err ==> fails_io(r),
    {
        if page_id >= self.page_count {
            return Err(integrity_error("Attempted to load a page that does not exist"));
        }
        let mut reader = BinaryReader::new(bytes);
        let page = Page::read(self.table, &mut reader)?;
        if page.id() != page_id {
            return Err(io_error(IoErrorKind::InvalidData, "Page holds another page id"));
        }
        Ok(page)
    }

    /// Where to write `page` and its bytes; the table counts the page from then
    /// on. The file grows when the page lies past its end.
    pub fn save_page(&mut self, page: &Page) -> (r: Result<(u64, Vec<u8>)>)
        requires
            page@.wf(),
        ensures
            final(self).table() == old(self).table(),
            final(self).count() <= u32::MAX,
            r is Ok <==> page@.id < u32::MAX,
            r matches Ok((off, b)) ==> off == page@.id * PAGE_SIZE && b@ == page_bytes(page@),
            r is Ok ==> final(self).count() * PAGE_SIZE == len_after_save(old(self).count() * PAGE_SIZE, page@.id as int),
            r is Err ==> final(self).count() == old(self).count() && fails_integrity(r),
    {
        let id = page.id();
        if id == u32::MAX {
            return Err(integrity_error("Page id out of range"));
        }
        let bytes = page.to_bytes();
        if id >= self.page_count {
            self.page_count = id + 1;
        }
        let page_size = PAGE_SIZE as u64;
        assert(id as u64 * page_size <= u32::MAX as u64 * 8192) by (nonlinear_arith)
            requires
                page_size == 8192,
                id <= u32::MAX,
        ;
        Ok((id as u64 * page_size, bytes))
    }
    /// Places the tuple on the table's last page, given as read from the
    /// file, or on a fresh page after it when the last page is full. Earlier
    /// pages are never considered. Returns the page to save and where the
    /// tuple went.
    pub fn insert_tuple(&self, last_page: Page<'a>, tuple: &Tuple) -> (r: Result<(Page<'a>, (u32, u16))>)
        requires
            last_page@.wf(),
            last_page.table() == self.table(),
        ensures
            last_page@.id + 1 != self.count() ==> fails_integrity(r),
            last_page@.id + 1 == self.count() && last_page@.can_fit(tuple_size(tuple@)) ==> {
                &&& r is Ok <==> conforms(tuple@, last_page@.schema)
                &&& r is Err ==> fails_execution(r)
                &&& r matches Ok((p, loc)) ==> p@ == last_page@.insert(tuple@) && loc == (
                    last_page@.id,
                    last_page@.free_space_end as u16,
                )
            },
            last_page@.id + 1 == self.count() && !last_page@.can_fit(tuple_size(tuple@)) ==> {
                let fresh = empty_page(last_page@.schema, self.count() as u32);
                &&& !fresh.can_fit(tuple_size(tuple@)) || self.count() == u32::MAX ==> fails_integrity(r)
                &&& fresh.can_fit(tuple_size(tuple@)) && self.count() < u32::MAX ==> (r is Ok <==> conforms(
                    tuple@,
                    last_page@.schema,
                ))
                &&& r matches Ok((p, loc)) ==> p@ == fresh.insert(tuple@) && loc == (self.count() as u32, 0u16)
            },
            r matches Ok((p, _)) ==> p@.wf() && p.table() == self.table(),
    {
        proof {
            last_page.lemma_schema();
        }
        if self.page_count == 0 || last_page.id() != self.page_count - 1 {
            return Err(integrity_error("Not the last page of the table"));
        }
        let mut page = last_page;
        if !page.can_fit_tuple(tuple) {
            if self.page_count == u32::MAX {
                return Err(integrity_error("Page id out of range"));
            }
            page = Page::new(self.table, self.page_count);
            proof {
                page.lemma_schema();
                assert(page@ == empty_page(last_page@.schema, self.count() as u32));
            }
        }
        let offset = page.insert_tuple(tuple)?;
        let id = page.id();
        Ok((page, (id, offset)))
    }

    /// Decides where an updated row goes, given the page that holds it: in
    /// its slot when it fits the slot's capacity; else the slot is tombstoned
    /// and the row goes to the end of the same page if there is room, or is
    /// to be inserted into the last page. A row that does not match the schema
    /// is an execution error, and one too large for any page an integrity
    /// error, before anything changes.
    pub fn overwrite_tuple(&self, page: Page<'a>, offset: u16, tuple: &Tuple) -> (r: Result<OverwriteOutcome<'a>>)
        requires
            page@.wf(),
            page.table() == self.table(),
        ensures
            !conforms(tuple@, page@.schema) ==> fails_execution(r),
            conforms(tuple@, page@.schema) && 3 + tuple_size(tuple@) > PAGE_DATA_SIZE ==> fails_integrity(r),
            conforms(tuple@, page@.schema) && 3 + tuple_size(tuple@) <= PAGE_DATA_SIZE ==> {
                &&& r is Ok <==> page@.is_live_slot(offset as int)
                &&& r is Err ==> fails_integrity(r)
                &&& r matches Ok(out) ==> overwrite_decided(page@, offset as int, tuple@, out)
            },
    {
        proof {
            page.lemma_schema();
        }
        if !tuple.conforms_to(self.table) {
            return Err(crate::errors::execution_error("Tuple does not match the table's columns"));
        }
        let size = tuple.size();
        if size > PAGE_DATA_SIZE - 3 {
            return Err(integrity_error("Tuple is larger than a page"));
        }
        let mut page = page;
        if page.overwrite_tuple(offset, tuple)? {
            return Ok(OverwriteOutcome::InPlace(page));
        }
        page.mark_tuple_dead(offset)?;
        if page.can_fit_tuple(tuple) {
            let new_offset = page.insert_tuple(tuple)?;
            Ok(OverwriteOutcome::SamePage(page, new_offset))
        } else {
            Ok(OverwriteOutcome::Relocate(page))
        }
    }

    /// Tombstones the row at `offset` of `page`; the page is then to be saved.
    pub fn delete_tuple(&self, page: Page<'a>, offset: u16) -> (r: Result<Page<'a>>)
        requires
            page@.wf(),
            page.table() == self.table(),
        ensures
            r is Ok <==> page@.is_live_slot(offset as int),
            r matches Ok(p) ==> p@ == page@.mark_dead(offset as int) && p@.wf() && p.table() == self.table(),
            r is Err ==> fails_integrity(r),
    {
        let mut page = page;
        page.mark_tuple_dead(offset)?;
        Ok(page)
    }

    /// A scan over the table's pages, first to last.
    pub fn iter(&self) -> (it: TableIterator<'a>)
        ensures
            it.wf(),
            it.table() == self.table(),
            it.page_count() == self.count(),
            it.next_page() == 0,
            !it.has_page(),
            !it.errored(),
            it.rows() == Seq::<RowView>::empty(),
    {
        TableIterator::new(self)
    }
}

/// What the update protocol decided for the row at `o`.
pub open spec fn overwrite_decided(p: PageView, o: int, vs: Seq<crate::values::ValueView>, out: OverwriteOutcome) -> bool {
    let dead = p.mark_dead(o);
    match out {
        OverwriteOutcome::InPlace(q) => tuple_size(vs) <= p.slot_len(o) && q@ == p.overwrite(o, vs) && q@.wf(),
        OverwriteOutcome::SamePage(q, n) => tuple_size(vs) > p.slot_len(o) && dead.can_fit(tuple_size(vs)) && q@
            == dead.insert(vs) && n == dead.free_space_end && q@.wf(),
        OverwriteOutcome::Relocate(q) => tuple_size(vs) > p.slot_len(o) && !dead.can_fit(tuple_size(vs)) && q@
            == dead && q@.wf(),
    }
}

/// One step of a table scan.
pub enum ScanStep {
    /// A live row: its page, its slot offset and the row.
    Row(u32, u16, Tuple),
    /// A page or a row could not be read; the scan stops here.
    Failed(DBError),
    /// The scan needs this page: read it and hand it to `supply_page`.
    NeedPage(u32),
    /// No more rows.
    Done,
}

/// A forward scan over a table's pages: rows come page by page, and within a
/// page in slot order; tombstones are skipped. After the first error the
/// scan yields nothing more.
pub struct TableIterator<'a> {
    table: &'a Table,
    page_count: u32,
    next_page: u32,
    current_id: u32,
    current: Option<(Page<'a>, PageCursor)>,
    errored: bool,
}

impl<'a> TableIterator<'a> {
    pub closed spec fn table(&self) -> &'a Table {
        self.table
    }

    pub closed spec fn page_count(&self) -> nat {
        self.page_count as nat
    }

    /// The id of the next page to be read.
    pub closed spec fn next_page(&self) -> nat {
        self.next_page as nat
    }

    /// The id of the page whose rows are being handed out.
    pub closed spec fn current_id(&self) -> nat {
        self.current_id as nat
    }

    pub closed spec fn has_page(&self) -> bool {
        self.current is Some
    }

    pub closed spec fn errored(&self) -> bool {
        self.errored
    }

    /// The rows of the current page not handed out yet.
    pub closed spec fn rows(&self) -> Seq<RowView> {
        match self.current {
            Some((p, c)) => c.remaining(p@),
            None => Seq::empty(),
        }
    }

    pub closed spec fn wf(&self) -> bool {
        &&& self.next_page <= self.page_count
        &&& self.current matches Some((p, c)) ==> c.wf_for(p@)
    }

    pub fn new(page_table: &PageTable<'a>) -> (it: Self)
        ensures
            it.wf(),
            it.table() == page_table.table(),
            it.page_count() == page_table.count(),
            it.next_page() == 0,
            !it.has_page(),
            !it.errored(),
            it.rows() == Seq::<RowView>::empty(),
    {
        TableIterator {
            table: page_table.table,
            page_count: page_table.page_count,
            next_page: 0,
            current_id: 0,
            current: None,
            errored: false,
        }
    }

    /// The next step of the scan: a row of the current page, or the page to
    /// read next, or the end.
    pub fn next(&mut self) -> (r: ScanStep)
        requires
            old(self).wf(),
        ensures
            final(self).wf(),
            final(self).table() == old(self).table(),
            final(self).page_count() == old(self).page_count(),
            final(self).next_page() == old(self).next_page(),
            old(self).errored() ==> r is Done && final(self).errored(),
            !old(self).errored() && old(self).rows().len() > 0 ==> {
                &&& final(self).rows() == old(self).rows().drop_first()
                &&& final(self).has_page() && final(self).current_id() == old(self).current_id()
                &&& step_matches(r, old(self).current_id(), old(self).rows()[0])
                &&& final(self).errored() == r is Failed
            },
            !old(self).errored() && old(self).rows().len() == 0 ==> {
                &&& !final(self).has_page() && !final(self).errored()
                &&& old(self).next_page() < old(self).page_count() ==> r == ScanStep::NeedPage(
                    old(self).next_page() as u32,
                )
                &&& old(self).next_page() >= old(self).page_count() ==> r is Done
            },
    {
        if self.errored {
            return ScanStep::Done;
        }
        let current = self.current.take();
        match current {
            Some((page, cursor)) => {
                let mut cursor = cursor;
                match cursor.next_row(&page) {
                    Some(Ok((offset, tuple))) => {
                        let id = self.current_id;
                        self.current = Some((page, cursor));
                        return ScanStep::Row(id, offset, tuple);
                    },
                    Some(Err(e)) => {
                        self.current = Some((page, cursor));
                        self.errored = true;
                        return ScanStep::Failed(e);
                    },
                    None => {},
                }
            },
            None => {},
        }
        if self.next_page >= self.page_count {
            ScanStep::Done
        } else {
            ScanStep::NeedPage(self.next_page)
        }
    }

    /// Hands the scan the page it asked for, or the error met reading it. An
    /// error ends the scan and is handed back to be reported. A page when
    /// none is wanted is an integrity error.
    pub fn supply_page(&mut self, loaded: Result<Page<'a>>) -> (r: Option<DBError>)
        requires
            old(self).wf(),
            loaded matches Ok(p) ==> p@.wf() && p@.id == old(self).next_page(),
        ensures
            final(self).wf(),
            final(self).table() == old(self).table(),
            final(self).page_count() == old(self).page_count(),
            (loaded is Ok && old(self).next_page() < old(self).page_count() && !old(self).errored()) <==> r is None,
            r is None ==> (loaded matches Ok(p) && final(self).rows() == p@.rows()),
            r is None ==> final(self).has_page() && final(self).current_id() == old(self).next_page()
                && final(self).next_page() == old(self).next_page() + 1 && !final(self).errored(),
            r is Some ==> final(self).errored() && !final(self).has_page(),
    {
        if self.errored || self.next_page >= self.page_count {
            self.errored = true;
            self.current = None;
            return Some(integrity_error("No page was asked for"));
        }
        match loaded {
            Ok(page) => {
                let cursor = PageCursor::start(&page);
                self.current_id = self.next_page;
                self.next_page = self.next_page + 1;
                self.current = Some((page, cursor));
                None
            },
            Err(e) => {
                self.errored = true;
                self.current = None;
                Some(e)
            },
        }
    }
}

/// A scan step hands out the row `row` of page `page_id`.
pub open spec fn step_matches(step: ScanStep, page_id: nat, row: RowView) -> bool {
    match step {
        ScanStep::Row(pid, o, t) => pid == page_id && item_matches(Ok((o, t)), row),
        ScanStep::Failed(e) => item_matches(Err(e), row),
        _ => false,
    }
}

} // verus!
