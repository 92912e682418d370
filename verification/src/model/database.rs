//! The storage engine's state and decisions: which page is being filled,
//! where it goes in the file, when to flush, and how the file reads back
//! as rows. The caller performs the file I/O that these decisions name.
use crate::model::page::{
    all_rows, decode_rows, lemma_all_rows_fit, rows_fit, encode_slot, lemma_decode_append, lemma_encode_slot, lemma_parse_image, lemma_scan_padded,
    lemma_scan_len_bounds, page_image, parse_page, row_views, scan_len, zeros, Page, PAGE_SIZE,
};
use crate::model::builder::Builder;
use vstd::prelude::*;

verus! {

/// The bytes that a write of `bytes` at `offset` leaves in a file that held
/// `file`: the written range is replaced, the file grows to cover it, and a
/// gap before it reads as zeros.
pub open spec fn apply_write(file: Seq<u8>, offset: nat, bytes: Seq<u8>) -> Seq<u8> {
    let end: nat = if file.len() > offset + bytes.len() {
        file.len()
    } else {
        offset + bytes.len()
    };
    Seq::new(
        end,
        |i: int|
            if offset <= i < offset + bytes.len() {
                bytes[i - offset]
            } else if i < file.len() {
                file[i]
            } else {
                0u8
            },
    )
}

/// The `i`-th `PAGE_SIZE`-byte chunk of `file`, counted from the start.
pub open spec fn chunk(file: Seq<u8>, i: int) -> Seq<u8> {
    file.subrange(i * PAGE_SIZE, (i + 1) * PAGE_SIZE)
}

/// The `k`-th `PAGE_SIZE`-byte chunk of `file`, counted from the end.
pub open spec fn chunk_from_end(file: Seq<u8>, k: int) -> Seq<u8> {
    file.subrange(file.len() - (k + 1) * PAGE_SIZE, file.len() - k * PAGE_SIZE)
}

/// The pages of `file`, one per whole chunk, from the first.
pub open spec fn file_pages(file: Seq<u8>, row_size: nat) -> Seq<Seq<u8>> {
    Seq::new(file.len() / (PAGE_SIZE as nat), |i: int| parse_page(chunk(file, i), row_size))
}

/// The pages of `file`, one per whole chunk counted from the end, from the last.
pub open spec fn file_pages_reverse(file: Seq<u8>, row_size: nat) -> Seq<Seq<u8>> {
    Seq::new(file.len() / (PAGE_SIZE as nat), |k: int| parse_page(chunk_from_end(file, k), row_size))
}

/// The rows of `pages`, page after page.
pub open spec fn pages_rows(pages: Seq<Seq<u8>>, row_size: nat) -> Seq<Seq<u8>> {
    pages.map_values(|p: Seq<u8>| decode_rows(p, row_size)).flatten()
}

/// The rows of `pages`, page after page, each page's rows last first.
pub open spec fn pages_rows_reverse(pages: Seq<Seq<u8>>, row_size: nat) -> Seq<Seq<u8>> {
    pages.map_values(|p: Seq<u8>| decode_rows(p, row_size).reverse()).flatten()
}

/// The rows that `file` holds, in the order they were written.
pub open spec fn file_rows(file: Seq<u8>, row_size: nat) -> Seq<Seq<u8>> {
    pages_rows(file_pages(file, row_size), row_size)
}

/// The rows that `file` holds, read from its end: last page first, and
/// within each page last row first.
pub open spec fn file_rows_reverse(file: Seq<u8>, row_size: nat) -> Seq<Seq<u8>> {
    pages_rows_reverse(file_pages_reverse(file, row_size), row_size)
}

/// Whether a flush is due: there is a flush interval and more than it has
/// passed since the last flush.
pub open spec fn spec_should_sync(sync_writes: Option<u128>, since_last_sync: u128) -> bool {
    match sync_writes {
        Some(interval) => since_last_sync > interval,
        None => false,
    }
}

/// What the engine knows: the page being filled, the file's length, where
/// the next page image goes, and the flush interval.
pub struct DbView {
    /// The bytes of the slots written to the current page.
    pub page: Seq<u8>,
    /// The bytes still free in the current page.
    pub page_free: nat,
    /// The length of the file.
    pub file_len: nat,
    /// Where the next page image is written.
    pub write_offset: nat,
    /// The flush interval in nanoseconds; `None` never flushes.
    pub sync_writes: Option<u128>,
}

/// One write that the engine asks for: `bytes` at byte `offset` of the file.
pub struct PageWrite {
    /// Where in the file the bytes go.
    pub offset: u64,
    /// The `PAGE_SIZE`-byte image of the current page.
    pub bytes: Vec<u8>,
}

/// The state after inserting `row` into the engine in state `v`.
pub open spec fn after_insert(v: DbView, row: Seq<u8>, row_size: nat) -> DbView {
    let filled = v.page + encode_slot(row, row_size);
    let free: nat = (v.page_free - row_size) as nat;
    let written_end: nat = v.write_offset + (PAGE_SIZE as nat);
    let file_len: nat = if v.file_len > written_end {
        v.file_len
    } else {
        written_end
    };
    if free / row_size == 0 {
        DbView {
            page: Seq::empty(),
            page_free: PAGE_SIZE as nat,
            file_len,
            write_offset: written_end,
            sync_writes: v.sync_writes,
        }
    } else {
        DbView {
            page: filled,
            page_free: free,
            file_len,
            write_offset: (file_len - PAGE_SIZE) as nat,
            sync_writes: v.sync_writes,
        }
    }
}

/// The state in which the engine opens a file of `file_len` bytes whose last
/// `PAGE_SIZE` bytes are `last_page`, when it holds that many: it resumes
/// that page in place if it has room for another slot, and otherwise starts
/// an empty page at the end of the file.
pub open spec fn opened(
    file_len: nat,
    last_page: Option<Seq<u8>>,
    sync_writes: Option<u128>,
    row_size: nat,
) -> DbView {
    match last_page {
        Some(b) if scan_len(b, row_size) + row_size > PAGE_SIZE => DbView {
            page: Seq::empty(),
            page_free: PAGE_SIZE as nat,
            file_len,
            write_offset: file_len,
            sync_writes,
        },
        Some(b) => DbView {
            page: parse_page(b, row_size),
            page_free: (PAGE_SIZE - scan_len(b, row_size)) as nat,
            file_len,
            write_offset: (file_len - PAGE_SIZE) as nat,
            sync_writes,
        },
        None => DbView {
            page: Seq::empty(),
            page_free: PAGE_SIZE as nat,
            file_len,
            write_offset: file_len,
            sync_writes,
        },
    }
}

/// The bytes of the page that `last_page` holds, if any.
pub open spec fn bytes_view(last_page: Option<Vec<u8>>) -> Option<Seq<u8>> {
    match last_page {
        Some(b) => Some(b@),
        None => None,
    }
}

/// Every page of `file` is made of whole row slots.
pub open spec fn all_pages_rows(file: Seq<u8>, row_size: nat) -> bool {
    forall|i: int|
        0 <= i < file_pages(file, row_size).len() ==> all_rows(
            #[trigger] file_pages(file, row_size)[i],
            row_size,
        )
}

/// The last `PAGE_SIZE` bytes of `file`.
pub open spec fn last_chunk(file: Seq<u8>) -> Seq<u8> {
    file.subrange(file.len() - PAGE_SIZE, file.len() as int)
}

/// The last `PAGE_SIZE` bytes of `file`, if it holds that many: what
/// opening the file reads.
pub open spec fn last_chunk_if_any(file: Seq<u8>) -> Option<Seq<u8>> {
    if file.len() >= PAGE_SIZE {
        Some(last_chunk(file))
    } else {
        None
    }
}

/// The engine in state `v` agrees with the file `file`: the file is made of
/// whole pages, each of its pages and the current page are made of whole
/// row slots, the current page has room for one more, and either the
/// current page is empty and goes at the end of the file (which happens
/// only when the file is empty or its last page is full), or it is the
/// file's last page.
pub open spec fn consistent(v: DbView, file: Seq<u8>, row_size: nat) -> bool {
    &&& 8 <= row_size <= PAGE_SIZE
    &&& v.file_len == file.len()
    &&& file.len() % (PAGE_SIZE as nat) == 0
    &&& all_rows(v.page, row_size)
    &&& all_pages_rows(file, row_size)
    &&& v.page.len() + v.page_free == PAGE_SIZE
    &&& row_size <= v.page_free
    &&& v.write_offset == file.len() ==> (file.len() == 0 || scan_len(last_chunk(file), row_size)
        + row_size > PAGE_SIZE)
    &&& {
        ||| v.write_offset == file.len() && v.page.len() == 0
        ||| v.write_offset + PAGE_SIZE == file.len() && parse_page(
            chunk(file, file.len() / (PAGE_SIZE as nat) - 1),
            row_size,
        ) == v.page
    }
}

/// Reading one more page adds that page's rows after the others.
pub proof fn lemma_pages_rows_push(pages: Seq<Seq<u8>>, page: Seq<u8>, row_size: nat)
    ensures
        pages_rows(pages.push(page), row_size) == pages_rows(pages, row_size) + decode_rows(
            page,
            row_size,
        ),
{
    let f = |p: Seq<u8>| decode_rows(p, row_size);
    assert(pages.push(page).map_values(f) =~= pages.map_values(f).push(decode_rows(page, row_size)));
    pages.map_values(f).lemma_flatten_push(decode_rows(page, row_size));
}

/// Reading one more page from the end adds that page's rows, last first,
/// after the others.
pub proof fn lemma_pages_rows_reverse_push(pages: Seq<Seq<u8>>, page: Seq<u8>, row_size: nat)
    ensures
        pages_rows_reverse(pages.push(page), row_size) == pages_rows_reverse(pages, row_size)
            + decode_rows(page, row_size).reverse(),
{
    let f = |p: Seq<u8>| decode_rows(p, row_size).reverse();
    assert(pages.push(page).map_values(f) =~= pages.map_values(f).push(
        decode_rows(page, row_size).reverse(),
    ));
    pages.map_values(f).lemma_flatten_push(decode_rows(page, row_size).reverse());
}

/// Splitting a file made of whole pages after its last page leaves whole pages.
proof fn lemma_split_last(file: Seq<u8>)
    requires
        file.len() % (PAGE_SIZE as nat) == 0,
        file.len() >= PAGE_SIZE,
    ensures
        file.take(file.len() - PAGE_SIZE) + chunk(file, file.len() / (PAGE_SIZE as nat) - 1) == file,
        (file.len() - PAGE_SIZE) as nat % (PAGE_SIZE as nat) == 0,
        (file.len() - PAGE_SIZE) as nat / (PAGE_SIZE as nat) == file.len() / (PAGE_SIZE as nat) - 1,
        chunk(file, file.len() / (PAGE_SIZE as nat) - 1) == file.subrange(
            file.len() - PAGE_SIZE,
            file.len() as int,
        ),
{
    let n: nat = file.len() / (PAGE_SIZE as nat);
    assert(file.len() == n * PAGE_SIZE);
    assert((n - 1) * PAGE_SIZE == file.len() - PAGE_SIZE);
    assert(n * PAGE_SIZE == file.len());
    assert(file.take(file.len() - PAGE_SIZE) + chunk(file, n - 1) =~= file);
}

/// A file made of whole pages, with one more page image after it, reads as
/// its pages and then the page that the image holds.
pub proof fn lemma_pages_push(file: Seq<u8>, image: Seq<u8>, row_size: nat)
    requires
        file.len() % (PAGE_SIZE as nat) == 0,
        image.len() == PAGE_SIZE,
    ensures
        file_pages(file + image, row_size) == file_pages(file, row_size).push(
            parse_page(image, row_size),
        ),
        (file + image).len() % (PAGE_SIZE as nat) == 0,
{
    let n: nat = file.len() / (PAGE_SIZE as nat);
    let whole = file + image;
    assert(file.len() == n * PAGE_SIZE);
    assert(whole.len() == (n + 1) * PAGE_SIZE);
    assert(whole.len() / (PAGE_SIZE as nat) == n + 1);
    assert forall|i: int| 0 <= i < n implies chunk(whole, i) == chunk(file, i) by {
        assert(i * PAGE_SIZE + PAGE_SIZE <= n * PAGE_SIZE);
        assert(chunk(whole, i) =~= chunk(file, i));
    }
    assert(chunk(whole, n as int) =~= image);
    assert(file_pages(whole, row_size) =~= file_pages(file, row_size).push(
        parse_page(image, row_size),
    ));
}

/// A fresh engine agrees with an empty file, which holds no rows.
pub proof fn lemma_empty_file(sync_writes: Option<u128>, row_size: nat)
    requires
        8 <= row_size <= PAGE_SIZE,
    ensures
        consistent(opened(0, None, sync_writes, row_size), Seq::empty(), row_size),
        file_rows(Seq::empty(), row_size) == Seq::<Seq<u8>>::empty(),
{
    let empty = Seq::<u8>::empty();
    assert(file_pages(empty, row_size) =~= Seq::<Seq<u8>>::empty());
    assert(file_pages(empty, row_size).map_values(|p: Seq<u8>| decode_rows(p, row_size))
        =~= Seq::<Seq<Seq<u8>>>::empty());
}

/// Opening a file made of whole pages, each made of whole row slots, gives an engine that agrees with the file. The engine
/// resumes the last page when it has room for another slot; when the file
/// is empty or its last page is full, the next page goes at the end of the
/// file.
pub proof fn lemma_open_consistent(file: Seq<u8>, sync_writes: Option<u128>, row_size: nat)
    requires
        8 <= row_size <= PAGE_SIZE,
        file.len() % (PAGE_SIZE as nat) == 0,
        all_pages_rows(file, row_size),
    ensures
        consistent(opened(file.len(), last_chunk_if_any(file), sync_writes, row_size), file, row_size),
        opened(file.len(), last_chunk_if_any(file), sync_writes, row_size).write_offset == file.len()
            <==> (file.len() == 0 || scan_len(last_chunk(file), row_size) + row_size > PAGE_SIZE),
{
    if file.len() >= PAGE_SIZE {
        let last = last_chunk(file);
        lemma_split_last(file);
        lemma_scan_len_bounds(last, row_size);
        assert(file_pages(file, row_size)[file.len() / (PAGE_SIZE as nat) - 1] == parse_page(
            last,
            row_size,
        ));
    } else {
        assert(file.len() == 0) by {
            vstd::arithmetic::div_mod::lemma_small_mod(file.len(), PAGE_SIZE as nat);
        }
    }
}

/// A file that an engine agrees with can be reopened: the engine that opens
/// it agrees with it too, whether its last page is full or not.
pub proof fn lemma_reopen(v: DbView, file: Seq<u8>, sync_writes: Option<u128>, row_size: nat)
    requires
        consistent(v, file, row_size),
    ensures
        consistent(opened(file.len(), last_chunk_if_any(file), sync_writes, row_size), file, row_size),
{
    lemma_open_consistent(file, sync_writes, row_size);
}

/// Every page of a file that an engine agrees with can have its rows read.
pub proof fn lemma_pages_readable(v: DbView, file: Seq<u8>, row_size: nat)
    requires
        consistent(v, file, row_size),
    ensures
        forall|i: int|
            0 <= i < file_pages(file, row_size).len() ==> rows_fit(
                #[trigger] file_pages(file, row_size)[i],
                row_size,
            ),
{
    assert forall|i: int| 0 <= i < file_pages(file, row_size).len() implies rows_fit(
        #[trigger] file_pages(file, row_size)[i],
        row_size,
    ) by {
        lemma_all_rows_fit(file_pages(file, row_size)[i], row_size);
    }
}

/// An insert rewrites only the file's last page: the file stays made of
/// whole pages, grows by one page exactly when the file was empty or its
/// last page was full (which is when the current page goes at the end of
/// the file), and keeps every byte before its new last page.
pub proof fn lemma_insert_rewrites_last_page(
    v: DbView,
    file: Seq<u8>,
    row: Seq<u8>,
    row_size: nat,
)
    requires
        consistent(v, file, row_size),
        8 + row.len() <= row_size,
    ensures
        ({
            let written = apply_write(
                file,
                v.write_offset,
                page_image(v.page + encode_slot(row, row_size)),
            );
            &&& written.len() % (PAGE_SIZE as nat) == 0
            &&& written.len() == file.len() || written.len() == file.len() + PAGE_SIZE
            &&& written.len() == file.len() + PAGE_SIZE <==> v.write_offset == file.len()
            &&& written.len() == file.len() + PAGE_SIZE <==> (file.len() == 0 || scan_len(
                last_chunk(file),
                row_size,
            ) + row_size > PAGE_SIZE)
            &&& written.subrange(0, written.len() - PAGE_SIZE) == file.subrange(
                0,
                written.len() - PAGE_SIZE,
            )
        }),
{
    let filled = v.page + encode_slot(row, row_size);
    lemma_encode_slot(row, row_size);
    let image = page_image(filled);
    let written = apply_write(file, v.write_offset, image);
    assert(written.len() == v.write_offset + PAGE_SIZE);
    if v.write_offset == file.len() && v.page.len() == 0 {
        assert(written =~= file + image);
        assert(written.subrange(0, written.len() - PAGE_SIZE) =~= file);
        lemma_pages_push(file, image, row_size);
    } else {
        lemma_split_last(file);
        lemma_scan_len_bounds(last_chunk(file), row_size);
        assert(parse_page(last_chunk(file), row_size).len() == scan_len(last_chunk(file), row_size));
        let prefix = file.take(file.len() - PAGE_SIZE);
        assert(written =~= prefix + image);
        assert(written.subrange(0, written.len() - PAGE_SIZE) =~= prefix);
        lemma_pages_push(prefix, image, row_size);
    }
}

/// What a read gives back of a write: when the engine agrees with the file,
/// inserting a non-empty row that fits a slot and performing the write that
/// the insert names leaves a file whose rows are the old rows followed by
/// the new one, and the engine after the insert agrees with that file.
pub proof fn lemma_insert_read_back(v: DbView, file: Seq<u8>, row: Seq<u8>, row_size: nat)
    requires
        consistent(v, file, row_size),
        0 < row.len(),
        8 + row.len() <= row_size,
    ensures
        file_rows(
            apply_write(file, v.write_offset, page_image(v.page + encode_slot(row, row_size))),
            row_size,
        ) == file_rows(file, row_size).push(row),
        consistent(
            after_insert(v, row, row_size),
            apply_write(file, v.write_offset, page_image(v.page + encode_slot(row, row_size))),
            row_size,
        ),
{
    let filled = v.page + encode_slot(row, row_size);
    let image = page_image(filled);
    let file2 = apply_write(file, v.write_offset, image);
    lemma_decode_append(v.page, row, row_size);
    lemma_parse_image(filled, row_size);
    let prefix = if v.write_offset == file.len() && v.page.len() == 0 {
        file
    } else {
        file.take(file.len() - PAGE_SIZE)
    };
    if v.write_offset == file.len() && v.page.len() == 0 {
        assert(file2 =~= file + image);
        assert(decode_rows(v.page, row_size) =~= Seq::<Seq<u8>>::empty());
        assert(file_rows(file, row_size) == pages_rows(file_pages(prefix, row_size), row_size));
    } else {
        lemma_split_last(file);
        let last = chunk(file, file.len() / (PAGE_SIZE as nat) - 1);
        assert(file2 =~= prefix + image);
        lemma_pages_push(prefix, last, row_size);
        lemma_pages_rows_push(file_pages(prefix, row_size), v.page, row_size);
    }
    lemma_pages_push(prefix, image, row_size);
    lemma_pages_rows_push(file_pages(prefix, row_size), filled, row_size);
    assert(file_rows(file2, row_size) =~= file_rows(file, row_size).push(row));
    assert forall|i: int| 0 <= i < file_pages(file2, row_size).len() implies all_rows(
        #[trigger] file_pages(file2, row_size)[i],
        row_size,
    ) by {
        if i < file_pages(prefix, row_size).len() {
            assert(file_pages(file2, row_size)[i] == file_pages(prefix, row_size)[i]);
            assert(file_pages(prefix, row_size)[i] == file_pages(file, row_size)[i]);
        }
    }
    let w = after_insert(v, row, row_size);
    let free: nat = (v.page_free - row_size) as nat;
    assert(file2.len() == v.write_offset + PAGE_SIZE);
    if free / row_size == 0 {
        assert(free < row_size) by {
            if free >= row_size {
                vstd::arithmetic::div_mod::lemma_div_is_ordered(
                    row_size as int,
                    free as int,
                    row_size as int,
                );
                vstd::arithmetic::div_mod::lemma_div_by_self(row_size as int);
            }
        }
        lemma_split_last(file2);
        assert(last_chunk(file2) =~= image);
        lemma_scan_padded(filled, (PAGE_SIZE - filled.len()) as nat, row_size);
    } else {
        assert(free >= row_size) by {
            if free < row_size {
                vstd::arithmetic::div_mod::lemma_basic_div(free as int, row_size as int);
            }
        }
        lemma_split_last(file2);
        assert(chunk(file2, file2.len() / (PAGE_SIZE as nat) - 1) =~= image);
    }
    lemma_split_last(file2);
    assert(last_chunk(file2) =~= image);
}

/// The engine state and file after inserting `rows` one after the other,
/// performing each write that an insert names.
pub open spec fn replay(v: DbView, file: Seq<u8>, rows: Seq<Seq<u8>>, row_size: nat) -> (
    DbView,
    Seq<u8>,
)
    decreases rows.len(),
{
    if rows.len() == 0 {
        (v, file)
    } else {
        let written = apply_write(
            file,
            v.write_offset,
            page_image(v.page + encode_slot(rows[0], row_size)),
        );
        replay(after_insert(v, rows[0], row_size), written, rows.drop_first(), row_size)
    }
}

/// Rows inserted one after the other read back, after the rows the file
/// held, in the order they were inserted; the engine keeps agreeing with
/// the file.
pub proof fn lemma_replay_read_back(v: DbView, file: Seq<u8>, rows: Seq<Seq<u8>>, row_size: nat)
    requires
        consistent(v, file, row_size),
        forall|i: int| 0 <= i < rows.len() ==> 0 < #[trigger] rows[i].len() && 8 + rows[i].len() <= row_size,
    ensures
        consistent(replay(v, file, rows, row_size).0, replay(v, file, rows, row_size).1, row_size),
        file_rows(replay(v, file, rows, row_size).1, row_size) == file_rows(file, row_size) + rows,
    decreases rows.len(),
{
    if rows.len() == 0 {
        assert(file_rows(file, row_size) + rows =~= file_rows(file, row_size));
    } else {
        let written = apply_write(
            file,
            v.write_offset,
            page_image(v.page + encode_slot(rows[0], row_size)),
        );
        lemma_insert_read_back(v, file, rows[0], row_size);
        let rest = rows.drop_first();
        assert forall|i: int| 0 <= i < rest.len() implies 0 < #[trigger] rest[i].len() && 8
            + rest[i].len() <= row_size by {
            assert(rest[i] == rows[i + 1]);
        }
        lemma_replay_read_back(after_insert(v, rows[0], row_size), written, rest, row_size);
        assert(file_rows(file, row_size).push(rows[0]) + rest =~= file_rows(file, row_size) + rows);
    }
}

/// Reading a file made of whole pages from its end gives its pages last first.
pub proof fn lemma_pages_reverse(file: Seq<u8>, row_size: nat)
    requires
        file.len() % (PAGE_SIZE as nat) == 0,
    ensures
        file_pages_reverse(file, row_size) == file_pages(file, row_size).reverse(),
{
    let n: nat = file.len() / (PAGE_SIZE as nat);
    assert(file.len() == n * PAGE_SIZE);
    assert forall|k: int| 0 <= k < n implies chunk_from_end(file, k) == chunk(file, n - 1 - k) by {
        assert((n - 1 - k) * PAGE_SIZE == file.len() - (k + 1) * PAGE_SIZE);
        assert((n - 1 - k + 1) * PAGE_SIZE == file.len() - k * PAGE_SIZE);
    }
    assert(file_pages_reverse(file, row_size) =~= file_pages(file, row_size).reverse());
}

/// Reading pages last first, each page's rows last first, gives all their
/// rows last first.
pub proof fn lemma_pages_rows_reverse(pages: Seq<Seq<u8>>, row_size: nat)
    ensures
        pages_rows_reverse(pages.reverse(), row_size) == pages_rows(pages, row_size).reverse(),
    decreases pages.len(),
{
    let f = |p: Seq<u8>| decode_rows(p, row_size).reverse();
    if pages.len() == 0 {
        assert(pages.reverse().map_values(f) =~= Seq::<Seq<Seq<u8>>>::empty());
        assert(pages.map_values(|p: Seq<u8>| decode_rows(p, row_size)) =~= Seq::<
            Seq<Seq<u8>>,
        >::empty());
        assert(pages_rows(pages, row_size).reverse() =~= Seq::<Seq<u8>>::empty());
    } else {
        let init = pages.drop_last();
        let x = pages.last();
        lemma_pages_rows_reverse(init, row_size);
        assert(init.push(x) =~= pages);
        lemma_pages_rows_push(init, x, row_size);
        let mapped = pages.reverse().map_values(f);
        assert(mapped.first() == decode_rows(x, row_size).reverse());
        assert(mapped.drop_first() =~= init.reverse().map_values(f));
        assert(mapped.flatten() == mapped.first() + mapped.drop_first().flatten());
        let a = pages_rows(init, row_size);
        let b = decode_rows(x, row_size);
        assert((a + b).reverse() =~= b.reverse() + a.reverse());
    }
}

/// Reading a file made of whole pages from its end gives its rows last first.
pub proof fn lemma_read_reverse(file: Seq<u8>, row_size: nat)
    requires
        file.len() % (PAGE_SIZE as nat) == 0,
    ensures
        file_rows_reverse(file, row_size) == file_rows(file, row_size).reverse(),
{
    lemma_pages_reverse(file, row_size);
    lemma_pages_rows_reverse(file_pages(file, row_size), row_size);
}

/// A flush is due exactly when there is a flush interval and the whole time
/// since the last flush exceeds it; with no interval no flush is ever due.
/// So with an interval, waiting longer never turns a due flush into one that
/// is not due.
pub proof fn lemma_flush_due(sync_writes: Option<u128>, since_last_sync: u128, later: u128)
    ensures
        sync_writes is None ==> !spec_should_sync(sync_writes, since_last_sync),
        sync_writes matches Some(interval) ==> (spec_should_sync(sync_writes, since_last_sync)
            <==> since_last_sync > interval),
        since_last_sync <= later && spec_should_sync(sync_writes, since_last_sync)
            ==> spec_should_sync(sync_writes, later),
        sync_writes == Some(0u128) ==> (spec_should_sync(sync_writes, since_last_sync)
            <==> since_last_sync != 0),
{
}

/// Opening keeps the flush policy asked for, whatever the file holds, and
/// the file's length.
pub proof fn lemma_open_keeps_policy(
    file_len: nat,
    last_page: Option<Seq<u8>>,
    sync_writes: Option<u128>,
    row_size: nat,
)
    ensures
        opened(file_len, last_page, sync_writes, row_size).sync_writes == sync_writes,
        opened(file_len, last_page, sync_writes, row_size).file_len == file_len,
{
}

/// Inserting never changes the flush policy.
pub proof fn lemma_insert_keeps_policy(v: DbView, row: Seq<u8>, row_size: nat)
    ensures
        after_insert(v, row, row_size).sync_writes == v.sync_writes,
{
}

/// A copy of `len` bytes of `src` from `start`.
fn copy_range(src: &[u8], start: usize, len: usize) -> (out: Vec<u8>)
    requires
        start + len <= src@.len(),
    ensures
        out@ == src@.subrange(start as int, start + len),
{
    let mut out: Vec<u8> = Vec::with_capacity(len);
    let mut i: usize = 0;
    while i < len
        invariant
            start + len <= src.len(),
            out@ == src@.subrange(start as int, start + i),
            i <= len,
        decreases len - i,
    {
        out.push(src[start + i]);
        i = i + 1;
        proof {
            assert(out@ =~= src@.subrange(start as int, start + i));
        }
    }
    out
}

/// The `PAGE_SIZE`-byte image of `page`: its slots, then zeros.
fn image_of<const ROW_SIZE: usize>(page: &Page<ROW_SIZE>) -> (image: Vec<u8>)
    requires
        page.wf(),
    ensures
        image@ == page_image(page@),
{
    proof {
        page.lemma_free();
    }
    let data = page.as_bytes();
    let mut image = copy_range(data, 0, page.len());
    proof {
        assert(image@ =~= page@);
    }
    let pad: usize = PAGE_SIZE - page.len();
    let mut k: usize = 0;
    while k < pad
        invariant
            image@ == page@ + zeros(k as nat),
            k <= pad,
        decreases pad - k,
    {
        image.push(0u8);
        k = k + 1;
        proof {
            assert(page@ + zeros(k as nat) =~= (page@ + zeros((k - 1) as nat)).push(0u8));
        }
    }
    image
}

/// The storage engine's state for rows of `ROW_SIZE`-byte slots.
pub struct Db<const ROW_SIZE: usize> {
    current_page: Page<ROW_SIZE>,
    file_len: u64,
    write_offset: u64,
    sync_writes: Option<u128>,
}

impl<const ROW_SIZE: usize> View for Db<ROW_SIZE> {
    type V = DbView;

    closed spec fn view(&self) -> DbView {
        DbView {
            page: self.current_page@,
            page_free: self.current_page.spec_free(),
            file_len: self.file_len as nat,
            write_offset: self.write_offset as nat,
            sync_writes: self.sync_writes,
        }
    }
}

impl<const ROW_SIZE: usize> Db<ROW_SIZE> {
    /// The current page's bookkeeping agrees with its data.
    pub closed spec fn wf(&self) -> bool {
        self.current_page.wf()
    }

    /// A well-formed engine's page fits in a page.
    pub proof fn lemma_wf(&self)
        requires
            self.wf(),
        ensures
            self@.page.len() + self@.page_free == PAGE_SIZE,
    {
        self.current_page.lemma_free();
    }

    /// Where the last page of a file of `file_len` bytes starts, if the file
    /// holds a whole page; opening resumes that page.
    pub fn last_page_offset(file_len: u64) -> (offset: Option<u64>)
        ensures
            offset == if file_len >= PAGE_SIZE {
                Some((file_len - PAGE_SIZE) as u64)
            } else {
                None
            },
    {
        if file_len >= PAGE_SIZE as u64 {
            Some(file_len - PAGE_SIZE as u64)
        } else {
            None
        }
    }

    /// The engine for a file of `file_len` bytes whose last `PAGE_SIZE`
    /// bytes are `last_page` (when the file holds that many): it resumes that
    /// page in place when it has room for another slot, and otherwise starts
    /// an empty page at the end of the file.
    pub fn open(file_len: u64, last_page: Option<Vec<u8>>, sync_writes: Option<u128>) -> (db: Self)
        requires
            8 <= ROW_SIZE,
            last_page is Some <==> file_len >= PAGE_SIZE,
            last_page matches Some(b) ==> b@.len() == PAGE_SIZE,
        ensures
            db.wf(),
            db@ == opened(file_len as nat, bytes_view(last_page), sync_writes, ROW_SIZE as nat),
            db@.sync_writes == sync_writes,
            db@.file_len == file_len,
    {
        match last_page {
            Some(bytes) => {
                proof {
                    lemma_scan_len_bounds(bytes@, ROW_SIZE as nat);
                }
                let current_page = Page::from_bytes(bytes);
                proof {
                    current_page.lemma_free();
                }
                if current_page.available_space() < ROW_SIZE {
                    Db { current_page: Page::new(), file_len, write_offset: file_len, sync_writes }
                } else {
                    Db {
                        current_page,
                        file_len,
                        write_offset: file_len - PAGE_SIZE as u64,
                        sync_writes,
                    }
                }
            },
            None => Db { current_page: Page::new(), file_len, write_offset: file_len, sync_writes },
        }
    }

    /// The default builder: flush after every write.
    pub fn builder() -> (builder: Builder)
        ensures
            builder@ == Some(0u128),
    {
        Builder::default()
    }

    /// Whether a row of `row_len` encoded bytes can be inserted now: it fits
    /// a slot with its length prefix, the current page has room for a slot,
    /// and the page's write position is representable.
    pub fn can_insert(&self, row_len: usize) -> (ok: bool)
        requires
            self.wf(),
        ensures
            ok == (8 + row_len <= ROW_SIZE && ROW_SIZE <= self@.page_free && self@.write_offset
                + PAGE_SIZE <= u64::MAX),
    {
        row_len <= ROW_SIZE && 8 <= ROW_SIZE - row_len && ROW_SIZE <= self.current_page.available_space()
            && self.write_offset <= u64::MAX - PAGE_SIZE as u64
    }

    /// The flush interval in nanoseconds; `None` never flushes.
    pub fn sync_writes(&self) -> (s: Option<u128>)
        ensures
            s == self@.sync_writes,
    {
        self.sync_writes
    }

    /// Whether a flush is due after a write, `since_last_sync` nanoseconds
    /// after the last flush.
    pub fn should_sync(&self, since_last_sync: u128) -> (sync: bool)
        ensures
            sync == spec_should_sync(self@.sync_writes, since_last_sync),
            sync <==> (self@.sync_writes matches Some(interval) && since_last_sync > interval),
    {
        match self.sync_writes {
            Some(interval) => since_last_sync > interval,
            None => false,
        }
    }

    /// Puts `row` in the current page and names the write that stores the
    /// page: its `PAGE_SIZE`-byte image at the write position. A page left
    /// with no room is then replaced by an empty page that goes after it;
    /// otherwise the write position goes back to the last page of the file,
    /// which the next insert rewrites.
    pub fn insert(&mut self, row: &[u8]) -> (write: PageWrite)
        requires
            old(self).wf(),
            8 + row@.len() <= ROW_SIZE,
            ROW_SIZE <= old(self)@.page_free,
            old(self)@.write_offset + PAGE_SIZE <= u64::MAX,
        ensures
            final(self).wf(),
            write.offset == old(self)@.write_offset,
            write.bytes@ == page_image(old(self)@.page + encode_slot(row@, ROW_SIZE as nat)),
            final(self)@ == after_insert(old(self)@, row@, ROW_SIZE as nat),
    {
        self.current_page.insert(row);
        let bytes = image_of(&self.current_page);
        let offset: u64 = self.write_offset;
        let written_end: u64 = offset + PAGE_SIZE as u64;
        if written_end > self.file_len {
            self.file_len = written_end;
        }
        if self.current_page.available_rows() == 0 {
            self.current_page = Page::new();
            self.write_offset = written_end;
        } else {
            self.write_offset = self.file_len - PAGE_SIZE as u64;
        }
        PageWrite { offset, bytes }
    }

    /// The pages of the file `file`, one per whole `PAGE_SIZE` chunk, from the first.
    pub fn pages(file: &[u8]) -> (pages: Vec<Page<ROW_SIZE>>)
        requires
            8 <= ROW_SIZE,
        ensures
            pages@.len() == file@.len() / (PAGE_SIZE as nat),
            forall|i: int| 0 <= i < pages@.len() ==> #[trigger] pages@[i].wf(),
            pages@.map_values(|p: Page<ROW_SIZE>| p@) == file_pages(file@, ROW_SIZE as nat),
    {
        let mut pages: Vec<Page<ROW_SIZE>> = Vec::new();
        let mut cursor: usize = 0;
        while cursor < file.len() / PAGE_SIZE
            invariant
                8 <= ROW_SIZE,
                cursor <= file@.len() / (PAGE_SIZE as nat),
                pages@.len() == cursor,
                forall|i: int| 0 <= i < pages@.len() ==> #[trigger] pages@[i].wf(),
                pages@.map_values(|p: Page<ROW_SIZE>| p@) == file_pages(file@, ROW_SIZE as nat).take(
                    cursor as int,
                ),
            decreases file@.len() / (PAGE_SIZE as nat) - cursor,
        {
            let bytes = copy_range(file, cursor * PAGE_SIZE, PAGE_SIZE);
            proof {
                lemma_scan_len_bounds(bytes@, ROW_SIZE as nat);
            }
            let page = Page::from_bytes(bytes);
            let ghost before = pages@;
            pages.push(page);
            cursor = cursor + 1;
            proof {
                assert(pages@.map_values(|p: Page<ROW_SIZE>| p@) =~= file_pages(
                    file@,
                    ROW_SIZE as nat,
                ).take(cursor as int));
            }
        }
        proof {
            assert(file_pages(file@, ROW_SIZE as nat).take(cursor as int) =~= file_pages(
                file@,
                ROW_SIZE as nat,
            ));
        }
        pages
    }

    /// The pages of the file `file`, one per whole `PAGE_SIZE` chunk counted
    /// from the end of the file, from the last.
    pub fn pages_reverse(file: &[u8]) -> (pages: Vec<Page<ROW_SIZE>>)
        requires
            8 <= ROW_SIZE,
        ensures
            pages@.len() == file@.len() / (PAGE_SIZE as nat),
            forall|i: int| 0 <= i < pages@.len() ==> #[trigger] pages@[i].wf(),
            pages@.map_values(|p: Page<ROW_SIZE>| p@) == file_pages_reverse(file@, ROW_SIZE as nat),
    {
        let mut pages: Vec<Page<ROW_SIZE>> = Vec::new();
        let mut cursor: usize = 0;
        while cursor < file.len() / PAGE_SIZE
            invariant
                8 <= ROW_SIZE,
                cursor <= file@.len() / (PAGE_SIZE as nat),
                pages@.len() == cursor,
                forall|i: int| 0 <= i < pages@.len() ==> #[trigger] pages@[i].wf(),
                pages@.map_values(|p: Page<ROW_SIZE>| p@) == file_pages_reverse(
                    file@,
                    ROW_SIZE as nat,
                ).take(cursor as int),
            decreases file@.len() / (PAGE_SIZE as nat) - cursor,
        {
            let start: usize = file.len() - (cursor + 1) * PAGE_SIZE;
            let bytes = copy_range(file, start, PAGE_SIZE);
            proof {
                lemma_scan_len_bounds(bytes@, ROW_SIZE as nat);
                assert(bytes@ =~= chunk_from_end(file@, cursor as int));
            }
            let page = Page::from_bytes(bytes);
            pages.push(page);
            cursor = cursor + 1;
            proof {
                assert(pages@.map_values(|p: Page<ROW_SIZE>| p@) =~= file_pages_reverse(
                    file@,
                    ROW_SIZE as nat,
                ).take(cursor as int));
            }
        }
        proof {
            assert(file_pages_reverse(file@, ROW_SIZE as nat).take(cursor as int) =~= file_pages_reverse(
                file@,
                ROW_SIZE as nat,
            ));
        }
        pages
    }

    /// The rows of `pages`, page after page, in the order they were written.
    pub fn rows(pages: &Vec<Page<ROW_SIZE>>) -> (rows: Vec<Vec<u8>>)
        requires
            8 <= ROW_SIZE,
            forall|i: int| 0 <= i < pages@.len() ==> rows_fit(#[trigger] pages@[i]@, ROW_SIZE as nat),
        ensures
            row_views(rows@) == pages_rows(
                pages@.map_values(|p: Page<ROW_SIZE>| p@),
                ROW_SIZE as nat,
            ),
    {
        let ghost views = pages@.map_values(|p: Page<ROW_SIZE>| p@);
        let mut rows: Vec<Vec<u8>> = Vec::new();
        let mut i: usize = 0;
        proof {
            assert(views.take(0).map_values(|p: Seq<u8>| decode_rows(p, ROW_SIZE as nat))
                =~= Seq::<Seq<Seq<u8>>>::empty());
            assert(row_views(rows@) =~= Seq::<Seq<u8>>::empty());
        }
        while i < pages.len()
            invariant
                8 <= ROW_SIZE,
                views == pages@.map_values(|p: Page<ROW_SIZE>| p@),
                forall|k: int| 0 <= k < pages@.len() ==> rows_fit(#[trigger] pages@[k]@, ROW_SIZE as nat),
                i <= pages@.len(),
                row_views(rows@) == pages_rows(views.take(i as int), ROW_SIZE as nat),
            decreases pages@.len() - i,
        {
            let mut page_rows = pages[i].rows();
            let ghost before = rows@;
            let ghost added = page_rows@;
            rows.append(&mut page_rows);
            proof {
                lemma_pages_rows_push(views.take(i as int), views[i as int], ROW_SIZE as nat);
                assert(views.take(i + 1) =~= views.take(i as int).push(views[i as int]));
                assert(row_views(rows@) =~= row_views(before) + row_views(added));
            }
            i = i + 1;
        }
        proof {
            assert(views.take(i as int) =~= views);
        }
        rows
    }

    /// The rows of `pages`, page after page, each page's rows last first.
    pub fn rows_reverse(pages: &Vec<Page<ROW_SIZE>>) -> (rows: Vec<Vec<u8>>)
        requires
            8 <= ROW_SIZE,
            forall|i: int| 0 <= i < pages@.len() ==> rows_fit(#[trigger] pages@[i]@, ROW_SIZE as nat),
        ensures
            row_views(rows@) == pages_rows_reverse(
                pages@.map_values(|p: Page<ROW_SIZE>| p@),
                ROW_SIZE as nat,
            ),
    {
        let ghost views = pages@.map_values(|p: Page<ROW_SIZE>| p@);
        let mut rows: Vec<Vec<u8>> = Vec::new();
        let mut i: usize = 0;
        proof {
            assert(views.take(0).map_values(
                |p: Seq<u8>| decode_rows(p, ROW_SIZE as nat).reverse(),
            ) =~= Seq::<Seq<Seq<u8>>>::empty());
            assert(row_views(rows@) =~= Seq::<Seq<u8>>::empty());
        }
        while i < pages.len()
            invariant
                8 <= ROW_SIZE,
                views == pages@.map_values(|p: Page<ROW_SIZE>| p@),
                forall|k: int| 0 <= k < pages@.len() ==> rows_fit(#[trigger] pages@[k]@, ROW_SIZE as nat),
                i <= pages@.len(),
                row_views(rows@) == pages_rows_reverse(views.take(i as int), ROW_SIZE as nat),
            decreases pages@.len() - i,
        {
            let mut page_rows = pages[i].rows();
            let ghost forward = row_views(page_rows@);
            let ghost before = rows@;
            let mut j: usize = page_rows.len();
            while j > 0
                invariant
                    j <= page_rows@.len(),
                    row_views(page_rows@) == forward,
                    row_views(rows@) == row_views(before) + forward.subrange(
                        j as int,
                        forward.len() as int,
                    ).reverse(),
                decreases j,
            {
                j = j - 1;
                let row = page_rows[j].clone();
                let ghost prev = rows@;
                rows.push(row);
                proof {
                    assert(row@ == forward[j as int]);
                    assert(row_views(rows@) =~= row_views(prev).push(forward[j as int]));
                    assert(forward.subrange(j as int, forward.len() as int).reverse() =~= forward.subrange(
                        j + 1,
                        forward.len() as int,
                    ).reverse().push(forward[j as int]));
                }
            }
            proof {
                lemma_pages_rows_reverse_push(views.take(i as int), views[i as int], ROW_SIZE as nat);
                assert(views.take(i + 1) =~= views.take(i as int).push(views[i as int]));
                assert(forward.subrange(0, forward.len() as int) =~= forward);
            }
            i = i + 1;
        }
        proof {
            assert(views.take(i as int) =~= views);
        }
        rows
    }
}

} // verus!
