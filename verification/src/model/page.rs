//! A page: a `PAGE_SIZE`-byte buffer cut into `ROW_SIZE`-byte slots.
//!
//! Every slot holds one row: an 8-byte big-endian length, the row's encoded
//! bytes, and zeros up to `ROW_SIZE`. When a page is read back from its
//! stored bytes, and when its rows are read, the first slot whose length
//! prefix is zero ends its data.
use crate::model::be_bytes::{
    lemma_be_bytes_roundtrip, lemma_be_bytes_zero, spec_u64_from_be_bytes, spec_u64_to_be_bytes,
    u64_from_be_bytes_at, u64_to_be_bytes,
};
use vstd::prelude::*;

verus! {

/// The size in bytes of a page, in memory and on disk.
pub const PAGE_SIZE: usize = 4096;

/// The length that the 8-byte prefix at the start of `slot` declares.
pub open spec fn slot_len(slot: Seq<u8>) -> u64 {
    spec_u64_from_be_bytes(slot)
}

/// A slot at the start of `slot` holds a row: its declared length is not
/// zero and fits, with the prefix, in `row_size` bytes.
pub open spec fn slot_is_row(slot: Seq<u8>, row_size: nat) -> bool {
    &&& slot.len() >= row_size
    &&& slot_len(slot) != 0
    &&& slot_len(slot) + 8 <= row_size
}

/// The row bytes held by the slot at the start of `slot`.
pub open spec fn slot_payload(slot: Seq<u8>) -> Seq<u8> {
    slot.subrange(8, 8 + slot_len(slot))
}

/// The bytes of each row in `rows`.
pub open spec fn row_views(rows: Seq<Vec<u8>>) -> Seq<Seq<u8>> {
    rows.map_values(|r: Vec<u8>| r@)
}

/// `n` zero bytes.
pub open spec fn zeros(n: nat) -> Seq<u8> {
    Seq::new(n, |_i: int| 0u8)
}

/// The slot that holds `row`: its length, its bytes, and zeros up to `row_size`.
pub open spec fn encode_slot(row: Seq<u8>, row_size: nat) -> Seq<u8> {
    spec_u64_to_be_bytes(row.len() as u64) + row + zeros((row_size - 8 - row.len()) as nat)
}

/// The rows held by the whole slots of `data`, in order, up to the first
/// slot whose length prefix is zero: each row is the declared number of
/// bytes after its slot's prefix.
pub open spec fn decode_rows(data: Seq<u8>, row_size: nat) -> Seq<Seq<u8>>
    decreases data.len(),
{
    if row_size < 8 || data.len() < row_size || slot_len(data) == 0 {
        Seq::empty()
    } else {
        seq![slot_payload(data)] + decode_rows(data.skip(row_size as int), row_size)
    }
}

/// Every row that `decode_rows` reads from `data` lies within `data`.
pub open spec fn rows_fit(data: Seq<u8>, row_size: nat) -> bool
    decreases data.len(),
{
    if row_size < 8 || data.len() < row_size || slot_len(data) == 0 {
        true
    } else {
        8 + slot_len(data) <= data.len() && rows_fit(data.skip(row_size as int), row_size)
    }
}

/// Every slot of `data` holds a row, and `data` ends on a slot boundary.
pub open spec fn all_rows(data: Seq<u8>, row_size: nat) -> bool
    decreases data.len(),
{
    if data.len() == 0 {
        true
    } else if row_size < 8 || !slot_is_row(data, row_size) {
        false
    } else {
        all_rows(data.skip(row_size as int), row_size)
    }
}

/// How many leading bytes of `buf` are taken up by whole slots whose length
/// prefix is not zero.
pub open spec fn scan_len(buf: Seq<u8>, row_size: nat) -> nat
    decreases buf.len(),
{
    if row_size < 8 || buf.len() < row_size || slot_len(buf) == 0 {
        0
    } else {
        row_size + scan_len(buf.skip(row_size as int), row_size)
    }
}

/// The page data found in `buf`: its leading slots whose length prefix is not zero.
pub open spec fn parse_page(buf: Seq<u8>, row_size: nat) -> Seq<u8> {
    buf.take(scan_len(buf, row_size) as int)
}

/// The `PAGE_SIZE` bytes by which a page with data `data` is stored: the
/// data, then zeros.
pub open spec fn page_image(data: Seq<u8>) -> Seq<u8> {
    data + zeros((PAGE_SIZE - data.len()) as nat)
}

/// The scanned prefix is no longer than the buffer and ends on a slot boundary.
pub proof fn lemma_scan_len_bounds(buf: Seq<u8>, row_size: nat)
    ensures
        scan_len(buf, row_size) <= buf.len(),
        row_size > 0 ==> scan_len(buf, row_size) % row_size == 0,
    decreases buf.len(),
{
    if row_size < 8 || buf.len() < row_size || slot_len(buf) == 0 {
        if row_size > 0 {
            vstd::arithmetic::div_mod::lemma_small_mod(0, row_size);
        }
    } else {
        lemma_scan_len_bounds(buf.skip(row_size as int), row_size);
        let rest: nat = scan_len(buf.skip(row_size as int), row_size);
        vstd::arithmetic::div_mod::lemma_mod_add_multiples_vanish(rest as int, row_size as int);
    }
}

/// The first eight bytes of a sequence decide its length prefix.
pub proof fn lemma_slot_len_prefix(a: Seq<u8>, b: Seq<u8>)
    requires
        a.len() >= 8,
        b.len() >= 8,
        forall|i: int| 0 <= i < 8 ==> a[i] == b[i],
    ensures
        slot_len(a) == slot_len(b),
{
    assert(a[0] == b[0] && a[1] == b[1] && a[2] == b[2] && a[3] == b[3]);
    assert(a[4] == b[4] && a[5] == b[5] && a[6] == b[6] && a[7] == b[7]);
}

/// The slot that encodes `row` holds `row`.
pub proof fn lemma_encode_slot(row: Seq<u8>, row_size: nat)
    requires
        8 + row.len() <= row_size,
        row_size <= u64::MAX,
    ensures
        encode_slot(row, row_size).len() == row_size,
        slot_len(encode_slot(row, row_size)) == row.len(),
        slot_payload(encode_slot(row, row_size)) == row,
{
    let s = encode_slot(row, row_size);
    let p = spec_u64_to_be_bytes(row.len() as u64);
    lemma_be_bytes_roundtrip(row.len() as u64);
    lemma_slot_len_prefix(s, p);
    assert(slot_len(s) == row.len());
    assert(slot_payload(s) =~= row);
}

/// Appending the slot of a non-empty row that fits to data made of whole
/// row slots adds that row, and only it, to the rows read back.
pub proof fn lemma_decode_append(data: Seq<u8>, row: Seq<u8>, row_size: nat)
    requires
        8 <= row_size <= u64::MAX,
        all_rows(data, row_size),
        0 < row.len(),
        8 + row.len() <= row_size,
    ensures
        decode_rows(data + encode_slot(row, row_size), row_size) == decode_rows(data, row_size).push(
            row,
        ),
        all_rows(data + encode_slot(row, row_size), row_size),
    decreases data.len(),
{
    let s = encode_slot(row, row_size);
    lemma_encode_slot(row, row_size);
    if data.len() == 0 {
        assert(data + s =~= s);
        assert(s.skip(row_size as int) =~= Seq::<u8>::empty());
        assert(decode_rows(s.skip(row_size as int), row_size) =~= Seq::<Seq<u8>>::empty());
        assert(all_rows(s.skip(row_size as int), row_size));
        assert(decode_rows(s, row_size) =~= seq![row]);
    } else {
        let rest = data.skip(row_size as int);
        lemma_decode_append(rest, row, row_size);
        let whole = data + s;
        lemma_slot_len_prefix(whole, data);
        assert(whole.skip(row_size as int) =~= rest + s);
        assert(slot_payload(whole) =~= slot_payload(data));
        assert(decode_rows(whole, row_size) =~= seq![slot_payload(data)] + decode_rows(
            rest + s,
            row_size,
        ));
        assert(decode_rows(data, row_size) =~= seq![slot_payload(data)] + decode_rows(
            rest,
            row_size,
        ));
    }
}

/// Data made of whole row slots, stored padded with zeros, scans back to itself.
pub proof fn lemma_scan_padded(data: Seq<u8>, pad: nat, row_size: nat)
    requires
        row_size >= 8,
        all_rows(data, row_size),
    ensures
        scan_len(data + zeros(pad), row_size) == data.len(),
    decreases data.len(),
{
    let whole = data + zeros(pad);
    if data.len() == 0 {
        assert(whole =~= zeros(pad));
        if whole.len() >= row_size {
            lemma_be_bytes_zero(whole);
        }
    } else {
        let rest = data.skip(row_size as int);
        lemma_scan_padded(rest, pad, row_size);
        lemma_slot_len_prefix(whole, data);
        assert(whole.skip(row_size as int) =~= rest + zeros(pad));
    }
}

/// The rows of data made of whole row slots lie within it.
pub proof fn lemma_all_rows_fit(data: Seq<u8>, row_size: nat)
    requires
        all_rows(data, row_size),
    ensures
        rows_fit(data, row_size),
    decreases data.len(),
{
    if data.len() > 0 {
        lemma_all_rows_fit(data.skip(row_size as int), row_size);
    }
}

/// A page stored as its `PAGE_SIZE`-byte image parses back to the same data.
pub proof fn lemma_parse_image(data: Seq<u8>, row_size: nat)
    requires
        row_size >= 8,
        all_rows(data, row_size),
        data.len() <= PAGE_SIZE,
    ensures
        page_image(data).len() == PAGE_SIZE,
        parse_page(page_image(data), row_size) == data,
{
    lemma_scan_padded(data, (PAGE_SIZE - data.len()) as nat, row_size);
    assert(parse_page(page_image(data), row_size) =~= data);
}

/// Each insert into a page with room for it leaves room for one row less.
pub proof fn lemma_available_rows_after_insert(free: nat, row_size: nat)
    requires
        0 < row_size <= free,
    ensures
        (free - row_size) as nat / row_size == free / row_size - 1,
{
    vstd::arithmetic::div_mod::lemma_div_plus_one((free - row_size) as int, row_size as int);
}

/// A page: the slots written so far, and the space left for more.
pub struct Page<const ROW_SIZE: usize> {
    data: Vec<u8>,
    free: usize,
}

impl<const ROW_SIZE: usize> View for Page<ROW_SIZE> {
    type V = Seq<u8>;

    /// The bytes of the slots written so far.
    closed spec fn view(&self) -> Seq<u8> {
        self.data@
    }
}

impl<const ROW_SIZE: usize> Page<ROW_SIZE> {
    /// The page's bookkeeping agrees with its data: the free space is what
    /// the data leaves of `PAGE_SIZE`.
    pub closed spec fn wf(&self) -> bool {
        self.data@.len() + self.free == PAGE_SIZE
    }

    /// The number of bytes still free in the page.
    pub closed spec fn spec_free(&self) -> nat {
        self.free as nat
    }

    /// The rows that the page holds.
    pub open spec fn spec_rows(&self) -> Seq<Seq<u8>> {
        decode_rows(self@, ROW_SIZE as nat)
    }

    /// The free space of a well-formed page is what its data leaves.
    pub proof fn lemma_free(&self)
        requires
            self.wf(),
        ensures
            self@.len() + self.spec_free() == PAGE_SIZE,
    {
    }

    /// An empty page.
    pub fn new() -> (page: Self)
        ensures
            page.wf(),
            page@ == Seq::<u8>::empty(),
            page.spec_free() == PAGE_SIZE,
    {
        Self { data: Vec::with_capacity(PAGE_SIZE), free: PAGE_SIZE }
    }

    /// The page stored in `data`: its leading slots up to the first one whose
    /// length prefix is zero, or that does not fit whole in `data`.
    pub fn from_bytes(data: Vec<u8>) -> (page: Self)
        requires
            8 <= ROW_SIZE,
            scan_len(data@, ROW_SIZE as nat) <= PAGE_SIZE,
        ensures
            page.wf(),
            page@ == parse_page(data@, ROW_SIZE as nat),
    {
        let mut data = data;
        let ghost buf = data@;
        let mut offset: usize = 0;
        proof {
            lemma_scan_len_bounds(buf, ROW_SIZE as nat);
            assert(buf.skip(0) =~= buf);
        }
        while ROW_SIZE <= data.len() - offset && u64_from_be_bytes_at(data.as_slice(), offset) != 0
            invariant
                8 <= ROW_SIZE,
                data@ == buf,
                offset <= buf.len(),
                offset + scan_len(buf.skip(offset as int), ROW_SIZE as nat) == scan_len(
                    buf,
                    ROW_SIZE as nat,
                ),
                scan_len(buf, ROW_SIZE as nat) <= PAGE_SIZE,
            ensures
                offset == scan_len(buf, ROW_SIZE as nat),
            decreases buf.len() - offset,
        {
            let ghost rest = buf.skip(offset as int);
            proof {
                lemma_slot_len_prefix(buf.subrange(offset as int, offset + 8), rest);
                assert(rest.skip(ROW_SIZE as int) =~= buf.skip(offset + ROW_SIZE));
            }
            offset = offset + ROW_SIZE;
        }
        proof {
            let rest = buf.skip(offset as int);
            if ROW_SIZE <= buf.len() - offset {
                lemma_slot_len_prefix(buf.subrange(offset as int, offset + 8), rest);
            }
        }
        data.truncate(offset);
        Self { data, free: PAGE_SIZE - offset }
    }

    /// Writes `row` into the next free slot: its length as 8 big-endian bytes,
    /// its bytes, and zeros up to `ROW_SIZE`.
    pub fn insert(&mut self, row: &[u8])
        requires
            old(self).wf(),
            8 + row@.len() <= ROW_SIZE,
            ROW_SIZE <= old(self).spec_free(),
        ensures
            final(self).wf(),
            final(self)@ == old(self)@ + encode_slot(row@, ROW_SIZE as nat),
            final(self).spec_free() == old(self).spec_free() - ROW_SIZE,
            all_rows(old(self)@, ROW_SIZE as nat) && row@.len() > 0 ==> {
                &&& all_rows(final(self)@, ROW_SIZE as nat)
                &&& final(self).spec_rows() == old(self).spec_rows().push(row@)
            },
    {
        let ghost start = self.data@;
        let ghost free0 = self.free;
        proof {
            lemma_encode_slot(row@, ROW_SIZE as nat);
        }
        let size = u64_to_be_bytes(row.len() as u64);
        let mut i: usize = 0;
        while i < 8
            invariant
                size@ == spec_u64_to_be_bytes(row@.len() as u64),
                self.data@ == start + size@.take(i as int),
                self.free == free0,
                i <= 8,
            decreases 8 - i,
        {
            self.data.push(size[i]);
            i = i + 1;
            proof {
                assert(size@.take(i as int) =~= size@.take(i - 1).push(size@[i - 1]));
            }
        }
        let ghost with_size = self.data@;
        let mut j: usize = 0;
        while j < row.len()
            invariant
                self.data@ == with_size + row@.take(j as int),
                self.free == free0,
                j <= row@.len(),
            decreases row@.len() - j,
        {
            self.data.push(row[j]);
            j = j + 1;
            proof {
                assert(row@.take(j as int) =~= row@.take(j - 1).push(row@[j - 1]));
            }
        }
        let ghost with_row = self.data@;
        let pad: usize = ROW_SIZE - (row.len() + 8);
        let mut k: usize = 0;
        while k < pad
            invariant
                self.data@ == with_row + zeros(k as nat),
                self.free == free0,
                k <= pad,
            decreases pad - k,
        {
            self.data.push(0u8);
            k = k + 1;
            proof {
                assert(zeros(k as nat) =~= zeros((k - 1) as nat).push(0u8));
            }
        }
        proof {
            assert(size@.take(8) =~= size@);
            assert(row@.take(row@.len() as int) =~= row@);
            assert(self.data@ =~= start + encode_slot(row@, ROW_SIZE as nat));
            if all_rows(start, ROW_SIZE as nat) && row@.len() > 0 {
                lemma_decode_append(start, row@, ROW_SIZE as nat);
            }
        }
        self.free = self.free - ROW_SIZE;
    }

    /// How many more rows fit in the page.
    pub fn available_rows(&self) -> (n: usize)
        requires
            self.wf(),
            ROW_SIZE > 0,
        ensures
            n == (PAGE_SIZE - self@.len()) / (ROW_SIZE as int),
            n == self.spec_free() / (ROW_SIZE as nat),
    {
        (PAGE_SIZE - self.data.len()) / ROW_SIZE
    }

    /// How many bytes of the page are still free.
    pub fn available_space(&self) -> (n: usize)
        requires
            self.wf(),
        ensures
            n == self.spec_free(),
            n == PAGE_SIZE - self@.len(),
    {
        self.free
    }

    /// How many bytes of the page the written slots take up.
    pub fn len(&self) -> (n: usize)
        ensures
            n == self@.len(),
    {
        self.data.len()
    }

    /// The bytes of the written slots.
    pub fn as_bytes(&self) -> (bytes: &[u8])
        ensures
            bytes@ == self@,
    {
        self.data.as_slice()
    }

    /// Whether every row that the page's slots declare lies within the
    /// page's data, so that `rows` can read them.
    pub fn rows_fit(&self) -> (fit: bool)
        requires
            8 <= ROW_SIZE,
        ensures
            fit == rows_fit(self@, ROW_SIZE as nat),
    {
        let mut offset: usize = 0;
        let ghost data = self.data@;
        proof {
            assert(data.skip(0) =~= data);
            assert(data.len() == self.data.len());
        }
        loop
            invariant
                8 <= ROW_SIZE,
                data == self.data@,
                data.len() <= usize::MAX,
                offset <= data.len(),
                rows_fit(data, ROW_SIZE as nat) == rows_fit(data.skip(offset as int), ROW_SIZE as nat),
            decreases data.len() - offset,
        {
            let ghost rest = data.skip(offset as int);
            if ROW_SIZE > self.data.len() - offset {
                return true;
            }
            let len: u64 = u64_from_be_bytes_at(self.data.as_slice(), offset);
            proof {
                lemma_slot_len_prefix(data.subrange(offset as int, offset + 8), rest);
            }
            if len == 0 {
                return true;
            }
            if len > (self.data.len() - offset - 8) as u64 {
                return false;
            }
            proof {
                assert(rest.skip(ROW_SIZE as int) =~= data.skip(offset + ROW_SIZE));
            }
            offset = offset + ROW_SIZE;
        }
    }

    /// The rows that the page holds, in the order they were written.
    pub fn rows(&self) -> (rows: Vec<Vec<u8>>)
        requires
            8 <= ROW_SIZE,
            rows_fit(self@, ROW_SIZE as nat),
        ensures
            row_views(rows@) == self.spec_rows(),
    {
        let mut rows: Vec<Vec<u8>> = Vec::new();
        let mut offset: usize = 0;
        let ghost data = self.data@;
        proof {
            assert(data.skip(0) =~= data);
            assert(row_views(rows@) =~= Seq::<Seq<u8>>::empty());
            assert(data.len() == self.data.len());
        }
        loop
            invariant
                8 <= ROW_SIZE,
                data == self.data@,
                data.len() <= usize::MAX,
                offset <= data.len(),
                rows_fit(data.skip(offset as int), ROW_SIZE as nat),
                row_views(rows@) + decode_rows(data.skip(offset as int), ROW_SIZE as nat)
                    == decode_rows(data, ROW_SIZE as nat),
            ensures
                row_views(rows@) == decode_rows(data, ROW_SIZE as nat),
            decreases data.len() - offset,
        {
            let ghost rest = data.skip(offset as int);
            if ROW_SIZE > self.data.len() - offset {
                proof {
                    assert(decode_rows(rest, ROW_SIZE as nat) =~= Seq::<Seq<u8>>::empty());
                    assert(row_views(rows@) + Seq::<Seq<u8>>::empty() =~= row_views(rows@));
                }
                break;
            }
            let len: u64 = u64_from_be_bytes_at(self.data.as_slice(), offset);
            proof {
                lemma_slot_len_prefix(data.subrange(offset as int, offset + 8), rest);
            }
            if len == 0 {
                proof {
                    assert(decode_rows(rest, ROW_SIZE as nat) =~= Seq::<Seq<u8>>::empty());
                    assert(row_views(rows@) + Seq::<Seq<u8>>::empty() =~= row_views(rows@));
                }
                break;
            }
            let len: usize = len as usize;
            assert(offset + 8 + len <= data.len());
            proof {
                assert(rest.skip(ROW_SIZE as int) =~= data.skip(offset + ROW_SIZE));
            }
            let mut row: Vec<u8> = Vec::with_capacity(len);
            let mut i: usize = 0;
            while i < len
                invariant
                    data == self.data@,
                    data.len() <= usize::MAX,
                    offset + 8 + len <= data.len(),
                    row@ == data.subrange(offset + 8, offset + 8 + i),
                    i <= len,
                decreases len - i,
            {
                row.push(self.data[offset + 8 + i]);
                i = i + 1;
                proof {
                    assert(row@ =~= data.subrange(offset + 8, offset + 8 + i));
                }
            }
            proof {
                assert(row@ =~= slot_payload(rest));
                assert(rest.skip(ROW_SIZE as int) =~= data.skip(offset + ROW_SIZE));
                assert(decode_rows(rest, ROW_SIZE as nat) == seq![slot_payload(rest)] + decode_rows(
                    data.skip(offset + ROW_SIZE),
                    ROW_SIZE as nat,
                ));
            }
            let ghost before = row_views(rows@);
            rows.push(row);
            proof {
                assert(row_views(rows@) =~= before.push(slot_payload(rest)));
                assert(row_views(rows@) + decode_rows(data.skip(offset + ROW_SIZE), ROW_SIZE as nat)
                    =~= before + (seq![slot_payload(rest)] + decode_rows(
                    data.skip(offset + ROW_SIZE),
                    ROW_SIZE as nat,
                )));
            }
            offset = offset + ROW_SIZE;
        }
        rows
    }
}

} // verus!
