//! Intel HEX records: how the bytes of a loadable segment are cut into records,
//! and what a list of records means as a memory image.

use vstd::prelude::*;
use vstd::slice::{slice_subrange, slice_to_vec};

verus! {

/// The number of addresses that an Intel HEX object file can reach.
pub const ADDRESS_SPACE: u64 = 0x1_0000_0000;

/// The number of addresses that share their upper 16 bits.
pub const PAGE: u64 = 0x1_0000;

/// The largest number of bytes that one data record holds.
pub const MAX_CHUNK: usize = 16;

/// A record of an Intel HEX object file.
#[derive(Debug, Clone, PartialEq, Eq)]
pub enum Record {
    /// Bytes, with the lower 16 bits of the address of the first one.
    Data {
        /// Lower 16 bits of the address.
        offset: u16,
        /// The bytes.
        value: Vec<u8>,
    },
    /// The end of the object file.
    EndOfFile,
    /// Upper 16 bits of the addresses of the data records that follow.
    ExtendedLinearAddress(u16),
}

/// The mathematical value of a [`Record`].
pub enum HexRecord {
    /// Value of [`Record::Data`].
    Data {
        /// Lower 16 bits of the address.
        offset: u16,
        /// The bytes.
        value: Seq<u8>,
    },
    /// Value of [`Record::EndOfFile`].
    EndOfFile,
    /// Value of [`Record::ExtendedLinearAddress`].
    ExtendedLinearAddress(u16),
}

impl DeepView for Record {
    type V = HexRecord;

    open spec fn deep_view(&self) -> HexRecord {
        match *self {
            Record::Data { offset, value } => HexRecord::Data { offset, value: value@ },
            Record::EndOfFile => HexRecord::EndOfFile,
            Record::ExtendedLinearAddress(upper) => HexRecord::ExtendedLinearAddress(upper),
        }
    }
}

/// The 32-bit address of the byte `offset` of a segment that starts at `paddr`.
pub open spec fn address(paddr: int, offset: int) -> int {
    (paddr + offset) % ADDRESS_SPACE as int
}

/// The upper 16 bits of that address.
pub open spec fn upper_half(paddr: int, offset: int) -> u16 {
    (address(paddr, offset) / PAGE as int) as u16
}

/// The lower 16 bits of that address.
pub open spec fn lower_half(paddr: int, offset: int) -> u16 {
    (address(paddr, offset) % PAGE as int) as u16
}

/// Whether 32-bit arithmetic yields the address of every record of a segment of
/// `len` bytes: the segment ends inside the address space, or its start is a
/// multiple of the size of the address space.
pub open spec fn addresses_fit(paddr: u64, len: int) -> bool {
    ||| paddr % ADDRESS_SPACE == 0
    ||| paddr % ADDRESS_SPACE + len <= ADDRESS_SPACE
}

/// The number of bytes in the data record that starts at `offset`: what is left of
/// the segment, but no more than [`MAX_CHUNK`] and nothing past the end of the page.
pub open spec fn chunk_len(paddr: int, offset: int, len: int) -> int {
    let in_page = PAGE - lower_half(paddr, offset);
    let left = len - offset;
    let capped = if in_page < MAX_CHUNK { in_page } else { MAX_CHUNK as int };
    if left < capped { left } else { capped }
}

/// The records for the chunk of a segment that starts at `offset`, when the upper address
/// half in force is `upper`: its data record, and before it one for the upper half where
/// that changes.
pub open spec fn chunk_records(
    paddr: int,
    bytes: Seq<u8>,
    offset: int,
    upper: Option<u16>,
) -> Seq<HexRecord> {
    let n = chunk_len(paddr, offset, bytes.len() as int);
    let here = upper_half(paddr, offset);
    let data = HexRecord::Data {
        offset: lower_half(paddr, offset),
        value: bytes.subrange(offset, offset + n),
    };
    if upper == Some(here) {
        seq![data]
    } else {
        seq![HexRecord::ExtendedLinearAddress(here), data]
    }
}

/// The records for the bytes of a segment from `offset` on, when the upper address
/// half in force is `upper`.
pub open spec fn segment_records(
    paddr: int,
    bytes: Seq<u8>,
    offset: int,
    upper: Option<u16>,
) -> Seq<HexRecord>
    decreases bytes.len() - offset,
{
    if 0 <= offset < bytes.len() {
        let n = chunk_len(paddr, offset, bytes.len() as int);
        chunk_records(paddr, bytes, offset, upper) + segment_records(
            paddr,
            bytes,
            offset + n,
            Some(upper_half(paddr, offset)),
        )
    } else {
        seq![]
    }
}

/// The upper address half in force after the records of a segment of `len` bytes:
/// that of its last byte.
pub open spec fn upper_after(paddr: int, len: int, upper: Option<u16>) -> Option<u16> {
    if len > 0 {
        Some(upper_half(paddr, len - 1))
    } else {
        upper
    }
}

/// The first and the last byte of a chunk share their upper address half.
#[verifier::rlimit(50)]
proof fn lemma_chunk_in_page(paddr: int, offset: int, len: int)
    requires
        0 <= paddr,
        0 <= offset < len,
    ensures
        0 < chunk_len(paddr, offset, len) <= len - offset,
        chunk_len(paddr, offset, len) <= MAX_CHUNK,
        chunk_len(paddr, offset, len) <= PAGE - lower_half(paddr, offset),
        lower_half(paddr, offset) == address(paddr, offset) % PAGE as int,
        upper_half(paddr, offset) == address(paddr, offset) / PAGE as int,
        forall|i: int|
            0 <= i < chunk_len(paddr, offset, len) ==> #[trigger] address(paddr, offset + i)
                == address(paddr, offset) + i && upper_half(paddr, offset + i) == upper_half(
                paddr,
                offset,
            ),
{
    let n = chunk_len(paddr, offset, len);
    let a = address(paddr, offset);
    assert(0 <= a < 0x1_0000_0000);
    assert(a / 0x1_0000 < 0x1_0000);
    assert forall|i: int| 0 <= i < n implies #[trigger] address(paddr, offset + i) == a + i
        && upper_half(paddr, offset + i) == upper_half(paddr, offset) by {
        assert(a % 0x1_0000 + i < 0x1_0000);
        assert((a + i) / 0x1_0000 == a / 0x1_0000);
        assert(a + i < 0x1_0000_0000);
        assert((paddr + (offset + i)) % 0x1_0000_0000 == a + i);
    }
}

/// The upper half of the last address of a chunk is that of the first.
proof fn lemma_upper_after_chunk(paddr: int, offset: int, len: int, upper: Option<u16>)
    requires
        0 <= paddr,
        0 <= offset < len,
    ensures
        upper_after(paddr, offset + chunk_len(paddr, offset, len), upper) == Some(
            upper_half(paddr, offset),
        ),
{
    lemma_chunk_in_page(paddr, offset, len);
    let n = chunk_len(paddr, offset, len);
    assert(address(paddr, offset + (n - 1)) == address(paddr, offset) + (n - 1));
    assert(offset + n - 1 == offset + (n - 1));
}

/// The upper and the lower half of the address of a record.
#[verifier::rlimit(50)]
fn record_address(paddr: u64, offset: usize) -> (halves: (u16, u16))
    requires
        addresses_fit(paddr, offset + 1),
    ensures
        halves.0 == upper_half(paddr as int, offset as int),
        halves.1 == lower_half(paddr as int, offset as int),
{
    let base: u32 = #[verifier::truncate] (paddr as u32);
    let wide: u64 = offset as u64;
    let step: u32 = #[verifier::truncate] (wide as u32);
    assert(base == paddr % 0x1_0000_0000) by (bit_vector)
        requires
            base == paddr as u32,
    ;
    assert(step == wide % 0x1_0000_0000) by (bit_vector)
        requires
            step == wide as u32,
    ;
    let addr: u32 = base + step;
    assert(addr == address(paddr as int, offset as int));
    assert(addr >> 16 == addr / 0x1_0000 && addr / 0x1_0000 <= 0xFFFF && addr & 0xFFFF == addr
        % 0x1_0000) by (bit_vector);
    ((addr >> 16) as u16, (addr & 0xFFFF) as u16)
}

/// Appends the records for the segment `bytes` at the physical address `paddr`.
/// `current_upper` is the upper address half in force at the end of `records`.
#[verifier::rlimit(50)]
pub fn append_segment(
    records: &mut Vec<Record>,
    current_upper: &mut Option<u16>,
    paddr: u64,
    bytes: &[u8],
)
    requires
        addresses_fit(paddr, bytes@.len() as int),
    ensures
        final(records).deep_view() == old(records).deep_view() + segment_records(
            paddr as int,
            bytes@,
            0,
            *old(current_upper),
        ),
        *final(current_upper) == upper_after(
            paddr as int,
            bytes@.len() as int,
            *old(current_upper),
        ),
{
    let ghost initial = *current_upper;
    let ghost whole = records.deep_view() + segment_records(paddr as int, bytes@, 0, initial);
    let len: usize = bytes.len();
    let mut offset: usize = 0;
    while offset < len
        invariant
            offset <= len,
            len == bytes@.len(),
            addresses_fit(paddr, len as int),
            whole == records.deep_view() + segment_records(
                paddr as int,
                bytes@,
                offset as int,
                *current_upper,
            ),
            *current_upper == upper_after(paddr as int, offset as int, initial),
        decreases len - offset,
    {
        let (upper, lower) = record_address(paddr, offset);
        let ghost in_force = *current_upper;
        let ghost earlier = records.deep_view();
        let changed = match *current_upper {
            Some(previous) => previous != upper,
            None => true,
        };
        if changed {
            records.push(Record::ExtendedLinearAddress(upper));
            *current_upper = Some(upper);
        }
        let remaining_in_page: usize = 0x10000 - lower as usize;
        let capped: usize = if remaining_in_page < MAX_CHUNK {
            remaining_in_page
        } else {
            MAX_CHUNK
        };
        let chunk_size: usize = if len - offset < capped {
            len - offset
        } else {
            capped
        };
        let value = slice_to_vec(slice_subrange(bytes, offset, offset + chunk_size));
        records.push(Record::Data { offset: lower, value });
        proof {
            let head = chunk_records(paddr as int, bytes@, offset as int, in_force);
            let rest = segment_records(
                paddr as int,
                bytes@,
                offset + chunk_size,
                Some(upper),
            );
            assert(chunk_size == chunk_len(paddr as int, offset as int, len as int));
            assert(records.deep_view() =~= earlier + head);
            assert(earlier + (head + rest) =~= (earlier + head) + rest);
            lemma_upper_after_chunk(paddr as int, offset as int, len as int, initial);
        }
        offset += chunk_size;
    }
    assert(records.deep_view() + Seq::<HexRecord>::empty() =~= records.deep_view());
}

/// A segment of a program as it is put into memory.
pub struct LoadedSegment {
    /// Physical address of the first byte.
    pub paddr: u64,
    /// The bytes.
    pub bytes: Seq<u8>,
}

/// The data and address records for a list of segments, in their order, when the
/// upper address half in force is `upper`.
pub open spec fn load_records(segments: Seq<LoadedSegment>, upper: Option<u16>) -> Seq<HexRecord>
    decreases segments.len(),
{
    if segments.len() == 0 {
        seq![]
    } else {
        let first = segments.first();
        segment_records(first.paddr as int, first.bytes, 0, upper) + load_records(
            segments.drop_first(),
            upper_after(first.paddr as int, first.bytes.len() as int, upper),
        )
    }
}

/// The upper address half in force after those records.
pub open spec fn load_upper(segments: Seq<LoadedSegment>, upper: Option<u16>) -> Option<u16>
    decreases segments.len(),
{
    if segments.len() == 0 {
        upper
    } else {
        let first = segments.first();
        load_upper(
            segments.drop_first(),
            upper_after(first.paddr as int, first.bytes.len() as int, upper),
        )
    }
}

/// One more segment adds its records at the end.
pub proof fn lemma_load_one_more(
    segments: Seq<LoadedSegment>,
    last: LoadedSegment,
    upper: Option<u16>,
)
    ensures
        load_records(segments.push(last), upper) == load_records(segments, upper)
            + segment_records(last.paddr as int, last.bytes, 0, load_upper(segments, upper)),
        load_upper(segments.push(last), upper) == upper_after(
            last.paddr as int,
            last.bytes.len() as int,
            load_upper(segments, upper),
        ),
    decreases segments.len(),
{
    let all = segments.push(last);
    if segments.len() == 0 {
        assert(all.drop_first() =~= Seq::<LoadedSegment>::empty());
        let next = upper_after(last.paddr as int, last.bytes.len() as int, upper);
        assert(load_records(Seq::<LoadedSegment>::empty(), next) =~= seq![]);
        assert(load_upper(Seq::<LoadedSegment>::empty(), next) == next);
        assert(load_records(all, upper) =~= load_records(segments, upper) + segment_records(
            last.paddr as int,
            last.bytes,
            0,
            upper,
        ));
    } else {
        let first = segments.first();
        let next = upper_after(first.paddr as int, first.bytes.len() as int, upper);
        assert(all.drop_first() =~= segments.drop_first().push(last));
        lemma_load_one_more(segments.drop_first(), last, next);
        assert(load_records(all, upper) =~= load_records(segments, upper) + segment_records(
            last.paddr as int,
            last.bytes,
            0,
            load_upper(segments, upper),
        ));
    }
}

/// The records of a whole object file for a list of segments.
pub open spec fn object_records(segments: Seq<LoadedSegment>) -> Seq<HexRecord> {
    load_records(segments, None).push(HexRecord::EndOfFile)
}

/// Whether a list of records can be written as an object file: it ends with its only
/// end-of-file record, and the length of each data record fits in a byte.
pub open spec fn is_object_file(records: Seq<HexRecord>) -> bool {
    &&& records.len() > 0
    &&& records.last() is EndOfFile
    &&& forall|i: int| 0 <= i < records.len() - 1 ==> !(#[trigger] records[i] is EndOfFile)
    &&& forall|i: int|
        0 <= i < records.len() ==> (#[trigger] records[i] matches HexRecord::Data { value, .. }
            ==> value.len() <= 255)
}

/// The error of the `ihex` crate for records that form no object file.
#[verifier::external_type_specification]
#[verifier::external_body]
pub struct ExWriterError(ihex::WriterError);

/// The address field of a record.
pub open spec fn address_field(record: HexRecord) -> u16 {
    match record {
        HexRecord::Data { offset, .. } => offset,
        _ => 0,
    }
}

/// The type field of a record.
pub open spec fn type_field(record: HexRecord) -> u8 {
    match record {
        HexRecord::Data { .. } => 0,
        HexRecord::EndOfFile => 1,
        HexRecord::ExtendedLinearAddress(_) => 4,
    }
}

/// The data field of a record.
pub open spec fn data_field(record: HexRecord) -> Seq<u8> {
    match record {
        HexRecord::Data { value, .. } => value,
        HexRecord::EndOfFile => seq![],
        HexRecord::ExtendedLinearAddress(upper) => seq![
            (upper / 0x100) as u8,
            (upper % 0x100) as u8,
        ],
    }
}

/// The bytes of a record up to the checksum: the length of its data, its address with the
/// more significant byte first, its type and its data.
pub open spec fn record_bytes(record: HexRecord) -> Seq<u8> {
    seq![
        data_field(record).len() as u8,
        (address_field(record) / 0x100) as u8,
        (address_field(record) % 0x100) as u8,
        type_field(record),
    ] + data_field(record)
}

/// The sum of bytes.
pub open spec fn byte_sum(bytes: Seq<u8>) -> int
    decreases bytes.len(),
{
    if bytes.len() == 0 {
        0
    } else {
        byte_sum(bytes.drop_last()) + bytes.last()
    }
}

/// The byte that makes the sum of all bytes of a record a multiple of 256.
pub open spec fn checksum(bytes: Seq<u8>) -> u8 {
    ((0x100 - byte_sum(bytes) % 0x100) % 0x100) as u8
}

/// A hexadecimal digit, as a capital where it is a letter.
pub open spec fn hex_digit(n: int) -> char {
    if n < 10 {
        (48 + n) as char
    } else {
        (55 + n) as char
    }
}

/// Two hexadecimal digits for each byte, the more significant one first.
pub open spec fn hex_digits(bytes: Seq<u8>) -> Seq<char> {
    Seq::new(
        2 * bytes.len(),
        |i: int|
            hex_digit(
                if i % 2 == 0 {
                    bytes[i / 2] as int / 0x10
                } else {
                    bytes[i / 2] as int % 0x10
                },
            ),
    )
}

/// The line of a record: a colon, the bytes of the record and their checksum.
pub open spec fn record_line(record: HexRecord) -> Seq<char> {
    let bytes = record_bytes(record);
    seq![':'] + hex_digits(bytes.push(checksum(bytes))) + seq!['\n']
}

/// The text of an object file: the lines of its records.
pub open spec fn ihex_text(records: Seq<HexRecord>) -> Seq<char>
    decreases records.len(),
{
    if records.len() == 0 {
        seq![]
    } else {
        ihex_text(records.drop_last()) + record_line(records.last())
    }
}

/// Calls `ihex::create_object_file_representation`, with each record turned into the
/// variant of `ihex::Record` that has its name. The contract claims that the call
/// succeeds exactly on the records that form an object file, and that it returns the
/// lines of the records in the Intel HEX format: a colon, then in capital hexadecimal
/// digits the length, the address, the type, the data and the checksum of the record,
/// then a newline. It does not say which error comes otherwise.
#[verifier::external_body]
pub(crate) fn object_file_representation(records: &Vec<Record>) -> (text: Result<
    String,
    ihex::WriterError,
>)
    ensures
        text is Ok <==> is_object_file(records.deep_view()),
        text matches Ok(text) ==> text@ == ihex_text(records.deep_view()),
{
    let converted: Vec<ihex::Record> = records.iter().map(|record| match record {
        Record::Data { offset, value } => ihex::Record::Data {
            offset: *offset,
            value: value.clone(),
        },
        Record::EndOfFile => ihex::Record::EndOfFile,
        Record::ExtendedLinearAddress(upper) => ihex::Record::ExtendedLinearAddress(*upper),
    }).collect();
    ihex::create_object_file_representation(&converted)
}

/// Memory after the bytes are stored one after the other from `addr` on. Addresses
/// are 32 bits wide.
pub open spec fn store(memory: Map<int, u8>, addr: int, bytes: Seq<u8>) -> Map<int, u8>
    decreases bytes.len(),
{
    if bytes.len() == 0 {
        memory
    } else {
        store(
            memory.insert(addr % ADDRESS_SPACE as int, bytes.first()),
            addr + 1,
            bytes.drop_first(),
        )
    }
}

/// Memory after a reader of Intel HEX has followed the records, when the upper
/// address half in force at the start is `upper`.
pub open spec fn follow_records(
    memory: Map<int, u8>,
    upper: u16,
    records: Seq<HexRecord>,
) -> Map<int, u8>
    decreases records.len(),
{
    if records.len() == 0 {
        memory
    } else {
        match records.first() {
            HexRecord::Data { offset, value } => follow_records(
                store(memory, upper * PAGE + offset, value),
                upper,
                records.drop_first(),
            ),
            HexRecord::ExtendedLinearAddress(next) => follow_records(
                memory,
                next,
                records.drop_first(),
            ),
            HexRecord::EndOfFile => memory,
        }
    }
}

/// Memory after the segments are stored at their physical addresses, in their order.
pub open spec fn load_segments(memory: Map<int, u8>, segments: Seq<LoadedSegment>) -> Map<int, u8>
    decreases segments.len(),
{
    if segments.len() == 0 {
        memory
    } else {
        let first = segments.first();
        load_segments(
            store(memory, first.paddr as int, first.bytes),
            segments.drop_first(),
        )
    }
}

/// Whether address records come only where they change something: each one names an
/// upper half other than the one in force and is followed by a data record, and no data
/// record comes before the first one unless an upper half is in force already.
pub open spec fn switches_only_on_change(upper: Option<u16>, records: Seq<HexRecord>) -> bool
    decreases records.len(),
{
    if records.len() == 0 {
        true
    } else {
        match records.first() {
            HexRecord::Data { .. } => {
                &&& upper is Some
                &&& switches_only_on_change(upper, records.drop_first())
            },
            HexRecord::ExtendedLinearAddress(next) => {
                &&& upper != Some(next)
                &&& records.len() > 1
                &&& records[1] is Data
                &&& switches_only_on_change(Some(next), records.drop_first())
            },
            HexRecord::EndOfFile => switches_only_on_change(upper, records.drop_first()),
        }
    }
}

/// Storing a run of bytes is storing a first part and then the rest behind it.
proof fn lemma_store_in_parts(memory: Map<int, u8>, addr: int, bytes: Seq<u8>, n: int)
    requires
        0 <= n <= bytes.len(),
    ensures
        store(memory, addr, bytes) == store(
            store(memory, addr, bytes.subrange(0, n)),
            addr + n,
            bytes.subrange(n, bytes.len() as int),
        ),
    decreases n,
{
    let first = bytes.subrange(0, n);
    let rest = bytes.subrange(n, bytes.len() as int);
    if n == 0 {
        assert(rest =~= bytes);
    } else {
        let tail = bytes.drop_first();
        let next = memory.insert(addr % ADDRESS_SPACE as int, bytes.first());
        lemma_store_in_parts(next, addr + 1, tail, n - 1);
        assert(first.drop_first() =~= tail.subrange(0, n - 1));
        assert(rest =~= tail.subrange(n - 1, tail.len() as int));
        assert(first.first() == bytes.first());
    }
}

/// Only the 32-bit address matters to where bytes are stored.
proof fn lemma_store_address(memory: Map<int, u8>, addr: int, bytes: Seq<u8>)
    ensures
        store(memory, addr, bytes) == store(memory, addr % ADDRESS_SPACE as int, bytes),
    decreases bytes.len(),
{
    if bytes.len() > 0 {
        let low = addr % ADDRESS_SPACE as int;
        let next = memory.insert(low, bytes.first());
        assert(low % ADDRESS_SPACE as int == low);
        lemma_store_address(next, addr + 1, bytes.drop_first());
        lemma_store_address(next, low + 1, bytes.drop_first());
        assert((addr + 1) % ADDRESS_SPACE as int == (low + 1) % ADDRESS_SPACE as int);
    }
}

/// The records of one segment, followed where `upper` is in force, store its bytes.
#[verifier::rlimit(50)]
proof fn lemma_follow_segment(
    memory: Map<int, u8>,
    upper: Option<u16>,
    in_force: u16,
    paddr: int,
    bytes: Seq<u8>,
    offset: int,
    rest: Seq<HexRecord>,
)
    requires
        0 <= paddr,
        0 <= offset <= bytes.len(),
        upper is Some ==> upper == Some(in_force),
    ensures
        ({
            let left = bytes.subrange(offset, bytes.len() as int);
            let after = if offset < bytes.len() {
                upper_half(paddr, bytes.len() - 1)
            } else {
                in_force
            };
            follow_records(
                memory,
                in_force,
                segment_records(paddr, bytes, offset, upper) + rest,
            ) == follow_records(store(memory, paddr + offset, left), after, rest)
        }),
    decreases bytes.len() - offset,
{
    let records = segment_records(paddr, bytes, offset, upper) + rest;
    let left = bytes.subrange(offset, bytes.len() as int);
    if offset == bytes.len() {
        assert(records =~= rest);
    } else {
        let n = chunk_len(paddr, offset, bytes.len() as int);
        lemma_chunk_in_page(paddr, offset, bytes.len() as int);
        let here = upper_half(paddr, offset);
        let lower = lower_half(paddr, offset);
        let chunk = bytes.subrange(offset, offset + n);
        let data = HexRecord::Data { offset: lower, value: chunk };
        let behind = segment_records(paddr, bytes, offset + n, Some(here)) + rest;
        let from_data = seq![data] + behind;
        assert(from_data.drop_first() =~= behind);
        if upper == Some(here) {
            assert(records =~= from_data);
        } else {
            assert(records =~= seq![HexRecord::ExtendedLinearAddress(here)] + from_data);
            assert(records.drop_first() =~= from_data);
            assert(follow_records(memory, in_force, records) == follow_records(
                memory,
                here,
                from_data,
            ));
        }
        assert(here * PAGE + lower == address(paddr, offset));
        let stored = store(memory, address(paddr, offset), chunk);
        assert(follow_records(memory, here, from_data) == follow_records(stored, here, behind));
        lemma_store_address(memory, paddr + offset, chunk);
        lemma_store_in_parts(memory, paddr + offset, left, n);
        assert(left.subrange(0, n) =~= chunk);
        assert(left.subrange(n, left.len() as int) =~= bytes.subrange(
            offset + n,
            bytes.len() as int,
        ));
        lemma_follow_segment(stored, Some(here), here, paddr, bytes, offset + n, rest);
        if offset + n == bytes.len() {
            assert(address(paddr, offset + (n - 1)) == address(paddr, offset) + (n - 1));
            assert(offset + (n - 1) == bytes.len() - 1);
        }
    }
}

/// The records of a list of segments, followed by an end-of-file record, store the
/// segments.
proof fn lemma_follow_segments(
    memory: Map<int, u8>,
    upper: Option<u16>,
    in_force: u16,
    segments: Seq<LoadedSegment>,
)
    requires
        upper is Some ==> upper == Some(in_force),
    ensures
        follow_records(
            memory,
            in_force,
            load_records(segments, upper).push(HexRecord::EndOfFile),
        ) == load_segments(memory, segments),
    decreases segments.len(),
{
    let records = load_records(segments, upper).push(HexRecord::EndOfFile);
    if segments.len() == 0 {
        assert(records.first() is EndOfFile);
    } else {
        let first = segments.first();
        let paddr = first.paddr as int;
        let len = first.bytes.len() as int;
        let next = upper_after(paddr, len, upper);
        let rest = load_records(segments.drop_first(), next).push(HexRecord::EndOfFile);
        assert(records =~= segment_records(paddr, first.bytes, 0, upper) + rest);
        lemma_follow_segment(memory, upper, in_force, paddr, first.bytes, 0, rest);
        assert(first.bytes.subrange(0, len) =~= first.bytes);
        let after = if 0 < len {
            upper_half(paddr, len - 1)
        } else {
            in_force
        };
        lemma_follow_segments(
            store(memory, paddr, first.bytes),
            next,
            after,
            segments.drop_first(),
        );
    }
}

/// The object file for a list of segments means those segments: a reader of Intel HEX
/// that follows its records, whatever upper address half it starts with, leaves memory
/// as if each segment had been stored at its physical address, in the order of the list.
pub proof fn law_records_mean_segments(
    memory: Map<int, u8>,
    start: u16,
    segments: Seq<LoadedSegment>,
)
    ensures
        follow_records(memory, start, object_records(segments)) == load_segments(memory, segments),
{
    lemma_follow_segments(memory, None, start, segments);
}

/// An address that no byte is stored at keeps what it holds.
proof fn lemma_store_keeps(memory: Map<int, u8>, addr: int, bytes: Seq<u8>, x: int)
    requires
        forall|k: int| 0 <= k < bytes.len() ==> #[trigger] address(addr, k) != x,
    ensures
        store(memory, addr, bytes).contains_key(x) == memory.contains_key(x),
        store(memory, addr, bytes)[x] == memory[x],
    decreases bytes.len(),
{
    if bytes.len() > 0 {
        let next = memory.insert(addr % ADDRESS_SPACE as int, bytes.first());
        assert(address(addr, 0) != x);
        assert forall|k: int| 0 <= k < bytes.drop_first().len() implies #[trigger] address(
            addr + 1,
            k,
        ) != x by {
            assert(address(addr, k + 1) != x);
        }
        lemma_store_keeps(next, addr + 1, bytes.drop_first(), x);
    }
}

/// The address of a byte holds that byte if no later byte is stored there.
proof fn lemma_store_puts(memory: Map<int, u8>, addr: int, bytes: Seq<u8>, k: int)
    requires
        0 <= k < bytes.len(),
        forall|later: int|
            k < later < bytes.len() ==> #[trigger] address(addr, later) != address(addr, k),
    ensures
        store(memory, addr, bytes).contains_key(address(addr, k)),
        store(memory, addr, bytes)[address(addr, k)] == bytes[k],
    decreases bytes.len(),
{
    let next = memory.insert(addr % ADDRESS_SPACE as int, bytes.first());
    let rest = bytes.drop_first();
    if k == 0 {
        assert forall|j: int| 0 <= j < rest.len() implies #[trigger] address(addr + 1, j)
            != address(addr, 0) by {
            assert(address(addr, j + 1) != address(addr, 0));
        }
        lemma_store_keeps(next, addr + 1, rest, address(addr, 0));
    } else {
        assert(address(addr + 1, k - 1) == address(addr, k));
        assert forall|later: int| k - 1 < later < rest.len() implies #[trigger] address(
            addr + 1,
            later,
        ) != address(addr + 1, k - 1) by {
            assert(address(addr, later + 1) != address(addr, k));
        }
        lemma_store_puts(next, addr + 1, rest, k - 1);
    }
}

/// An address that no segment covers keeps what it holds.
proof fn lemma_load_keeps(memory: Map<int, u8>, segments: Seq<LoadedSegment>, x: int)
    requires
        forall|j: int, k: int|
            0 <= j < segments.len() && 0 <= k < segments[j].bytes.len() ==> #[trigger] address(
                segments[j].paddr as int,
                k,
            ) != x,
    ensures
        load_segments(memory, segments).contains_key(x) == memory.contains_key(x),
        load_segments(memory, segments)[x] == memory[x],
    decreases segments.len(),
{
    if segments.len() > 0 {
        let first = segments.first();
        let rest = segments.drop_first();
        assert(first == segments[0]);
        lemma_store_keeps(memory, first.paddr as int, first.bytes, x);
        assert forall|j: int, k: int|
            0 <= j < rest.len() && 0 <= k < rest[j].bytes.len() implies #[trigger] address(
            rest[j].paddr as int,
            k,
        ) != x by {
            assert(rest[j] == segments[j + 1]);
        }
        lemma_load_keeps(store(memory, first.paddr as int, first.bytes), rest, x);
    }
}

proof fn lemma_load_puts(memory: Map<int, u8>, segments: Seq<LoadedSegment>, i: int, k: int)
    requires
        0 <= i < segments.len(),
        0 <= k < segments[i].bytes.len(),
        not_overwritten(segments, i, k),
    ensures
        load_segments(memory, segments).contains_key(address(segments[i].paddr as int, k)),
        load_segments(memory, segments)[address(segments[i].paddr as int, k)]
            == segments[i].bytes[k],
    decreases segments.len(),
{
    let first = segments.first();
    let rest = segments.drop_first();
    let next = store(memory, first.paddr as int, first.bytes);
    let x = address(segments[i].paddr as int, k);
    if i == 0 {
        lemma_store_puts(memory, first.paddr as int, first.bytes, k);
        assert forall|j: int, later: int|
            0 <= j < rest.len() && 0 <= later < rest[j].bytes.len() implies #[trigger] address(
            rest[j].paddr as int,
            later,
        ) != x by {
            assert(rest[j] == segments[j + 1]);
        }
        lemma_load_keeps(next, rest, x);
    } else {
        assert(rest[i - 1] == segments[i]);
        assert forall|j: int, later: int|
            i - 1 < j < rest.len() && 0 <= later < rest[j].bytes.len() implies #[trigger] address(
            rest[j].paddr as int,
            later,
        ) != x by {
            assert(rest[j] == segments[j + 1]);
        }
        lemma_load_puts(next, rest, i - 1, k);
    }
}

/// Whether nothing that is loaded after byte `k` of segment `i` has the same address.
pub open spec fn not_overwritten(segments: Seq<LoadedSegment>, i: int, k: int) -> bool {
    &&& forall|later: int|
        k < later < segments[i].bytes.len() ==> #[trigger] address(
            segments[i].paddr as int,
            later,
        ) != address(segments[i].paddr as int, k)
    &&& forall|j: int, later: int|
        i < j < segments.len() && 0 <= later < segments[j].bytes.len() ==> #[trigger] address(
            segments[j].paddr as int,
            later,
        ) != address(segments[i].paddr as int, k)
}

/// Following the object file puts each byte of each segment at its physical address,
/// unless something that is loaded later has that address too.
pub proof fn law_bytes_reach_their_addresses(
    memory: Map<int, u8>,
    start: u16,
    segments: Seq<LoadedSegment>,
    i: int,
    k: int,
)
    requires
        0 <= i < segments.len(),
        0 <= k < segments[i].bytes.len(),
        not_overwritten(segments, i, k),
    ensures
        ({
            let after = follow_records(memory, start, object_records(segments));
            let place = address(segments[i].paddr as int, k);
            after.contains_key(place) && after[place] == segments[i].bytes[k]
        }),
{
    law_records_mean_segments(memory, start, segments);
    lemma_load_puts(memory, segments, i, k);
}

/// Following the object file leaves every address alone that no segment covers.
pub proof fn law_nothing_else_is_written(
    memory: Map<int, u8>,
    start: u16,
    segments: Seq<LoadedSegment>,
    place: int,
)
    requires
        forall|j: int, k: int|
            0 <= j < segments.len() && 0 <= k < segments[j].bytes.len() ==> #[trigger] address(
                segments[j].paddr as int,
                k,
            ) != place,
    ensures
        ({
            let after = follow_records(memory, start, object_records(segments));
            after.contains_key(place) == memory.contains_key(place) && after[place]
                == memory[place]
        }),
{
    law_records_mean_segments(memory, start, segments);
    lemma_load_keeps(memory, segments, place);
}

/// What every record of one segment keeps to.
#[verifier::rlimit(50)]
proof fn lemma_segment_bounds(paddr: int, bytes: Seq<u8>, offset: int, upper: Option<u16>)
    requires
        0 <= paddr,
        0 <= offset <= bytes.len(),
    ensures
        forall|i: int|
            #![trigger segment_records(paddr, bytes, offset, upper)[i]]
            0 <= i < segment_records(paddr, bytes, offset, upper).len() ==> {
                match segment_records(paddr, bytes, offset, upper)[i] {
                    HexRecord::Data { offset: low, value } => 0 < value.len() <= MAX_CHUNK && low
                        + value.len() <= PAGE,
                    HexRecord::ExtendedLinearAddress(_) => true,
                    HexRecord::EndOfFile => false,
                }
            },
    decreases bytes.len() - offset,
{
    if offset < bytes.len() {
        let n = chunk_len(paddr, offset, bytes.len() as int);
        lemma_chunk_in_page(paddr, offset, bytes.len() as int);
        let here = upper_half(paddr, offset);
        lemma_segment_bounds(paddr, bytes, offset + n, Some(here));
        let rest = segment_records(paddr, bytes, offset + n, Some(here));
        let all = segment_records(paddr, bytes, offset, upper);
        let skipped: int = if upper == Some(here) {
            1
        } else {
            2
        };
        assert forall|i: int| 0 <= i < all.len() implies {
            match #[trigger] all[i] {
                HexRecord::Data { offset: low, value } => 0 < value.len() <= MAX_CHUNK && low
                    + value.len() <= PAGE,
                HexRecord::ExtendedLinearAddress(_) => true,
                HexRecord::EndOfFile => false,
            }
        } by {
            if i >= skipped {
                assert(all[i] == rest[i - skipped]);
            }
        }
    }
}

proof fn lemma_load_bounds(segments: Seq<LoadedSegment>, upper: Option<u16>)
    ensures
        forall|i: int|
            0 <= i < load_records(segments, upper).len() ==> {
                match #[trigger] load_records(segments, upper)[i] {
                    HexRecord::Data { offset, value } => 0 < value.len() <= MAX_CHUNK && offset
                        + value.len() <= PAGE,
                    HexRecord::ExtendedLinearAddress(_) => true,
                    HexRecord::EndOfFile => false,
                }
            },
    decreases segments.len(),
{
    if segments.len() > 0 {
        let first = segments.first();
        let paddr = first.paddr as int;
        let next = upper_after(paddr, first.bytes.len() as int, upper);
        lemma_segment_bounds(paddr, first.bytes, 0, upper);
        lemma_load_bounds(segments.drop_first(), next);
        let head = segment_records(paddr, first.bytes, 0, upper);
        let rest = load_records(segments.drop_first(), next);
        let all = load_records(segments, upper);
        assert forall|i: int| 0 <= i < all.len() implies {
            match #[trigger] all[i] {
                HexRecord::Data { offset, value } => 0 < value.len() <= MAX_CHUNK && offset
                    + value.len() <= PAGE,
                HexRecord::ExtendedLinearAddress(_) => true,
                HexRecord::EndOfFile => false,
            }
        } by {
            if i < head.len() {
                assert(all[i] == head[i]);
            } else {
                assert(all[i] == rest[i - head.len()]);
            }
        }
    }
}

/// No data record is empty, holds more than 16 bytes or crosses a 64 KiB boundary.
pub proof fn law_data_records_are_bounded(segments: Seq<LoadedSegment>, i: int)
    requires
        0 <= i < object_records(segments).len(),
    ensures
        object_records(segments)[i] matches HexRecord::Data { offset, value } ==> 0 < value.len()
            <= 16 && offset + value.len() <= 0x1_0000,
{
    lemma_load_bounds(segments, None);
    if i < load_records(segments, None).len() {
        assert(object_records(segments)[i] == load_records(segments, None)[i]);
    }
}

/// The records for a list of segments can always be written as an object file.
pub proof fn law_records_form_an_object_file(segments: Seq<LoadedSegment>)
    ensures
        is_object_file(object_records(segments)),
{
    lemma_load_bounds(segments, None);
    let records = object_records(segments);
    let loaded = load_records(segments, None);
    assert forall|i: int| 0 <= i < records.len() - 1 implies !(#[trigger] records[i]
        is EndOfFile) by {
        assert(records[i] == loaded[i]);
    }
    assert forall|i: int| 0 <= i < records.len() implies (#[trigger] records[i] matches
        HexRecord::Data { value, .. } ==> value.len() <= 255) by {
        if i < loaded.len() {
            assert(records[i] == loaded[i]);
        }
    }
}

#[verifier::rlimit(50)]
proof fn lemma_segment_switches(
    paddr: int,
    bytes: Seq<u8>,
    offset: int,
    upper: Option<u16>,
    rest: Seq<HexRecord>,
)
    requires
        0 <= paddr,
        0 <= offset <= bytes.len(),
        switches_only_on_change(
            if offset < bytes.len() {
                Some(upper_half(paddr, bytes.len() - 1))
            } else {
                upper
            },
            rest,
        ),
    ensures
        switches_only_on_change(upper, segment_records(paddr, bytes, offset, upper) + rest),
    decreases bytes.len() - offset,
{
    let records = segment_records(paddr, bytes, offset, upper) + rest;
    if offset == bytes.len() {
        assert(records =~= rest);
    } else {
        let n = chunk_len(paddr, offset, bytes.len() as int);
        lemma_chunk_in_page(paddr, offset, bytes.len() as int);
        let here = upper_half(paddr, offset);
        if offset + n == bytes.len() {
            assert(address(paddr, offset + (n - 1)) == address(paddr, offset) + (n - 1));
            assert(offset + (n - 1) == bytes.len() - 1);
        }
        lemma_segment_switches(paddr, bytes, offset + n, Some(here), rest);
        let data = HexRecord::Data {
            offset: lower_half(paddr, offset),
            value: bytes.subrange(offset, offset + n),
        };
        let behind = segment_records(paddr, bytes, offset + n, Some(here)) + rest;
        let from_data = seq![data] + behind;
        assert(from_data.drop_first() =~= behind);
        assert(switches_only_on_change(Some(here), from_data));
        if upper == Some(here) {
            assert(records =~= from_data);
        } else {
            assert(records =~= seq![HexRecord::ExtendedLinearAddress(here)] + from_data);
            assert(records.drop_first() =~= from_data);
        }
    }
}

proof fn lemma_load_switches(segments: Seq<LoadedSegment>, upper: Option<u16>)
    ensures
        switches_only_on_change(
            upper,
            load_records(segments, upper).push(HexRecord::EndOfFile),
        ),
    decreases segments.len(),
{
    let records = load_records(segments, upper).push(HexRecord::EndOfFile);
    if segments.len() == 0 {
        assert(records.first() is EndOfFile);
        assert(records.drop_first() =~= Seq::<HexRecord>::empty());
        assert(switches_only_on_change(upper, Seq::<HexRecord>::empty()));
    } else {
        let first = segments.first();
        let paddr = first.paddr as int;
        let next = upper_after(paddr, first.bytes.len() as int, upper);
        let rest = load_records(segments.drop_first(), next).push(HexRecord::EndOfFile);
        lemma_load_switches(segments.drop_first(), next);
        assert(records =~= segment_records(paddr, first.bytes, 0, upper) + rest);
        lemma_segment_switches(paddr, first.bytes, 0, upper, rest);
    }
}

/// An address record comes before the first data record and after that only where the
/// upper address half changes.
pub proof fn law_address_records_are_needed(segments: Seq<LoadedSegment>)
    ensures
        switches_only_on_change(None, object_records(segments)),
{
    lemma_load_switches(segments, None);
}

/// The number of data bytes that records hold.
pub open spec fn data_len(records: Seq<HexRecord>) -> int
    decreases records.len(),
{
    if records.len() == 0 {
        0
    } else {
        data_len(records.drop_last()) + match records.last() {
            HexRecord::Data { value, .. } => value.len() as int,
            _ => 0,
        }
    }
}

/// The upper address half that the last address record names, or else `upper`.
pub open spec fn upper_in_force(upper: Option<u16>, records: Seq<HexRecord>) -> Option<u16>
    decreases records.len(),
{
    if records.len() == 0 {
        upper
    } else {
        match records.last() {
            HexRecord::ExtendedLinearAddress(next) => Some(next),
            _ => upper_in_force(upper, records.drop_last()),
        }
    }
}

/// The number of bytes of a list of segments.
pub open spec fn total_len(segments: Seq<LoadedSegment>) -> int
    decreases segments.len(),
{
    if segments.len() == 0 {
        0
    } else {
        total_len(segments.drop_last()) + segments.last().bytes.len()
    }
}

/// Whether a record, where `upper` is the upper address half in force, is the piece of a
/// segment that starts with byte `k`: it holds the bytes from there on, has their 32-bit
/// address, and ends after 16 bytes, at the end of a 64 KiB page or at the end of the
/// segment, whichever comes first.
pub open spec fn is_piece(
    record: HexRecord,
    upper: Option<u16>,
    segment: LoadedSegment,
    k: int,
) -> bool {
    let place = (segment.paddr + k) % 0x1_0000_0000;
    &&& record matches HexRecord::Data { offset, value }
    &&& 0 <= k < segment.bytes.len()
    &&& 0 < value.len() <= 16
    &&& offset + value.len() <= 0x1_0000
    &&& k + value.len() <= segment.bytes.len()
    &&& value.len() == 16 || offset + value.len() == 0x1_0000 || k + value.len()
        == segment.bytes.len()
    &&& value == segment.bytes.subrange(k, k + value.len())
    &&& upper matches Some(upper)
    &&& upper * 0x1_0000 + offset == place
}

proof fn lemma_data_len_add(one: Seq<HexRecord>, other: Seq<HexRecord>)
    ensures
        data_len(one + other) == data_len(one) + data_len(other),
    decreases other.len(),
{
    if other.len() == 0 {
        assert(one + other =~= one);
    } else {
        lemma_data_len_add(one, other.drop_last());
        assert((one + other).drop_last() =~= one + other.drop_last());
    }
}

proof fn lemma_upper_in_force_add(
    upper: Option<u16>,
    one: Seq<HexRecord>,
    other: Seq<HexRecord>,
)
    ensures
        upper_in_force(upper, one + other) == upper_in_force(upper_in_force(upper, one), other),
    decreases other.len(),
{
    if other.len() == 0 {
        assert(one + other =~= one);
    } else {
        lemma_upper_in_force_add(upper, one, other.drop_last());
        assert((one + other).drop_last() =~= one + other.drop_last());
    }
}

/// What the records of one chunk hold and leave in force.
proof fn lemma_chunk_totals(paddr: int, bytes: Seq<u8>, offset: int, upper: Option<u16>)
    requires
        0 <= paddr,
        0 <= offset < bytes.len(),
    ensures
        ({
            let head = chunk_records(paddr, bytes, offset, upper);
            &&& data_len(head) == chunk_len(paddr, offset, bytes.len() as int)
            &&& upper_in_force(upper, head) == Some(upper_half(paddr, offset))
        }),
{
    let head = chunk_records(paddr, bytes, offset, upper);
    lemma_chunk_in_page(paddr, offset, bytes.len() as int);
    reveal_with_fuel(data_len, 3);
    reveal_with_fuel(upper_in_force, 3);
    if upper == Some(upper_half(paddr, offset)) {
        assert(head.drop_last() =~= Seq::<HexRecord>::empty());
    } else {
        assert(head.drop_last() =~= seq![
            HexRecord::ExtendedLinearAddress(upper_half(paddr, offset)),
        ]);
        assert(head.drop_last().drop_last() =~= Seq::<HexRecord>::empty());
    }
}

proof fn lemma_segment_totals(paddr: int, bytes: Seq<u8>, offset: int, upper: Option<u16>)
    requires
        0 <= paddr,
        0 <= offset <= bytes.len(),
    ensures
        data_len(segment_records(paddr, bytes, offset, upper)) == bytes.len() - offset,
        upper_in_force(upper, segment_records(paddr, bytes, offset, upper)) == if offset
            < bytes.len() {
            Some(upper_half(paddr, bytes.len() - 1))
        } else {
            upper
        },
    decreases bytes.len() - offset,
{
    if offset < bytes.len() {
        let n = chunk_len(paddr, offset, bytes.len() as int);
        let here = upper_half(paddr, offset);
        let head = chunk_records(paddr, bytes, offset, upper);
        let rest = segment_records(paddr, bytes, offset + n, Some(here));
        lemma_chunk_in_page(paddr, offset, bytes.len() as int);
        lemma_chunk_totals(paddr, bytes, offset, upper);
        lemma_segment_totals(paddr, bytes, offset + n, Some(here));
        lemma_data_len_add(head, rest);
        lemma_upper_in_force_add(upper, head, rest);
        if offset + n == bytes.len() {
            lemma_upper_after_chunk(paddr, offset, bytes.len() as int, upper);
        }
    }
}

/// The first data record of a chunk is the piece that starts at its offset.
proof fn lemma_chunk_piece(segment: LoadedSegment, offset: int)
    requires
        0 <= offset < segment.bytes.len(),
    ensures
        ({
            let paddr = segment.paddr as int;
            let n = chunk_len(paddr, offset, segment.bytes.len() as int);
            let data = HexRecord::Data {
                offset: lower_half(paddr, offset),
                value: segment.bytes.subrange(offset, offset + n),
            };
            is_piece(data, Some(upper_half(paddr, offset)), segment, offset)
        }),
{
    let paddr = segment.paddr as int;
    lemma_chunk_in_page(paddr, offset, segment.bytes.len() as int);
    let a = address(paddr, offset);
    assert(a == (a / 0x1_0000) * 0x1_0000 + a % 0x1_0000);
}

proof fn lemma_segment_piece(
    segment: LoadedSegment,
    offset: int,
    upper: Option<u16>,
    j: int,
)
    requires
        0 <= offset <= segment.bytes.len(),
        ({
            let records = segment_records(segment.paddr as int, segment.bytes, offset, upper);
            0 <= j < records.len() && records[j] is Data
        }),
    ensures
        ({
            let records = segment_records(segment.paddr as int, segment.bytes, offset, upper);
            is_piece(
                records[j],
                upper_in_force(upper, records.take(j)),
                segment,
                offset + data_len(records.take(j)),
            )
        }),
    decreases segment.bytes.len() - offset,
{
    let paddr = segment.paddr as int;
    let bytes = segment.bytes;
    let records = segment_records(paddr, bytes, offset, upper);
    if offset < bytes.len() {
        let n = chunk_len(paddr, offset, bytes.len() as int);
        let here = upper_half(paddr, offset);
        let head = chunk_records(paddr, bytes, offset, upper);
        let rest = segment_records(paddr, bytes, offset + n, Some(here));
        lemma_chunk_in_page(paddr, offset, bytes.len() as int);
        if j < head.len() {
            lemma_chunk_piece(segment, offset);
            reveal_with_fuel(data_len, 2);
            reveal_with_fuel(upper_in_force, 2);
            assert(records[j] == head[j]);
            if upper == Some(here) {
                assert(records.take(j) =~= Seq::<HexRecord>::empty());
            } else {
                assert(records.take(j) =~= seq![HexRecord::ExtendedLinearAddress(here)]);
                assert(records.take(j).drop_last() =~= Seq::<HexRecord>::empty());
            }
        } else {
            let inner = j - head.len();
            assert(records[j] == rest[inner]);
            assert(records.take(j) =~= head + rest.take(inner));
            lemma_chunk_totals(paddr, bytes, offset, upper);
            lemma_data_len_add(head, rest.take(inner));
            lemma_upper_in_force_add(upper, head, rest.take(inner));
            lemma_segment_piece(segment, offset + n, Some(here), inner);
        }
    }
}

/// The records of one segment hold its bytes once and in their order: where `k` of them
/// come before a data record, that record is the piece of the segment that starts with byte
/// `k`.
pub proof fn law_segment_is_cut_into_pieces(
    segment: LoadedSegment,
    upper: Option<u16>,
    j: int,
)
    requires
        0 <= j < segment_records(segment.paddr as int, segment.bytes, 0, upper).len(),
    ensures
        ({
            let records = segment_records(segment.paddr as int, segment.bytes, 0, upper);
            records[j] is Data ==> is_piece(
                records[j],
                upper_in_force(upper, records.take(j)),
                segment,
                data_len(records.take(j)),
            )
        }),
{
    if segment_records(segment.paddr as int, segment.bytes, 0, upper)[j] is Data {
        lemma_segment_piece(segment, 0, upper, j);
    }
}

/// The records of one segment hold as many bytes as the segment, and leave in force the
/// upper address half that the last address record names.
pub proof fn law_segment_is_held_completely(segment: LoadedSegment, upper: Option<u16>)
    ensures
        ({
            let records = segment_records(segment.paddr as int, segment.bytes, 0, upper);
            &&& data_len(records) == segment.bytes.len()
            &&& upper_after(segment.paddr as int, segment.bytes.len() as int, upper)
                == upper_in_force(upper, records)
        }),
{
    lemma_segment_totals(segment.paddr as int, segment.bytes, 0, upper);
}

/// The records of one segment are data and address records, and an address record comes
/// only where the upper half changes.
pub proof fn law_segment_switches_only_on_change(segment: LoadedSegment, upper: Option<u16>)
    ensures
        switches_only_on_change(
            upper,
            segment_records(segment.paddr as int, segment.bytes, 0, upper),
        ),
        forall|j: int|
            0 <= j < segment_records(segment.paddr as int, segment.bytes, 0, upper).len() ==> !(
            #[trigger] segment_records(segment.paddr as int, segment.bytes, 0, upper)[j]
                is EndOfFile),
{
    let paddr = segment.paddr as int;
    let records = segment_records(paddr, segment.bytes, 0, upper);
    lemma_segment_switches(paddr, segment.bytes, 0, upper, Seq::<HexRecord>::empty());
    assert(records + Seq::<HexRecord>::empty() =~= records);
    lemma_segment_bounds(paddr, segment.bytes, 0, upper);
}

/// The upper address half in force after the records of some segments is the one that the
/// last address record names.
proof fn lemma_load_totals(segments: Seq<LoadedSegment>, upper: Option<u16>)
    ensures
        data_len(load_records(segments, upper)) == total_len(segments),
        load_upper(segments, upper) == upper_in_force(upper, load_records(segments, upper)),
    decreases segments.len(),
{
    if segments.len() > 0 {
        let before = segments.drop_last();
        let last = segments.last();
        assert(before.push(last) =~= segments);
        lemma_load_totals(before, upper);
        lemma_load_one_more(before, last, upper);
        let middle = load_upper(before, upper);
        let tail = segment_records(last.paddr as int, last.bytes, 0, middle);
        lemma_segment_totals(last.paddr as int, last.bytes, 0, middle);
        lemma_data_len_add(load_records(before, upper), tail);
        lemma_upper_in_force_add(upper, load_records(before, upper), tail);
    }
}

/// Whether byte `k` of segment `s` is the one that comes after `count` bytes.
pub open spec fn is_byte_after(
    segments: Seq<LoadedSegment>,
    count: int,
    s: int,
    k: int,
) -> bool {
    &&& 0 <= s < segments.len()
    &&& 0 <= k < segments[s].bytes.len()
    &&& total_len(segments.take(s)) + k == count
}

proof fn lemma_load_piece(segments: Seq<LoadedSegment>, upper: Option<u16>, j: int)
    requires
        0 <= j < load_records(segments, upper).len(),
        load_records(segments, upper)[j] is Data,
    ensures
        ({
            let records = load_records(segments, upper);
            exists|s: int, k: int| #[trigger]
                is_byte_after(segments, data_len(records.take(j)), s, k) && is_piece(
                    records[j],
                    upper_in_force(upper, records.take(j)),
                    segments[s],
                    k,
                )
        }),
    decreases segments.len(),
{
    let records = load_records(segments, upper);
    let before = segments.drop_last();
    let last = segments.last();
    assert(before.push(last) =~= segments);
    lemma_load_one_more(before, last, upper);
    let front = load_records(before, upper);
    let middle = load_upper(before, upper);
    let tail = segment_records(last.paddr as int, last.bytes, 0, middle);
    if j < front.len() {
        lemma_load_piece(before, upper, j);
        assert(records.take(j) =~= front.take(j));
        let (s, k) = choose|s: int, k: int| #[trigger]
            is_byte_after(before, data_len(front.take(j)), s, k) && is_piece(
                front[j],
                upper_in_force(upper, front.take(j)),
                before[s],
                k,
            );
        assert(segments.take(s) =~= before.take(s));
        assert(is_byte_after(segments, data_len(records.take(j)), s, k));
    } else {
        let inner = j - front.len();
        assert(records[j] == tail[inner]);
        assert(records.take(j) =~= front + tail.take(inner));
        lemma_load_totals(before, upper);
        lemma_data_len_add(front, tail.take(inner));
        lemma_upper_in_force_add(upper, front, tail.take(inner));
        lemma_segment_piece(last, 0, middle, inner);
        let s = segments.len() - 1;
        assert(segments.take(s) =~= before);
        assert(is_byte_after(
            segments,
            data_len(records.take(j)),
            s,
            data_len(tail.take(inner)),
        ));
    }
}

/// The object file holds the bytes of the segments once and in their order: where some of
/// them come before a data record, that record is the piece of a segment that starts with
/// the next byte.
pub proof fn law_object_file_is_cut_into_pieces(segments: Seq<LoadedSegment>, j: int)
    requires
        0 <= j < object_records(segments).len(),
        object_records(segments)[j] is Data,
    ensures
        ({
            let records = object_records(segments);
            exists|s: int, k: int| #[trigger]
                is_byte_after(segments, data_len(records.take(j)), s, k) && is_piece(
                    records[j],
                    upper_in_force(None, records.take(j)),
                    segments[s],
                    k,
                )
        }),
{
    let loaded = load_records(segments, None);
    assert(object_records(segments).take(j) =~= loaded.take(j));
    lemma_load_piece(segments, None, j);
}

/// The object file holds as many bytes as the segments.
pub proof fn law_object_file_is_complete(segments: Seq<LoadedSegment>)
    ensures
        data_len(object_records(segments)) == total_len(segments),
{
    lemma_load_totals(segments, None);
    assert(object_records(segments).drop_last() =~= load_records(segments, None));
}

/// Whether the lower 32 bits of a start and of an offset have a sum that fits in 32 bits.
pub open spec fn sum_fits(paddr: u64, offset: int) -> bool {
    paddr % 0x1_0000_0000 + offset % 0x1_0000_0000 < 0x1_0000_0000
}

/// The addresses of a segment fit exactly where the lower 32 bits of its start and of every
/// offset into it have a sum that fits in 32 bits.
pub proof fn law_addresses_fit_where_no_sum_overflows(paddr: u64, len: int)
    requires
        0 <= len,
    ensures
        addresses_fit(paddr, len) <==> forall|offset: int|
            0 <= offset < len ==> #[trigger] sum_fits(paddr, offset),
{
    let low = paddr as int % 0x1_0000_0000;
    if low != 0 && low + len > 0x1_0000_0000 {
        assert(!sum_fits(paddr, 0x1_0000_0000 - low));
    }
}

/// Stored bytes are at the addresses that follow each other from `addr` on, if they are
/// not more than there are addresses, and all other addresses keep what they hold.
pub proof fn law_store_fills_consecutive_addresses(
    memory: Map<int, u8>,
    addr: int,
    bytes: Seq<u8>,
    place: int,
)
    requires
        bytes.len() <= 0x1_0000_0000,
    ensures
        forall|k: int|
            0 <= k < bytes.len() && (addr + k) % 0x1_0000_0000 == place ==> store(
                memory,
                addr,
                bytes,
            ).contains_pair(place, #[trigger] bytes[k]),
        (forall|k: int|
            0 <= k < bytes.len() ==> #[trigger] ((addr + k) % 0x1_0000_0000) != place) ==> {
            &&& store(memory, addr, bytes).contains_key(place) == memory.contains_key(place)
            &&& store(memory, addr, bytes)[place] == memory[place]
        },
{
    assert forall|k: int|
        0 <= k < bytes.len() && (addr + k) % 0x1_0000_0000 == place implies store(
        memory,
        addr,
        bytes,
    ).contains_pair(place, #[trigger] bytes[k]) by {
        assert forall|later: int| k < later < bytes.len() implies #[trigger] address(addr, later)
            != address(addr, k) by {
            assert(0 < later - k < 0x1_0000_0000);
        }
        lemma_store_puts(memory, addr, bytes, k);
    }
    if forall|k: int|
        0 <= k < bytes.len() ==> #[trigger] ((addr + k) % 0x1_0000_0000) != place {
        assert forall|k: int| 0 <= k < bytes.len() implies #[trigger] address(addr, k)
            != place by {
            assert((addr + k) % 0x1_0000_0000 != place);
        }
        lemma_store_keeps(memory, addr, bytes, place);
    }
}

/// A reader of Intel HEX stores the bytes of a data record at its address, whose upper half
/// is the one in force, takes the upper half of an address record to be in force from there
/// on, and stops at the end of the file.
pub proof fn law_reader_follows_each_record(
    memory: Map<int, u8>,
    upper: u16,
    record: HexRecord,
    rest: Seq<HexRecord>,
)
    ensures
        ({
            let after = follow_records(memory, upper, seq![record] + rest);
            match record {
                HexRecord::Data { offset, value } => after == follow_records(
                    store(memory, upper * 0x1_0000 + offset, value),
                    upper,
                    rest,
                ),
                HexRecord::ExtendedLinearAddress(next) => after == follow_records(
                    memory,
                    next,
                    rest,
                ),
                HexRecord::EndOfFile => after == memory,
            }
        }),
        follow_records(memory, upper, seq![]) == memory,
{
    assert((seq![record] + rest).drop_first() =~= rest);
}

/// The value of a hexadecimal digit, or -1 for another character.
pub open spec fn digit_value(c: char) -> int {
    if '0' <= c <= '9' {
        c as int - 48
    } else if 'A' <= c <= 'F' {
        c as int - 55
    } else {
        -1
    }
}

/// The byte with the given index in the line of a record.
pub open spec fn line_byte(line: Seq<char>, i: int) -> int {
    0x10 * digit_value(line[1 + 2 * i]) + digit_value(line[2 + 2 * i])
}

/// The sum of the first `count` bytes in the line of a record.
pub open spec fn line_sum(line: Seq<char>, count: int) -> int
    decreases count,
{
    if count <= 0 {
        0
    } else {
        line_sum(line, count - 1) + line_byte(line, count - 1)
    }
}

proof fn lemma_line_bytes(line: Seq<char>, bytes: Seq<u8>, i: int)
    requires
        line == seq![':'] + hex_digits(bytes) + seq!['\n'],
        0 <= i < bytes.len(),
    ensures
        line_byte(line, i) == bytes[i],
        0 <= digit_value(line[1 + 2 * i]) < 0x10,
        0 <= digit_value(line[2 + 2 * i]) < 0x10,
{
    let digits = hex_digits(bytes);
    assert(line[1 + 2 * i] == digits[2 * i]);
    assert(line[2 + 2 * i] == digits[2 * i + 1]);
    assert((2 * i) / 2 == i && (2 * i) % 2 == 0);
    assert((2 * i + 1) / 2 == i && (2 * i + 1) % 2 == 1);
}

proof fn lemma_line_sum(line: Seq<char>, bytes: Seq<u8>, count: int)
    requires
        line == seq![':'] + hex_digits(bytes) + seq!['\n'],
        0 <= count <= bytes.len(),
    ensures
        line_sum(line, count) == byte_sum(bytes.take(count)),
    decreases count,
{
    if count > 0 {
        lemma_line_sum(line, bytes, count - 1);
        lemma_line_bytes(line, bytes, count - 1);
        assert(bytes.take(count).drop_last() =~= bytes.take(count - 1));
    }
}

/// What the line of some bytes looks like, and what it spells.
proof fn lemma_line_shape(line: Seq<char>, bytes: Seq<u8>)
    requires
        line == seq![':'] + hex_digits(bytes) + seq!['\n'],
    ensures
        line.len() == 2 + 2 * bytes.len(),
        line[0] == ':',
        line[line.len() - 1] == '\n',
        forall|i: int| 1 <= i < line.len() - 1 ==> 0 <= digit_value(#[trigger] line[i]) < 0x10,
        forall|i: int| 0 <= i < bytes.len() ==> line_byte(line, i) == #[trigger] bytes[i],
        line_sum(line, bytes.len() as int) == byte_sum(bytes),
{
    assert forall|i: int| 0 <= i < bytes.len() implies line_byte(line, i)
        == #[trigger] bytes[i] by {
        lemma_line_bytes(line, bytes, i);
    }
    assert forall|i: int| 1 <= i < line.len() - 1 implies 0 <= digit_value(#[trigger] line[i])
        < 0x10 by {
        lemma_line_bytes(line, bytes, (i - 1) / 2);
    }
    lemma_line_sum(line, bytes, bytes.len() as int);
    assert(bytes.take(bytes.len() as int) =~= bytes);
}

/// The sum of bytes with their checksum is a multiple of 256.
proof fn lemma_checksum(bytes: Seq<u8>)
    ensures
        byte_sum(bytes.push(checksum(bytes))) % 0x100 == 0,
{
    let sum = byte_sum(bytes);
    assert(bytes.push(checksum(bytes)).drop_last() =~= bytes);
    assert(checksum(bytes) == (0x100 - sum % 0x100) % 0x100);
    assert((sum + (0x100 - sum % 0x100) % 0x100) % 0x100 == 0);
}

/// A 16-bit number is made of its two bytes.
proof fn lemma_two_bytes(word: u16)
    ensures
        0x100 * ((word / 0x100) as u8) + ((word % 0x100) as u8) == word,
{
}

/// The four bytes in front of the data of a record.
proof fn lemma_record_head(record: HexRecord)
    ensures
        ({
            let bytes = record_bytes(record);
            &&& bytes.len() == 4 + data_field(record).len()
            &&& bytes[0] == data_field(record).len() as u8
            &&& 0x100 * bytes[1] + bytes[2] == address_field(record)
            &&& bytes[3] == type_field(record)
            &&& forall|k: int|
                0 <= k < data_field(record).len() ==> bytes[4 + k] == #[trigger] data_field(
                    record,
                )[k]
        }),
{
    lemma_two_bytes(address_field(record));
}

/// The line of a record can be read back: between its colon and its newline are pairs of
/// hexadecimal digits, which spell the number of data bytes, the address with the more
/// significant byte first, the type, the data, and a last byte that makes the sum of all
/// of them a multiple of 256.
#[verifier::rlimit(50)]
pub proof fn law_line_spells_its_record(record: HexRecord)
    requires
        record matches HexRecord::Data { value, .. } ==> value.len() <= 255,
    ensures
        ({
            let line = record_line(record);
            let count = line_byte(line, 0);
            &&& line.len() == 12 + 2 * count
            &&& line[0] == ':'
            &&& line[line.len() - 1] == '\n'
            &&& forall|i: int|
                1 <= i < line.len() - 1 ==> 0 <= digit_value(#[trigger] line[i]) < 0x10
            &&& line_sum(line, 5 + count) % 0x100 == 0
            &&& match record {
                HexRecord::Data { offset, value } => {
                    &&& count == value.len()
                    &&& 0x100 * line_byte(line, 1) + line_byte(line, 2) == offset
                    &&& line_byte(line, 3) == 0
                    &&& forall|k: int|
                        0 <= k < value.len() ==> line_byte(line, 4 + k) == #[trigger] value[k]
                },
                HexRecord::EndOfFile => {
                    &&& count == 0
                    &&& line_byte(line, 1) == 0
                    &&& line_byte(line, 2) == 0
                    &&& line_byte(line, 3) == 1
                },
                HexRecord::ExtendedLinearAddress(upper) => {
                    &&& count == 2
                    &&& line_byte(line, 1) == 0
                    &&& line_byte(line, 2) == 0
                    &&& line_byte(line, 3) == 4
                    &&& 0x100 * line_byte(line, 4) + line_byte(line, 5) == upper
                },
            }
        }),
{
    let line = record_line(record);
    let bytes = record_bytes(record);
    let data = data_field(record);
    let all = bytes.push(checksum(bytes));
    lemma_line_shape(line, all);
    lemma_checksum(bytes);
    lemma_record_head(record);
    assert(all[0] == bytes[0] && all[1] == bytes[1] && all[2] == bytes[2] && all[3] == bytes[3]);
    assert forall|k: int| 0 <= k < data.len() implies line_byte(line, 4 + k)
        == #[trigger] data[k] by {
        assert(all[4 + k] == bytes[4 + k]);
    }
    if let HexRecord::ExtendedLinearAddress(upper) = record {
        lemma_two_bytes(upper);
        assert(line_byte(line, 4int + 0) == data[0]);
        assert(line_byte(line, 4int + 1) == data[1]);
    }
}

/// The text of an object file is the lines of its records, one behind the other.
pub proof fn law_text_is_the_lines_in_order(records: Seq<HexRecord>, record: HexRecord)
    ensures
        ihex_text(seq![]) == Seq::<char>::empty(),
        ihex_text(records.push(record)) == ihex_text(records) + record_line(record),
{
    assert(records.push(record).drop_last() =~= records);
}

/// A record stands for the fields that it holds.
pub proof fn law_record_stands_for_its_fields(record: Record)
    ensures
        match record {
            Record::Data { offset, value } => record.deep_view() == (HexRecord::Data {
                offset,
                value: value@,
            }),
            Record::EndOfFile => record.deep_view() == HexRecord::EndOfFile,
            Record::ExtendedLinearAddress(upper) => record.deep_view()
                == HexRecord::ExtendedLinearAddress(upper),
        },
{
}

} // verus!
