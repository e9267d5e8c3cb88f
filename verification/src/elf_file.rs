//! Utilities to work with ELF files.

use crate::hex::{
    address, addresses_fit, append_segment, byte_sum, checksum, follow_records, ihex_text,
    law_bytes_reach_their_addresses, law_nothing_else_is_written, law_records_form_an_object_file,
    law_records_mean_segments, lemma_load_one_more, load_records, load_segments, load_upper,
    not_overwritten, object_file_representation, object_records, record_bytes, HexRecord, LoadedSegment,
    Record, ADDRESS_SPACE,
};
use elf::endian::AnyEndian;
use elf::{ElfBytes, ParseError};
use vstd::prelude::*;

verus! {

/// The type of a segment that is loaded into memory.
pub const PT_LOAD: u32 = 1;

/// The error of the `elf` crate.
#[verifier::external_type_specification]
#[verifier::external_body]
pub struct ExParseError(elf::ParseError);

/// Why an ELF file could not be turned into Intel HEX.
#[derive(Debug)]
pub enum ElfToHexError {
    /// The data is no ELF file.
    Parse(ParseError),
    /// The bytes of a segment do not lie inside the file.
    SegmentData(ParseError),
    /// The records could not be written.
    Representation(ihex::WriterError),
}

impl ElfToHexError {
    /// What could not be done, for the user.
    pub fn context(&self) -> (message: &'static str)
        ensures
            message@ == match *self {
                ElfToHexError::Parse(_) => "Cannot parse ELF file"@,
                ElfToHexError::SegmentData(_) => "Cannot read ELF segment data"@,
                ElfToHexError::Representation(_) => "Cannot create Intel HEX representation"@,
            },
    {
        match self {
            ElfToHexError::Parse(_) => "Cannot parse ELF file",
            ElfToHexError::SegmentData(_) => "Cannot read ELF segment data",
            ElfToHexError::Representation(_) => "Cannot create Intel HEX representation",
        }
    }
}

/// An entry of the program header table of an ELF file.
#[derive(Debug, Clone, Copy, PartialEq, Eq, Structural)]
pub struct ProgramHeader {
    /// Type of the segment.
    pub p_type: u32,
    /// Offset of the segment in the file.
    pub p_offset: u64,
    /// Virtual address of the segment.
    pub p_vaddr: u64,
    /// Physical address of the segment.
    pub p_paddr: u64,
    /// Number of bytes of the segment in the file.
    pub p_filesz: u64,
    /// Number of bytes of the segment in memory.
    pub p_memsz: u64,
    /// Flags of the segment.
    pub p_flags: u32,
    /// Alignment in the file and in memory.
    pub p_align: u64,
}

/// A segment of an ELF file: its header, and its bytes if they could be read.
#[derive(Debug)]
pub struct Segment<'a> {
    /// The header.
    pub header: ProgramHeader,
    /// The bytes in the file.
    pub data: Result<&'a [u8], ParseError>,
}

/// The mathematical value of a [`Segment`].
pub struct SegmentView {
    /// The header.
    pub header: ProgramHeader,
    /// The bytes, if they could be read.
    pub bytes: Option<Seq<u8>>,
}

impl<'a> DeepView for Segment<'a> {
    type V = SegmentView;

    open spec fn deep_view(&self) -> SegmentView {
        SegmentView {
            header: self.header,
            bytes: match self.data {
                Ok(bytes) => Some(bytes@),
                Err(_) => None,
            },
        }
    }
}

/// Whether the data is long enough for an ELF file header and starts with the magic
/// number of ELF files.
pub open spec fn has_elf_magic(data: Seq<u8>) -> bool {
    &&& data.len() >= 52
    &&& data[0] == 0x7F
    &&& data[1] == 0x45
    &&& data[2] == 0x4C
    &&& data[3] == 0x46
}

/// What the `elf` crate reads from a file: `None` if `ElfBytes::minimal_parse` fails,
/// else the headers of the table that `ElfBytes::segments` returns, if there is one.
pub uninterp spec fn elf_program_headers(data: Seq<u8>) -> Option<Option<Seq<ProgramHeader>>>;

/// Calls `elf::ElfBytes::minimal_parse` and `elf::ElfBytes::segments`, and copies the
/// headers that the table yields. The contract claims that all of this is a function of
/// the data, and that what has no ELF magic number is refused. It does not say which
/// error comes with a refusal.
#[verifier::external_body]
fn program_headers(data: &[u8]) -> (headers: Result<Option<Vec<ProgramHeader>>, ParseError>)
    ensures
        match headers {
            Ok(Some(headers)) => elf_program_headers(data@) == Some(Some(headers@)),
            Ok(None) => elf_program_headers(data@) == Some(None::<Seq<ProgramHeader>>),
            Err(_) => elf_program_headers(data@) is None,
        },
        headers is Ok ==> has_elf_magic(data@),
{
    let file = ElfBytes::<AnyEndian>::minimal_parse(data)?;
    Ok(file.segments().map(|table| table.iter().map(|header| ProgramHeader {
        p_type: header.p_type,
        p_offset: header.p_offset,
        p_vaddr: header.p_vaddr,
        p_paddr: header.p_paddr,
        p_filesz: header.p_filesz,
        p_memsz: header.p_memsz,
        p_flags: header.p_flags,
        p_align: header.p_align,
    }).collect()))
}

/// The bytes of a segment, if they lie inside the file.
pub open spec fn segment_bytes(data: Seq<u8>, header: ProgramHeader) -> Option<Seq<u8>> {
    let end = header.p_offset + header.p_filesz;
    if end <= data.len() {
        Some(data.subrange(header.p_offset as int, end))
    } else {
        None
    }
}

/// Calls `elf::ElfBytes::segment_data` on the file that `elf::ElfBytes::minimal_parse`
/// finds in the data. The contract claims that this yields the bytes of the file from
/// `p_offset` on, `p_filesz` of them, and fails if they do not lie inside the file or if
/// the data is no ELF file. It does not say which error comes then.
#[verifier::external_body]
fn segment_data<'a>(data: &'a [u8], header: &ProgramHeader) -> (bytes: Result<
    &'a [u8],
    ParseError,
>)
    ensures
        match bytes {
            Ok(bytes) => segment_bytes(data@, *header) == Some(bytes@),
            Err(_) => elf_program_headers(data@) is None || segment_bytes(data@, *header) is None,
        },
        elf_program_headers(data@) is None ==> bytes is Err,
{
    ElfBytes::<AnyEndian>::minimal_parse(data)?.segment_data(&elf::segment::ProgramHeader {
        p_type: header.p_type,
        p_offset: header.p_offset,
        p_vaddr: header.p_vaddr,
        p_paddr: header.p_paddr,
        p_filesz: header.p_filesz,
        p_memsz: header.p_memsz,
        p_flags: header.p_flags,
        p_align: header.p_align,
    })
}

/// The segments of an ELF file, or `None` if the data is no ELF file.
pub open spec fn elf_segments(data: Seq<u8>) -> Option<Seq<SegmentView>> {
    match elf_program_headers(data) {
        None => None,
        Some(None) => Some(seq![]),
        Some(Some(headers)) => Some(
            headers.map_values(
                |header: ProgramHeader| SegmentView { header, bytes: segment_bytes(data, header) },
            ),
        ),
    }
}

/// Reads the segments of an ELF file.
pub fn read_segments<'a>(data: &'a [u8]) -> (segments: Result<Vec<Segment<'a>>, ElfToHexError>)
    ensures
        match segments {
            Ok(segments) => elf_segments(data@) == Some(segments.deep_view()),
            Err(error) => elf_segments(data@) is None && error is Parse,
        },
        !has_elf_magic(data@) ==> segments is Err,
{
    let table = match program_headers(data) {
        Ok(table) => table,
        Err(error) => return Err(ElfToHexError::Parse(error)),
    };
    let mut segments: Vec<Segment<'a>> = Vec::new();
    if let Some(headers) = table {
        let ghost views = elf_segments(data@).unwrap();
        let mut i: usize = 0;
        while i < headers.len()
            invariant
                i <= headers.len(),
                elf_program_headers(data@) == Some(Some(headers@)),
                elf_segments(data@) == Some(views),
                segments.deep_view() == views.take(i as int),
            decreases headers.len() - i,
        {
            let header = headers[i];
            let bytes = segment_data(data, &header);
            let ghost earlier = segments.deep_view();
            let segment = Segment { header, data: bytes };
            segments.push(segment);
            proof {
                assert(segment.deep_view() == views[i as int]);
                assert(segments.deep_view() =~= earlier.push(segment.deep_view()));
                assert(views.take(i + 1) =~= views.take(i as int).push(views[i as int]));
            }
            i += 1;
        }
        proof {
            assert(views.take(views.len() as int) =~= views);
        }
    } else {
        proof {
            assert(segments.deep_view() =~= seq![]);
        }
    }
    Ok(segments)
}

/// Whether a segment has bytes that are loaded into memory.
pub open spec fn is_loadable(header: ProgramHeader) -> bool {
    header.p_type == PT_LOAD && header.p_filesz != 0
}

/// Whether the bytes of every segment that is to be loaded could be read.
pub open spec fn all_readable(segments: Seq<SegmentView>) -> bool {
    forall|i: int|
        0 <= i < segments.len() ==> (is_loadable(#[trigger] segments[i].header) ==> segments[i].bytes
            is Some)
}

/// What is loaded into memory: the segments to load, in the order of their headers.
pub open spec fn loaded(segments: Seq<SegmentView>) -> Seq<LoadedSegment> {
    segments.filter(|segment: SegmentView| is_loadable(segment.header)).map_values(
        |segment: SegmentView|
            LoadedSegment { paddr: segment.header.p_paddr, bytes: segment.bytes.unwrap() },
    )
}

/// One more segment is loaded behind the others, if it is to be loaded at all.
proof fn lemma_loaded_one_more(segments: Seq<SegmentView>, last: SegmentView)
    ensures
        loaded(segments.push(last)) == if is_loadable(last.header) {
            loaded(segments).push(
                LoadedSegment { paddr: last.header.p_paddr, bytes: last.bytes.unwrap() },
            )
        } else {
            loaded(segments)
        },
{
    reveal(Seq::filter);
    let all = segments.push(last);
    assert(all.drop_last() =~= segments);
    if is_loadable(last.header) {
        assert(loaded(all) =~= loaded(segments).push(
            LoadedSegment { paddr: last.header.p_paddr, bytes: last.bytes.unwrap() },
        ));
    }
}

/// Whether 32-bit arithmetic yields the addresses of all records: those of each segment
/// to load that comes before the first unreadable one.
pub open spec fn records_fit(segments: Seq<SegmentView>) -> bool {
    forall|i: int|
        0 <= i < segments.len() && all_readable(#[trigger] segments.take(i + 1)) && is_loadable(
            segments[i].header,
        ) ==> addresses_fit(segments[i].header.p_paddr, segments[i].bytes.unwrap().len() as int)
}

/// Whether segment `i` is the first one to load whose bytes could not be read.
pub open spec fn first_unreadable(segments: Seq<SegmentView>, i: int) -> bool {
    &&& 0 <= i < segments.len()
    &&& all_readable(segments.take(i))
    &&& is_loadable(segments[i].header)
    &&& segments[i].bytes is None
}

proof fn lemma_one_more_readable(segments: Seq<SegmentView>, i: int)
    requires
        0 <= i < segments.len(),
        all_readable(segments.take(i)),
        is_loadable(segments[i].header) ==> segments[i].bytes is Some,
    ensures
        all_readable(segments.take(i + 1)),
{
    let taken = segments.take(i + 1);
    assert forall|j: int|
        0 <= j < taken.len() && is_loadable(#[trigger] taken[j].header) implies taken[j].bytes
        is Some by {
        if j < i {
            assert(taken[j] == segments.take(i)[j]);
        }
    }
}

/// Turns the segments of a file into the records of an object file. Fails with the error
/// of the first segment to load that could not be read.
#[verifier::rlimit(50)]
pub fn build_records<'a>(segments: Vec<Segment<'a>>) -> (records: Result<
    Vec<Record>,
    ElfToHexError,
>)
    requires
        records_fit(segments.deep_view()),
    ensures
        match records {
            Ok(records) => all_readable(segments.deep_view()) && records.deep_view()
                == object_records(loaded(segments.deep_view())),
            Err(error) => exists|i: int|
                #![trigger segments@[i]]
                first_unreadable(segments.deep_view(), i) && (segments@[i].data matches Err(cause)
                    && error == ElfToHexError::SegmentData(cause)),
        },
{
    let ghost views = segments.deep_view();
    let mut segments = segments;
    let ghost given = segments@;
    let mut records: Vec<Record> = Vec::new();
    let mut current_upper: Option<u16> = None;
    let mut i: usize = 0;
    proof {
        reveal(Seq::filter);
        assert(records.deep_view() =~= seq![]);
        assert(views.take(0) =~= seq![]);
        assert(loaded(views.take(0)) =~= seq![]);
    }
    #[verifier::loop_isolation(false)]
    while i < segments.len()
        invariant
            i <= segments.len(),
            segments@ == given,
            segments.deep_view() == views,
            views.len() == given.len(),
            records_fit(views),
            all_readable(views.take(i as int)),
            records.deep_view() == load_records(loaded(views.take(i as int)), None),
            current_upper == load_upper(loaded(views.take(i as int)), None),
        decreases segments.len() - i,
    {
        let header = segments[i].header;
        proof {
            assert(views.take(i + 1) =~= views.take(i as int).push(views[i as int]));
            assert(views[i as int] == given[i as int].deep_view());
            lemma_loaded_one_more(views.take(i as int), views[i as int]);
        }
        if header.p_type == PT_LOAD && header.p_filesz != 0 {
            match segments[i].data {
                Ok(bytes) => {
                    proof {
                        lemma_one_more_readable(views, i as int);
                        lemma_load_one_more(
                            loaded(views.take(i as int)),
                            LoadedSegment { paddr: header.p_paddr, bytes: bytes@ },
                            None,
                        );
                    }
                    append_segment(&mut records, &mut current_upper, header.p_paddr, bytes);
                },
                Err(_) => {
                    let segment = segments.swap_remove(i);
                    proof {
                        assert(segment == given[i as int]);
                        assert(first_unreadable(views, i as int));
                    }
                    if let Err(cause) = segment.data {
                        return Err(ElfToHexError::SegmentData(cause));
                    }
                },
            }
        } else {
            proof {
                lemma_one_more_readable(views, i as int);
            }
        }
        i += 1;
    }
    proof {
        assert(views.take(views.len() as int) =~= views);
    }
    let ghost before = records.deep_view();
    records.push(Record::EndOfFile);
    proof {
        assert(records.deep_view() =~= before.push(HexRecord::EndOfFile));
    }
    Ok(records)
}

/// Tells whether 32-bit arithmetic yields the addresses of all records that the segments
/// call for.
#[verifier::rlimit(50)]
pub fn check_addresses<'a>(segments: &Vec<Segment<'a>>) -> (fit: bool)
    ensures
        fit == records_fit(segments.deep_view()),
{
    let ghost views = segments.deep_view();
    let mut i: usize = 0;
    proof {
        assert(views.take(0) =~= seq![]);
    }
    while i < segments.len()
        invariant
            i <= segments.len(),
            segments.deep_view() == views,
            views.len() == segments.len(),
            all_readable(views.take(i as int)),
            forall|j: int|
                0 <= j < i && all_readable(#[trigger] views.take(j + 1)) && is_loadable(
                    views[j].header,
                ) ==> addresses_fit(views[j].header.p_paddr, views[j].bytes.unwrap().len() as int),
        decreases segments.len() - i,
    {
        let header = segments[i].header;
        assert(views[i as int] == segments@[i as int].deep_view());
        if header.p_type == PT_LOAD && header.p_filesz != 0 {
            match segments[i].data {
                Ok(bytes) => {
                    let low: u64 = header.p_paddr % ADDRESS_SPACE;
                    if low != 0 && bytes.len() as u64 > ADDRESS_SPACE - low {
                        proof {
                            lemma_one_more_readable(views, i as int);
                            assert(!addresses_fit(header.p_paddr, bytes@.len() as int));
                        }
                        return false;
                    }
                },
                Err(_) => {
                    proof {
                        assert forall|j: int|
                            0 <= j < views.len() && all_readable(#[trigger] views.take(j + 1))
                                && is_loadable(views[j].header) implies addresses_fit(
                            views[j].header.p_paddr,
                            views[j].bytes.unwrap().len() as int,
                        ) by {
                            if j >= i {
                                let taken = views.take(j + 1);
                                assert(taken[i as int] == views[i as int]);
                                assert(is_loadable(taken[i as int].header));
                            }
                        }
                    }
                    return true;
                },
            }
        }
        proof {
            lemma_one_more_readable(views, i as int);
        }
        i += 1;
    }
    true
}

/// Whether a result is what the conversion of these segments yields.
pub open spec fn converts_to(
    segments: Option<Seq<SegmentView>>,
    hex: Result<String, ElfToHexError>,
) -> bool {
    match segments {
        None => hex matches Err(error) && error is Parse,
        Some(segments) => if all_readable(segments) {
            hex matches Ok(text) && text@ == ihex_text(object_records(loaded(segments)))
        } else {
            hex matches Err(error) && error is SegmentData
        },
    }
}

/// Interprets the given data as an ELF file and returns it in Intel HEX format.
pub fn elf_to_hex(data: &[u8]) -> (hex: Result<String, ElfToHexError>)
    requires
        elf_segments(data@) matches Some(segments) ==> records_fit(segments),
    ensures
        converts_to(elf_segments(data@), hex),
        !has_elf_magic(data@) ==> (hex matches Err(error) && error is Parse),
{
    let segments = match read_segments(data) {
        Ok(segments) => segments,
        Err(error) => return Err(error),
    };
    let ghost views = segments.deep_view();
    let records = match build_records(segments) {
        Ok(records) => records,
        Err(error) => {
            proof {
                let i = choose|i: int|
                    #![trigger segments@[i]]
                    first_unreadable(views, i) && (segments@[i].data matches Err(cause) && error
                        == ElfToHexError::SegmentData(cause));
                assert(is_loadable(views[i].header));
            }
            return Err(error);
        },
    };
    proof {
        law_records_form_an_object_file(loaded(views));
    }
    match object_file_representation(&records) {
        Ok(text) => Ok(text),
        Err(error) => Err(ElfToHexError::Representation(error)),
    }
}

/// Does what [`elf_to_hex`] does, for any data: returns `None` where an address would
/// not fit in 32 bits.
pub fn try_elf_to_hex(data: &[u8]) -> (hex: Option<Result<String, ElfToHexError>>)
    ensures
        match hex {
            Some(hex) => converts_to(elf_segments(data@), hex) && (elf_segments(data@) matches Some(
                segments,
            ) ==> records_fit(segments)),
            None => elf_segments(data@) matches Some(segments) && !records_fit(segments),
        },
        elf_program_headers(data@) matches Some(Some(headers)) ==> program_is_below_4_gib(headers)
            ==> hex is Some,
        !has_elf_magic(data@) ==> (hex matches Some(Err(error)) && error is Parse),
{
    if let Ok(segments) = read_segments(data) {
        if !check_addresses(&segments) {
            proof {
                if let Some(Some(headers)) = elf_program_headers(data@) {
                    if program_is_below_4_gib(headers) {
                        law_program_below_4_gib_is_converted(data@, headers);
                    }
                }
            }
            return None;
        }
    }
    Some(elf_to_hex(data))
}

/// The object file for an ELF file holds its program: whoever follows the records leaves
/// memory as if each segment to load had been stored at its physical address, in the order
/// of the program headers.
pub proof fn law_hex_holds_the_program(
    data: Seq<u8>,
    segments: Seq<SegmentView>,
    memory: Map<int, u8>,
    start: u16,
)
    requires
        elf_segments(data) == Some(segments),
        all_readable(segments),
    ensures
        follow_records(memory, start, object_records(loaded(segments))) == load_segments(
            memory,
            loaded(segments),
        ),
{
    law_records_mean_segments(memory, start, loaded(segments));
}

/// What is loaded are bytes of the file: those that the program header of a segment to load
/// points at.
pub proof fn law_loaded_bytes_are_in_the_file(
    data: Seq<u8>,
    headers: Seq<ProgramHeader>,
    segments: Seq<SegmentView>,
    j: int,
)
    requires
        elf_program_headers(data) == Some(Some(headers)),
        elf_segments(data) == Some(segments),
        all_readable(segments),
        0 <= j < loaded(segments).len(),
    ensures
        exists|i: int|
            #![trigger headers[i]]
            0 <= i < headers.len() && is_loadable(headers[i]) && loaded(segments)[j].paddr
                == headers[i].p_paddr && loaded(segments)[j].bytes == data.subrange(
                headers[i].p_offset as int,
                headers[i].p_offset + headers[i].p_filesz,
            ),
{
    let to_load = segments.filter(|segment: SegmentView| is_loadable(segment.header));
    segments.lemma_filter_contains_rev(
        |segment: SegmentView| is_loadable(segment.header),
        to_load[j],
    );
    let i = choose|i: int| 0 <= i < segments.len() && segments[i] == to_load[j];
    assert(segments[i].header == headers[i]);
}

/// The segments of a file are those of its program headers, all of them and in their order.
/// Their bytes are the `p_filesz` bytes of the file from `p_offset` on, where the file has
/// that many.
pub proof fn law_segments_follow_the_headers(
    data: Seq<u8>,
    headers: Seq<ProgramHeader>,
    i: int,
)
    requires
        elf_program_headers(data) == Some(Some(headers)),
        0 <= i < headers.len(),
    ensures
        elf_segments(data) matches Some(segments) && {
            &&& segments.len() == headers.len()
            &&& segments[i].header == headers[i]
            &&& if headers[i].p_offset + headers[i].p_filesz <= data.len() {
                segments[i].bytes == Some(
                    data.subrange(
                        headers[i].p_offset as int,
                        headers[i].p_offset + headers[i].p_filesz,
                    ),
                )
            } else {
                segments[i].bytes is None
            }
        },
{
}

/// Data that is no ELF file has no segments to speak of, and a file without program headers
/// has none.
pub proof fn law_file_without_headers_has_no_segments(data: Seq<u8>)
    ensures
        elf_segments(data) is None <==> elf_program_headers(data) is None,
        elf_program_headers(data) == Some(None::<Seq<ProgramHeader>>) ==> elf_segments(data)
            == Some(Seq::<SegmentView>::empty()),
        elf_program_headers(data) == Some(Some(Seq::<ProgramHeader>::empty())) ==> elf_segments(
            data,
        ) == Some(Seq::<SegmentView>::empty()),
{
    if let Some(Some(headers)) = elf_program_headers(data) {
        if headers.len() == 0 {
            assert(elf_segments(data).unwrap() =~= Seq::<SegmentView>::empty());
        }
    }
}

/// Whether the bytes of the first `count` segments could be read, as far as they are of type
/// 1 and have bytes in the file.
pub open spec fn program_is_readable(segments: Seq<SegmentView>, count: int) -> bool {
    forall|j: int|
        #![trigger segments[j]]
        0 <= j < count && segments[j].header.p_type == 1 && segments[j].header.p_filesz != 0
            ==> segments[j].bytes is Some
}

/// Whether `positions` are those of the segments of type 1 with bytes in the file, all of
/// them and in their order, and `picked` holds the address and the bytes of each.
pub open spec fn picks_program(
    positions: Seq<int>,
    segments: Seq<SegmentView>,
    picked: Seq<LoadedSegment>,
) -> bool {
    &&& positions.len() == picked.len()
    &&& forall|j: int|
        #![trigger positions[j]]
        0 <= j < positions.len() ==> {
            &&& 0 <= positions[j] < segments.len()
            &&& segments[positions[j]].header.p_type == 1
            &&& segments[positions[j]].header.p_filesz != 0
            &&& picked[j].paddr == segments[positions[j]].header.p_paddr
            &&& segments[positions[j]].bytes == Some(picked[j].bytes)
        }
    &&& forall|j: int, later: int|
        0 <= j < later < positions.len() ==> #[trigger] positions[j] < #[trigger] positions[later]
    &&& forall|i: int|
        #![trigger segments[i]]
        0 <= i < segments.len() && segments[i].header.p_type == 1 && segments[i].header.p_filesz
            != 0 ==> positions.contains(i)
}

proof fn lemma_program_is_picked(segments: Seq<SegmentView>) -> (positions: Seq<int>)
    requires
        program_is_readable(segments, segments.len() as int),
    ensures
        picks_program(positions, segments, loaded(segments)),
    decreases segments.len(),
{
    if segments.len() == 0 {
        reveal(Seq::filter);
        assert(loaded(segments) =~= Seq::<LoadedSegment>::empty());
        Seq::<int>::empty()
    } else {
        let before = segments.drop_last();
        let last = segments.last();
        let at = segments.len() - 1;
        assert(before.push(last) =~= segments);
        assert forall|i: int|
            #![trigger before[i]]
            0 <= i < before.len() && before[i].header.p_type == 1 && before[i].header.p_filesz
                != 0 implies before[i].bytes is Some by {
            assert(before[i] == segments[i]);
        }
        let shorter = lemma_program_is_picked(before);
        lemma_loaded_one_more(before, last);
        let positions = if last.header.p_type == 1 && last.header.p_filesz != 0 {
            shorter.push(at)
        } else {
            shorter
        };
        assert forall|j: int| #![trigger positions[j]] 0 <= j < positions.len() implies {
            &&& 0 <= positions[j] < segments.len()
            &&& segments[positions[j]].header.p_type == 1
            &&& segments[positions[j]].header.p_filesz != 0
            &&& loaded(segments)[j].paddr == segments[positions[j]].header.p_paddr
            &&& segments[positions[j]].bytes == Some(loaded(segments)[j].bytes)
        } by {
            if j < shorter.len() {
                assert(positions[j] == shorter[j]);
                assert(before[shorter[j]] == segments[shorter[j]]);
            }
        }
        assert forall|j: int, later: int| 0 <= j < later < positions.len() implies #[trigger]
            positions[j] < #[trigger] positions[later] by {
            assert(positions[j] == shorter[j]);
            if later < shorter.len() {
                assert(positions[later] == shorter[later]);
            }
        }
        assert forall|i: int|
            #![trigger segments[i]]
            0 <= i < segments.len() && segments[i].header.p_type == 1 && segments[i].header.p_filesz
                != 0 implies positions.contains(i) by {
            if i < at {
                assert(before[i] == segments[i]);
                let j = choose|j: int| 0 <= j < shorter.len() && shorter[j] == i;
                assert(positions[j] == i);
            } else {
                assert(positions[shorter.len() as int] == i);
            }
        }
        positions
    }
}

/// Every segment of type 1 with bytes in the file is loaded, whatever its other header
/// fields are, once and in the order of the headers, and nothing else is.
pub proof fn law_whole_program_is_loaded(segments: Seq<SegmentView>)
    requires
        program_is_readable(segments, segments.len() as int),
    ensures
        exists|positions: Seq<int>| #[trigger]
            picks_program(positions, segments, loaded(segments)),
{
    let positions = lemma_program_is_picked(segments);
    assert(picks_program(positions, segments, loaded(segments)));
}

/// Whether the bytes of all program headers of type 1 lie inside the file.
pub open spec fn program_is_inside(data: Seq<u8>, headers: Seq<ProgramHeader>) -> bool {
    forall|i: int|
        #![trigger headers[i]]
        0 <= i < headers.len() && headers[i].p_type == 1 && headers[i].p_filesz != 0
            ==> headers[i].p_offset + headers[i].p_filesz <= data.len()
}

/// Every program header of type 1 with bytes in the file has a place in what is loaded: as
/// many such headers come before it as loaded segments come before its own, which has the
/// address that it names and the bytes of the file that it points at. There are as many
/// loaded segments as such headers.
pub proof fn law_every_program_header_is_loaded(data: Seq<u8>, headers: Seq<ProgramHeader>, i: int)
    requires
        elf_program_headers(data) == Some(Some(headers)),
        program_is_inside(data, headers),
        0 <= i < headers.len(),
        headers[i].p_type == 1,
        headers[i].p_filesz != 0,
    ensures
        elf_segments(data) matches Some(segments) && {
            let before = headers.take(i).filter(
                |header: ProgramHeader| header.p_type == 1 && header.p_filesz != 0,
            ).len() as int;
            let all = headers.filter(
                |header: ProgramHeader| header.p_type == 1 && header.p_filesz != 0,
            ).len();
            &&& loaded(segments).len() == all
            &&& before < all
            &&& loaded(segments)[before].paddr == headers[i].p_paddr
            &&& loaded(segments)[before].bytes == data.subrange(
                headers[i].p_offset as int,
                headers[i].p_offset + headers[i].p_filesz,
            )
        },
{
    let segments = elf_segments(data).unwrap();
    lemma_loaded_in_step(headers, segments, i);
    lemma_loaded_in_step(headers, segments, i + 1);
    lemma_loaded_in_step(headers, segments, headers.len() as int);
    assert(segments.take(i + 1) =~= segments.take(i).push(segments[i]));
    lemma_loaded_one_more(segments.take(i), segments[i]);
    lemma_loaded_prefix(segments, i + 1);
    let before = loaded(segments.take(i)).len() as int;
    let so_far = loaded(segments.take(i + 1));
    assert(loaded(segments)[before] == so_far[before]);
    assert(segments[i].header == headers[i]);
    assert(headers.take(headers.len() as int) =~= headers);
    assert(segments.take(segments.len() as int) =~= segments);
}

/// As many segments are loaded as there are headers of segments to load.
proof fn lemma_loaded_in_step(
    headers: Seq<ProgramHeader>,
    segments: Seq<SegmentView>,
    count: int,
)
    requires
        headers.len() == segments.len(),
        forall|i: int| 0 <= i < headers.len() ==> (#[trigger] segments[i]).header == headers[i],
        0 <= count <= headers.len(),
    ensures
        loaded(segments.take(count)).len() == headers.take(count).filter(
            |header: ProgramHeader| header.p_type == 1 && header.p_filesz != 0,
        ).len(),
    decreases count,
{
    reveal(Seq::filter);
    if count == 0 {
        assert(segments.take(0) =~= Seq::<SegmentView>::empty());
        assert(headers.take(0) =~= Seq::<ProgramHeader>::empty());
    } else {
        lemma_loaded_in_step(headers, segments, count - 1);
        assert(segments.take(count) =~= segments.take(count - 1).push(segments[count - 1]));
        lemma_loaded_one_more(segments.take(count - 1), segments[count - 1]);
        assert(headers.take(count).drop_last() =~= headers.take(count - 1));
    }
}

/// What is loaded of the first segments comes first in what is loaded of all.
proof fn lemma_loaded_prefix(segments: Seq<SegmentView>, count: int)
    requires
        0 <= count <= segments.len(),
    ensures
        loaded(segments.take(count)).len() <= loaded(segments).len(),
        loaded(segments.take(count)) == loaded(segments).take(
            loaded(segments.take(count)).len() as int,
        ),
    decreases segments.len(),
{
    if count == segments.len() {
        assert(segments.take(count) =~= segments);
        assert(loaded(segments).take(loaded(segments).len() as int) =~= loaded(segments));
    } else {
        let before = segments.drop_last();
        assert(before.push(segments.last()) =~= segments);
        assert(before.take(count) =~= segments.take(count));
        lemma_loaded_prefix(before, count);
        lemma_loaded_one_more(before, segments.last());
        let n = loaded(segments.take(count)).len() as int;
        assert(loaded(segments).take(n) =~= loaded(before).take(n));
    }
}

/// The segment that stops a conversion is the first one of type 1 with bytes in the file
/// whose bytes could not be read, and every list with such a segment has a first one.
pub proof fn law_first_unreadable_segment_stops(segments: Seq<SegmentView>, i: int)
    requires
        0 <= i < segments.len(),
    ensures
        first_unreadable(segments, i) <==> {
            &&& segments[i].header.p_type == 1
            &&& segments[i].header.p_filesz != 0
            &&& segments[i].bytes is None
            &&& program_is_readable(segments, i)
        },
        segments[i].header.p_type == 1 && segments[i].header.p_filesz != 0 && segments[i].bytes
            is None ==> exists|first: int| #[trigger] first_unreadable(segments, first) && first
            <= i,
    decreases i,
{
    lemma_readable_before(segments, i);
    if segments[i].header.p_type == 1 && segments[i].header.p_filesz != 0 && segments[i].bytes
        is None && !first_unreadable(segments, i) {
        let j = choose|j: int|
            #![trigger segments[j]]
            0 <= j < i && segments[j].header.p_type == 1 && segments[j].header.p_filesz != 0
                && segments[j].bytes is None;
        law_first_unreadable_segment_stops(segments, j);
    }
}

proof fn lemma_readable_before(segments: Seq<SegmentView>, count: int)
    requires
        0 <= count <= segments.len(),
    ensures
        all_readable(segments.take(count)) <==> program_is_readable(segments, count),
{
    let taken = segments.take(count);
    if all_readable(taken) {
        assert forall|j: int|
            #![trigger segments[j]]
            0 <= j < count && segments[j].header.p_type == 1 && segments[j].header.p_filesz
                != 0 implies segments[j].bytes is Some by {
            assert(taken[j] == segments[j]);
            assert(is_loadable(taken[j].header));
        }
    }
}

/// Whether a run of `len` bytes starts at a multiple of 4 GiB or ends, counted from the
/// multiple of 4 GiB before it, no later than 4 GiB.
pub open spec fn ends_within_4_gib(paddr: u64, len: int) -> bool {
    paddr % 0x1_0000_0000 == 0 || paddr % 0x1_0000_0000 + len <= 0x1_0000_0000
}

/// The addresses of the records fit exactly where each segment of type 1 with bytes in the
/// file keeps within 4 GiB. What comes after an unreadable segment does not matter.
pub proof fn law_records_fit_within_4_gib(segments: Seq<SegmentView>)
    ensures
        records_fit(segments) <==> forall|i: int|
            0 <= i < segments.len() && #[trigger] program_is_readable(segments, i + 1)
                && segments[i].header.p_type == 1 && segments[i].header.p_filesz != 0
                ==> ends_within_4_gib(
                segments[i].header.p_paddr,
                segments[i].bytes.unwrap().len() as int,
            ),
{
    if records_fit(segments) {
        assert forall|i: int|
            0 <= i < segments.len() && #[trigger] program_is_readable(segments, i + 1)
                && segments[i].header.p_type == 1 && segments[i].header.p_filesz
                != 0 implies ends_within_4_gib(
            segments[i].header.p_paddr,
            segments[i].bytes.unwrap().len() as int,
        ) by {
            lemma_readable_before(segments, i + 1);
            assert(all_readable(segments.take(i + 1)));
        }
    } else {
        let i = choose|i: int|
            0 <= i < segments.len() && all_readable(#[trigger] segments.take(i + 1))
                && is_loadable(segments[i].header) && !addresses_fit(
                segments[i].header.p_paddr,
                segments[i].bytes.unwrap().len() as int,
            );
        lemma_readable_before(segments, i + 1);
        assert(program_is_readable(segments, i + 1));
    }
}

/// Whether all program headers of type 1 end no later than 4 GiB.
pub open spec fn program_is_below_4_gib(headers: Seq<ProgramHeader>) -> bool {
    forall|i: int|
        #![trigger headers[i]]
        0 <= i < headers.len() && headers[i].p_type == 1 ==> headers[i].p_paddr
            + headers[i].p_filesz <= 0x1_0000_0000
}

/// A program below 4 GiB can be converted, however long its segments are: the addresses of
/// its records fit.
pub proof fn law_program_below_4_gib_is_converted(data: Seq<u8>, headers: Seq<ProgramHeader>)
    requires
        elf_program_headers(data) == Some(Some(headers)),
        program_is_below_4_gib(headers),
    ensures
        elf_segments(data) matches Some(segments) && records_fit(segments),
{
    let segments = elf_segments(data).unwrap();
    assert forall|i: int|
        0 <= i < segments.len() && all_readable(#[trigger] segments.take(i + 1)) && is_loadable(
            segments[i].header,
        ) implies addresses_fit(
        segments[i].header.p_paddr,
        segments[i].bytes.unwrap().len() as int,
    ) by {
        assert(segments.take(i + 1)[i] == segments[i]);
        assert(is_loadable(segments.take(i + 1)[i].header));
        assert(segments[i].header == headers[i]);
    }
}

/// What a conversion yields: a text exactly where the data is an ELF file and the bytes of
/// all its headers of type 1 lie inside it. That text is the object file for the loaded
/// segments.
pub proof fn law_conversion_fails_only_for_a_reason(
    data: Seq<u8>,
    hex: Result<String, ElfToHexError>,
)
    requires
        converts_to(elf_segments(data), hex),
    ensures
        match elf_program_headers(data) {
            None => hex matches Err(error) && error is Parse,
            Some(None) => hex matches Ok(text) && text@ == ":00000001FF\n"@,
            Some(Some(headers)) => if program_is_inside(data, headers) {
                hex matches Ok(text) && text@ == ihex_text(
                    object_records(loaded(elf_segments(data).unwrap())),
                )
            } else {
                hex matches Err(error) && error is SegmentData
            },
        },
{
    match elf_program_headers(data) {
        None => {},
        Some(None) => {
            lemma_empty_text();
        },
        Some(Some(headers)) => {
            let segments = elf_segments(data).unwrap();
            if program_is_inside(data, headers) {
                assert forall|i: int|
                    0 <= i < segments.len() && is_loadable(
                        #[trigger] segments[i].header,
                    ) implies segments[i].bytes is Some by {
                    assert(segments[i].header == headers[i]);
                }
            } else {
                let i = choose|i: int|
                    #![trigger headers[i]]
                    0 <= i < headers.len() && headers[i].p_type == 1 && headers[i].p_filesz != 0
                        && headers[i].p_offset + headers[i].p_filesz > data.len();
                assert(segments[i].header == headers[i]);
            }
        },
    }
}

/// The object file for nothing is a single line.
proof fn lemma_empty_text()
    ensures
        ihex_text(object_records(loaded(seq![]))) == ":00000001FF\n"@,
{
    reveal(Seq::filter);
    reveal_strlit(":00000001FF\n");
    reveal_with_fuel(ihex_text, 2);
    reveal_with_fuel(byte_sum, 5);
    let records = object_records(loaded(seq![]));
    assert(loaded(seq![]) =~= Seq::<LoadedSegment>::empty());
    assert(records =~= seq![HexRecord::EndOfFile]);
    assert(records.drop_last() =~= Seq::<HexRecord>::empty());
    let bytes = record_bytes(HexRecord::EndOfFile);
    assert(bytes =~= seq![0u8, 0u8, 0u8, 1u8]);
    assert(bytes.drop_last() =~= seq![0u8, 0u8, 0u8]);
    assert(bytes.drop_last().drop_last() =~= seq![0u8, 0u8]);
    assert(bytes.drop_last().drop_last().drop_last() =~= seq![0u8]);
    assert(byte_sum(bytes) == 1);
    assert(checksum(bytes) == 0xFF);
    assert(ihex_text(records) =~= ":00000001FF\n"@);
}

/// Whether nothing that is loaded after byte `k` of the segment of header `i` has the same
/// 32-bit address.
pub open spec fn byte_stays(headers: Seq<ProgramHeader>, i: int, k: int) -> bool {
    &&& forall|later: int|
        k < later < headers[i].p_filesz ==> #[trigger] ((headers[i].p_paddr + later)
            % 0x1_0000_0000) != (headers[i].p_paddr + k) % 0x1_0000_0000
    &&& forall|j: int, later: int|
        i < j < headers.len() && headers[j].p_type == 1 && 0 <= later < headers[j].p_filesz
            ==> #[trigger] ((headers[j].p_paddr + later) % 0x1_0000_0000) != (headers[i].p_paddr
            + k) % 0x1_0000_0000
}

/// Following the object file for an ELF file puts byte `k` of the segment of each program
/// header of type 1 at its 32-bit physical address, unless something that is loaded later
/// has that address too.
pub proof fn law_program_bytes_reach_their_addresses(
    data: Seq<u8>,
    headers: Seq<ProgramHeader>,
    segments: Seq<SegmentView>,
    memory: Map<int, u8>,
    start: u16,
    i: int,
    k: int,
)
    requires
        elf_program_headers(data) == Some(Some(headers)),
        elf_segments(data) == Some(segments),
        program_is_inside(data, headers),
        0 <= i < headers.len(),
        headers[i].p_type == 1,
        0 <= k < headers[i].p_filesz,
        byte_stays(headers, i, k),
    ensures
        ({
            let after = follow_records(memory, start, object_records(loaded(segments)));
            after.contains_pair(
                (headers[i].p_paddr + k) % 0x1_0000_0000,
                data[headers[i].p_offset + k],
            )
        }),
{
    assert forall|j: int|
        #![trigger segments[j]]
        0 <= j < segments.len() && segments[j].header.p_type == 1 && segments[j].header.p_filesz
            != 0 implies segments[j].bytes is Some by {
        assert(segments[j].header == headers[j]);
    }
    let positions = lemma_program_is_picked(segments);
    let picked = loaded(segments);
    assert(segments[i].header == headers[i]);
    assert(positions.contains(i));
    let at = choose|at: int| 0 <= at < positions.len() && positions[at] == i;
    let bytes = picked[at].bytes;
    assert(bytes == data.subrange(
        headers[i].p_offset as int,
        headers[i].p_offset + headers[i].p_filesz,
    ));
    let paddr = picked[at].paddr as int;
    assert forall|later: int| k < later < bytes.len() implies #[trigger] address(paddr, later)
        != address(paddr, k) by {
        assert((headers[i].p_paddr + later) % 0x1_0000_0000 != (headers[i].p_paddr + k)
            % 0x1_0000_0000);
    }
    assert forall|j: int, later: int|
        at < j < picked.len() && 0 <= later < picked[j].bytes.len() implies #[trigger] address(
        picked[j].paddr as int,
        later,
    ) != address(paddr, k) by {
        let other = positions[j];
        assert(positions[at] < positions[j]);
        assert(segments[other].header == headers[other]);
        assert((headers[other].p_paddr + later) % 0x1_0000_0000 != (headers[i].p_paddr + k)
            % 0x1_0000_0000);
    }
    assert(not_overwritten(picked, at, k));
    law_bytes_reach_their_addresses(memory, start, picked, at, k);
}

/// Following the object file for an ELF file leaves every address alone that no segment of
/// a program header of type 1 covers.
pub proof fn law_nothing_but_the_program_is_written(
    data: Seq<u8>,
    headers: Seq<ProgramHeader>,
    segments: Seq<SegmentView>,
    memory: Map<int, u8>,
    start: u16,
    place: int,
)
    requires
        elf_program_headers(data) == Some(Some(headers)),
        elf_segments(data) == Some(segments),
        program_is_inside(data, headers),
        forall|i: int, k: int|
            0 <= i < headers.len() && headers[i].p_type == 1 && 0 <= k < headers[i].p_filesz
                ==> #[trigger] ((headers[i].p_paddr + k) % 0x1_0000_0000) != place,
    ensures
        ({
            let after = follow_records(memory, start, object_records(loaded(segments)));
            after.contains_key(place) == memory.contains_key(place) && after[place]
                == memory[place]
        }),
{
    assert forall|j: int|
        #![trigger segments[j]]
        0 <= j < segments.len() && segments[j].header.p_type == 1 && segments[j].header.p_filesz
            != 0 implies segments[j].bytes is Some by {
        assert(segments[j].header == headers[j]);
    }
    let positions = lemma_program_is_picked(segments);
    let picked = loaded(segments);
    assert forall|j: int, k: int|
        0 <= j < picked.len() && 0 <= k < picked[j].bytes.len() implies #[trigger] address(
        picked[j].paddr as int,
        k,
    ) != place by {
        let i = positions[j];
        assert(segments[i].header == headers[i]);
        assert((headers[i].p_paddr + k) % 0x1_0000_0000 != place);
    }
    law_nothing_else_is_written(memory, start, picked, place);
}

/// A segment stands for its header and its bytes, if it has them.
pub proof fn law_segment_stands_for_its_fields(segment: Segment<'_>)
    ensures
        segment.deep_view().header == segment.header,
        segment.data matches Ok(bytes) ==> segment.deep_view().bytes == Some(bytes@),
        segment.data is Err ==> segment.deep_view().bytes is None,
{
}

/// The magic number of ELF files is the byte 127 and the letters ELF, in data that has room
/// for the smaller one of the two file headers.
pub proof fn law_magic_number_spells_elf(data: Seq<u8>)
    ensures
        has_elf_magic(data) <==> data.len() >= 52 && data.take(4) == seq![
            127u8,
            'E' as u8,
            'L' as u8,
            'F' as u8,
        ],
{
    let magic = seq![127u8, 'E' as u8, 'L' as u8, 'F' as u8];
    if data.len() >= 52 {
        if has_elf_magic(data) {
            assert(data.take(4) =~= magic);
        }
        if data.take(4) == magic {
            assert(data.take(4)[0] == 127 && data.take(4)[1] == 'E' as u8 && data.take(4)[2]
                == 'L' as u8 && data.take(4)[3] == 'F' as u8);
        }
    }
}

} // verus!
