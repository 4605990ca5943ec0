use vstd::prelude::*;

verus! {

/// The little-endian 16-bit number at `b[i..i + 2]`.
pub open spec fn le16(b: Seq<u8>, i: int) -> u16 {
    (b[i] + 256 * b[i + 1]) as u16
}

/// The little-endian 32-bit number at `b[i..i + 4]`.
pub open spec fn le32(b: Seq<u8>, i: int) -> u32 {
    (b[i] + 256 * b[i + 1] + 65536 * b[i + 2] + 16777216 * b[i + 3]) as u32
}

/// Length of the fixed part of a local file header.
pub const LOCAL_HEADER_LEN: usize = 30;

/// Length of the fixed part of a central directory file header.
pub const CENTRAL_HEADER_LEN: usize = 46;

/// Length of the fixed part of the end of central directory record.
pub const EOCD_LEN: usize = 22;

/// Signature of the end of central directory record, as it lies in the file.
pub open spec fn is_eocd_signature(b: Seq<u8>, i: int) -> bool {
    b[i] == 0x50u8 && b[i + 1] == 0x4bu8 && b[i + 2] == 0x05u8 && b[i + 3] == 0x06u8
}

fn read_u16(b: &Vec<u8>, i: usize) -> (r: u16)
    requires
        i + 2 <= b@.len(),
    ensures
        r == le16(b@, i as int),
{
    let len = b.len();
    assert(i + 1 < len);
    b[i] as u16 + (b[i + 1] as u16) * 256
}

fn read_u32(b: &Vec<u8>, i: usize) -> (r: u32)
    requires
        i + 4 <= b@.len(),
    ensures
        r == le32(b@, i as int),
{
    let len = b.len();
    assert(i + 3 < len);
    let b0 = b[i] as u32;
    let b1 = b[i + 1] as u32;
    let b2 = b[i + 2] as u32;
    let b3 = b[i + 3] as u32;
    b0 + b1 * 256 + b2 * 65536 + b3 * 16777216
}

/// The `n` bytes of `b` from `from` on, where those past the end of `b` read as zero.
pub open spec fn bytes_from(b: Seq<u8>, from: int, n: int) -> Seq<u8> {
    Seq::new(n as nat, |i: int| if from + i < b.len() { b[from + i] } else { 0u8 })
}

/// Reads `n` bytes of `b` from `from` on into a buffer of zeros; the bytes
/// past the end of `b` stay zero.
fn read_padded(b: &Vec<u8>, from: u64, n: usize) -> (r: Vec<u8>)
    ensures
        r@ == bytes_from(b@, from as int, n as int),
{
    let len = b.len();
    let mut out: Vec<u8> = Vec::new();
    let mut i: usize = 0;
    while i < n
        invariant
            i <= n,
            len == b@.len(),
            out@ == bytes_from(b@, from as int, i as int),
        decreases n - i,
    {
        let byte = if from < len as u64 && i < len - from as usize {
            b[from as usize + i]
        } else {
            0u8
        };
        out.push(byte);
        assert(out@ =~= bytes_from(b@, from as int, i + 1));
        i = i + 1;
    }
    out
}

/// The fixed part of a local file header.
#[derive(Debug, Clone, Copy, PartialEq, Eq, Structural)]
pub struct LocalFileHeader {
    pub magic_number: u32,
    pub version_needed: u16,
    pub spacer_unused: u16,
    pub compression_method: u16,
    pub last_modify_time: u16,
    pub last_modify_date: u16,
    pub crc32_uncompressed: u32,
    pub compressed_size: u32,
    pub uncompressed_size: u32,
    pub file_name_length: u16,
    pub extra_field_length: u16,
}

impl LocalFileHeader {
    /// The header whose fields lie little-endian in `b` from `i` on.
    pub open spec fn at(b: Seq<u8>, i: int) -> LocalFileHeader {
        LocalFileHeader {
            magic_number: le32(b, i),
            version_needed: le16(b, i + 4),
            spacer_unused: le16(b, i + 6),
            compression_method: le16(b, i + 8),
            last_modify_time: le16(b, i + 10),
            last_modify_date: le16(b, i + 12),
            crc32_uncompressed: le32(b, i + 14),
            compressed_size: le32(b, i + 18),
            uncompressed_size: le32(b, i + 22),
            file_name_length: le16(b, i + 26),
            extra_field_length: le16(b, i + 28),
        }
    }

    /// The header with every field zero.
    pub open spec fn new_spec() -> LocalFileHeader {
        LocalFileHeader {
            magic_number: 0,
            version_needed: 0,
            spacer_unused: 0,
            compression_method: 0,
            last_modify_time: 0,
            last_modify_date: 0,
            crc32_uncompressed: 0,
            compressed_size: 0,
            uncompressed_size: 0,
            file_name_length: 0,
            extra_field_length: 0,
        }
    }

    /// A header with every field zero.
    pub fn new() -> (r: LocalFileHeader)
        ensures
            r == LocalFileHeader::new_spec(),
    {
        LocalFileHeader {
            magic_number: 0,
            version_needed: 0,
            spacer_unused: 0,
            compression_method: 0,
            last_modify_time: 0,
            last_modify_date: 0,
            crc32_uncompressed: 0,
            compressed_size: 0,
            uncompressed_size: 0,
            file_name_length: 0,
            extra_field_length: 0,
        }
    }

    /// Reads the header at `start_offset` into `self`; returns the offset
    /// just past it.
    pub fn load_data(&mut self, b: &Vec<u8>, start_offset: u64) -> (r: u64)
        requires
            start_offset + LOCAL_HEADER_LEN <= b@.len(),
        ensures
            *final(self) == LocalFileHeader::at(b@, start_offset as int),
            r == start_offset + LOCAL_HEADER_LEN,
    {
        let len = b.len();
        assert(start_offset < len);
        let s = start_offset as usize;
        *self = LocalFileHeader {
            magic_number: read_u32(b, s),
            version_needed: read_u16(b, s + 4),
            spacer_unused: read_u16(b, s + 6),
            compression_method: read_u16(b, s + 8),
            last_modify_time: read_u16(b, s + 10),
            last_modify_date: read_u16(b, s + 12),
            crc32_uncompressed: read_u32(b, s + 14),
            compressed_size: read_u32(b, s + 18),
            uncompressed_size: read_u32(b, s + 22),
            file_name_length: read_u16(b, s + 26),
            extra_field_length: read_u16(b, s + 28),
        };
        start_offset + LOCAL_HEADER_LEN as u64
    }
}

/// A local file: its header, the offset of its data, and the variable parts
/// that follow the header.
#[derive(Debug)]
pub struct LocalFile {
    pub static_data: LocalFileHeader,
    pub data_start_offset: u64,
    pub file_name_data: Vec<u8>,
    pub extra_field: Vec<u8>,
    pub compressed_data: Vec<u8>,
}

impl LocalFile {
    /// An empty local file with a zero header.
    pub fn new() -> (r: LocalFile)
        ensures
            r.static_data == LocalFileHeader::new_spec(),
            r.data_start_offset == 0,
            r.file_name_data@.len() == 0,
            r.extra_field@.len() == 0,
            r.compressed_data@.len() == 0,
    {
        LocalFile {
            static_data: LocalFileHeader::new(),
            data_start_offset: 0,
            file_name_data: Vec::new(),
            extra_field: Vec::new(),
            compressed_data: Vec::new(),
        }
    }

    /// Reads the header at `start_offset`, then the file name and the extra
    /// field that follow it (bytes past the end of `b` read as zero). Sets the
    /// offset of the compressed data and returns the offset just past it.
    pub fn load_metadata(&mut self, b: &Vec<u8>, start_offset: u64) -> (r: u64)
        requires
            start_offset + LOCAL_HEADER_LEN <= b@.len(),
            b@.len() <= isize::MAX,
        ensures
            ({
                let h = LocalFileHeader::at(b@, start_offset as int);
                let name = start_offset + LOCAL_HEADER_LEN;
                let data = name + h.file_name_length + h.extra_field_length;
                &&& final(self).static_data == h
                &&& final(self).data_start_offset == data
                &&& final(self).file_name_data@ == bytes_from(b@, name, h.file_name_length as int)
                &&& final(self).extra_field@ == bytes_from(b@, name + h.file_name_length, h.extra_field_length as int)
                &&& final(self).compressed_data == old(self).compressed_data
                &&& r == data + h.compressed_size
            }),
    {
        let mut static_data = LocalFileHeader::new();
        let end_o_static_data = static_data.load_data(b, start_offset);
        let n = static_data.file_name_length;
        let m = static_data.extra_field_length;
        self.file_name_data = read_padded(b, end_o_static_data, n as usize);
        self.extra_field = read_padded(b, end_o_static_data + n as u64, m as usize);
        self.static_data = static_data;
        self.data_start_offset = end_o_static_data + n as u64 + m as u64;
        self.data_start_offset + static_data.compressed_size as u64
    }

    /// Reads the compressed data, as long as the header says, from the
    /// offset that `load_metadata` set (bytes past the end of `b` read as zero).
    pub fn load_compressed_data(&mut self, b: &Vec<u8>)
        ensures
            final(self).compressed_data@ == bytes_from(
                b@,
                old(self).data_start_offset as int,
                old(self).static_data.compressed_size as int,
            ),
            final(self).static_data == old(self).static_data,
            final(self).data_start_offset == old(self).data_start_offset,
            final(self).file_name_data == old(self).file_name_data,
            final(self).extra_field == old(self).extra_field,
    {
        self.compressed_data = read_padded(b, self.data_start_offset, self.static_data.compressed_size as usize);
    }
}

/// The fixed part of a central directory file header.
#[derive(Debug, Clone, Copy, PartialEq, Eq, Structural)]
pub struct CentralDirectoryFileHeader {
    pub magic_number: u32,
    pub version_made_by: u16,
    pub version_needed: u16,
    pub spacer_unused: u16,
    pub compression_method: u16,
    pub last_modify_time: u16,
    pub last_modify_date: u16,
    pub crc32_uncompressed: u32,
    pub compressed_size: u32,
    pub uncompressed_size: u32,
    pub file_name_length: u16,
    pub extra_field_length: u16,
    pub file_comment_length: u16,
    pub disk_number_source: u16,
    pub internal_file_attributes: u16,
    pub external_file_attributes: u32,
    pub relative_offset_localheader: u32,
}

impl CentralDirectoryFileHeader {
    /// The header whose fields lie little-endian in `b` from `i` on.
    pub open spec fn at(b: Seq<u8>, i: int) -> CentralDirectoryFileHeader {
        CentralDirectoryFileHeader {
            magic_number: le32(b, i),
            version_made_by: le16(b, i + 4),
            version_needed: le16(b, i + 6),
            spacer_unused: le16(b, i + 8),
            compression_method: le16(b, i + 10),
            last_modify_time: le16(b, i + 12),
            last_modify_date: le16(b, i + 14),
            crc32_uncompressed: le32(b, i + 16),
            compressed_size: le32(b, i + 20),
            uncompressed_size: le32(b, i + 24),
            file_name_length: le16(b, i + 28),
            extra_field_length: le16(b, i + 30),
            file_comment_length: le16(b, i + 32),
            disk_number_source: le16(b, i + 34),
            internal_file_attributes: le16(b, i + 36),
            external_file_attributes: le32(b, i + 38),
            relative_offset_localheader: le32(b, i + 42),
        }
    }

    /// The header with every field zero.
    pub open spec fn new_spec() -> CentralDirectoryFileHeader {
        CentralDirectoryFileHeader {
            magic_number: 0,
            version_made_by: 0,
            version_needed: 0,
            spacer_unused: 0,
            compression_method: 0,
            last_modify_time: 0,
            last_modify_date: 0,
            crc32_uncompressed: 0,
            compressed_size: 0,
            uncompressed_size: 0,
            file_name_length: 0,
            extra_field_length: 0,
            file_comment_length: 0,
            disk_number_source: 0,
            internal_file_attributes: 0,
            external_file_attributes: 0,
            relative_offset_localheader: 0,
        }
    }

    /// A header with every field zero.
    pub fn new() -> (r: CentralDirectoryFileHeader)
        ensures
            r == CentralDirectoryFileHeader::new_spec(),
    {
        CentralDirectoryFileHeader {
            magic_number: 0,
            version_made_by: 0,
            version_needed: 0,
            spacer_unused: 0,
            compression_method: 0,
            last_modify_time: 0,
            last_modify_date: 0,
            crc32_uncompressed: 0,
            compressed_size: 0,
            uncompressed_size: 0,
            file_name_length: 0,
            extra_field_length: 0,
            file_comment_length: 0,
            disk_number_source: 0,
            internal_file_attributes: 0,
            external_file_attributes: 0,
            relative_offset_localheader: 0,
        }
    }

    /// Reads the header at `start_offset` into `self`; returns the offset
    /// just past it.
    pub fn load_data(&mut self, b: &Vec<u8>, start_offset: u64) -> (r: u64)
        requires
            start_offset + CENTRAL_HEADER_LEN <= b@.len(),
        ensures
            *final(self) == CentralDirectoryFileHeader::at(b@, start_offset as int),
            r == start_offset + CENTRAL_HEADER_LEN,
    {
        let len = b.len();
        assert(start_offset < len);
        let s = start_offset as usize;
        *self = CentralDirectoryFileHeader {
            magic_number: read_u32(b, s),
            version_made_by: read_u16(b, s + 4),
            version_needed: read_u16(b, s + 6),
            spacer_unused: read_u16(b, s + 8),
            compression_method: read_u16(b, s + 10),
            last_modify_time: read_u16(b, s + 12),
            last_modify_date: read_u16(b, s + 14),
            crc32_uncompressed: read_u32(b, s + 16),
            compressed_size: read_u32(b, s + 20),
            uncompressed_size: read_u32(b, s + 24),
            file_name_length: read_u16(b, s + 28),
            extra_field_length: read_u16(b, s + 30),
            file_comment_length: read_u16(b, s + 32),
            disk_number_source: read_u16(b, s + 34),
            internal_file_attributes: read_u16(b, s + 36),
            external_file_attributes: read_u32(b, s + 38),
            relative_offset_localheader: read_u32(b, s + 42),
        };
        start_offset + CENTRAL_HEADER_LEN as u64
    }
}

/// A central directory file header record: the fixed header, where it
/// starts and ends, and the variable parts that follow it.
#[derive(Debug)]
pub struct CDFHR {
    pub static_data: CentralDirectoryFileHeader,
    pub start_offset: u64,
    pub end_offset: u64,
    pub file_name_data: Vec<u8>,
    pub extra_field_data: Vec<u8>,
    pub file_comment_data: Vec<u8>,
}

impl CDFHR {
    /// An empty record with a zero header.
    pub fn new() -> (r: CDFHR)
        ensures
            r.static_data == CentralDirectoryFileHeader::new_spec(),
            r.start_offset == 0,
            r.end_offset == 0,
            r.file_name_data@.len() == 0,
            r.extra_field_data@.len() == 0,
            r.file_comment_data@.len() == 0,
    {
        CDFHR {
            static_data: CentralDirectoryFileHeader::new(),
            start_offset: 0,
            end_offset: 0,
            file_name_data: Vec::new(),
            extra_field_data: Vec::new(),
            file_comment_data: Vec::new(),
        }
    }

    /// Reads the record at `start_offset`: the header, then the file name,
    /// the extra field and the file comment (bytes past the end of `b` read
    /// as zero). Returns the offset just past the record.
    pub fn load_data(&mut self, b: &Vec<u8>, start_offset: u64) -> (r: u64)
        requires
            start_offset + CENTRAL_HEADER_LEN <= b@.len(),
            b@.len() <= isize::MAX,
        ensures
            ({
                let h = CentralDirectoryFileHeader::at(b@, start_offset as int);
                let name = start_offset + CENTRAL_HEADER_LEN;
                let extra = name + h.file_name_length;
                let comment = extra + h.extra_field_length;
                let end = comment + h.file_comment_length;
                &&& final(self).static_data == h
                &&& final(self).start_offset == start_offset
                &&& final(self).end_offset == end
                &&& final(self).file_name_data@ == bytes_from(b@, name, h.file_name_length as int)
                &&& final(self).extra_field_data@ == bytes_from(b@, extra, h.extra_field_length as int)
                &&& final(self).file_comment_data@ == bytes_from(b@, comment, h.file_comment_length as int)
                &&& r == end
            }),
    {
        let mut static_data = CentralDirectoryFileHeader::new();
        let end_static_offset = static_data.load_data(b, start_offset);
        let n = static_data.file_name_length as u64;
        let m = static_data.extra_field_length as u64;
        let k = static_data.file_comment_length as u64;
        self.file_name_data = read_padded(b, end_static_offset, n as usize);
        self.extra_field_data = read_padded(b, end_static_offset + n, m as usize);
        self.file_comment_data = read_padded(b, end_static_offset + n + m, k as usize);
        self.static_data = static_data;
        self.start_offset = start_offset;
        self.end_offset = end_static_offset + n + m + k;
        self.end_offset
    }
}

/// The fixed part of the end of central directory record.
#[derive(Debug, Clone, Copy, PartialEq, Eq, Structural)]
pub struct EndOfCentralDirectoryRecord {
    pub magic_number: u32,
    pub number_of_current_disk: u16,
    pub disk_where_cdr_starts: u16,
    pub num_cdr_on_disk: u16,
    pub total_cdr: u16,
    pub size_of_cdr: u32,
    pub offset_cdr_start: u32,
    pub comment_length: u16,
}

impl EndOfCentralDirectoryRecord {
    /// The record whose fields lie little-endian in `b` from `i` on.
    pub open spec fn at(b: Seq<u8>, i: int) -> EndOfCentralDirectoryRecord {
        EndOfCentralDirectoryRecord {
            magic_number: le32(b, i),
            number_of_current_disk: le16(b, i + 4),
            disk_where_cdr_starts: le16(b, i + 6),
            num_cdr_on_disk: le16(b, i + 8),
            total_cdr: le16(b, i + 10),
            size_of_cdr: le32(b, i + 12),
            offset_cdr_start: le32(b, i + 16),
            comment_length: le16(b, i + 20),
        }
    }

    /// A record with its signature set and every other field zero.
    pub fn new() -> (r: EndOfCentralDirectoryRecord)
        ensures
            r == (EndOfCentralDirectoryRecord {
                magic_number: 0x06054b50,
                number_of_current_disk: 0,
                disk_where_cdr_starts: 0,
                num_cdr_on_disk: 0,
                total_cdr: 0,
                size_of_cdr: 0,
                offset_cdr_start: 0,
                comment_length: 0,
            }),
    {
        EndOfCentralDirectoryRecord {
            magic_number: 0x06054b50,
            number_of_current_disk: 0,
            disk_where_cdr_starts: 0,
            num_cdr_on_disk: 0,
            total_cdr: 0,
            size_of_cdr: 0,
            offset_cdr_start: 0,
            comment_length: 0,
        }
    }

    /// Reads the record at `offset_starting` into `self`; returns the offset
    /// just past it.
    pub fn load_data(&mut self, b: &Vec<u8>, offset_starting: u64) -> (r: u64)
        requires
            offset_starting + EOCD_LEN <= b@.len(),
        ensures
            *final(self) == EndOfCentralDirectoryRecord::at(b@, offset_starting as int),
            r == offset_starting + EOCD_LEN,
    {
        let len = b.len();
        assert(offset_starting < len);
        let s = offset_starting as usize;
        *self = EndOfCentralDirectoryRecord {
            magic_number: read_u32(b, s),
            number_of_current_disk: read_u16(b, s + 4),
            disk_where_cdr_starts: read_u16(b, s + 6),
            num_cdr_on_disk: read_u16(b, s + 8),
            total_cdr: read_u16(b, s + 10),
            size_of_cdr: read_u32(b, s + 12),
            offset_cdr_start: read_u32(b, s + 16),
            comment_length: read_u16(b, s + 20),
        };
        offset_starting + EOCD_LEN as u64
    }
}

/// The end of central directory record with its comment.
#[derive(Debug)]
pub struct EofRecord {
    pub static_data: EndOfCentralDirectoryRecord,
    pub start_offset: u64,
    pub end_offset: u64,
    pub comment: Vec<u8>,
}

impl EofRecord {
    /// Reads the record at `offset_starting` and the comment after it (bytes
    /// past the end of `b` read as zero); `end_offset` is where the fixed
    /// part ends.
    pub fn new(b: &Vec<u8>, offset_starting: u64) -> (r: EofRecord)
        requires
            offset_starting + EOCD_LEN <= b@.len(),
        ensures
            r.static_data == EndOfCentralDirectoryRecord::at(b@, offset_starting as int),
            r.start_offset == offset_starting,
            r.end_offset == offset_starting + EOCD_LEN,
            r.comment@ == bytes_from(b@, offset_starting + EOCD_LEN, r.static_data.comment_length as int),
    {
        let mut static_data = EndOfCentralDirectoryRecord::new();
        let end_offset = static_data.load_data(b, offset_starting);
        let comment = read_padded(b, end_offset, static_data.comment_length as usize);
        EofRecord { static_data, start_offset: offset_starting, end_offset, comment }
    }
}

/// The offset of the last end of central directory signature in `b`, found
/// by scanning backward from the end.
pub fn find_eocd(b: &Vec<u8>) -> (r: Option<usize>)
    ensures
        r matches Some(p) ==> p + 4 <= b@.len() && is_eocd_signature(b@, p as int),
        r matches Some(p) ==> forall|q: int| p < q && q + 4 <= b@.len() ==> !is_eocd_signature(b@, q),
        r is None ==> forall|q: int| 0 <= q && q + 4 <= b@.len() ==> !is_eocd_signature(b@, q),
{
    if b.len() < 4 {
        return None;
    }
    let len = b.len();
    let mut p: usize = len - 4;
    loop
        invariant
            len == b@.len(),
            p + 4 <= b@.len(),
            forall|q: int| p < q && q + 4 <= b@.len() ==> !is_eocd_signature(b@, q),
        decreases p,
    {
        if b[p] == 0x50u8 && b[p + 1] == 0x4bu8 && b[p + 2] == 0x05u8 && b[p + 3] == 0x06u8 {
            return Some(p);
        }
        if p == 0 {
            return None;
        }
        p = p - 1;
    }
}

/// An archive as far as its end of central directory record.
#[derive(Debug)]
pub struct ZipArchive {
    pub local_file_data: Vec<LocalFileHeader>,
    pub central_records: Vec<CentralDirectoryFileHeader>,
    pub eof_record: EofRecord,
}

impl ZipArchive {
    /// Locates the end of central directory record of the archive `b` (the
    /// last signature, scanning from the end) and reads it; `None` where there
    /// is no signature or the fixed part of the record does not fit.
    pub fn new(b: &Vec<u8>) -> (r: Option<ZipArchive>)
        ensures
            r matches Some(z) ==> {
                &&& z.local_file_data@.len() == 0
                &&& z.central_records@.len() == 0
                &&& z.eof_record.start_offset + EOCD_LEN <= b@.len()
                &&& is_eocd_signature(b@, z.eof_record.start_offset as int)
                &&& forall|q: int| z.eof_record.start_offset < q && q + 4 <= b@.len() ==> !is_eocd_signature(b@, q)
                &&& z.eof_record.static_data == EndOfCentralDirectoryRecord::at(b@, z.eof_record.start_offset as int)
                &&& z.eof_record.comment@ == bytes_from(
                    b@,
                    z.eof_record.start_offset + EOCD_LEN,
                    z.eof_record.static_data.comment_length as int,
                )
            },
            r is None <==> forall|p: int|
                0 <= p && p + 4 <= b@.len() && is_eocd_signature(b@, p) && (forall|q: int|
                    p < q && q + 4 <= b@.len() ==> !is_eocd_signature(b@, q)) ==> p + EOCD_LEN > b@.len(),
    {
        let p = match find_eocd(b) {
            Some(p) => p,
            None => {
                return None;
            },
        };
        if b.len() - p < EOCD_LEN {
            return None;
        }
        let eof_record = EofRecord::new(b, p as u64);
        Some(ZipArchive { local_file_data: Vec::new(), central_records: Vec::new(), eof_record })
    }
}

} // verus!
