use huffzip::ziparchive::{
    find_eocd, CentralDirectoryFileHeader, EndOfCentralDirectoryRecord, EofRecord, LocalFile,
    LocalFileHeader, ZipArchive, CDFHR,
};

fn le16(v: u16) -> Vec<u8> {
    v.to_le_bytes().to_vec()
}

fn le32(v: u32) -> Vec<u8> {
    v.to_le_bytes().to_vec()
}

fn local_file_bytes() -> Vec<u8> {
    let mut b = Vec::new();
    b.extend(le32(0x04034b50));
    b.extend(le16(20));
    b.extend(le16(0));
    b.extend(le16(8));
    b.extend(le16(0x6a5b));
    b.extend(le16(0x5431));
    b.extend(le32(0xdeadbeef));
    b.extend(le32(3));
    b.extend(le32(5));
    b.extend(le16(5));
    b.extend(le16(2));
    b.extend(b"a.txt");
    b.extend([0xAA, 0xBB]);
    b.extend([1, 2, 3]);
    b
}

fn central_bytes() -> Vec<u8> {
    let mut b = Vec::new();
    b.extend(le32(0x02014b50));
    b.extend(le16(63));
    b.extend(le16(20));
    b.extend(le16(0));
    b.extend(le16(8));
    b.extend(le16(1));
    b.extend(le16(2));
    b.extend(le32(0x12345678));
    b.extend(le32(3));
    b.extend(le32(5));
    b.extend(le16(5));
    b.extend(le16(1));
    b.extend(le16(2));
    b.extend(le16(0));
    b.extend(le16(1));
    b.extend(le32(0x81a40000));
    b.extend(le32(0));
    b.extend(b"a.txt");
    b.extend([9]);
    b.extend(b"hi");
    b
}

fn eocd_bytes(comment: &[u8], cdr_offset: u32, cdr_size: u32) -> Vec<u8> {
    let mut b = Vec::new();
    b.extend([0x50, 0x4b, 0x05, 0x06]);
    b.extend(le16(0));
    b.extend(le16(0));
    b.extend(le16(1));
    b.extend(le16(1));
    b.extend(le32(cdr_size));
    b.extend(le32(cdr_offset));
    b.extend(le16(comment.len() as u16));
    b.extend(comment);
    b
}

fn archive() -> Vec<u8> {
    let mut b = local_file_bytes();
    let cdr_offset = b.len() as u32;
    let central = central_bytes();
    let cdr_size = central.len() as u32;
    b.extend(central);
    b.extend(eocd_bytes(b"end", cdr_offset, cdr_size));
    b
}

#[test]
fn new_records_are_zero() {
    let h = LocalFileHeader::new();
    assert_eq!(h.magic_number, 0);
    assert_eq!(h.compressed_size, 0);
    let c = CentralDirectoryFileHeader::new();
    assert_eq!(c.relative_offset_localheader, 0);
    let e = EndOfCentralDirectoryRecord::new();
    assert_eq!(e.magic_number, 0x06054b50);
    assert_eq!(e.comment_length, 0);
    let f = LocalFile::new();
    assert_eq!(f.data_start_offset, 0);
    assert!(f.file_name_data.is_empty());
    let r = CDFHR::new();
    assert_eq!((r.start_offset, r.end_offset), (0, 0));
    assert!(r.file_comment_data.is_empty());
}

#[test]
fn local_header_fields() {
    let b = local_file_bytes();
    let mut h = LocalFileHeader::new();
    assert_eq!(h.load_data(&b, 0), 30);
    assert_eq!(h.magic_number, 0x04034b50);
    assert_eq!(h.version_needed, 20);
    assert_eq!(h.compression_method, 8);
    assert_eq!(h.last_modify_time, 0x6a5b);
    assert_eq!(h.last_modify_date, 0x5431);
    assert_eq!(h.crc32_uncompressed, 0xdeadbeef);
    assert_eq!((h.compressed_size, h.uncompressed_size), (3, 5));
    assert_eq!((h.file_name_length, h.extra_field_length), (5, 2));
}

#[test]
fn local_file_parts() {
    let b = local_file_bytes();
    let mut f = LocalFile::new();
    assert_eq!(f.load_metadata(&b, 0), 40);
    assert_eq!(f.file_name_data, b"a.txt".to_vec());
    assert_eq!(f.extra_field, vec![0xAA, 0xBB]);
    assert_eq!(f.data_start_offset, 37);
    assert!(f.compressed_data.is_empty());
    f.load_compressed_data(&b);
    assert_eq!(f.compressed_data, vec![1, 2, 3]);
}

#[test]
fn local_file_short_reads_are_zero_filled() {
    let b = local_file_bytes()[..38].to_vec();
    let mut f = LocalFile::new();
    assert_eq!(f.load_metadata(&b, 0), 40);
    f.load_compressed_data(&b);
    assert_eq!(f.compressed_data, vec![1, 0, 0]);
}

#[test]
fn central_record_parts() {
    let b = central_bytes();
    let mut h = CentralDirectoryFileHeader::new();
    assert_eq!(h.load_data(&b, 0), 46);
    assert_eq!(h.magic_number, 0x02014b50);
    assert_eq!(h.version_made_by, 63);
    assert_eq!(h.crc32_uncompressed, 0x12345678);
    assert_eq!(h.external_file_attributes, 0x81a40000);
    let mut r = CDFHR::new();
    assert_eq!(r.load_data(&b, 0), 54);
    assert_eq!(r.start_offset, 0);
    assert_eq!(r.end_offset, 46 + 5 + 1 + 2);
    assert_eq!(r.file_name_data, b"a.txt".to_vec());
    assert_eq!(r.extra_field_data, vec![9]);
    assert_eq!(r.file_comment_data, b"hi".to_vec());
    let mut cut = CDFHR::new();
    assert_eq!(cut.load_data(&b[..52].to_vec(), 0), 54);
    assert_eq!(cut.file_comment_data, vec![0, 0]);
}

#[test]
fn end_record_is_found_from_the_back() {
    let b = archive();
    let p = find_eocd(&b).unwrap();
    assert_eq!(p, 40 + 54);
    let mut fixed = EndOfCentralDirectoryRecord::new();
    assert_eq!(fixed.load_data(&b, p as u64), p as u64 + 22);
    assert_eq!(fixed.magic_number, 0x06054b50);
    let e = EofRecord::new(&b, p as u64);
    assert_eq!(e.static_data.offset_cdr_start, 40);
    assert_eq!(e.static_data.size_of_cdr, 54);
    assert_eq!(e.static_data.total_cdr, 1);
    assert_eq!(e.start_offset, p as u64);
    assert_eq!(e.end_offset, p as u64 + 22);
    assert_eq!(e.comment, b"end".to_vec());
    let z = ZipArchive::new(&b).unwrap();
    assert_eq!(z.eof_record.start_offset, p as u64);
    assert!(z.central_records.is_empty());
    let mut c = CDFHR::new();
    c.load_data(&b, z.eof_record.static_data.offset_cdr_start as u64);
    assert_eq!(c.file_name_data, b"a.txt".to_vec());
}

#[test]
fn missing_end_record() {
    let b = local_file_bytes();
    assert_eq!(find_eocd(&b), None);
    assert!(ZipArchive::new(&b).is_none());
    assert_eq!(find_eocd(&vec![0x50, 0x4b, 0x05]), None);
    assert_eq!(find_eocd(&vec![0x50, 0x4b, 0x05, 0x06]), Some(0));
    let whole = eocd_bytes(b"long comment", 0, 0);
    assert!(ZipArchive::new(&whole[..21].to_vec()).is_none());
    let cut = whole[..25].to_vec();
    let e = EofRecord::new(&cut, 0);
    assert_eq!(e.comment, vec![b'l', b'o', b'n', 0, 0, 0, 0, 0, 0, 0, 0, 0]);
    assert_eq!(ZipArchive::new(&cut).unwrap().eof_record.static_data.comment_length, 12);
}
