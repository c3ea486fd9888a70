//! A parser for the records of a ZIP archive: local files (with their
//! optional encryption preamble and data descriptor), central-directory
//! entries, digital signatures, and the end-of-central-directory record.
//! All multibyte integers are little-endian; the contracts state each field
//! as a function of the input bytes.

use vstd::prelude::*;

verus! {

/// The 16-bit little-endian integer at offset `i`.
pub open spec fn le16(b: Seq<u8>, i: int) -> u16 {
    (b[i] + 256 * b[i + 1]) as u16
}

/// The 32-bit little-endian integer at offset `i`.
pub open spec fn le32(b: Seq<u8>, i: int) -> u32 {
    (b[i] + 0x100 * b[i + 1] + 0x10000 * b[i + 2] + 0x1000000 * b[i + 3]) as u32
}

/// Whether the four-byte signature `PK` `c3` `c4` stands at offset `pos`.
pub open spec fn spec_has_sig(b: Seq<u8>, pos: int, c3: u8, c4: u8) -> bool {
    &&& pos + 4 <= b.len()
    &&& b[pos] == 0x50
    &&& b[pos + 1] == 0x4b
    &&& b[pos + 2] == c3
    &&& b[pos + 3] == c4
}

/// Reads the 16-bit little-endian integer at `pos`.
pub fn read_u16(b: &[u8], pos: usize) -> (r: u16)
    requires
        pos + 2 <= b@.len(),
    ensures
        r == le16(b@, pos as int),
{
    (b[pos] as u16) + 256 * (b[pos + 1] as u16)
}

/// Reads the 32-bit little-endian integer at `pos`.
pub fn read_u32(b: &[u8], pos: usize) -> (r: u32)
    requires
        pos + 4 <= b@.len(),
    ensures
        r == le32(b@, pos as int),
{
    (b[pos] as u32) + 0x100 * (b[pos + 1] as u32) + 0x10000 * (b[pos + 2] as u32) + 0x1000000 * (b[
        pos + 3] as u32)
}

/// Whether the four-byte signature `PK` `c3` `c4` stands at `pos`.
pub fn has_sig(b: &[u8], pos: usize, c3: u8, c4: u8) -> (r: bool)
    requires
        pos <= b@.len(),
    ensures
        r == spec_has_sig(b@, pos as int, c3, c4),
{
    b.len() - pos >= 4 && b[pos] == 0x50 && b[pos + 1] == 0x4b && b[pos + 2] == c3 && b[pos + 3]
        == c4
}

/// A copy of `b[from..to]`.
pub fn copy_range(b: &[u8], from: usize, to: usize) -> (r: Vec<u8>)
    requires
        from <= to <= b@.len(),
    ensures
        r@ == b@.subrange(from as int, to as int),
{
    let mut r: Vec<u8> = Vec::new();
    let mut i: usize = from;
    while i < to
        invariant
            from <= i <= to <= b@.len(),
            r@ =~= b@.subrange(from as int, i as int),
        decreases to - i,
    {
        r.push(b[i]);
        i += 1;
    }
    proof {
        assert(r@ =~= b@.subrange(from as int, to as int));
    }
    r
}

/// The fixed-size head of a local file record, and the name and extra field
/// that follow it.
pub struct LocalFileHeader {
    pub version_needed_to_extract: u16,
    pub general_purpose_bit_flag: u16,
    pub compression_method: u16,
    pub last_mod_file_time: u16,
    pub last_mod_file_date: u16,
    pub crc32: u32,
    pub compressed_size: u32,
    pub uncompressed_size: u32,
    pub file_name: Vec<u8>,
    pub extra_field: Vec<u8>,
}

impl LocalFileHeader {
    /// Bit 0 of the general-purpose flag marks an encrypted entry.
    pub fn is_encrypted(&self) -> (r: bool)
        ensures
            r == (self.general_purpose_bit_flag & 1 == 1),
    {
        self.general_purpose_bit_flag & 1 == 1
    }
}

/// Whether a local file header can be parsed at `pos`.
pub open spec fn spec_lfh_ok(b: Seq<u8>, pos: int) -> bool {
    &&& spec_has_sig(b, pos, 3, 4)
    &&& pos + 30 <= b.len()
    &&& pos + 30 + le16(b, pos + 26) + le16(b, pos + 28) <= b.len()
}

/// Where parsing a local file header at `pos` ends.
pub open spec fn spec_lfh_next(b: Seq<u8>, pos: int) -> int {
    pos + 30 + le16(b, pos + 26) + le16(b, pos + 28)
}

/// The decoded fields of a local file header at `pos`.
pub open spec fn spec_lfh_fields(b: Seq<u8>, pos: int, h: LocalFileHeader) -> bool {
    &&& h.version_needed_to_extract == le16(b, pos + 4)
    &&& h.general_purpose_bit_flag == le16(b, pos + 6)
    &&& h.compression_method == le16(b, pos + 8)
    &&& h.last_mod_file_time == le16(b, pos + 10)
    &&& h.last_mod_file_date == le16(b, pos + 12)
    &&& h.crc32 == le32(b, pos + 14)
    &&& h.compressed_size == le32(b, pos + 18)
    &&& h.uncompressed_size == le32(b, pos + 22)
    &&& h.file_name@ == b.subrange(pos + 30, pos + 30 + le16(b, pos + 26))
    &&& h.extra_field@ == b.subrange(
        pos + 30 + le16(b, pos + 26),
        pos + 30 + le16(b, pos + 26) + le16(b, pos + 28),
    )
}

/// Parses a local file header.
pub fn parse_local_file_header(input: &[u8], pos: usize) -> (r: Result<(LocalFileHeader, usize), ()>)
    requires
        pos <= input@.len(),
    ensures
        r is Ok <==> spec_lfh_ok(input@, pos as int),
        r is Ok ==> spec_lfh_fields(input@, pos as int, r->Ok_0.0) && r->Ok_0.1 == spec_lfh_next(
            input@,
            pos as int,
        ),
{
    if !has_sig(input, pos, 3, 4) {
        return Err(());
    }
    if input.len() - pos < 30 {
        return Err(());
    }
    let name_len = read_u16(input, pos + 26) as usize;
    let extra_len = read_u16(input, pos + 28) as usize;
    if input.len() - (pos + 30) < name_len || input.len() - (pos + 30 + name_len) < extra_len {
        return Err(());
    }
    let file_name = copy_range(input, pos + 30, pos + 30 + name_len);
    let extra_field = copy_range(input, pos + 30 + name_len, pos + 30 + name_len + extra_len);
    let h = LocalFileHeader {
        version_needed_to_extract: read_u16(input, pos + 4),
        general_purpose_bit_flag: read_u16(input, pos + 6),
        compression_method: read_u16(input, pos + 8),
        last_mod_file_time: read_u16(input, pos + 10),
        last_mod_file_date: read_u16(input, pos + 12),
        crc32: read_u32(input, pos + 14),
        compressed_size: read_u32(input, pos + 18),
        uncompressed_size: read_u32(input, pos + 22),
        file_name,
        extra_field,
    };
    Ok((h, pos + 30 + name_len + extra_len))
}

/// The 12-byte in-cipher preamble of an encrypted entry.
#[derive(Clone, Copy)]
pub struct EncryptionHeader {
    pub bytes: [u8; 12],
}

/// Parses the 12-byte encryption preamble at `pos`.
#[verifier::loop_isolation(false)]
pub fn parse_encryption_header(input: &[u8], pos: usize) -> (r: Result<(EncryptionHeader, usize), ()>)
    requires
        pos <= input@.len(),
    ensures
        r is Ok <==> pos + 12 <= input@.len(),
        r is Ok ==> r->Ok_0.0.bytes@ == input@.subrange(pos as int, pos + 12) && r->Ok_0.1 == pos
            + 12,
{
    if input.len() - pos < 12 {
        return Err(());
    }
    let mut bytes: [u8; 12] = [0; 12];
    let mut i: usize = 0;
    while i < 12
        invariant
            i <= 12,
            pos + 12 <= input@.len(),
            forall|k: int| 0 <= k < i ==> bytes[k] == input@[pos + k],
        decreases 12 - i,
    {
        bytes[i] = input[pos + i];
        i += 1;
    }
    proof {
        assert(bytes@ =~= input@.subrange(pos as int, pos + 12));
    }
    Ok((EncryptionHeader { bytes }, pos + 12))
}

/// The record that trails an encrypted entry's data.
pub struct DataDescriptor {
    pub crc32: u32,
    pub compressed_size: u32,
    pub uncompressed_size: u32,
}

/// Whether a data descriptor can be parsed at `pos`.
pub open spec fn spec_dd_ok(b: Seq<u8>, pos: int) -> bool {
    &&& spec_has_sig(b, pos, 7, 8)
    &&& pos + 16 <= b.len()
}

pub open spec fn spec_dd_fields(b: Seq<u8>, pos: int, d: DataDescriptor) -> bool {
    &&& d.crc32 == le32(b, pos + 4)
    &&& d.compressed_size == le32(b, pos + 8)
    &&& d.uncompressed_size == le32(b, pos + 12)
}

/// Parses a data descriptor.
pub fn parse_data_descriptor(input: &[u8], pos: usize) -> (r: Result<(DataDescriptor, usize), ()>)
    requires
        pos <= input@.len(),
    ensures
        r is Ok <==> spec_dd_ok(input@, pos as int),
        r is Ok ==> spec_dd_fields(input@, pos as int, r->Ok_0.0) && r->Ok_0.1 == pos + 16,
{
    if !has_sig(input, pos, 7, 8) {
        return Err(());
    }
    if input.len() - pos < 16 {
        return Err(());
    }
    Ok((
        DataDescriptor {
            crc32: read_u32(input, pos + 4),
            compressed_size: read_u32(input, pos + 8),
            uncompressed_size: read_u32(input, pos + 12),
        },
        pos + 16,
    ))
}

/// One local file record: header, optional encryption preamble, the file
/// data, and (for encrypted entries) the trailing data descriptor.
pub struct LocalFile {
    pub local_file_header: LocalFileHeader,
    pub encryption_header: Option<EncryptionHeader>,
    pub file_data: Vec<u8>,
    pub data_descriptor: Option<DataDescriptor>,
}

/// Whether a whole local file record can be parsed at `pos`: the header,
/// and for encrypted entries a compressed size of at least the 12 preamble
/// bytes, the data, and a data descriptor; for plain entries just the data.
pub open spec fn spec_lf_ok(b: Seq<u8>, pos: int) -> bool {
    &&& spec_lfh_ok(b, pos)
    &&& {
        let body = spec_lfh_next(b, pos);
        let cs = le32(b, pos + 18) as int;
        if le16(b, pos + 6) & 1 == 1 {
            &&& cs >= 12
            &&& body + cs <= b.len()
            &&& spec_dd_ok(b, body + cs)
        } else {
            body + cs <= b.len()
        }
    }
}

/// Where parsing a whole local file record at `pos` ends.
pub open spec fn spec_lf_next(b: Seq<u8>, pos: int) -> int {
    let body = spec_lfh_next(b, pos);
    let cs = le32(b, pos + 18) as int;
    if le16(b, pos + 6) & 1 == 1 {
        body + cs + 16
    } else {
        body + cs
    }
}

/// The decoded parts of a whole local file record at `pos`.
pub open spec fn spec_lf_fields(b: Seq<u8>, pos: int, lf: LocalFile) -> bool {
    let body = spec_lfh_next(b, pos);
    let cs = le32(b, pos + 18) as int;
    let enc = le16(b, pos + 6) & 1 == 1;
    &&& spec_lfh_fields(b, pos, lf.local_file_header)
    &&& if enc {
        &&& lf.encryption_header is Some
        &&& lf.encryption_header->0.bytes@ == b.subrange(body, body + 12)
        &&& lf.file_data@ == b.subrange(body + 12, body + cs)
        &&& lf.data_descriptor is Some
        &&& spec_dd_fields(b, body + cs, lf.data_descriptor->0)
    } else {
        &&& lf.encryption_header is None
        &&& lf.file_data@ == b.subrange(body, body + cs)
        &&& lf.data_descriptor is None
    }
}

/// Parses one local file record.
pub fn parse_local_file(input: &[u8], pos: usize) -> (r: Result<(LocalFile, usize), ()>)
    requires
        pos <= input@.len(),
    ensures
        r is Ok <==> spec_lf_ok(input@, pos as int),
        r is Ok ==> spec_lf_fields(input@, pos as int, r->Ok_0.0) && r->Ok_0.1 == spec_lf_next(
            input@,
            pos as int,
        ),
{
    let (local_file_header, body) = match parse_local_file_header(input, pos) {
        Ok(h) => h,
        Err(()) => {
            return Err(());
        },
    };
    let compressed_size = local_file_header.compressed_size as usize;
    if local_file_header.is_encrypted() {
        if compressed_size < 12 {
            return Err(());
        }
        if input.len() - body < compressed_size {
            return Err(());
        }
        let (encryption_header, data_start) = match parse_encryption_header(input, body) {
            Ok(e) => e,
            Err(()) => {
                return Err(());
            },
        };
        let file_data = copy_range(input, data_start, body + compressed_size);
        let (data_descriptor, next) = match parse_data_descriptor(input, body + compressed_size) {
            Ok(d) => d,
            Err(()) => {
                return Err(());
            },
        };
        Ok((
            LocalFile {
                local_file_header,
                encryption_header: Some(encryption_header),
                file_data,
                data_descriptor: Some(data_descriptor),
            },
            next,
        ))
    } else {
        if input.len() - body < compressed_size {
            return Err(());
        }
        let file_data = copy_range(input, body, body + compressed_size);
        Ok((
            LocalFile {
                local_file_header,
                encryption_header: None,
                file_data,
                data_descriptor: None,
            },
            body + compressed_size,
        ))
    }
}

/// One entry of the central directory.
pub struct CentralDirectoryFileHeader {
    pub version_made_by: u16,
    pub version_needed_to_extract: u16,
    pub general_purpose_bit_flag: u16,
    pub compression_method: u16,
    pub last_mod_file_time: u16,
    pub last_mod_file_date: u16,
    pub crc_32: u32,
    pub compressed_size: u32,
    pub uncompressed_size: u32,
    pub disk_number_start: u16,
    pub internal_file_attributes: u16,
    pub external_file_attributes: u32,
    pub relative_offset_of_local_header: u32,
    pub file_name: Vec<u8>,
    pub extra_field: Vec<u8>,
    pub file_comment: Vec<u8>,
}

/// Whether a central-directory entry can be parsed at `pos`.
pub open spec fn spec_cd_ok(b: Seq<u8>, pos: int) -> bool {
    &&& spec_has_sig(b, pos, 1, 2)
    &&& pos + 46 <= b.len()
    &&& pos + 46 + le16(b, pos + 28) + le16(b, pos + 30) + le16(b, pos + 32) <= b.len()
}

pub open spec fn spec_cd_next(b: Seq<u8>, pos: int) -> int {
    pos + 46 + le16(b, pos + 28) + le16(b, pos + 30) + le16(b, pos + 32)
}

pub open spec fn spec_cd_fields(b: Seq<u8>, pos: int, h: CentralDirectoryFileHeader) -> bool {
    let nl = le16(b, pos + 28) as int;
    let el = le16(b, pos + 30) as int;
    let cl = le16(b, pos + 32) as int;
    &&& h.version_made_by == le16(b, pos + 4)
    &&& h.version_needed_to_extract == le16(b, pos + 6)
    &&& h.general_purpose_bit_flag == le16(b, pos + 8)
    &&& h.compression_method == le16(b, pos + 10)
    &&& h.last_mod_file_time == le16(b, pos + 12)
    &&& h.last_mod_file_date == le16(b, pos + 14)
    &&& h.crc_32 == le32(b, pos + 16)
    &&& h.compressed_size == le32(b, pos + 20)
    &&& h.uncompressed_size == le32(b, pos + 24)
    &&& h.disk_number_start == le16(b, pos + 34)
    &&& h.internal_file_attributes == le16(b, pos + 36)
    &&& h.external_file_attributes == le32(b, pos + 38)
    &&& h.relative_offset_of_local_header == le32(b, pos + 42)
    &&& h.file_name@ == b.subrange(pos + 46, pos + 46 + nl)
    &&& h.extra_field@ == b.subrange(pos + 46 + nl, pos + 46 + nl + el)
    &&& h.file_comment@ == b.subrange(pos + 46 + nl + el, pos + 46 + nl + el + cl)
}

/// Parses one central-directory entry.
pub fn parse_central_directory_file_header(input: &[u8], pos: usize) -> (r: Result<
    (CentralDirectoryFileHeader, usize),
    (),
>)
    requires
        pos <= input@.len(),
    ensures
        r is Ok <==> spec_cd_ok(input@, pos as int),
        r is Ok ==> spec_cd_fields(input@, pos as int, r->Ok_0.0) && r->Ok_0.1 == spec_cd_next(
            input@,
            pos as int,
        ),
{
    if !has_sig(input, pos, 1, 2) {
        return Err(());
    }
    if input.len() - pos < 46 {
        return Err(());
    }
    let nl = read_u16(input, pos + 28) as usize;
    let el = read_u16(input, pos + 30) as usize;
    let cl = read_u16(input, pos + 32) as usize;
    if input.len() - (pos + 46) < nl || input.len() - (pos + 46 + nl) < el || input.len() - (pos
        + 46 + nl + el) < cl {
        return Err(());
    }
    let file_name = copy_range(input, pos + 46, pos + 46 + nl);
    let extra_field = copy_range(input, pos + 46 + nl, pos + 46 + nl + el);
    let file_comment = copy_range(input, pos + 46 + nl + el, pos + 46 + nl + el + cl);
    let h = CentralDirectoryFileHeader {
        version_made_by: read_u16(input, pos + 4),
        version_needed_to_extract: read_u16(input, pos + 6),
        general_purpose_bit_flag: read_u16(input, pos + 8),
        compression_method: read_u16(input, pos + 10),
        last_mod_file_time: read_u16(input, pos + 12),
        last_mod_file_date: read_u16(input, pos + 14),
        crc_32: read_u32(input, pos + 16),
        compressed_size: read_u32(input, pos + 20),
        uncompressed_size: read_u32(input, pos + 24),
        disk_number_start: read_u16(input, pos + 34),
        internal_file_attributes: read_u16(input, pos + 36),
        external_file_attributes: read_u32(input, pos + 38),
        relative_offset_of_local_header: read_u32(input, pos + 42),
        file_name,
        extra_field,
        file_comment,
    };
    Ok((h, pos + 46 + nl + el + cl))
}

/// A central-directory digital signature record.
pub struct DigitalSignature {
    pub signature_data: Vec<u8>,
}

/// Whether a digital signature can be parsed at `pos`.
pub open spec fn spec_ds_ok(b: Seq<u8>, pos: int) -> bool {
    &&& spec_has_sig(b, pos, 7, 8)
    &&& pos + 6 <= b.len()
    &&& pos + 6 + le16(b, pos + 4) <= b.len()
}

pub open spec fn spec_ds_next(b: Seq<u8>, pos: int) -> int {
    pos + 6 + le16(b, pos + 4)
}

pub open spec fn spec_ds_fields(b: Seq<u8>, pos: int, d: DigitalSignature) -> bool {
    d.signature_data@ == b.subrange(pos + 6, pos + 6 + le16(b, pos + 4))
}

/// Parses a digital signature record.
pub fn parse_digital_signature(input: &[u8], pos: usize) -> (r: Result<(DigitalSignature, usize), ()>)
    requires
        pos <= input@.len(),
    ensures
        r is Ok <==> spec_ds_ok(input@, pos as int),
        r is Ok ==> spec_ds_fields(input@, pos as int, r->Ok_0.0) && r->Ok_0.1 == spec_ds_next(
            input@,
            pos as int,
        ),
{
    if !has_sig(input, pos, 7, 8) {
        return Err(());
    }
    if input.len() - pos < 6 {
        return Err(());
    }
    let size = read_u16(input, pos + 4) as usize;
    if input.len() - (pos + 6) < size {
        return Err(());
    }
    let signature_data = copy_range(input, pos + 6, pos + 6 + size);
    Ok((DigitalSignature { signature_data }, pos + 6 + size))
}

/// The end-of-central-directory record.
pub struct EndOfCentralDirectoryRecord {
    /// Number of this disk.
    pub disk_num: u16,
    /// Number of the disk with the start of the central directory.
    pub disk_num_start_cd: u16,
    /// Total number of entries in the central directory on this disk.
    pub cd_num_entries_cur_disk: u16,
    /// Total number of entries in the central directory.
    pub cd_num_entries: u16,
    /// Size of the central directory.
    pub cd_size: u32,
    /// Offset of the start of the central directory on its starting disk.
    pub cd_offset: u32,
    pub zip_file_comment: Vec<u8>,
}

/// Whether an end-of-central-directory record can be parsed at `pos`.
pub open spec fn spec_eocd_ok(b: Seq<u8>, pos: int) -> bool {
    &&& spec_has_sig(b, pos, 5, 6)
    &&& pos + 22 <= b.len()
    &&& pos + 22 + le16(b, pos + 20) <= b.len()
}

pub open spec fn spec_eocd_next(b: Seq<u8>, pos: int) -> int {
    pos + 22 + le16(b, pos + 20)
}

pub open spec fn spec_eocd_fields(b: Seq<u8>, pos: int, e: EndOfCentralDirectoryRecord) -> bool {
    &&& e.disk_num == le16(b, pos + 4)
    &&& e.disk_num_start_cd == le16(b, pos + 6)
    &&& e.cd_num_entries_cur_disk == le16(b, pos + 8)
    &&& e.cd_num_entries == le16(b, pos + 10)
    &&& e.cd_size == le32(b, pos + 12)
    &&& e.cd_offset == le32(b, pos + 16)
    &&& e.zip_file_comment@ == b.subrange(pos + 22, pos + 22 + le16(b, pos + 20))
}

/// Parses the end-of-central-directory record.
pub fn parse_end_of_central_directory_record(input: &[u8], pos: usize) -> (r: Result<
    (EndOfCentralDirectoryRecord, usize),
    (),
>)
    requires
        pos <= input@.len(),
    ensures
        r is Ok <==> spec_eocd_ok(input@, pos as int),
        r is Ok ==> spec_eocd_fields(input@, pos as int, r->Ok_0.0) && r->Ok_0.1 == spec_eocd_next(
            input@,
            pos as int,
        ),
{
    if !has_sig(input, pos, 5, 6) {
        return Err(());
    }
    if input.len() - pos < 22 {
        return Err(());
    }
    let comment_len = read_u16(input, pos + 20) as usize;
    if input.len() - (pos + 22) < comment_len {
        return Err(());
    }
    let zip_file_comment = copy_range(input, pos + 22, pos + 22 + comment_len);
    Ok((
        EndOfCentralDirectoryRecord {
            disk_num: read_u16(input, pos + 4),
            disk_num_start_cd: read_u16(input, pos + 6),
            cd_num_entries_cur_disk: read_u16(input, pos + 8),
            cd_num_entries: read_u16(input, pos + 10),
            cd_size: read_u32(input, pos + 12),
            cd_offset: read_u32(input, pos + 16),
            zip_file_comment,
        },
        pos + 22 + comment_len,
    ))
}

/// One record of an archive.
pub enum Record {
    LocalFile(LocalFile),
    CentralDirectory(CentralDirectoryFileHeader),
    DigitalSignature(DigitalSignature),
    EndOfCentralDirectory(EndOfCentralDirectoryRecord),
}

impl Record {
    /// The local file inside this record, if it is one.
    pub fn get_local_file(&self) -> (r: Option<&LocalFile>)
        ensures
            match self {
                Record::LocalFile(lf) => r == Some(lf),
                _ => r is None,
            },
    {
        match self {
            Record::LocalFile(lf) => Some(lf),
            _ => None,
        }
    }
}

/// Whether any record can be parsed at `pos`.
pub open spec fn spec_any_record_ok(b: Seq<u8>, pos: int) -> bool {
    spec_lf_ok(b, pos) || spec_cd_ok(b, pos) || spec_ds_ok(b, pos) || spec_eocd_ok(b, pos)
}

/// The record parsed at `pos` is `r` and parsing ends at `q`: each record
/// kind is tried in order, a local file first, then a central-directory
/// entry, a digital signature, and the end-of-central-directory record.
pub open spec fn spec_record_at(b: Seq<u8>, pos: int, q: int, r: Record) -> bool {
    match r {
        Record::LocalFile(lf) => spec_lf_ok(b, pos) && spec_lf_fields(b, pos, lf) && q
            == spec_lf_next(b, pos),
        Record::CentralDirectory(h) => !spec_lf_ok(b, pos) && spec_cd_ok(b, pos) && spec_cd_fields(
            b,
            pos,
            h,
        ) && q == spec_cd_next(b, pos),
        Record::DigitalSignature(d) => !spec_lf_ok(b, pos) && !spec_cd_ok(b, pos) && spec_ds_ok(
            b,
            pos,
        ) && spec_ds_fields(b, pos, d) && q == spec_ds_next(b, pos),
        Record::EndOfCentralDirectory(e) => !spec_lf_ok(b, pos) && !spec_cd_ok(b, pos)
            && !spec_ds_ok(b, pos) && spec_eocd_ok(b, pos) && spec_eocd_fields(b, pos, e) && q
            == spec_eocd_next(b, pos),
    }
}

/// Parses one record, trying each kind in order.
pub fn parse_record(input: &[u8], pos: usize) -> (r: Result<(Record, usize), ()>)
    requires
        pos <= input@.len(),
    ensures
        r is Ok <==> spec_any_record_ok(input@, pos as int),
        r is Ok ==> spec_record_at(input@, pos as int, r->Ok_0.1 as int, r->Ok_0.0) && pos
            < r->Ok_0.1 <= input@.len(),
{
    match parse_local_file(input, pos) {
        Ok((lf, q)) => {
            return Ok((Record::LocalFile(lf), q));
        },
        Err(()) => {},
    }
    match parse_central_directory_file_header(input, pos) {
        Ok((h, q)) => {
            return Ok((Record::CentralDirectory(h), q));
        },
        Err(()) => {},
    }
    match parse_digital_signature(input, pos) {
        Ok((d, q)) => {
            return Ok((Record::DigitalSignature(d), q));
        },
        Err(()) => {},
    }
    match parse_end_of_central_directory_record(input, pos) {
        Ok((e, q)) => {
            return Ok((Record::EndOfCentralDirectory(e), q));
        },
        Err(()) => {},
    }
    Err(())
}

/// Parses the records of an archive from the front, stopping at the first
/// position where no record starts; returns the records and that position.
/// (On a well-formed archive the position is the input's end.)
pub fn parse(input: &[u8]) -> (r: (Vec<Record>, usize))
    ensures
        r.1 <= input@.len(),
        !spec_any_record_ok(input@, r.1 as int),
        exists|ps: Seq<int>|
            {
                &&& ps.len() == r.0@.len() + 1
                &&& ps[0] == 0
                &&& ps[ps.len() - 1] == r.1
                &&& forall|i: int|
                    0 <= i < r.0@.len() ==> spec_record_at(
                        input@,
                        ps[i],
                        ps[i + 1],
                        #[trigger] r.0@[i],
                    )
            },
{
    let mut records: Vec<Record> = Vec::new();
    let mut pos: usize = 0;
    let ghost mut ps: Seq<int> = seq![0int];
    loop
        invariant
            pos <= input@.len(),
            ps.len() == records@.len() + 1,
            ps[0] == 0,
            ps[ps.len() - 1] == pos,
            forall|i: int|
                0 <= i < records@.len() ==> spec_record_at(
                    input@,
                    ps[i],
                    ps[i + 1],
                    #[trigger] records@[i],
                ),
        decreases input@.len() - pos,
    {
        match parse_record(input, pos) {
            Ok((rec, q)) => {
                records.push(rec);
                pos = q;
                proof {
                    ps = ps.push(q as int);
                }
            },
            Err(()) => {
                return (records, pos);
            },
        }
    }
}

} // verus!
