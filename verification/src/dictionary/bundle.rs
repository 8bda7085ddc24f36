//! The dictionary source bundle: its magic, header checks, the compressed
//! metadata section, and the records of the metadata. Writing the records
//! into the database happens outside this module.
use vstd::prelude::*;
use vstd::utf8::{decode_utf8, valid_utf8};

verus! {

/// The database schema the bundles are built for.
pub const SCHEMA_VERSION: u32 = 4;

/// The header of a bundle, as its JSON section gives it.
#[derive(Debug)]
pub struct BundleHeader {
    pub format_version: u32,
    pub schema_version: u32,
    pub source_name: String,
    pub bundle_id: String,
    pub canonical_count: usize,
    pub alias_count: usize,
    pub definition_block_count: usize,
    pub metadata_uncompressed_size: usize,
}

/// The eight bytes a bundle starts with.
pub open spec fn magic() -> Seq<u8> {
    seq![0x4b, 0x44, 0x49, 0x43, 0x54, 0x00, 0x01, 0x00]
}

/// Whether the first bytes read are the bundle magic `KDICT\0\x01\0`.
pub fn is_bundle_magic(bytes: &[u8]) -> (b: bool)
    ensures
        b == (bytes@ == magic()),
{
    if bytes.len() != 8 {
        return false;
    }
    let ok = bytes[0] == 0x4b && bytes[1] == 0x44 && bytes[2] == 0x49 && bytes[3] == 0x43 && bytes[4]
        == 0x54 && bytes[5] == 0x00 && bytes[6] == 0x01 && bytes[7] == 0x00;
    if ok {
        assert(bytes@ =~= magic());
    }
    ok
}

/// Why a bundle is refused.
#[derive(Debug, PartialEq, Eq)]
pub enum BundleError {
    /// The format or schema version is not the one this library builds.
    Incompatible { format_version: u32, schema_version: u32 },
    /// The metadata size in the section header differs from the JSON header's.
    MetadataSizeMismatch,
    /// The metadata section does not inflate.
    MetadataCorrupt,
    /// The metadata inflates to another size than announced.
    MetadataLengthMismatch,
    /// The number of records differs from the header's counts.
    RecordCountMismatch,
    /// The number of definition blocks differs from the header's.
    BlockCountMismatch,
}

impl BundleError {
    /// The message shown for the error.
    pub fn message(&self) -> (r: String)
        ensures
            r@ == match *self {
                BundleError::Incompatible { format_version, schema_version } => "词典源包版本不兼容：format="@
                    + crate::text::decimal(format_version as nat) + " schema="@ + crate::text::decimal(schema_version as nat),
                BundleError::MetadataSizeMismatch => "词典源包 metadata 长度与 header 不一致"@,
                BundleError::MetadataCorrupt => "词典源包 metadata 无法解压"@,
                BundleError::MetadataLengthMismatch => "词典源包 metadata 解压长度不一致"@,
                BundleError::RecordCountMismatch => "词典源包记录数量与 header 不一致"@,
                BundleError::BlockCountMismatch => "词典源包 definition block 数量不一致"@,
            },
    {
        match self {
            BundleError::Incompatible { format_version, schema_version } => {
                let mut s = String::new();
                crate::text::push_str(&mut s, "词典源包版本不兼容：format=");
                crate::text::push_decimal(&mut s, *format_version as u64);
                crate::text::push_str(&mut s, " schema=");
                crate::text::push_decimal(&mut s, *schema_version as u64);
                s
            },
            BundleError::MetadataSizeMismatch => "词典源包 metadata 长度与 header 不一致".to_owned(),
            BundleError::MetadataCorrupt => "词典源包 metadata 无法解压".to_owned(),
            BundleError::MetadataLengthMismatch => "词典源包 metadata 解压长度不一致".to_owned(),
            BundleError::RecordCountMismatch => "词典源包记录数量与 header 不一致".to_owned(),
            BundleError::BlockCountMismatch => "词典源包 definition block 数量不一致".to_owned(),
        }
    }
}

/// Accepts a header of format 1 for this schema whose metadata size agrees
/// with the size in the metadata section.
pub fn check_header(header: &BundleHeader, metadata_size: u64) -> (r: Result<(), BundleError>)
    ensures
        r == if header.format_version != 1 || header.schema_version != SCHEMA_VERSION {
            Err(BundleError::Incompatible {
                format_version: header.format_version,
                schema_version: header.schema_version,
            })
        } else if metadata_size as usize != header.metadata_uncompressed_size {
            Err(BundleError::MetadataSizeMismatch)
        } else {
            Ok(())
        },
{
    if header.format_version != 1 || header.schema_version != SCHEMA_VERSION {
        return Err(BundleError::Incompatible {
            format_version: header.format_version,
            schema_version: header.schema_version,
        });
    }
    if metadata_size as usize != header.metadata_uncompressed_size {
        return Err(BundleError::MetadataSizeMismatch);
    }
    Ok(())
}

/// What `flate2::read::ZlibDecoder` reads to the end from the bytes, or
/// nothing when they are not a valid zlib stream.
pub uninterp spec fn zlib_inflated(compressed: Seq<u8>) -> Option<Seq<u8>>;

/// Inflates a zlib stream with `flate2::read::ZlibDecoder::new` and
/// `Read::read_to_end`; `None` when reading fails.
#[verifier::external_body]
fn zlib_inflate(compressed: &[u8]) -> (r: Option<Vec<u8>>)
    ensures
        match r {
            Some(v) => zlib_inflated(compressed@) == Some(v@),
            None => zlib_inflated(compressed@) is None,
        },
{
    let mut output = Vec::new();
    std::io::Read::read_to_end(&mut flate2::read::ZlibDecoder::new(compressed), &mut output).ok().map(|_| output)
}

/// The metadata section inflated, when it has the announced size.
pub fn inflate_metadata(compressed: &[u8], expected_size: usize) -> (r: Result<Vec<u8>, BundleError>)
    ensures
        match zlib_inflated(compressed@) {
            None => r == Err::<Vec<u8>, BundleError>(BundleError::MetadataCorrupt),
            Some(v) => if v.len() == expected_size {
                r matches Ok(m) && m@ == v
            } else {
                r == Err::<Vec<u8>, BundleError>(BundleError::MetadataLengthMismatch)
            },
        },
{
    match zlib_inflate(compressed) {
        None => Err(BundleError::MetadataCorrupt),
        Some(metadata) => {
            if metadata.len() == expected_size {
                Ok(metadata)
            } else {
                Err(BundleError::MetadataLengthMismatch)
            }
        },
    }
}

/// Little-endian `u16` at `at`.
pub open spec fn le_u16(b: Seq<u8>, at: int) -> u16 {
    (b[at] as int + b[at + 1] as int * 256) as u16
}

/// Little-endian `u32` at `at`.
pub open spec fn le_u32(b: Seq<u8>, at: int) -> u32 {
    (b[at] as int + b[at + 1] as int * 256 + b[at + 2] as int * 65536 + b[at + 3] as int * 16777216) as u32
}

/// Why a metadata section is refused.
#[derive(Debug, PartialEq, Eq, Clone, Copy, Structural)]
pub enum MetadataError {
    /// A length does not fit in memory.
    Overflow,
    /// A field runs past the end of the metadata.
    Truncated,
    /// A text is not UTF-8.
    InvalidText,
    /// A record starts with an unknown tag.
    UnknownRecord(u8),
}

impl MetadataError {
    /// The message shown for the error.
    pub fn message(&self) -> (r: String)
        ensures
            r@ == match *self {
                MetadataError::Overflow => "词典 metadata 长度溢出"@,
                MetadataError::Truncated => "词典 metadata 提前结束"@,
                MetadataError::InvalidText => "词典 metadata 文本不是 UTF-8"@,
                MetadataError::UnknownRecord(tag) => "未知词典 metadata 记录类型："@ + crate::text::decimal(tag as nat),
            },
    {
        match self {
            MetadataError::Overflow => "词典 metadata 长度溢出".to_owned(),
            MetadataError::Truncated => "词典 metadata 提前结束".to_owned(),
            MetadataError::InvalidText => "词典 metadata 文本不是 UTF-8".to_owned(),
            MetadataError::UnknownRecord(tag) => {
                let mut s = String::new();
                crate::text::push_str(&mut s, "未知词典 metadata 记录类型：");
                crate::text::push_decimal(&mut s, *tag as u64);
                s
            },
        }
    }
}

/// A search key of a canonical entry.
#[derive(Debug, PartialEq, Eq)]
pub struct EntryKeyRecord {
    pub kind: u8,
    pub normalized_value: String,
    pub display_value: Option<String>,
    pub rank: u16,
}

/// A record of the metadata section.
#[derive(Debug, PartialEq, Eq)]
pub enum MetadataRecord {
    /// An entry with its headword, where its definition is, and its keys.
    Canonical { headword: String, block_id: u32, offset: u32, length: u32, keys: Vec<EntryKeyRecord> },
    /// An alias of an entry, with its keys (kind, value).
    Alias { alias: String, normalized_alias: Option<String>, target: String, keys: Vec<(u8, String)> },
}

pub ghost enum RecordView {
    Canonical {
        headword: Seq<char>,
        block_id: u32,
        offset: u32,
        length: u32,
        keys: Seq<(u8, Seq<char>, Option<Seq<char>>, u16)>,
    },
    Alias { alias: Seq<char>, normalized_alias: Option<Seq<char>>, target: Seq<char>, keys: Seq<(u8, Seq<char>)> },
}

pub open spec fn opt_text(o: Option<String>) -> Option<Seq<char>> {
    match o {
        Some(s) => Some(s@),
        None => None,
    }
}

pub open spec fn key_view(k: EntryKeyRecord) -> (u8, Seq<char>, Option<Seq<char>>, u16) {
    (k.kind, k.normalized_value@, opt_text(k.display_value), k.rank)
}

pub open spec fn record_view(r: MetadataRecord) -> RecordView {
    match r {
        MetadataRecord::Canonical { headword, block_id, offset, length, keys } => RecordView::Canonical {
            headword: headword@,
            block_id,
            offset,
            length,
            keys: keys@.map_values(|k: EntryKeyRecord| key_view(k)),
        },
        MetadataRecord::Alias { alias, normalized_alias, target, keys } => RecordView::Alias {
            alias: alias@,
            normalized_alias: opt_text(normalized_alias),
            target: target@,
            keys: keys@.map_values(|k: (u8, String)| (k.0, k.1@)),
        },
    }
}

/// Where a field of `size` bytes at `at` ends.
pub open spec fn field_end(b: Seq<u8>, at: int, size: int) -> Result<int, MetadataError> {
    if at + size > usize::MAX {
        Err(MetadataError::Overflow)
    } else if at + size > b.len() {
        Err(MetadataError::Truncated)
    } else {
        Ok(at + size)
    }
}

/// A length-prefixed UTF-8 text at `at`, and where it ends.
pub open spec fn text_at(b: Seq<u8>, at: int) -> Result<(Seq<char>, int), MetadataError> {
    match field_end(b, at, 4) {
        Err(e) => Err(e),
        Ok(p) => {
            let size = le_u32(b, at) as int;
            match field_end(b, p, size) {
                Err(e) => Err(e),
                Ok(end) => if valid_utf8(b.subrange(p, end)) {
                    Ok((decode_utf8(b.subrange(p, end)), end))
                } else {
                    Err(MetadataError::InvalidText)
                },
            }
        },
    }
}

/// A text that may be absent (length `u32::MAX`), and where it ends.
pub open spec fn optional_text_at(b: Seq<u8>, at: int) -> Result<(Option<Seq<char>>, int), MetadataError> {
    match field_end(b, at, 4) {
        Err(e) => Err(e),
        Ok(p) => if le_u32(b, at) == u32::MAX {
            Ok((None, p))
        } else {
            match text_at(b, at) {
                Err(e) => Err(e),
                Ok((t, end)) => Ok((Some(t), end)),
            }
        },
    }
}

/// `n` entry keys of `kind` from `at`: each a value, an optional display value and a rank.
pub open spec fn entry_keys_at(b: Seq<u8>, at: int, kind: u8, n: nat) -> Result<
    (Seq<(u8, Seq<char>, Option<Seq<char>>, u16)>, int),
    MetadataError,
>
    decreases n,
{
    if n == 0 {
        Ok((seq![], at))
    } else {
        match entry_keys_at(b, at, kind, (n - 1) as nat) {
            Err(e) => Err(e),
            Ok((keys, p)) => match text_at(b, p) {
                Err(e) => Err(e),
                Ok((value, p2)) => match optional_text_at(b, p2) {
                    Err(e) => Err(e),
                    Ok((display, p3)) => match field_end(b, p3, 2) {
                        Err(e) => Err(e),
                        Ok(p4) => Ok((keys.push((kind, value, display, le_u16(b, p3))), p4)),
                    },
                },
            },
        }
    }
}

/// A counted list of entry keys of `kind` at `at`.
pub open spec fn counted_entry_keys(b: Seq<u8>, at: int, kind: u8) -> Result<
    (Seq<(u8, Seq<char>, Option<Seq<char>>, u16)>, int),
    MetadataError,
> {
    match field_end(b, at, 2) {
        Err(e) => Err(e),
        Ok(p) => entry_keys_at(b, p, kind, le_u16(b, at) as nat),
    }
}

/// `n` alias keys of `kind` from `at`.
pub open spec fn alias_keys_at(b: Seq<u8>, at: int, kind: u8, n: nat) -> Result<(Seq<(u8, Seq<char>)>, int), MetadataError>
    decreases n,
{
    if n == 0 {
        Ok((seq![], at))
    } else {
        match alias_keys_at(b, at, kind, (n - 1) as nat) {
            Err(e) => Err(e),
            Ok((keys, p)) => match text_at(b, p) {
                Err(e) => Err(e),
                Ok((value, p2)) => Ok((keys.push((kind, value)), p2)),
            },
        }
    }
}

pub open spec fn counted_alias_keys(b: Seq<u8>, at: int, kind: u8) -> Result<(Seq<(u8, Seq<char>)>, int), MetadataError> {
    match field_end(b, at, 2) {
        Err(e) => Err(e),
        Ok(p) => alias_keys_at(b, p, kind, le_u16(b, at) as nat),
    }
}

/// The record at `at` and where it ends.
pub open spec fn record_at(b: Seq<u8>, at: int) -> Result<(RecordView, int), MetadataError> {
    match field_end(b, at, 1) {
        Err(e) => Err(e),
        Ok(p) => if b[at] == 0 {
            match text_at(b, p) {
                Err(e) => Err(e),
                Ok((headword, p1)) => match field_end(b, p1, 12) {
                    Err(e) => Err(e),
                    Ok(p2) => match counted_entry_keys(b, p2, 0) {
                        Err(e) => Err(e),
                        Ok((k0, p3)) => match counted_entry_keys(b, p3, 1) {
                            Err(e) => Err(e),
                            Ok((k1, p4)) => Ok((
                                RecordView::Canonical {
                                    headword,
                                    block_id: le_u32(b, p1),
                                    offset: le_u32(b, p1 + 4),
                                    length: le_u32(b, p1 + 8),
                                    keys: k0 + k1,
                                },
                                p4,
                            )),
                        },
                    },
                },
            }
        } else if b[at] == 1 {
            match text_at(b, p) {
                Err(e) => Err(e),
                Ok((alias, p1)) => match optional_text_at(b, p1) {
                    Err(e) => Err(e),
                    Ok((normalized, p2)) => match text_at(b, p2) {
                        Err(e) => Err(e),
                        Ok((target, p3)) => match counted_alias_keys(b, p3, 0) {
                            Err(e) => Err(e),
                            Ok((k0, p4)) => match counted_alias_keys(b, p4, 1) {
                                Err(e) => Err(e),
                                Ok((k1, p5)) => Ok((
                                    RecordView::Alias { alias, normalized_alias: normalized, target, keys: k0 + k1 },
                                    p5,
                                )),
                            },
                        },
                    },
                },
            }
        } else {
            Err(MetadataError::UnknownRecord(b[at]))
        },
    }
}


pub proof fn lemma_text_at(b: Seq<u8>, at: int)
    ensures
        text_at(b, at) matches Ok((_, e)) ==> at + 4 <= e <= b.len(),
{
}

pub proof fn lemma_optional_text_at(b: Seq<u8>, at: int)
    ensures
        optional_text_at(b, at) matches Ok((_, e)) ==> at + 4 <= e <= b.len(),
{
}

pub proof fn lemma_entry_keys_at(b: Seq<u8>, at: int, kind: u8, n: nat)
    requires
        0 <= at <= b.len(),
    ensures
        entry_keys_at(b, at, kind, n) matches Ok((_, e)) ==> at <= e <= b.len(),
    decreases n,
{
    if n > 0 {
        lemma_entry_keys_at(b, at, kind, (n - 1) as nat);
        if let Ok((_, p)) = entry_keys_at(b, at, kind, (n - 1) as nat) {
            lemma_text_at(b, p);
            if let Ok((_, p2)) = text_at(b, p) {
                lemma_optional_text_at(b, p2);
            }
        }
    }
}

pub proof fn lemma_alias_keys_at(b: Seq<u8>, at: int, kind: u8, n: nat)
    requires
        0 <= at <= b.len(),
    ensures
        alias_keys_at(b, at, kind, n) matches Ok((_, e)) ==> at <= e <= b.len(),
    decreases n,
{
    if n > 0 {
        lemma_alias_keys_at(b, at, kind, (n - 1) as nat);
        if let Ok((_, p)) = alias_keys_at(b, at, kind, (n - 1) as nat) {
            lemma_text_at(b, p);
        }
    }
}

pub proof fn lemma_record_advances(b: Seq<u8>, at: int)
    requires
        0 <= at <= b.len(),
    ensures
        record_at(b, at) matches Ok((_, e)) ==> at < e <= b.len(),
{
    lemma_text_at(b, at + 1);
    if let Ok((_, p1)) = text_at(b, at + 1) {
        lemma_optional_text_at(b, p1);
        if p1 + 14 <= b.len() {
            lemma_entry_keys_at(b, p1 + 14, 0, le_u16(b, p1 + 12) as nat);
            if let Ok((_, p3)) = counted_entry_keys(b, p1 + 12, 0) {
                if p3 + 2 <= b.len() {
                    lemma_entry_keys_at(b, p3 + 2, 1, le_u16(b, p3) as nat);
                }
            }
        }
        lemma_text_at(b, p1);
        if let Ok((_, p2)) = optional_text_at(b, p1) {
            lemma_text_at(b, p2);
            if let Ok((_, p3)) = text_at(b, p2) {
                if p3 + 2 <= b.len() {
                    lemma_alias_keys_at(b, p3 + 2, 0, le_u16(b, p3) as nat);
                }
                if let Ok((_, p4)) = counted_alias_keys(b, p3, 0) {
                    if p4 + 2 <= b.len() {
                        lemma_alias_keys_at(b, p4 + 2, 1, le_u16(b, p4) as nat);
                    }
                }
            }
        }
    }
}

/// The records of a metadata section from `at` to its end.
pub open spec fn records_from(b: Seq<u8>, at: int) -> Result<Seq<RecordView>, MetadataError>
    decreases b.len() - at,
{
    if at < 0 || at >= b.len() {
        Ok(seq![])
    } else {
        match record_at(b, at) {
            Err(e) => Err(e),
            Ok((r, next)) => {
                proof {
                    lemma_record_advances(b, at);
                }
                match records_from(b, next) {
                    Err(e) => Err(e),
                    Ok(rest) => Ok(seq![r] + rest),
                }
            },
        }
    }
}


/// The text the bytes `start..end` encode (`std::str::from_utf8`), when they are UTF-8.
#[verifier::external_body]
fn utf8_text(bytes: &[u8], start: usize, end: usize) -> (r: Option<String>)
    requires
        start <= end <= bytes.len(),
    ensures
        match r {
            Some(s) => valid_utf8(bytes@.subrange(start as int, end as int)) && s@ == decode_utf8(
                bytes@.subrange(start as int, end as int),
            ),
            None => !valid_utf8(bytes@.subrange(start as int, end as int)),
        },
{
    std::str::from_utf8(&bytes[start..end]).ok().map(str::to_owned)
}

fn end_of(bytes: &[u8], at: usize, size: usize) -> (r: Result<usize, MetadataError>)
    ensures
        match field_end(bytes@, at as int, size as int) {
            Ok(e) => r == Ok::<usize, MetadataError>(e as usize),
            Err(x) => r == Err::<usize, MetadataError>(x),
        },
{
    match at.checked_add(size) {
        None => Err(MetadataError::Overflow),
        Some(end) => if end > bytes.len() {
            Err(MetadataError::Truncated)
        } else {
            Ok(end)
        },
    }
}

fn u16_at(bytes: &[u8], at: usize) -> (r: u16)
    requires
        at + 2 <= bytes.len(),
    ensures
        r == le_u16(bytes@, at as int),
{
    let v: u32 = bytes[at] as u32 + (bytes[at + 1] as u32) * 256;
    v as u16
}

fn u32_at(bytes: &[u8], at: usize) -> (r: u32)
    requires
        at + 4 <= bytes.len(),
    ensures
        r == le_u32(bytes@, at as int),
{
    let v: u64 = bytes[at] as u64 + (bytes[at + 1] as u64) * 256 + (bytes[at + 2] as u64) * 65536
        + (bytes[at + 3] as u64) * 16777216;
    v as u32
}

fn read_text(bytes: &[u8], at: usize) -> (r: Result<(String, usize), MetadataError>)
    ensures
        match text_at(bytes@, at as int) {
            Ok((t, e)) => r matches Ok((s, e2)) && s@ == t && e2 == e,
            Err(x) => r matches Err(y) && y == x,
        },
{
    let p = match end_of(bytes, at, 4) {
        Ok(p) => p,
        Err(e) => {
            return Err(e);
        },
    };
    let size = u32_at(bytes, at) as usize;
    let end = match end_of(bytes, p, size) {
        Ok(e) => e,
        Err(e) => {
            return Err(e);
        },
    };
    match utf8_text(bytes, p, end) {
        Some(s) => Ok((s, end)),
        None => Err(MetadataError::InvalidText),
    }
}

fn read_optional_text(bytes: &[u8], at: usize) -> (r: Result<(Option<String>, usize), MetadataError>)
    ensures
        match optional_text_at(bytes@, at as int) {
            Ok((t, e)) => r matches Ok((s, e2)) && opt_text(s) == t && e2 == e,
            Err(x) => r matches Err(y) && y == x,
        },
{
    let p = match end_of(bytes, at, 4) {
        Ok(p) => p,
        Err(e) => {
            return Err(e);
        },
    };
    if u32_at(bytes, at) == u32::MAX {
        return Ok((None, p));
    }
    match read_text(bytes, at) {
        Ok((s, e)) => Ok((Some(s), e)),
        Err(e) => Err(e),
    }
}

proof fn lemma_entry_keys_err(b: Seq<u8>, at: int, kind: u8, k: nat, n: nat)
    requires
        k <= n,
        entry_keys_at(b, at, kind, k) is Err,
    ensures
        entry_keys_at(b, at, kind, n) == entry_keys_at(b, at, kind, k),
    decreases n - k,
{
    if k < n {
        lemma_entry_keys_err(b, at, kind, k, (n - 1) as nat);
    }
}

proof fn lemma_alias_keys_err(b: Seq<u8>, at: int, kind: u8, k: nat, n: nat)
    requires
        k <= n,
        alias_keys_at(b, at, kind, k) is Err,
    ensures
        alias_keys_at(b, at, kind, n) == alias_keys_at(b, at, kind, k),
    decreases n - k,
{
    if k < n {
        lemma_alias_keys_err(b, at, kind, k, (n - 1) as nat);
    }
}

pub open spec fn keys_view(v: Seq<EntryKeyRecord>) -> Seq<(u8, Seq<char>, Option<Seq<char>>, u16)> {
    v.map_values(|k: EntryKeyRecord| key_view(k))
}

pub open spec fn alias_keys_view(v: Seq<(u8, String)>) -> Seq<(u8, Seq<char>)> {
    v.map_values(|k: (u8, String)| (k.0, k.1@))
}

fn read_entry_keys(bytes: &[u8], at: usize, kind: u8, keys: &mut Vec<EntryKeyRecord>) -> (r: Result<usize, MetadataError>)
    ensures
        match counted_entry_keys(bytes@, at as int, kind) {
            Ok((ks, e)) => r == Ok::<usize, MetadataError>(e as usize) && at + 2 <= e <= bytes@.len() && keys_view(final(keys)@) == keys_view(old(keys)@) + ks,
            Err(x) => r == Err::<usize, MetadataError>(x),
        },
{
    let start = match end_of(bytes, at, 2) {
        Ok(p) => p,
        Err(e) => {
            return Err(e);
        },
    };
    let count = u16_at(bytes, at);
    let ghost n = count as nat;
    let ghost base = keys_view(keys@);
    let mut pos = start;
    let mut i: u16 = 0;
    while i < count
        invariant
            i <= count,
            n == count as nat,
            start as int == at as int + 2,
            count == le_u16(bytes@, at as int),
            start <= pos <= bytes.len(),
            entry_keys_at(bytes@, start as int, kind, i as nat) matches Ok((ks, e)) && e == pos && keys_view(keys@) == base + ks,
        decreases count - i,
    {
        let ghost prev = keys_view(keys@);
        let (value, p2) = match read_text(bytes, pos) {
            Ok(x) => x,
            Err(e) => {
                proof {
                    assert(entry_keys_at(bytes@, start as int, kind, (i + 1) as nat) == Err::<(Seq<(u8, Seq<char>, Option<Seq<char>>, u16)>, int), MetadataError>(e));
                    lemma_entry_keys_err(bytes@, start as int, kind, (i + 1) as nat, n);
                }
                return Err(e);
            },
        };
        let (display, p3) = match read_optional_text(bytes, p2) {
            Ok(x) => x,
            Err(e) => {
                proof {
                    assert(entry_keys_at(bytes@, start as int, kind, (i + 1) as nat) == Err::<(Seq<(u8, Seq<char>, Option<Seq<char>>, u16)>, int), MetadataError>(e));
                    lemma_entry_keys_err(bytes@, start as int, kind, (i + 1) as nat, n);
                }
                return Err(e);
            },
        };
        let p4 = match end_of(bytes, p3, 2) {
            Ok(p) => p,
            Err(e) => {
                proof {
                    assert(entry_keys_at(bytes@, start as int, kind, (i + 1) as nat) == Err::<(Seq<(u8, Seq<char>, Option<Seq<char>>, u16)>, int), MetadataError>(e));
                    lemma_entry_keys_err(bytes@, start as int, kind, (i + 1) as nat, n);
                }
                return Err(e);
            },
        };
        let rank = u16_at(bytes, p3);
        keys.push(EntryKeyRecord { kind, normalized_value: value, display_value: display, rank });
        assert(keys_view(keys@) =~= prev.push(key_view(keys@.last())));
        pos = p4;
        i += 1;
    }
    Ok(pos)
}

fn read_alias_keys(bytes: &[u8], at: usize, kind: u8, keys: &mut Vec<(u8, String)>) -> (r: Result<usize, MetadataError>)
    ensures
        match counted_alias_keys(bytes@, at as int, kind) {
            Ok((ks, e)) => r == Ok::<usize, MetadataError>(e as usize) && at + 2 <= e <= bytes@.len() && alias_keys_view(final(keys)@) == alias_keys_view(old(keys)@) + ks,
            Err(x) => r == Err::<usize, MetadataError>(x),
        },
{
    let start = match end_of(bytes, at, 2) {
        Ok(p) => p,
        Err(e) => {
            return Err(e);
        },
    };
    let count = u16_at(bytes, at);
    let ghost n = count as nat;
    let ghost base = alias_keys_view(keys@);
    let mut pos = start;
    let mut i: u16 = 0;
    while i < count
        invariant
            i <= count,
            n == count as nat,
            start as int == at as int + 2,
            count == le_u16(bytes@, at as int),
            start <= pos <= bytes.len(),
            alias_keys_at(bytes@, start as int, kind, i as nat) matches Ok((ks, e)) && e == pos && alias_keys_view(keys@) == base + ks,
        decreases count - i,
    {
        let ghost prev = alias_keys_view(keys@);
        let (value, p2) = match read_text(bytes, pos) {
            Ok(x) => x,
            Err(e) => {
                proof {
                    assert(alias_keys_at(bytes@, start as int, kind, (i + 1) as nat) == Err::<(Seq<(u8, Seq<char>)>, int), MetadataError>(e));
                    lemma_alias_keys_err(bytes@, start as int, kind, (i + 1) as nat, n);
                }
                return Err(e);
            },
        };
        keys.push((kind, value));
        assert(alias_keys_view(keys@) =~= prev.push((kind, value@)));
        pos = p2;
        i += 1;
    }
    Ok(pos)
}


fn read_record(bytes: &[u8], at: usize) -> (r: Result<(MetadataRecord, usize), MetadataError>)
    ensures
        match record_at(bytes@, at as int) {
            Ok((v, e)) => r matches Ok((rec, e2)) && record_view(rec) == v && e2 == e,
            Err(x) => r matches Err(y) && y == x,
        },
{
    let p = match end_of(bytes, at, 1) {
        Ok(p) => p,
        Err(e) => {
            return Err(e);
        },
    };
    let tag = bytes[at];
    if tag == 0 {
        let (headword, p1) = match read_text(bytes, p) {
            Ok(x) => x,
            Err(e) => {
                return Err(e);
            },
        };
        let p2 = match end_of(bytes, p1, 12) {
            Ok(x) => x,
            Err(e) => {
                return Err(e);
            },
        };
        let block_id = u32_at(bytes, p1);
        let offset = u32_at(bytes, p1 + 4);
        let length = u32_at(bytes, p1 + 8);
        let mut keys: Vec<EntryKeyRecord> = Vec::new();
        assert(keys_view(keys@) =~= Seq::<(u8, Seq<char>, Option<Seq<char>>, u16)>::empty());
        let p3 = match read_entry_keys(bytes, p2, 0, &mut keys) {
            Ok(x) => x,
            Err(e) => {
                return Err(e);
            },
        };
        let p4 = match read_entry_keys(bytes, p3, 1, &mut keys) {
            Ok(x) => x,
            Err(e) => {
                assert(counted_entry_keys(bytes@, p3 as int, 1) == Err::<(Seq<(u8, Seq<char>, Option<Seq<char>>, u16)>, int), MetadataError>(e));
                assert(record_at(bytes@, at as int) == Err::<(RecordView, int), MetadataError>(e));
                return Err(e);
            },
        };
        let record = MetadataRecord::Canonical { headword, block_id, offset, length, keys };
        Ok((record, p4))
    } else if tag == 1 {
        let (alias, p1) = match read_text(bytes, p) {
            Ok(x) => x,
            Err(e) => {
                return Err(e);
            },
        };
        let (normalized_alias, p2) = match read_optional_text(bytes, p1) {
            Ok(x) => x,
            Err(e) => {
                return Err(e);
            },
        };
        let (target, p3) = match read_text(bytes, p2) {
            Ok(x) => x,
            Err(e) => {
                return Err(e);
            },
        };
        let mut keys: Vec<(u8, String)> = Vec::new();
        assert(alias_keys_view(keys@) =~= Seq::<(u8, Seq<char>)>::empty());
        let p4 = match read_alias_keys(bytes, p3, 0, &mut keys) {
            Ok(x) => x,
            Err(e) => {
                return Err(e);
            },
        };
        let p5 = match read_alias_keys(bytes, p4, 1, &mut keys) {
            Ok(x) => x,
            Err(e) => {
                return Err(e);
            },
        };
        let record = MetadataRecord::Alias { alias, normalized_alias, target, keys };
        Ok((record, p5))
    } else {
        Err(MetadataError::UnknownRecord(tag))
    }
}

pub open spec fn records_view(v: Seq<MetadataRecord>) -> Seq<RecordView> {
    v.map_values(|r: MetadataRecord| record_view(r))
}

/// Reads every record of an inflated metadata section, or the first error.
pub fn parse_metadata(bytes: &[u8]) -> (r: Result<Vec<MetadataRecord>, MetadataError>)
    ensures
        match records_from(bytes@, 0) {
            Ok(v) => r matches Ok(recs) && records_view(recs@) == v,
            Err(x) => r matches Err(y) && y == x,
        },
{
    let mut records: Vec<MetadataRecord> = Vec::new();
    let mut pos: usize = 0;
    while pos < bytes.len()
        invariant
            pos <= bytes.len(),
            records_from(bytes@, 0) == match records_from(bytes@, pos as int) {
                Ok(rest) => Ok::<Seq<RecordView>, MetadataError>(records_view(records@) + rest),
                Err(e) => Err(e),
            },
        decreases bytes.len() - pos,
    {
        proof {
            lemma_record_advances(bytes@, pos as int);
        }
        let ghost before = records_view(records@);
        match read_record(bytes, pos) {
            Ok((record, next)) => {
                records.push(record);
                assert(records_view(records@) =~= before.push(record_view(records@.last())));
                proof {
                    match records_from(bytes@, next as int) {
                        Ok(rest) => {
                            assert(before.push(record_view(records@.last())) + rest =~= before + (seq![record_view(records@.last())] + rest));
                        },
                        Err(_) => {},
                    }
                }
                pos = next;
            },
            Err(e) => {
                return Err(e);
            },
        }
    }
    assert(records_view(records@) + Seq::<RecordView>::empty() =~= records_view(records@));
    Ok(records)
}


/// How many records of each kind (canonical, alias).
pub open spec fn record_counts(records: Seq<MetadataRecord>) -> (nat, nat)
    decreases records.len(),
{
    if records.len() == 0 {
        (0, 0)
    } else {
        let (c, a) = record_counts(records.drop_last());
        match records.last() {
            MetadataRecord::Canonical { .. } => (c + 1, a),
            MetadataRecord::Alias { .. } => (c, a + 1),
        }
    }
}

/// Accepts records whose numbers of entries and aliases are the header's.
pub fn check_record_counts(header: &BundleHeader, records: &Vec<MetadataRecord>) -> (r: Result<(), BundleError>)
    ensures
        r == if record_counts(records@).0 == header.canonical_count && record_counts(records@).1 == header.alias_count {
            Ok::<(), BundleError>(())
        } else {
            Err(BundleError::RecordCountMismatch)
        },
{
    let mut canonical: usize = 0;
    let mut alias: usize = 0;
    let mut i: usize = 0;
    while i < records.len()
        invariant
            i <= records.len(),
            (canonical as nat, alias as nat) == record_counts(records@.take(i as int)),
            canonical + alias == i,
        decreases records.len() - i,
    {
        assert(records@.take(i + 1).drop_last() == records@.take(i as int));
        match &records[i] {
            MetadataRecord::Canonical { .. } => {
                canonical += 1;
            },
            MetadataRecord::Alias { .. } => {
                alias += 1;
            },
        }
        i += 1;
    }
    assert(records@.take(records.len() as int) == records@);
    if canonical == header.canonical_count && alias == header.alias_count {
        Ok(())
    } else {
        Err(BundleError::RecordCountMismatch)
    }
}

/// Accepts a number of definition blocks equal to the header's.
pub fn check_block_count(header: &BundleHeader, block_count: u32) -> (r: Result<(), BundleError>)
    ensures
        r == if block_count as usize == header.definition_block_count {
            Ok::<(), BundleError>(())
        } else {
            Err(BundleError::BlockCountMismatch)
        },
{
    if block_count as usize == header.definition_block_count {
        Ok(())
    } else {
        Err(BundleError::BlockCountMismatch)
    }
}

/// A little-endian `u32` from four bytes.
pub fn decode_u32_le(bytes: &[u8]) -> (r: u32)
    requires
        bytes.len() == 4,
    ensures
        r == le_u32(bytes@, 0),
{
    u32_at(bytes, 0)
}

/// A little-endian `u64` from eight bytes.
pub fn decode_u64_le(bytes: &[u8]) -> (r: u64)
    requires
        bytes.len() == 8,
    ensures
        r == le_u32(bytes@, 0) as int + le_u32(bytes@, 4) as int * 4294967296,
{
    let low = u32_at(bytes, 0) as u64;
    let high = u32_at(bytes, 4) as u64;
    low + high * 4294967296
}

} // verus!
