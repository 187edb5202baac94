//! The PackFile container codec: header, index, entry payloads.
//!
//! Layout.  The header is the four magic bytes naming the format version,
//! then five little-endian `u32` words: file type, feature bitmask, entry
//! count, index size in bytes, and a creation timestamp; a version with the
//! extended-header flag set carries twenty zero bytes more.  The index
//! holds one record per entry: payload size (`u32`), a timestamp (`u32`,
//! only when the index-with-timestamps flag is set), one flag byte
//! (compressed, encrypted), and the path as a `u16` segment count followed
//! by length-prefixed UTF-8 segments.  When the encrypted-index flag is
//! set the index bytes are stored under the position-keyed transform.  The
//! payloads follow, concatenated in index order, each exactly as long as
//! its record declares; an encrypted entry's payload is stored transformed.
//!
//! The transform is a deterministic XOR stream keyed by byte position and
//! format version: obfuscation to reproduce bit for bit, not cryptography.
//!
//! Loading several sources merges them into one logical pack: entries of a
//! later source replace entries of an earlier one at the same path, and
//! the law `lemma_merge_last_wins` states that exactly.

use crate::cell::lemma_subrange_split;
use crate::cursor::read_u16;
use crate::cursor::read_u32;
use crate::cursor::write_u16;
use crate::cursor::write_u32;
use crate::cursor::lemma_le_bytes_auto;
use crate::cell::decode_str8;
use crate::cell::encode_str8;
use crate::cell::lemma_dec_enc_str8;
use crate::cell::lemma_enc_dec_str8;
use crate::cell::sdec_str8;
use crate::cell::spec_str8_bytes;
use crate::error::RpfmError;
use vstd::bytes::spec_u16_from_le_bytes;
use vstd::bytes::spec_u16_to_le_bytes;
use vstd::bytes::spec_u32_from_le_bytes;
use vstd::bytes::spec_u32_to_le_bytes;
use vstd::prelude::*;
use vstd::utf8::encode_utf8;

verus! {

/// The format generations this codec reads and writes.
#[derive(Clone, Copy, PartialEq, Eq, Structural, Debug)]
pub enum PFHVersion {
    PFH0,
    PFH2,
    PFH3,
    PFH4,
    PFH5,
    PFH6,
}

/// The declared role of a pack; values past the named ones are carried
/// through as `Other`.
#[derive(Clone, Copy, PartialEq, Eq, Structural, Debug)]
pub enum PFHFileType {
    Boot,
    Release,
    Patch,
    Mod,
    Movie,
    Other(u32),
}

/// The container-level feature bits.
#[derive(Clone, Copy, PartialEq, Eq, Structural, Debug)]
pub struct PFHFlags {
    pub has_encrypted_data: bool,
    pub has_index_with_timestamps: bool,
    pub has_encrypted_index: bool,
    pub has_extended_header: bool,
}

/// One logical file inside a pack.  `data` is the payload as stored on
/// disk (still transformed when the entry is encrypted); `cache` memoizes
/// the materialized plain payload, and is sound when [`entry_cache_wf`]
/// holds, which every operation of this crate preserves.
pub struct Entry {
    pub path: Vec<String>,
    pub data: Vec<u8>,
    pub timestamp: u32,
    pub is_compressed: bool,
    pub is_encrypted: bool,
    pub cache: Option<Vec<u8>>,
}

/// The model of one entry: path segments as character sequences, stored
/// payload bytes, and the per-entry states.
pub struct EntryV {
    pub path: Seq<Seq<char>>,
    pub data: Seq<u8>,
    pub timestamp: u32,
    pub is_compressed: bool,
    pub is_encrypted: bool,
}

/// The model of one entry's path.
pub open spec fn path_view(path: Seq<String>) -> Seq<Seq<char>>
    decreases path,
{
    if path.len() == 0 {
        seq![]
    } else {
        path_view(path.drop_last()).push(path.last()@)
    }
}

/// The model of one entry.
pub open spec fn entry_view(e: Entry) -> EntryV {
    EntryV {
        path: path_view(e.path@),
        data: e.data@,
        timestamp: e.timestamp,
        is_compressed: e.is_compressed,
        is_encrypted: e.is_encrypted,
    }
}

/// The model of an entry list.
pub open spec fn entries_view(entries: Seq<Entry>) -> Seq<EntryV>
    decreases entries,
{
    if entries.len() == 0 {
        seq![]
    } else {
        entries_view(entries.drop_last()).push(entry_view(entries.last()))
    }
}

/// Index form of [`path_view`].
pub proof fn lemma_path_view_len(path: Seq<String>)
    ensures
        path_view(path).len() == path.len(),
        forall|i: int| 0 <= i < path.len() ==> path_view(path)[i] == (#[trigger] path[i])@,
    decreases path,
{
    if path.len() > 0 {
        lemma_path_view_len(path.drop_last());
        assert(forall|i: int| 0 <= i < path.len() - 1 ==> path.drop_last()[i] == path[i]);
    }
}

/// Index form of [`entries_view`].
pub proof fn lemma_entries_view_len(entries: Seq<Entry>)
    ensures
        entries_view(entries).len() == entries.len(),
        forall|i: int|
            0 <= i < entries.len() ==> entries_view(entries)[i] == entry_view(
                #[trigger] entries[i],
            ),
    decreases entries,
{
    if entries.len() > 0 {
        lemma_entries_view_len(entries.drop_last());
        assert(forall|i: int|
            0 <= i < entries.len() - 1 ==> entries.drop_last()[i] == entries[i]);
    }
}

/// The salt that keys the obfuscation stream of each format version.
pub open spec fn spec_version_salt(v: PFHVersion) -> u8 {
    match v {
        PFHVersion::PFH0 => 0x79,
        PFHVersion::PFH2 => 0x7B,
        PFHVersion::PFH3 => 0x83,
        PFHVersion::PFH4 => 0x8B,
        PFHVersion::PFH5 => 0x95,
        PFHVersion::PFH6 => 0xA3,
    }
}

/// The stream byte at a position: position times an odd constant, plus the
/// version salt, truncated to a byte.
pub open spec fn spec_key_byte(v: PFHVersion, i: int) -> u8 {
    (((i % 256) * 167 + spec_version_salt(v) as int) % 256) as u8
}

/// The position-keyed transform: XOR with the stream.  Its own inverse.
pub open spec fn spec_transform(v: PFHVersion, b: Seq<u8>) -> Seq<u8> {
    Seq::new(b.len(), |i: int| b[i] ^ spec_key_byte(v, i))
}

/// The transform undoes itself: applying it twice gives the input back.
pub proof fn lemma_transform_involution(v: PFHVersion, b: Seq<u8>)
    ensures
        spec_transform(v, spec_transform(v, b)) == b,
{
    let t = spec_transform(v, spec_transform(v, b));
    assert forall|i: int| 0 <= i < b.len() implies t[i] == b[i] by {
        let k = spec_key_byte(v, i);
        let x = b[i];
        assert((x ^ k) ^ k == x) by (bit_vector);
    }
    assert(t =~= b);
}

/// Applies the position-keyed transform.
pub fn transform(v: PFHVersion, b: &[u8]) -> (r: Vec<u8>)
    ensures
        r@ == spec_transform(v, b@),
{
    let salt: u8 = match v {
        PFHVersion::PFH0 => 0x79,
        PFHVersion::PFH2 => 0x7B,
        PFHVersion::PFH3 => 0x83,
        PFHVersion::PFH4 => 0x8B,
        PFHVersion::PFH5 => 0x95,
        PFHVersion::PFH6 => 0xA3,
    };
    let mut out: Vec<u8> = Vec::new();
    let mut i: usize = 0;
    while i < b.len()
        invariant
            i <= b@.len(),
            out@.len() == i,
            salt == spec_version_salt(v),
            forall|k: int| 0 <= k < i ==> out@[k] == b@[k] ^ spec_key_byte(v, k),
        decreases b@.len() - i,
    {
        let pos_byte: u8 = (i % 256) as u8;
        let key: u8 = (((pos_byte as u32) * 167 + salt as u32) % 256) as u8;
        proof {
            assert(pos_byte as int == (i as int) % 256);
            assert(key as int == ((i as int % 256) * 167 + salt as int) % 256);
        }
        out.push(b[i] ^ key);
        i += 1;
    }
    proof {
        assert(out@ =~= spec_transform(v, b@));
    }
    out
}

/// The magic bytes of each version.
pub open spec fn spec_magic(v: PFHVersion) -> Seq<u8> {
    match v {
        PFHVersion::PFH0 => seq![0x50u8, 0x46u8, 0x48u8, 0x30u8],
        PFHVersion::PFH2 => seq![0x50u8, 0x46u8, 0x48u8, 0x32u8],
        PFHVersion::PFH3 => seq![0x50u8, 0x46u8, 0x48u8, 0x33u8],
        PFHVersion::PFH4 => seq![0x50u8, 0x46u8, 0x48u8, 0x34u8],
        PFHVersion::PFH5 => seq![0x50u8, 0x46u8, 0x48u8, 0x35u8],
        PFHVersion::PFH6 => seq![0x50u8, 0x46u8, 0x48u8, 0x36u8],
    }
}

/// The version named by four magic bytes, if any.
pub open spec fn spec_version_of_magic(m: Seq<u8>) -> Option<PFHVersion> {
    if m == spec_magic(PFHVersion::PFH0) {
        Some(PFHVersion::PFH0)
    } else if m == spec_magic(PFHVersion::PFH2) {
        Some(PFHVersion::PFH2)
    } else if m == spec_magic(PFHVersion::PFH3) {
        Some(PFHVersion::PFH3)
    } else if m == spec_magic(PFHVersion::PFH4) {
        Some(PFHVersion::PFH4)
    } else if m == spec_magic(PFHVersion::PFH5) {
        Some(PFHVersion::PFH5)
    } else if m == spec_magic(PFHVersion::PFH6) {
        Some(PFHVersion::PFH6)
    } else {
        None
    }
}

/// The `u32` word a file type is stored as.
pub open spec fn spec_file_type_code(t: PFHFileType) -> u32 {
    match t {
        PFHFileType::Boot => 0,
        PFHFileType::Release => 1,
        PFHFileType::Patch => 2,
        PFHFileType::Mod => 3,
        PFHFileType::Movie => 4,
        PFHFileType::Other(n) => n,
    }
}

/// The file type a stored word names.
pub open spec fn spec_file_type_of_code(n: u32) -> PFHFileType {
    if n == 0 {
        PFHFileType::Boot
    } else if n == 1 {
        PFHFileType::Release
    } else if n == 2 {
        PFHFileType::Patch
    } else if n == 3 {
        PFHFileType::Mod
    } else if n == 4 {
        PFHFileType::Movie
    } else {
        PFHFileType::Other(n)
    }
}

/// A file type the codec can store losslessly: `Other` never hides one of
/// the named roles.
pub open spec fn file_type_wf(t: PFHFileType) -> bool {
    match t {
        PFHFileType::Other(n) => n > 4,
        _ => true,
    }
}

/// The `u32` word a bitmask is stored as.
pub open spec fn spec_flags_code(f: PFHFlags) -> u32 {
    (if f.has_encrypted_data {
        1u32
    } else {
        0u32
    }) | (if f.has_index_with_timestamps {
        2u32
    } else {
        0u32
    }) | (if f.has_encrypted_index {
        4u32
    } else {
        0u32
    }) | (if f.has_extended_header {
        8u32
    } else {
        0u32
    })
}

/// The bitmask a stored word names; words with unknown bits are refused by
/// the decoder.
pub open spec fn spec_flags_of_code(n: u32) -> PFHFlags {
    PFHFlags {
        has_encrypted_data: n & 1 == 1,
        has_index_with_timestamps: n & 2 == 2,
        has_encrypted_index: n & 4 == 4,
        has_extended_header: n & 8 == 8,
    }
}

/// The flag byte of one entry.
pub open spec fn spec_entry_flags_code(compressed: bool, encrypted: bool) -> u8 {
    (if compressed {
        1u8
    } else {
        0u8
    }) | (if encrypted {
        2u8
    } else {
        0u8
    })
}

/// The byte image of one path: segment count, then length-prefixed UTF-8
/// segments.
pub open spec fn spec_enc_path(path: Seq<Seq<char>>) -> Seq<u8> {
    spec_u16_to_le_bytes(path.len() as u16) + spec_enc_segs(path)
}

/// The byte image of the path segments.
pub open spec fn spec_enc_segs(segs: Seq<Seq<char>>) -> Seq<u8>
    decreases segs.len(),
{
    if segs.len() == 0 {
        seq![]
    } else {
        spec_str8_bytes(segs[0]) + spec_enc_segs(segs.drop_first())
    }
}

/// The byte image of one index record.
pub open spec fn spec_enc_record(e: EntryV, with_ts: bool) -> Seq<u8> {
    spec_u32_to_le_bytes(e.data.len() as u32) + (if with_ts {
        spec_u32_to_le_bytes(e.timestamp)
    } else {
        seq![]
    }) + seq![spec_entry_flags_code(e.is_compressed, e.is_encrypted)] + spec_enc_path(e.path)
}

/// The byte image of the whole index.
pub open spec fn spec_enc_index(entries: Seq<EntryV>, with_ts: bool) -> Seq<u8>
    decreases entries.len(),
{
    if entries.len() == 0 {
        seq![]
    } else {
        spec_enc_record(entries[0], with_ts) + spec_enc_index(entries.drop_first(), with_ts)
    }
}

/// The concatenated stored payloads.
pub open spec fn spec_enc_payloads(entries: Seq<EntryV>) -> Seq<u8>
    decreases entries.len(),
{
    if entries.len() == 0 {
        seq![]
    } else {
        entries[0].data + spec_enc_payloads(entries.drop_first())
    }
}

/// True when an entry fits the index encoding: the path count and each
/// segment fit their `u16` prefixes, the payload its `u32` size word.
pub open spec fn entry_wf(e: EntryV) -> bool {
    &&& e.path.len() <= 0xFFFF
    &&& forall|i: int| 0 <= i < e.path.len() ==> encode_utf8(#[trigger] e.path[i]).len() <= 0xFFFF
    &&& e.data.len() <= 0xFFFFFFFF
}

/// True when every entry fits the encoding.
pub open spec fn entries_wf(entries: Seq<EntryV>) -> bool {
    forall|i: int| 0 <= i < entries.len() ==> entry_wf(#[trigger] entries[i])
}


/// One parsed index record: what the index says about an entry before its
/// payload is read.
pub struct RecordV {
    pub data_len: int,
    pub timestamp: u32,
    pub is_compressed: bool,
    pub is_encrypted: bool,
    pub path: Seq<Seq<char>>,
}

/// The record an entry is indexed by.
pub open spec fn record_of(e: EntryV, with_ts: bool) -> RecordV {
    RecordV {
        data_len: e.data.len() as int,
        timestamp: if with_ts {
            e.timestamp
        } else {
            0
        },
        is_compressed: e.is_compressed,
        is_encrypted: e.is_encrypted,
        path: e.path,
    }
}

/// Decodes one path: a `u16` segment count, then that many length-prefixed
/// UTF-8 segments.
pub open spec fn sdec_path(b: Seq<u8>, pos: int) -> Result<(Seq<Seq<char>>, int), RpfmError> {
    if pos + 2 <= b.len() {
        let n = spec_u16_from_le_bytes(b.subrange(pos, pos + 2));
        sdec_segs(n as nat, b, pos + 2)
    } else {
        Err(RpfmError::TruncatedIndex)
    }
}

/// Decodes `n` path segments.
pub open spec fn sdec_segs(n: nat, b: Seq<u8>, pos: int) -> Result<(Seq<Seq<char>>, int), RpfmError>
    decreases n,
{
    if n == 0 {
        Ok((seq![], pos))
    } else {
        match sdec_str8(b, pos) {
            Ok((s, p)) => {
                match sdec_segs((n - 1) as nat, b, p) {
                    Ok((rest, p2)) => Ok((seq![s] + rest, p2)),
                    Err(e) => Err(e),
                }
            },
            Err((reason, _)) => {
                if reason is UnexpectedEnd {
                    Err(RpfmError::TruncatedIndex)
                } else {
                    Err(RpfmError::FormatError)
                }
            },
        }
    }
}

/// Decodes one index record.
pub open spec fn sdec_record(with_ts: bool, b: Seq<u8>, pos: int) -> Result<
    (RecordV, int),
    RpfmError,
> {
    if pos + 4 <= b.len() {
        let size = spec_u32_from_le_bytes(b.subrange(pos, pos + 4));
        let p1 = pos + 4;
        let ts: u32 = if with_ts {
            spec_u32_from_le_bytes(b.subrange(p1, p1 + 4))
        } else {
            0
        };
        let p2 = if with_ts {
            p1 + 4
        } else {
            p1
        };
        if p2 + 1 <= b.len() {
            let fl = b[p2];
            if fl & 0xFC == 0 {
                match sdec_path(b, p2 + 1) {
                    Ok((path, p3)) => Ok(
                        (
                            RecordV {
                                data_len: size as int,
                                timestamp: ts,
                                is_compressed: fl & 1 == 1,
                                is_encrypted: fl & 2 == 2,
                                path,
                            },
                            p3,
                        ),
                    ),
                    Err(e) => Err(e),
                }
            } else {
                Err(RpfmError::FormatError)
            }
        } else {
            Err(RpfmError::TruncatedIndex)
        }
    } else {
        Err(RpfmError::TruncatedIndex)
    }
}

/// Decodes `n` index records.
pub open spec fn sdec_records(n: nat, with_ts: bool, b: Seq<u8>, pos: int) -> Result<
    (Seq<RecordV>, int),
    RpfmError,
>
    decreases n,
{
    if n == 0 {
        Ok((seq![], pos))
    } else {
        match sdec_record(with_ts, b, pos) {
            Ok((r, p)) => {
                match sdec_records((n - 1) as nat, with_ts, b, p) {
                    Ok((rest, p2)) => Ok((seq![r] + rest, p2)),
                    Err(e) => Err(e),
                }
            },
            Err(e) => Err(e),
        }
    }
}

/// Reads the payload of each record in order, yielding the entries.
pub open spec fn sdec_payloads(records: Seq<RecordV>, b: Seq<u8>, pos: int) -> Result<
    (Seq<EntryV>, int),
    RpfmError,
>
    decreases records.len(),
{
    if records.len() == 0 {
        Ok((seq![], pos))
    } else {
        let r = records[0];
        if pos + r.data_len <= b.len() {
            let e = EntryV {
                path: r.path,
                data: b.subrange(pos, pos + r.data_len),
                timestamp: r.timestamp,
                is_compressed: r.is_compressed,
                is_encrypted: r.is_encrypted,
            };
            match sdec_payloads(records.drop_first(), b, pos + r.data_len) {
                Ok((rest, p2)) => Ok((seq![e] + rest, p2)),
                Err(err) => Err(err),
            }
        } else {
            Err(RpfmError::TruncatedIndex)
        }
    }
}

/// The model of a whole pack.
pub struct PackV {
    pub pfh_version: PFHVersion,
    pub pfh_file_type: PFHFileType,
    pub bitmask: PFHFlags,
    pub timestamp: u32,
    pub entries: Seq<EntryV>,
}

/// The extended header's twenty reserved zero bytes.
pub open spec fn spec_ext_header() -> Seq<u8> {
    Seq::new(20, |i: int| 0u8)
}

/// The byte image of a whole pack.
pub open spec fn spec_enc_pack(p: PackV) -> Seq<u8> {
    let index_plain = spec_enc_index(p.entries, p.bitmask.has_index_with_timestamps);
    let index_stored = if p.bitmask.has_encrypted_index {
        spec_transform(p.pfh_version, index_plain)
    } else {
        index_plain
    };
    spec_magic(p.pfh_version) + spec_u32_to_le_bytes(spec_file_type_code(p.pfh_file_type))
        + spec_u32_to_le_bytes(spec_flags_code(p.bitmask)) + spec_u32_to_le_bytes(
        p.entries.len() as u32,
    ) + spec_u32_to_le_bytes(index_plain.len() as u32) + spec_u32_to_le_bytes(p.timestamp) + (
    if p.bitmask.has_extended_header {
        spec_ext_header()
    } else {
        seq![]
    }) + index_stored + spec_enc_payloads(p.entries)
}

/// True when a pack fits the encoding: every entry fits, and both the
/// entry count and the index fit their `u32` header words.
pub open spec fn pack_wf(p: PackV) -> bool {
    &&& entries_wf(p.entries)
    &&& p.entries.len() <= 0xFFFFFFFF
    &&& spec_enc_index(p.entries, p.bitmask.has_index_with_timestamps).len() <= 0xFFFFFFFF
    &&& file_type_wf(p.pfh_file_type)
}

/// Decodes a whole pack image, consuming every byte.
pub open spec fn sdec_pack(b: Seq<u8>) -> Result<PackV, RpfmError> {
    if b.len() < 4 {
        Err(RpfmError::MagicMismatch)
    } else {
        match spec_version_of_magic(b.subrange(0, 4)) {
            None => Err(RpfmError::MagicMismatch),
            Some(version) => {
                if b.len() < 24 {
                    Err(RpfmError::TruncatedIndex)
                } else {
                    let ft = spec_file_type_of_code(spec_u32_from_le_bytes(b.subrange(4, 8)));
                    let flagsword = spec_u32_from_le_bytes(b.subrange(8, 12));
                    let count = spec_u32_from_le_bytes(b.subrange(12, 16));
                    let index_size = spec_u32_from_le_bytes(b.subrange(16, 20));
                    let ts = spec_u32_from_le_bytes(b.subrange(20, 24));
                    if flagsword & 0xFFFFFFF0 != 0 {
                        Err(RpfmError::FormatError)
                    } else {
                        let flags = spec_flags_of_code(flagsword);
                        let hdr: int = if flags.has_extended_header {
                            44
                        } else {
                            24
                        };
                        if b.len() < hdr {
                            Err(RpfmError::TruncatedIndex)
                        } else if flags.has_extended_header && b.subrange(24, 44)
                            != spec_ext_header() {
                            Err(RpfmError::FormatError)
                        } else if hdr + index_size > b.len() {
                            Err(RpfmError::TruncatedIndex)
                        } else {
                            let index_stored = b.subrange(hdr, hdr + index_size);
                            let index_plain = if flags.has_encrypted_index {
                                spec_transform(version, index_stored)
                            } else {
                                index_stored
                            };
                            match sdec_records(count as nat, flags.has_index_with_timestamps,
                                index_plain, 0) {
                                Err(e) => Err(e),
                                Ok((records, rp)) => {
                                    if rp != index_plain.len() {
                                        Err(RpfmError::FormatError)
                                    } else {
                                        match sdec_payloads(records, b, hdr + index_size) {
                                            Err(e) => Err(e),
                                            Ok((entries, ep)) => {
                                                if ep != b.len() {
                                                    Err(RpfmError::FormatError)
                                                } else {
                                                    Ok(
                                                        PackV {
                                                            pfh_version: version,
                                                            pfh_file_type: ft,
                                                            bitmask: flags,
                                                            timestamp: ts,
                                                            entries,
                                                        },
                                                    )
                                                }
                                            },
                                        }
                                    }
                                },
                            }
                        }
                    }
                }
            },
        }
    }
}


/// Decoding an encoded path-segment list yields it back.
pub proof fn lemma_dec_enc_segs(segs: Seq<Seq<char>>, b: Seq<u8>, pos: int)
    requires
        forall|i: int| 0 <= i < segs.len() ==> encode_utf8(#[trigger] segs[i]).len() <= 0xFFFF,
        0 <= pos,
        pos + spec_enc_segs(segs).len() <= b.len(),
        b.subrange(pos, pos + spec_enc_segs(segs).len() as int) == spec_enc_segs(segs),
    ensures
        sdec_segs(segs.len(), b, pos) == Ok::<(Seq<Seq<char>>, int), RpfmError>(
            (segs, pos + spec_enc_segs(segs).len()),
        ),
    decreases segs.len(),
{
    if segs.len() == 0 {
        assert(segs =~= Seq::<Seq<char>>::empty());
    } else {
        let s0 = segs[0];
        let rest = segs.drop_first();
        lemma_subrange_split(b, pos, spec_str8_bytes(s0), spec_enc_segs(rest));
        lemma_dec_enc_str8(s0, b, pos);
        assert(forall|i: int| 0 <= i < rest.len() ==> rest[i] == #[trigger] segs[i + 1]);
        lemma_dec_enc_segs(rest, b, pos + spec_str8_bytes(s0).len());
        assert(seq![s0] + rest =~= segs);
    }
}

/// Whatever the segment-list decoder accepts re-encodes to its bytes.
pub proof fn lemma_enc_dec_segs(n: nat, b: Seq<u8>, pos: int)
    requires
        0 <= pos <= b.len(),
        sdec_segs(n, b, pos) is Ok,
    ensures
        ({
            let (segs, p) = sdec_segs(n, b, pos)->Ok_0;
            &&& pos <= p <= b.len()
            &&& segs.len() == n
            &&& forall|i: int|
                0 <= i < segs.len() ==> encode_utf8(#[trigger] segs[i]).len() <= 0xFFFF
            &&& spec_enc_segs(segs) == b.subrange(pos, p)
        }),
    decreases n,
{
    if n == 0 {
        let (segs, p) = sdec_segs(n, b, pos)->Ok_0;
        assert(spec_enc_segs(segs) =~= b.subrange(pos, pos));
    } else {
        lemma_enc_dec_str8(b, pos);
        let (s0, p1) = sdec_str8(b, pos)->Ok_0;
        lemma_enc_dec_segs((n - 1) as nat, b, p1);
        let (rest, p2) = sdec_segs((n - 1) as nat, b, p1)->Ok_0;
        let segs = seq![s0] + rest;
        assert(segs.drop_first() =~= rest);
        assert(segs[0] == s0);
        assert(forall|i: int| 1 <= i < segs.len() ==> segs[i] == #[trigger] rest[i - 1]);
        assert(spec_enc_segs(segs) =~= b.subrange(pos, p2));
    }
}

/// Decoding an encoded index record yields it back.
pub proof fn lemma_dec_enc_record(e: EntryV, with_ts: bool, b: Seq<u8>, pos: int)
    requires
        entry_wf(e),
        0 <= pos,
        pos + spec_enc_record(e, with_ts).len() <= b.len(),
        b.subrange(pos, pos + spec_enc_record(e, with_ts).len() as int) == spec_enc_record(
            e,
            with_ts,
        ),
    ensures
        sdec_record(with_ts, b, pos) == Ok::<(RecordV, int), RpfmError>(
            (record_of(e, with_ts), pos + spec_enc_record(e, with_ts).len()),
        ),
{
    lemma_le_bytes_auto();
    let fl = spec_entry_flags_code(e.is_compressed, e.is_encrypted);
    let tsbytes: Seq<u8> = if with_ts {
        spec_u32_to_le_bytes(e.timestamp)
    } else {
        seq![]
    };
    let tail = tsbytes + (seq![fl] + spec_enc_path(e.path));
    assert(spec_enc_record(e, with_ts) =~= spec_u32_to_le_bytes(e.data.len() as u32) + tail);
    lemma_subrange_split(b, pos, spec_u32_to_le_bytes(e.data.len() as u32), tail);
    assert(b.subrange(pos + 4, pos + 4 + tail.len() as int) =~= tail);
    let p1 = pos + 4;
    if with_ts {
        lemma_subrange_split(b, p1, tsbytes, seq![fl] + spec_enc_path(e.path));
    } else {
        assert(tail =~= seq![fl] + spec_enc_path(e.path));
    }
    let p2: int = if with_ts {
        p1 + 4
    } else {
        p1
    };
    assert(b.subrange(p2, p2 + 1 + spec_enc_path(e.path).len() as int) =~= seq![fl]
        + spec_enc_path(e.path));
    lemma_subrange_split(b, p2, seq![fl], spec_enc_path(e.path));
    assert(b.subrange(p2, p2 + 1)[0] == b[p2]);
    assert(b[p2] == fl);
    let c = e.is_compressed;
    let en = e.is_encrypted;
    assert(fl & 0xFC == 0 && (fl & 1 == 1 <==> c) && (fl & 2 == 2 <==> en)) by (bit_vector)
        requires
            fl == ((if c {
                1u8
            } else {
                0u8
            }) | (if en {
                2u8
            } else {
                0u8
            })),
    ;
    let p3 = p2 + 1;
    assert(spec_enc_path(e.path) =~= spec_u16_to_le_bytes(e.path.len() as u16) + spec_enc_segs(
        e.path,
    ));
    lemma_subrange_split(
        b,
        p3,
        spec_u16_to_le_bytes(e.path.len() as u16),
        spec_enc_segs(e.path),
    );
    assert(spec_u16_from_le_bytes(b.subrange(p3, p3 + 2)) == e.path.len() as u16);
    lemma_dec_enc_segs(e.path, b, p3 + 2);
}

/// Whatever the record decoder accepts is well formed and re-encodes, as
/// the record of some entry with that payload length, to its bytes.
pub proof fn lemma_enc_dec_record(with_ts: bool, b: Seq<u8>, pos: int)
    requires
        0 <= pos <= b.len(),
        sdec_record(with_ts, b, pos) is Ok,
    ensures
        ({
            let (r, p) = sdec_record(with_ts, b, pos)->Ok_0;
            &&& pos <= p <= b.len()
            &&& 0 <= r.data_len <= 0xFFFFFFFF
            &&& r.path.len() <= 0xFFFF
            &&& (!with_ts ==> r.timestamp == 0)
            &&& forall|i: int|
                0 <= i < r.path.len() ==> encode_utf8(#[trigger] r.path[i]).len() <= 0xFFFF
            &&& forall|data: Seq<u8>, ts2: u32|
                data.len() == r.data_len && (if with_ts {
                    ts2 == r.timestamp
                } else {
                    true
                }) ==> spec_enc_record(
                    EntryV {
                        path: r.path,
                        data: data,
                        timestamp: ts2,
                        is_compressed: r.is_compressed,
                        is_encrypted: r.is_encrypted,
                    },
                    with_ts,
                ) == b.subrange(pos, p)
        }),
{
    lemma_le_bytes_auto();
    let size = spec_u32_from_le_bytes(b.subrange(pos, pos + 4));
    let p1 = pos + 4;
    let p2: int = if with_ts {
        p1 + 4
    } else {
        p1
    };
    let fl = b[p2];
    let p3 = p2 + 1;
    let n = spec_u16_from_le_bytes(b.subrange(p3, p3 + 2));
    lemma_enc_dec_segs(n as nat, b, p3 + 2);
    let (segs, p4) = sdec_segs(n as nat, b, p3 + 2)->Ok_0;
    let (r, p) = sdec_record(with_ts, b, pos)->Ok_0;
    assert(fl & 0xFC == 0 ==> ((if (fl & 1 == 1) {
        1u8
    } else {
        0u8
    }) | (if (fl & 2 == 2) {
        2u8
    } else {
        0u8
    })) == fl) by (bit_vector);
    assert forall|data: Seq<u8>, ts2: u32|
        data.len() == r.data_len && (if with_ts {
            ts2 == r.timestamp
        } else {
            true
        }) implies spec_enc_record(
        EntryV {
            path: r.path,
            data: data,
            timestamp: ts2,
            is_compressed: r.is_compressed,
            is_encrypted: r.is_encrypted,
        },
        with_ts,
    ) == b.subrange(pos, p) by {
        let e = EntryV {
            path: r.path,
            data: data,
            timestamp: ts2,
            is_compressed: r.is_compressed,
            is_encrypted: r.is_encrypted,
        };
        assert(data.len() as u32 == size);
        assert(spec_u32_to_le_bytes(size) =~= b.subrange(pos, p1));
        if with_ts {
            assert(spec_u32_to_le_bytes(r.timestamp) =~= b.subrange(p1, p2));
        }
        assert(spec_u16_to_le_bytes(r.path.len() as u16) =~= b.subrange(p3, p3 + 2));
        assert(spec_enc_record(e, with_ts) =~= b.subrange(pos, p));
    }
}

/// Decoding an encoded index yields its records back.
pub proof fn lemma_dec_enc_index(entries: Seq<EntryV>, with_ts: bool, b: Seq<u8>, pos: int)
    requires
        entries_wf(entries),
        0 <= pos,
        pos + spec_enc_index(entries, with_ts).len() <= b.len(),
        b.subrange(pos, pos + spec_enc_index(entries, with_ts).len() as int) == spec_enc_index(
            entries,
            with_ts,
        ),
    ensures
        sdec_records(entries.len(), with_ts, b, pos) == Ok::<(Seq<RecordV>, int), RpfmError>(
            (
                Seq::new(entries.len(), |i: int| record_of(entries[i], with_ts)),
                pos + spec_enc_index(entries, with_ts).len(),
            ),
        ),
    decreases entries.len(),
{
    let records = Seq::new(entries.len(), |i: int| record_of(entries[i], with_ts));
    if entries.len() == 0 {
        assert(records =~= Seq::<RecordV>::empty());
    } else {
        let e0 = entries[0];
        let rest = entries.drop_first();
        lemma_subrange_split(b, pos, spec_enc_record(e0, with_ts), spec_enc_index(rest, with_ts));
        lemma_dec_enc_record(e0, with_ts, b, pos);
        assert(forall|i: int| 0 <= i < rest.len() ==> rest[i] == #[trigger] entries[i + 1]);
        lemma_dec_enc_index(rest, with_ts, b, pos + spec_enc_record(e0, with_ts).len());
        let subrecords = Seq::new(rest.len(), |i: int| record_of(rest[i], with_ts));
        assert(seq![record_of(e0, with_ts)] + subrecords =~= records);
    }
}

/// Decoding the payload section against the records of encoded entries
/// yields the entries back.
pub proof fn lemma_dec_enc_payloads(entries: Seq<EntryV>, with_ts: bool, b: Seq<u8>, pos: int)
    requires
        entries_wf(entries),
        0 <= pos,
        pos + spec_enc_payloads(entries).len() <= b.len(),
        b.subrange(pos, pos + spec_enc_payloads(entries).len() as int) == spec_enc_payloads(
            entries,
        ),
        pos + spec_enc_payloads(entries).len() == b.len(),
    ensures
        sdec_payloads(
            Seq::new(entries.len(), |i: int| record_of(entries[i], with_ts)),
            b,
            pos,
        ) == Ok::<(Seq<EntryV>, int), RpfmError>(
            (
                Seq::new(
                    entries.len(),
                    |i: int| if with_ts {
                        entries[i]
                    } else {
                        EntryV { timestamp: 0, ..entries[i] }
                    },
                ),
                b.len() as int,
            ),
        ),
    decreases entries.len(),
{
    let records = Seq::new(entries.len(), |i: int| record_of(entries[i], with_ts));
    let result = Seq::new(
        entries.len(),
        |i: int| if with_ts {
            entries[i]
        } else {
            EntryV { timestamp: 0, ..entries[i] }
        },
    );
    if entries.len() == 0 {
        assert(result =~= Seq::<EntryV>::empty());
    } else {
        let e0 = entries[0];
        let rest = entries.drop_first();
        lemma_subrange_split(b, pos, e0.data, spec_enc_payloads(rest));
        assert(forall|i: int| 0 <= i < rest.len() ==> rest[i] == #[trigger] entries[i + 1]);
        lemma_dec_enc_payloads(rest, with_ts, b, pos + e0.data.len());
        assert(records[0] == record_of(e0, with_ts));
        assert(records.drop_first() =~= Seq::new(
            rest.len(),
            |i: int| record_of(rest[i], with_ts),
        ));
        let first = EntryV {
            path: e0.path,
            data: b.subrange(pos, pos + e0.data.len() as int),
            timestamp: if with_ts {
                e0.timestamp
            } else {
                0
            },
            is_compressed: e0.is_compressed,
            is_encrypted: e0.is_encrypted,
        };
        let subresult = Seq::new(
            rest.len(),
            |i: int| if with_ts {
                rest[i]
            } else {
                EntryV { timestamp: 0, ..rest[i] }
            },
        );
        assert(first == result[0]);
        assert(seq![first] + subresult =~= result);
    }
}

/// Whatever the payload walker accepts pairs each record with a payload of
/// the declared length and re-encodes to the very bytes.
pub proof fn lemma_enc_dec_payloads(records: Seq<RecordV>, b: Seq<u8>, pos: int)
    requires
        0 <= pos <= b.len(),
        forall|i: int| 0 <= i < records.len() ==> (#[trigger] records[i]).data_len >= 0,
        sdec_payloads(records, b, pos) is Ok,
    ensures
        ({
            let (entries, p) = sdec_payloads(records, b, pos)->Ok_0;
            &&& pos <= p <= b.len()
            &&& entries.len() == records.len()
            &&& forall|i: int|
                0 <= i < entries.len() ==> {
                    let e = #[trigger] entries[i];
                    &&& e.path == records[i].path
                    &&& e.data.len() == records[i].data_len
                    &&& e.timestamp == records[i].timestamp
                    &&& e.is_compressed == records[i].is_compressed
                    &&& e.is_encrypted == records[i].is_encrypted
                }
            &&& spec_enc_payloads(entries) == b.subrange(pos, p)
        }),
    decreases records.len(),
{
    if records.len() == 0 {
        let (entries, p) = sdec_payloads(records, b, pos)->Ok_0;
        assert(spec_enc_payloads(entries) =~= b.subrange(pos, pos));
    } else {
        let r0 = records[0];
        lemma_enc_dec_payloads(records.drop_first(), b, pos + r0.data_len);
        let (rest, p2) = sdec_payloads(records.drop_first(), b, pos + r0.data_len)->Ok_0;
        let (entries, p) = sdec_payloads(records, b, pos)->Ok_0;
        assert(entries.drop_first() =~= rest);
        assert(forall|i: int| 1 <= i < entries.len() ==> entries[i] == #[trigger] rest[i - 1]);
        assert(forall|i: int|
            0 <= i < rest.len() ==> records.drop_first()[i] == #[trigger] records[i + 1]);
        assert(spec_enc_payloads(entries) =~= b.subrange(pos, p));
    }
}


/// True when entry list and record list agree on everything but the
/// payload bytes themselves.
pub open spec fn matches_records(es: Seq<EntryV>, records: Seq<RecordV>, with_ts: bool) -> bool {
    &&& es.len() == records.len()
    &&& forall|i: int|
        0 <= i < es.len() ==> {
            let e = #[trigger] es[i];
            &&& e.path == records[i].path
            &&& e.data.len() == records[i].data_len
            &&& (with_ts ==> e.timestamp == records[i].timestamp)
            &&& e.is_compressed == records[i].is_compressed
            &&& e.is_encrypted == records[i].is_encrypted
        }
}

/// Whatever the record-list decoder accepts re-encodes, against any entry
/// list matching the records, to its bytes.
pub proof fn lemma_enc_dec_records(n: nat, with_ts: bool, b: Seq<u8>, pos: int, es: Seq<EntryV>)
    requires
        0 <= pos <= b.len(),
        sdec_records(n, with_ts, b, pos) is Ok,
        matches_records(es, sdec_records(n, with_ts, b, pos)->Ok_0.0, with_ts),
    ensures
        ({
            let (records, p) = sdec_records(n, with_ts, b, pos)->Ok_0;
            &&& pos <= p <= b.len()
            &&& records.len() == n
            &&& forall|i: int|
                0 <= i < records.len() ==> {
                    let r = #[trigger] records[i];
                    &&& 0 <= r.data_len <= 0xFFFFFFFF
                    &&& r.path.len() <= 0xFFFF
                    &&& (!with_ts ==> r.timestamp == 0)
                    &&& forall|j: int|
                        0 <= j < r.path.len() ==> encode_utf8(#[trigger] r.path[j]).len() <= 0xFFFF
                }
            &&& spec_enc_index(es, with_ts) == b.subrange(pos, p)
        }),
    decreases n,
{
    if n == 0 {
        let (records, p) = sdec_records(n, with_ts, b, pos)->Ok_0;
        assert(es =~= Seq::<EntryV>::empty());
        assert(spec_enc_index(es, with_ts) =~= b.subrange(pos, pos));
    } else {
        lemma_enc_dec_record(with_ts, b, pos);
        let (r0, p1) = sdec_record(with_ts, b, pos)->Ok_0;
        let (records, p) = sdec_records(n, with_ts, b, pos)->Ok_0;
        let (subrecords, _p) = sdec_records((n - 1) as nat, with_ts, b, p1)->Ok_0;
        assert(records == seq![r0] + subrecords);
        assert(records[0] == r0);
        assert(records.drop_first() =~= subrecords);
        let e0 = es[0];
        let esrest = es.drop_first();
        assert(forall|i: int| 0 <= i < esrest.len() ==> esrest[i] == #[trigger] es[i + 1]);
        assert(forall|i: int|
            0 <= i < subrecords.len() ==> subrecords[i] == #[trigger] records[i + 1]);
        lemma_enc_dec_records((n - 1) as nat, with_ts, b, p1, esrest);
        let einst = EntryV {
            path: r0.path,
            data: e0.data,
            timestamp: e0.timestamp,
            is_compressed: r0.is_compressed,
            is_encrypted: r0.is_encrypted,
        };
        assert(spec_enc_record(einst, with_ts) == b.subrange(pos, p1));
        assert(einst == e0);
        assert(spec_enc_record(e0, with_ts) == b.subrange(pos, p1));
        assert(spec_enc_index(es, with_ts) =~= b.subrange(pos, p));
        assert(forall|i: int|
            0 <= i < records.len() - 1 ==> subrecords[i] == #[trigger] records[i + 1]);
    }
}

/// True when the entry timestamps are exactly what the index can store:
/// zero wherever the index carries no timestamps.
pub open spec fn pack_canon(p: PackV) -> bool {
    !p.bitmask.has_index_with_timestamps ==> forall|i: int|
        0 <= i < p.entries.len() ==> (#[trigger] p.entries[i]).timestamp == 0
}

/// Each version is named back by its own magic bytes.
pub proof fn lemma_magic_inverse(v: PFHVersion)
    ensures
        spec_version_of_magic(spec_magic(v)) == Some(v),
        spec_magic(v).len() == 4,
{
    assert(spec_magic(PFHVersion::PFH0)[3] == 0x30);
    assert(spec_magic(PFHVersion::PFH2)[3] == 0x32);
    assert(spec_magic(PFHVersion::PFH3)[3] == 0x33);
    assert(spec_magic(PFHVersion::PFH4)[3] == 0x34);
    assert(spec_magic(PFHVersion::PFH5)[3] == 0x35);
    assert(spec_magic(PFHVersion::PFH6)[3] == 0x36);
}

/// The flag word round trips, and a stored flag word never has unknown
/// bits.
pub proof fn lemma_flags_round_trip(f: PFHFlags, w: u32)
    ensures
        spec_flags_of_code(spec_flags_code(f)) == f,
        spec_flags_code(f) & 0xFFFFFFF0 == 0,
        w & 0xFFFFFFF0 == 0 ==> spec_flags_code(spec_flags_of_code(w)) == w,
{
    let a = f.has_encrypted_data;
    let b = f.has_index_with_timestamps;
    let c = f.has_encrypted_index;
    let d = f.has_extended_header;
    let code = spec_flags_code(f);
    assert({
        let n = ((if a {
            1u32
        } else {
            0u32
        }) | (if b {
            2u32
        } else {
            0u32
        }) | (if c {
            4u32
        } else {
            0u32
        }) | (if d {
            8u32
        } else {
            0u32
        }));
        (n & 1 == 1 <==> a) && (n & 2 == 2 <==> b) && (n & 4 == 4 <==> c) && (n & 8 == 8 <==> d)
            && n & 0xFFFFFFF0 == 0
    }) by (bit_vector);
    assert(w & 0xFFFFFFF0 == 0 ==> ((if (w & 1 == 1) {
        1u32
    } else {
        0u32
    }) | (if (w & 2 == 2) {
        2u32
    } else {
        0u32
    }) | (if (w & 4 == 4) {
        4u32
    } else {
        0u32
    }) | (if (w & 8 == 8) {
        8u32
    } else {
        0u32
    })) == w) by (bit_vector);
}

/// Where each part of an encoded pack lies in the byte image.
#[verifier::rlimit(100)]
#[verifier::spinoff_prover]
proof fn lemma_pack_regions(p: PackV)
    ensures
        ({
            let with_ts = p.bitmask.has_index_with_timestamps;
            let index_plain = spec_enc_index(p.entries, with_ts);
            let index_stored = if p.bitmask.has_encrypted_index {
                spec_transform(p.pfh_version, index_plain)
            } else {
                index_plain
            };
            let payloads = spec_enc_payloads(p.entries);
            let hdr: int = if p.bitmask.has_extended_header {
                44
            } else {
                24
            };
            let b = spec_enc_pack(p);
            &&& b.len() == hdr + index_plain.len() + payloads.len()
            &&& b.subrange(0, 4) == spec_magic(p.pfh_version)
            &&& b.subrange(4, 8) == spec_u32_to_le_bytes(spec_file_type_code(p.pfh_file_type))
            &&& b.subrange(8, 12) == spec_u32_to_le_bytes(spec_flags_code(p.bitmask))
            &&& b.subrange(12, 16) == spec_u32_to_le_bytes(p.entries.len() as u32)
            &&& b.subrange(16, 20) == spec_u32_to_le_bytes(index_plain.len() as u32)
            &&& b.subrange(20, 24) == spec_u32_to_le_bytes(p.timestamp)
            &&& (p.bitmask.has_extended_header ==> b.subrange(24, 44) == spec_ext_header())
            &&& b.subrange(hdr, hdr + index_plain.len()) == index_stored
            &&& b.subrange(hdr + index_plain.len(), b.len() as int) == payloads
        }),
{
    lemma_le_bytes_auto();
    let with_ts = p.bitmask.has_index_with_timestamps;
    let index_plain = spec_enc_index(p.entries, with_ts);
    let index_stored = if p.bitmask.has_encrypted_index {
        spec_transform(p.pfh_version, index_plain)
    } else {
        index_plain
    };
    let ext: Seq<u8> = if p.bitmask.has_extended_header {
        spec_ext_header()
    } else {
        seq![]
    };
    let payloads = spec_enc_payloads(p.entries);
    let b = spec_enc_pack(p);
    let hdr: int = if p.bitmask.has_extended_header {
        44
    } else {
        24
    };
    assert(index_stored.len() == index_plain.len());
    assert(spec_magic(p.pfh_version).len() == 4) by {
        lemma_magic_inverse(p.pfh_version);
    }
    assert(b =~= spec_magic(p.pfh_version) + (spec_u32_to_le_bytes(
        spec_file_type_code(p.pfh_file_type),
    ) + (spec_u32_to_le_bytes(spec_flags_code(p.bitmask)) + (spec_u32_to_le_bytes(
        p.entries.len() as u32,
    ) + (spec_u32_to_le_bytes(index_plain.len() as u32) + (spec_u32_to_le_bytes(p.timestamp) + (ext
        + (index_stored + payloads))))))));
    assert(b.subrange(0, b.len() as int) =~= b);
    lemma_subrange_split(b, 0, spec_magic(p.pfh_version), spec_u32_to_le_bytes(
        spec_file_type_code(p.pfh_file_type),
    ) + (spec_u32_to_le_bytes(spec_flags_code(p.bitmask)) + (spec_u32_to_le_bytes(
        p.entries.len() as u32,
    ) + (spec_u32_to_le_bytes(index_plain.len() as u32) + (spec_u32_to_le_bytes(p.timestamp) + (ext
        + (index_stored + payloads)))))));
    lemma_subrange_split(b, 4, spec_u32_to_le_bytes(spec_file_type_code(p.pfh_file_type)),
        spec_u32_to_le_bytes(spec_flags_code(p.bitmask)) + (spec_u32_to_le_bytes(
        p.entries.len() as u32,
    ) + (spec_u32_to_le_bytes(index_plain.len() as u32) + (spec_u32_to_le_bytes(p.timestamp) + (ext
        + (index_stored + payloads))))));
    lemma_subrange_split(b, 8, spec_u32_to_le_bytes(spec_flags_code(p.bitmask)),
        spec_u32_to_le_bytes(p.entries.len() as u32) + (spec_u32_to_le_bytes(
        index_plain.len() as u32,
    ) + (spec_u32_to_le_bytes(p.timestamp) + (ext + (index_stored + payloads)))));
    lemma_subrange_split(b, 12, spec_u32_to_le_bytes(p.entries.len() as u32),
        spec_u32_to_le_bytes(index_plain.len() as u32) + (spec_u32_to_le_bytes(p.timestamp) + (ext
        + (index_stored + payloads))));
    lemma_subrange_split(b, 16, spec_u32_to_le_bytes(index_plain.len() as u32),
        spec_u32_to_le_bytes(p.timestamp) + (ext + (index_stored + payloads)));
    lemma_subrange_split(b, 20, spec_u32_to_le_bytes(p.timestamp), ext + (index_stored
        + payloads));
    lemma_subrange_split(b, 24, ext, index_stored + payloads);
    lemma_subrange_split(b, hdr, index_stored, payloads);
}

/// Law: decoding an encoded pack yields the same pack.  Holds for every
/// well-formed pack whose entry timestamps fit what its index stores.
#[verifier::rlimit(100)]
#[verifier::spinoff_prover]
pub proof fn lemma_pack_round_trip_from_pack(p: PackV)
    requires
        pack_wf(p),
        pack_canon(p),
    ensures
        sdec_pack(spec_enc_pack(p)) == Ok::<PackV, RpfmError>(p),
{
    lemma_le_bytes_auto();
    lemma_magic_inverse(p.pfh_version);
    lemma_flags_round_trip(p.bitmask, 0);
    lemma_pack_regions(p);
    let with_ts = p.bitmask.has_index_with_timestamps;
    let index_plain = spec_enc_index(p.entries, with_ts);
    let index_stored = if p.bitmask.has_encrypted_index {
        spec_transform(p.pfh_version, index_plain)
    } else {
        index_plain
    };
    let payloads = spec_enc_payloads(p.entries);
    let b = spec_enc_pack(p);
    let hdr: int = if p.bitmask.has_extended_header {
        44
    } else {
        24
    };
    assert(b.subrange(hdr, hdr + index_plain.len()) == index_stored);
    let index_plain2 = if p.bitmask.has_encrypted_index {
        spec_transform(p.pfh_version, index_stored)
    } else {
        index_stored
    };
    if p.bitmask.has_encrypted_index {
        lemma_transform_involution(p.pfh_version, index_plain);
    }
    assert(index_plain2 == index_plain);
    assert(index_plain.subrange(0, index_plain.len() as int) =~= index_plain);
    lemma_dec_enc_index(p.entries, with_ts, index_plain, 0);
    lemma_dec_enc_payloads(p.entries, with_ts, b, hdr + index_plain.len());
    let decoded_entries = Seq::new(
        p.entries.len(),
        |i: int| if with_ts {
            p.entries[i]
        } else {
            EntryV { timestamp: 0, ..p.entries[i] }
        },
    );
    assert(decoded_entries =~= p.entries);
}

/// Law: re-encoding a decoded pack reproduces the input byte for byte.
#[verifier::rlimit(100)]
#[verifier::spinoff_prover]
pub proof fn lemma_pack_round_trip_from_bytes(b: Seq<u8>)
    requires
        sdec_pack(b) is Ok,
    ensures
        ({
            let p = sdec_pack(b)->Ok_0;
            &&& pack_wf(p)
            &&& pack_canon(p)
            &&& spec_enc_pack(p) == b
        }),
{
    lemma_le_bytes_auto();
    let p = sdec_pack(b)->Ok_0;
    let version = spec_version_of_magic(b.subrange(0, 4))->0;
    let flagsword = spec_u32_from_le_bytes(b.subrange(8, 12));
    lemma_flags_round_trip(p.bitmask, flagsword);
    let flags = spec_flags_of_code(flagsword);
    let with_ts = flags.has_index_with_timestamps;
    let count = spec_u32_from_le_bytes(b.subrange(12, 16));
    let index_size = spec_u32_from_le_bytes(b.subrange(16, 20));
    let hdr: int = if flags.has_extended_header {
        44
    } else {
        24
    };
    let index_stored = b.subrange(hdr, hdr + index_size);
    let index_plain = if flags.has_encrypted_index {
        spec_transform(version, index_stored)
    } else {
        index_stored
    };
    let (records, rp) = sdec_records(count as nat, with_ts, index_plain, 0)->Ok_0;
    let (entries, ep) = sdec_payloads(records, b, hdr + index_size)->Ok_0;
    lemma_enc_dec_record_nonneg(count as nat, with_ts, index_plain, 0);
    lemma_enc_dec_payloads(records, b, hdr + index_size);
    assert(matches_records(entries, records, with_ts));
    lemma_enc_dec_records(count as nat, with_ts, index_plain, 0, entries);
    assert(spec_enc_index(entries, with_ts) == index_plain.subrange(0, rp));
    assert(index_plain.subrange(0, index_plain.len() as int) =~= index_plain);
    assert(spec_enc_index(entries, with_ts) == index_plain);
    assert(entries_wf(entries));
    if flags.has_encrypted_index {
        lemma_transform_involution(version, index_stored);
    }
    let index_stored2 = if flags.has_encrypted_index {
        spec_transform(version, spec_enc_index(entries, with_ts))
    } else {
        spec_enc_index(entries, with_ts)
    };
    assert(index_stored2 == index_stored);
    assert(spec_enc_payloads(entries) == b.subrange(hdr + index_size, ep));
    lemma_magic_inverse(version);
    assert(b.subrange(0, 4) == spec_magic(version));
    let ftcode = spec_u32_from_le_bytes(b.subrange(4, 8));
    assert(spec_file_type_code(spec_file_type_of_code(ftcode)) == ftcode);
    assert(file_type_wf(spec_file_type_of_code(ftcode)));
    assert(spec_flags_code(flags) == flagsword);
    assert(index_plain.len() == index_size);
    assert(count as nat == records.len());
    assert(entries.len() == count as nat);
    assert(pack_wf(p));
    assert(pack_canon(p));
    let enc = spec_enc_pack(p);
    assert(spec_u32_to_le_bytes(ftcode) =~= b.subrange(4, 8));
    assert(spec_u32_to_le_bytes(flagsword) =~= b.subrange(8, 12));
    assert(spec_u32_to_le_bytes(count) =~= b.subrange(12, 16));
    assert(spec_u32_to_le_bytes(index_size) =~= b.subrange(16, 20));
    assert(spec_u32_to_le_bytes(p.timestamp) =~= b.subrange(20, 24));
    assert(enc =~= b);
}

/// Every record a successful decode yields declares a non-negative
/// payload length.
proof fn lemma_enc_dec_record_nonneg(n: nat, with_ts: bool, b: Seq<u8>, pos: int)
    requires
        0 <= pos <= b.len(),
        sdec_records(n, with_ts, b, pos) is Ok,
    ensures
        ({
            let (records, p) = sdec_records(n, with_ts, b, pos)->Ok_0;
            &&& pos <= p <= b.len()
            &&& forall|i: int| 0 <= i < records.len() ==> (#[trigger] records[i]).data_len >= 0
        }),
    decreases n,
{
    if n != 0 {
        lemma_enc_dec_record(with_ts, b, pos);
        let (r0, p1) = sdec_record(with_ts, b, pos)->Ok_0;
        lemma_enc_dec_record_nonneg((n - 1) as nat, with_ts, b, p1);
        let (records, p) = sdec_records(n, with_ts, b, pos)->Ok_0;
        let (subrecords, _p) = sdec_records((n - 1) as nat, with_ts, b, p1)->Ok_0;
        assert(forall|i: int|
            1 <= i < records.len() ==> records[i] == #[trigger] subrecords[i - 1]);
    }
}


/// Adds one entry: replaces the first entry at the same path, or appends.
pub open spec fn spec_upsert(entries: Seq<EntryV>, e: EntryV) -> Seq<EntryV>
    decreases entries.len(),
{
    if entries.len() == 0 {
        seq![e]
    } else if entries[0].path == e.path {
        seq![e] + entries.drop_first()
    } else {
        seq![entries[0]] + spec_upsert(entries.drop_first(), e)
    }
}

/// Adds the entries in order, each replacing an earlier one at its path.
pub open spec fn spec_merge_entries(acc: Seq<EntryV>, more: Seq<EntryV>) -> Seq<EntryV>
    decreases more.len(),
{
    if more.len() == 0 {
        acc
    } else {
        spec_merge_entries(spec_upsert(acc, more[0]), more.drop_first())
    }
}

/// The first entry at the given path.
pub open spec fn spec_lookup(entries: Seq<EntryV>, path: Seq<Seq<char>>) -> Option<EntryV>
    decreases entries.len(),
{
    if entries.len() == 0 {
        None
    } else if entries[0].path == path {
        Some(entries[0])
    } else {
        spec_lookup(entries.drop_first(), path)
    }
}

/// The last entry at the given path.
pub open spec fn spec_last_match(entries: Seq<EntryV>, path: Seq<Seq<char>>) -> Option<EntryV>
    decreases entries.len(),
{
    if entries.len() == 0 {
        None
    } else if entries.last().path == path {
        Some(entries.last())
    } else {
        spec_last_match(entries.drop_last(), path)
    }
}

/// Looking up after an upsert finds the new entry at its path and is
/// unchanged elsewhere.
pub proof fn lemma_lookup_upsert(entries: Seq<EntryV>, e: EntryV, path: Seq<Seq<char>>)
    ensures
        spec_lookup(spec_upsert(entries, e), path) == (if e.path == path {
            Some(e)
        } else {
            spec_lookup(entries, path)
        }),
    decreases entries.len(),
{
    if entries.len() == 0 {
        let u = spec_upsert(entries, e);
        assert(u == seq![e]);
        assert(u[0] == e);
        assert(u.drop_first() =~= Seq::<EntryV>::empty());
        if e.path == path {
            assert(spec_lookup(u, path) == Some(e));
        } else {
            assert(spec_lookup(u, path) == spec_lookup(u.drop_first(), path));
            assert(spec_lookup(u, path) is None);
        }
    } else if entries[0].path == e.path {
        let u = spec_upsert(entries, e);
        assert(u == seq![e] + entries.drop_first());
        assert(u[0] == e);
        assert(u.drop_first() =~= entries.drop_first());
        if e.path == path {
            assert(spec_lookup(u, path) == Some(e));
        } else {
            assert(spec_lookup(u, path) == spec_lookup(entries.drop_first(), path));
            assert(spec_lookup(entries, path) == spec_lookup(entries.drop_first(), path));
        }
    } else {
        let u = spec_upsert(entries, e);
        assert(u == seq![entries[0]] + spec_upsert(entries.drop_first(), e));
        assert(u[0] == entries[0]);
        assert(u.len() == 1 + spec_upsert(entries.drop_first(), e).len());
        assert(u.drop_first() =~= spec_upsert(entries.drop_first(), e));
        lemma_lookup_upsert(entries.drop_first(), e, path);
        if entries[0].path == path {
            assert(spec_lookup(u, path) == Some(entries[0]));
            assert(spec_lookup(entries, path) == Some(entries[0]));
        } else {
            assert(spec_lookup(u, path) == spec_lookup(u.drop_first(), path));
            assert(spec_lookup(entries, path) == spec_lookup(entries.drop_first(), path));
        }
    }
}

/// The last match among a head entry and a tail: the tail's last match
/// when it has one, else the head if it fits.
proof fn lemma_last_match_head(e0: EntryV, rest: Seq<EntryV>, path: Seq<Seq<char>>)
    ensures
        spec_last_match(seq![e0] + rest, path) == (match spec_last_match(rest, path) {
            Some(e) => Some(e),
            None => if e0.path == path {
                Some(e0)
            } else {
                None
            },
        }),
    decreases rest.len(),
{
    let all = seq![e0] + rest;
    assert(all.len() == 1 + rest.len());
    if rest.len() == 0 {
        assert(all.last() == e0);
        assert(all.drop_last() =~= Seq::<EntryV>::empty());
        if e0.path != path {
            assert(spec_last_match(all, path) == spec_last_match(all.drop_last(), path));
            assert(spec_last_match(all, path) is None);
        } else {
            assert(spec_last_match(all, path) == Some(e0));
        }
    } else {
        assert(all.last() == rest.last());
        assert(all.drop_last() =~= seq![e0] + rest.drop_last());
        lemma_last_match_head(e0, rest.drop_last(), path);
        if rest.last().path == path {
            assert(spec_last_match(all, path) == Some(rest.last()));
            assert(spec_last_match(rest, path) == Some(rest.last()));
        } else {
            assert(spec_last_match(all, path) == spec_last_match(all.drop_last(), path));
            assert(spec_last_match(rest, path) == spec_last_match(rest.drop_last(), path));
        }
    }
}

/// Law: in a merge the last writer wins.  Folding a stream of entries into
/// an accumulator and then looking a path up finds the last entry of the
/// stream at that path, or falls back to the accumulator.  In particular,
/// loading several source packs in order leaves, at every path, exactly
/// the bytes of the last source that carries that path.
pub proof fn lemma_merge_last_wins(acc: Seq<EntryV>, more: Seq<EntryV>, path: Seq<Seq<char>>)
    ensures
        spec_lookup(spec_merge_entries(acc, more), path) == (match spec_last_match(more, path) {
            Some(e) => Some(e),
            None => spec_lookup(acc, path),
        }),
    decreases more.len(),
{
    if more.len() == 0 {
    } else {
        let e0 = more[0];
        let rest = more.drop_first();
        lemma_merge_last_wins(spec_upsert(acc, e0), rest, path);
        lemma_lookup_upsert(acc, e0, path);
        assert(seq![e0] + rest =~= more);
        lemma_last_match_head(e0, rest, path);
    }
}

/// True when some reference entry carries the same path and byte-identical
/// payload.
pub open spec fn spec_is_vanilla(e: EntryV, reference: Seq<EntryV>) -> bool {
    exists|i: int|
        0 <= i < reference.len() && (#[trigger] reference[i]).path == e.path && reference[i].data
            == e.data
}

/// The entries kept by an optimize pass: those with no byte-identical
/// reference counterpart, in their original order.
pub open spec fn spec_optimized(entries: Seq<EntryV>, reference: Seq<EntryV>) -> Seq<EntryV>
    decreases entries.len(),
{
    if entries.len() == 0 {
        seq![]
    } else if spec_is_vanilla(entries[0], reference) {
        spec_optimized(entries.drop_first(), reference)
    } else {
        seq![entries[0]] + spec_optimized(entries.drop_first(), reference)
    }
}

/// Law: an optimize pass removes exactly the entries byte-identical to
/// their reference counterpart.  Every kept entry differs from every
/// reference entry at its path, an entry that so differs is kept, and an
/// entry identical to a reference counterpart is gone.
pub proof fn lemma_optimize_keeps_exactly_non_vanilla(
    entries: Seq<EntryV>,
    reference: Seq<EntryV>,
)
    ensures
        ({
            let kept = spec_optimized(entries, reference);
            &&& forall|j: int|
                0 <= j < kept.len() ==> !spec_is_vanilla(#[trigger] kept[j], reference)
            &&& forall|i: int|
                0 <= i < entries.len() && !spec_is_vanilla(#[trigger] entries[i], reference)
                    ==> kept.contains(entries[i])
            &&& forall|i: int|
                0 <= i < entries.len() && spec_is_vanilla(#[trigger] entries[i], reference)
                    ==> !kept.contains(entries[i])
        }),
    decreases entries.len(),
{
    let kept = spec_optimized(entries, reference);
    if entries.len() == 0 {
    } else {
        let e0 = entries[0];
        let rest = entries.drop_first();
        lemma_optimize_keeps_exactly_non_vanilla(rest, reference);
        let subkept = spec_optimized(rest, reference);
        assert(forall|i: int| 0 <= i < rest.len() ==> rest[i] == #[trigger] entries[i + 1]);
        if spec_is_vanilla(e0, reference) {
            assert(kept == subkept);
            assert forall|i: int|
                0 <= i < entries.len() && !spec_is_vanilla(
                    #[trigger] entries[i],
                    reference,
                ) implies kept.contains(entries[i]) by {
                assert(i >= 1 && entries[i] == rest[i - 1]);
            }
            assert forall|i: int|
                0 <= i < entries.len() && spec_is_vanilla(
                    #[trigger] entries[i],
                    reference,
                ) implies !kept.contains(entries[i]) by {
                if kept.contains(entries[i]) {
                    let j = choose|j: int| 0 <= j < kept.len() && kept[j] == entries[i];
                    assert(!spec_is_vanilla(kept[j], reference));
                }
            }
        } else {
            assert(kept == seq![e0] + subkept);
            assert(kept[0] == e0);
            assert(forall|j: int| 1 <= j < kept.len() ==> kept[j] == #[trigger] subkept[j - 1]);
            assert forall|i: int|
                0 <= i < entries.len() && !spec_is_vanilla(
                    #[trigger] entries[i],
                    reference,
                ) implies kept.contains(entries[i]) by {
                if i == 0 {
                    assert(kept[0] == entries[0]);
                } else {
                    assert(entries[i] == rest[i - 1]);
                    assert(subkept.contains(entries[i]));
                    let j = choose|j: int| 0 <= j < subkept.len() && subkept[j] == entries[i];
                    assert(kept[j + 1] == entries[i]);
                }
            }
            assert forall|i: int|
                0 <= i < entries.len() && spec_is_vanilla(
                    #[trigger] entries[i],
                    reference,
                ) implies !kept.contains(entries[i]) by {
                if kept.contains(entries[i]) {
                    let j = choose|j: int| 0 <= j < kept.len() && kept[j] == entries[i];
                    assert(!spec_is_vanilla(kept[j], reference));
                }
            }
        }
    }
}


/// One index record as read; the payload is attached in a second pass.
struct RecordX {
    data_len: u32,
    timestamp: u32,
    is_compressed: bool,
    is_encrypted: bool,
    path: Vec<String>,
}

/// The model of a read record.
spec fn record_x_view(r: RecordX) -> RecordV {
    RecordV {
        data_len: r.data_len as int,
        timestamp: r.timestamp,
        is_compressed: r.is_compressed,
        is_encrypted: r.is_encrypted,
        path: path_view(r.path@),
    }
}

/// Decodes one path.
fn decode_path(b: &[u8], pos: usize) -> (r: Result<(Vec<String>, usize), RpfmError>)
    requires
        pos <= b@.len(),
    ensures
        match r {
            Ok((path, p)) => sdec_path(b@, pos as int) == Ok::<(Seq<Seq<char>>, int), RpfmError>(
                (path_view(path@), p as int),
            ) && pos <= p <= b@.len(),
            Err(e) => sdec_path(b@, pos as int) == Err::<(Seq<Seq<char>>, int), RpfmError>(e),
        },
{
    let len = b.len();
    if len - pos < 2 {
        return Err(RpfmError::TruncatedIndex);
    }
    let n = read_u16(b, pos) as usize;
    let mut path: Vec<String> = Vec::new();
    let mut cur: usize = pos + 2;
    let mut i: usize = 0;
    proof {
        lemma_path_view_len(path@);
        assert(path_view(path@) =~= Seq::<Seq<char>>::empty());
        let r0 = sdec_segs(n as nat, b@, cur as int);
        if r0 is Ok {
            assert(Seq::<Seq<char>>::empty() + r0->Ok_0.0 =~= r0->Ok_0.0);
        }
    }
    while i < n
        invariant
            pos + 2 <= cur <= b@.len(),
            i <= n,
            sdec_path(b@, pos as int) == sdec_segs(n as nat, b@, pos + 2),
            path_view(path@).len() == i,
            ({
                let rr = sdec_segs((n - i) as nat, b@, cur as int);
                let whole = sdec_segs(n as nat, b@, pos + 2);
                &&& (rr is Ok ==> whole == Ok::<(Seq<Seq<char>>, int), RpfmError>(
                    (path_view(path@) + rr->Ok_0.0, rr->Ok_0.1),
                ))
                &&& (rr is Err ==> whole == Err::<(Seq<Seq<char>>, int), RpfmError>(rr->Err_0))
            }),
        decreases n - i,
    {
        let ghost oldpv = path_view(path@);
        let ghost oldcur = cur as int;
        let ghost m = (n - i) as nat;
        match decode_str8(b, cur) {
            Ok((s, p)) => {
                proof {
                    assert(path@.push(s).drop_last() =~= path@);
                    assert(path_view(path@.push(s)) == oldpv.push(s@));
                }
                let ghost sv = s@;
                path.push(s);
                cur = p;
                proof {
                    lemma_path_view_len(path@);
                    let rr2 = sdec_segs((m - 1) as nat, b@, cur as int);
                    if rr2 is Ok {
                        assert(sdec_segs(m, b@, oldcur) == Ok::<(Seq<Seq<char>>, int), RpfmError>(
                            (seq![sv] + rr2->Ok_0.0, rr2->Ok_0.1),
                        ));
                        assert(oldpv + (seq![sv] + rr2->Ok_0.0) =~= path_view(path@)
                            + rr2->Ok_0.0);
                    }
                }
            },
            Err(e) => {
                proof {
                    let serr = sdec_str8(b@, cur as int)->Err_0;
                    assert(sdec_segs(m, b@, oldcur) == Err::<(Seq<Seq<char>>, int), RpfmError>(
                        if serr.0 is UnexpectedEnd {
                            RpfmError::TruncatedIndex
                        } else {
                            RpfmError::FormatError
                        },
                    ));
                }
                match e {
                    RpfmError::DecodeError { offset, reason } => {
                        if reason == crate::error::DecodeReason::UnexpectedEnd {
                            return Err(RpfmError::TruncatedIndex);
                        } else {
                            return Err(RpfmError::FormatError);
                        }
                    },
                    _ => {
                        proof {
                            assert(false);
                        }
                        return Err(RpfmError::FormatError);
                    },
                }
            },
        }
        i += 1;
    }
    proof {
        assert(path_view(path@) + Seq::<Seq<char>>::empty() =~= path_view(path@));
    }
    Ok((path, cur))
}

/// Decodes one index record.
fn decode_record(with_ts: bool, b: &[u8], pos: usize) -> (r: Result<(RecordX, usize), RpfmError>)
    requires
        pos <= b@.len(),
    ensures
        match r {
            Ok((rec, p)) => sdec_record(with_ts, b@, pos as int) == Ok::<
                (RecordV, int),
                RpfmError,
            >((record_x_view(rec), p as int)) && pos <= p <= b@.len(),
            Err(e) => sdec_record(with_ts, b@, pos as int) == Err::<(RecordV, int), RpfmError>(e),
        },
{
    let len = b.len();
    if len - pos < 4 {
        return Err(RpfmError::TruncatedIndex);
    }
    let size = read_u32(b, pos);
    let p1 = pos + 4;
    let (ts, p2): (u32, usize) = if with_ts {
        if len - p1 < 4 {
            return Err(RpfmError::TruncatedIndex);
        }
        (read_u32(b, p1), p1 + 4)
    } else {
        (0, p1)
    };
    if len - p2 < 1 {
        return Err(RpfmError::TruncatedIndex);
    }
    let fl = b[p2];
    if fl & 0xFC != 0 {
        return Err(RpfmError::FormatError);
    }
    match decode_path(b, p2 + 1) {
        Ok((path, p3)) => Ok(
            (
                RecordX {
                    data_len: size,
                    timestamp: ts,
                    is_compressed: fl & 1 == 1,
                    is_encrypted: fl & 2 == 2,
                    path,
                },
                p3,
            ),
        ),
        Err(e) => Err(e),
    }
}

/// A pack held in memory: its identity and its entries.
pub struct PackFile {
    pub pfh_version: PFHVersion,
    pub pfh_file_type: PFHFileType,
    pub bitmask: PFHFlags,
    pub timestamp: u32,
    pub entries: Vec<Entry>,
}

/// The model of a pack.
pub open spec fn pack_view(p: PackFile) -> PackV {
    PackV {
        pfh_version: p.pfh_version,
        pfh_file_type: p.pfh_file_type,
        bitmask: p.bitmask,
        timestamp: p.timestamp,
        entries: entries_view(p.entries@),
    }
}

/// True when every entry's memoized cache, if set, holds exactly the
/// materialized payload.
pub open spec fn pack_caches_wf(p: PackFile) -> bool {
    forall|i: int|
        0 <= i < p.entries@.len() ==> entry_cache_wf(#[trigger] p.entries@[i], p.pfh_version)
}

/// The plain payload of an entry: the stored bytes, with the transform
/// undone when the entry is encrypted.
pub open spec fn spec_plain_data(v: PFHVersion, e: EntryV) -> Seq<u8> {
    if e.is_encrypted {
        spec_transform(v, e.data)
    } else {
        e.data
    }
}

/// True when the cache, if set, holds the materialized payload.
pub open spec fn entry_cache_wf(e: Entry, v: PFHVersion) -> bool {
    match e.cache {
        Some(d) => d@ == spec_plain_data(v, entry_view(e)),
        None => true,
    }
}

impl Entry {
    /// A fresh entry around a plain payload.
    pub fn new(path: Vec<String>, data: Vec<u8>) -> (e: Entry)
        ensures
            entry_view(e) == (EntryV {
                path: path_view(path@),
                data: data@,
                timestamp: 0,
                is_compressed: false,
                is_encrypted: false,
            }),
            e.cache is None,
    {
        Entry { path, data, timestamp: 0, is_compressed: false, is_encrypted: false, cache: None }
    }

    /// Materializes the plain payload once and returns it; a repeated call
    /// answers from the memo and yields byte-identical data.
    pub fn materialize(&mut self, version: PFHVersion) -> (d: &Vec<u8>)
        requires
            entry_cache_wf(*old(self), version),
        ensures
            entry_view(*final(self)) == entry_view(*old(self)),
            final(self).cache == Some(*d),
            d@ == spec_plain_data(version, entry_view(*old(self))),
            entry_cache_wf(*final(self), version),
    {
        if self.cache.is_none() {
            let plain = if self.is_encrypted {
                transform(version, self.data.as_slice())
            } else {
                let mut copy: Vec<u8> = Vec::new();
                copy.extend_from_slice(self.data.as_slice());
                proof {
                    assert(copy@ =~= self.data@);
                }
                copy
            };
            self.cache = Some(plain);
        }
        match &self.cache {
            Some(d) => d,
            None => {
                proof {
                    assert(false);
                }
                &self.data
            },
        }
    }
}


/// Reads the magic bytes.
fn parse_magic(b: &[u8]) -> (r: Result<PFHVersion, RpfmError>)
    ensures
        match r {
            Ok(v) => b@.len() >= 4 && spec_version_of_magic(b@.subrange(0, 4)) == Some(v),
            Err(e) => e == RpfmError::MagicMismatch && (b@.len() < 4 || spec_version_of_magic(
                b@.subrange(0, 4),
            ) is None),
        },
{
    if b.len() < 4 {
        return Err(RpfmError::MagicMismatch);
    }
    let m0 = b[0];
    let m1 = b[1];
    let m2 = b[2];
    let m3 = b[3];
    proof {
        let m = b@.subrange(0, 4);
        assert(m[0] == b@[0] && m[1] == b@[1] && m[2] == b@[2] && m[3] == b@[3]);
    }
    if !(m0 == 0x50 && m1 == 0x46 && m2 == 0x48) {
        proof {
            let m = b@.subrange(0, 4);
            assert(m != spec_magic(PFHVersion::PFH0) && m != spec_magic(PFHVersion::PFH2) && m
                != spec_magic(PFHVersion::PFH3) && m != spec_magic(PFHVersion::PFH4) && m
                != spec_magic(PFHVersion::PFH5) && m != spec_magic(PFHVersion::PFH6));
        }
        return Err(RpfmError::MagicMismatch);
    }
    let v = if m3 == 0x30 {
        PFHVersion::PFH0
    } else if m3 == 0x32 {
        PFHVersion::PFH2
    } else if m3 == 0x33 {
        PFHVersion::PFH3
    } else if m3 == 0x34 {
        PFHVersion::PFH4
    } else if m3 == 0x35 {
        PFHVersion::PFH5
    } else if m3 == 0x36 {
        PFHVersion::PFH6
    } else {
        proof {
            let m = b@.subrange(0, 4);
            assert(m != spec_magic(PFHVersion::PFH0) && m != spec_magic(PFHVersion::PFH2) && m
                != spec_magic(PFHVersion::PFH3) && m != spec_magic(PFHVersion::PFH4) && m
                != spec_magic(PFHVersion::PFH5) && m != spec_magic(PFHVersion::PFH6));
        }
        return Err(RpfmError::MagicMismatch);
    };
    proof {
        assert(b@.subrange(0, 4) =~= spec_magic(v));
        lemma_magic_inverse(v);
    }
    Ok(v)
}

/// Decodes the whole index: `count` records consuming every index byte.
fn decode_index(count: usize, with_ts: bool, ip: &[u8]) -> (r: Result<Vec<RecordX>, RpfmError>)
    ensures
        match r {
            Ok(records) => {
                &&& sdec_records(count as nat, with_ts, ip@, 0) == Ok::<
                    (Seq<RecordV>, int),
                    RpfmError,
                >(
                    (
                        Seq::new(records@.len() as nat, |k: int| record_x_view(records@[k])),
                        ip@.len() as int,
                    ),
                )
                &&& records@.len() == count
            },
            Err(e) => {
                ||| sdec_records(count as nat, with_ts, ip@, 0) == Err::<
                    (Seq<RecordV>, int),
                    RpfmError,
                >(e)
                ||| (sdec_records(count as nat, with_ts, ip@, 0) is Ok && sdec_records(
                    count as nat,
                    with_ts,
                    ip@,
                    0,
                )->Ok_0.1 != ip@.len() && e == RpfmError::FormatError)
            },
        },
{
    let mut records: Vec<RecordX> = Vec::new();
    let ghost mut recordsv: Seq<RecordV> = seq![];
    let mut cur: usize = 0;
    let mut i: usize = 0;
    proof {
        let r0 = sdec_records(count as nat, with_ts, ip@, 0);
        if r0 is Ok {
            assert(Seq::<RecordV>::empty() + r0->Ok_0.0 =~= r0->Ok_0.0);
        }
    }
    while i < count
        invariant
            cur <= ip@.len(),
            i <= count,
            recordsv.len() == i,
            records@.len() == i,
            forall|k: int| 0 <= k < i ==> record_x_view(#[trigger] records@[k]) == recordsv[k],
            ({
                let rr = sdec_records((count - i) as nat, with_ts, ip@, cur as int);
                let whole = sdec_records(count as nat, with_ts, ip@, 0);
                &&& (rr is Ok ==> whole == Ok::<(Seq<RecordV>, int), RpfmError>(
                    (recordsv + rr->Ok_0.0, rr->Ok_0.1),
                ))
                &&& (rr is Err ==> whole == Err::<(Seq<RecordV>, int), RpfmError>(rr->Err_0))
            }),
        decreases count - i,
    {
        let ghost oldrv = recordsv;
        let ghost oldcur = cur as int;
        let ghost m = (count - i) as nat;
        match decode_record(with_ts, ip, cur) {
            Ok((rec, p)) => {
                proof {
                    recordsv = recordsv.push(record_x_view(rec));
                    let rr2 = sdec_records((m - 1) as nat, with_ts, ip@, p as int);
                    if rr2 is Ok {
                        assert(sdec_records(m, with_ts, ip@, oldcur) == Ok::<
                            (Seq<RecordV>, int),
                            RpfmError,
                        >((seq![record_x_view(rec)] + rr2->Ok_0.0, rr2->Ok_0.1)));
                        assert(oldrv + (seq![record_x_view(rec)] + rr2->Ok_0.0) =~= recordsv
                            + rr2->Ok_0.0);
                    }
                }
                records.push(rec);
                cur = p;
            },
            Err(e) => {
                return Err(e);
            },
        }
        i += 1;
    }
    proof {
        assert(recordsv + Seq::<RecordV>::empty() =~= recordsv);
    }
    if cur != ip.len() {
        return Err(RpfmError::FormatError);
    }
    proof {
        assert(recordsv =~= Seq::new(records@.len() as nat, |k: int| record_x_view(records@[k])));
    }
    Ok(records)
}

/// Attaches each record's payload, consuming the buffer to its end.
fn decode_payloads(records: Vec<RecordX>, b: &[u8], start: usize) -> (r: Result<
    Vec<Entry>,
    RpfmError,
>)
    requires
        start <= b@.len(),
    ensures
        ({
            let recordsv = Seq::new(records@.len() as nat, |k: int| record_x_view(records@[k]));
            match r {
                Ok(entries) => {
                    &&& sdec_payloads(recordsv, b@, start as int) == Ok::<
                        (Seq<EntryV>, int),
                        RpfmError,
                    >((entries_view(entries@), b@.len() as int))
                    &&& forall|k: int|
                        0 <= k < entries@.len() ==> (#[trigger] entries@[k]).cache is None
                },
                Err(e) => {
                    ||| sdec_payloads(recordsv, b@, start as int) == Err::<
                        (Seq<EntryV>, int),
                        RpfmError,
                    >(e)
                    ||| (sdec_payloads(recordsv, b@, start as int) is Ok && sdec_payloads(
                        recordsv,
                        b@,
                        start as int,
                    )->Ok_0.1 != b@.len() && e == RpfmError::FormatError)
                },
            }
        }),
{
    let ghost recordsv = Seq::new(records@.len() as nat, |k: int| record_x_view(records@[k]));
    let mut entries: Vec<Entry> = Vec::new();
    let mut dpos: usize = start;
    let mut j: usize = 0;
    proof {
        lemma_entries_view_len(entries@);
        assert(entries_view(entries@) =~= Seq::<EntryV>::empty());
        assert(recordsv.subrange(0, recordsv.len() as int) =~= recordsv);
        let r0 = sdec_payloads(recordsv, b@, start as int);
        if r0 is Ok {
            assert(Seq::<EntryV>::empty() + r0->Ok_0.0 =~= r0->Ok_0.0);
        }
    }
    while j < records.len()
        invariant
            dpos <= b@.len(),
            j <= records@.len(),
            recordsv == Seq::new(records@.len() as nat, |k: int| record_x_view(records@[k])),
            entries_view(entries@).len() == j,
            forall|k: int| 0 <= k < j ==> (#[trigger] entries@[k]).cache is None,
            ({
                let rr = sdec_payloads(
                    recordsv.subrange(j as int, recordsv.len() as int),
                    b@,
                    dpos as int,
                );
                let whole = sdec_payloads(recordsv, b@, start as int);
                &&& (rr is Ok ==> whole == Ok::<(Seq<EntryV>, int), RpfmError>(
                    (entries_view(entries@) + rr->Ok_0.0, rr->Ok_0.1),
                ))
                &&& (rr is Err ==> whole == Err::<(Seq<EntryV>, int), RpfmError>(rr->Err_0))
            }),
        decreases records@.len() - j,
    {
        let ghost oldev = entries_view(entries@);
        let ghost olddpos = dpos as int;
        let ghost rem = recordsv.subrange(j as int, recordsv.len() as int);
        proof {
            assert(rem[0] == recordsv[j as int]);
            assert(rem.drop_first() =~= recordsv.subrange(j + 1, recordsv.len() as int));
        }
        let rec = &records[j];
        let dl = rec.data_len as usize;
        let blen = b.len();
        if blen - dpos < dl {
            proof {
                assert(olddpos + rem[0].data_len > b@.len());
            }
            return Err(RpfmError::TruncatedIndex);
        }
        let data = vstd::slice::slice_to_vec(vstd::slice::slice_subrange(b, dpos, dpos + dl));
        let mut path: Vec<String> = Vec::new();
        let mut seg: usize = 0;
        while seg < rec.path.len()
            invariant
                seg <= rec.path@.len(),
                path@.len() == seg,
                forall|k: int| 0 <= k < seg ==> (#[trigger] path@[k])@ == rec.path@[k]@,
            decreases rec.path@.len() - seg,
        {
            path.push(rec.path[seg].clone());
            seg += 1;
        }
        proof {
            lemma_path_view_len(path@);
            lemma_path_view_len(rec.path@);
            assert forall|k: int| 0 <= k < path@.len() implies path_view(path@)[k] == path_view(
                rec.path@,
            )[k] by {
                assert((path@[k])@ == (rec.path@[k])@);
            }
            assert(path_view(path@) =~= path_view(rec.path@));
        }
        let e = Entry {
            path,
            data,
            timestamp: rec.timestamp,
            is_compressed: rec.is_compressed,
            is_encrypted: rec.is_encrypted,
            cache: None,
        };
        proof {
            assert(entries@.push(e).drop_last() =~= entries@);
            assert(entry_view(e) == (EntryV {
                path: rem[0].path,
                data: b@.subrange(olddpos, olddpos + rem[0].data_len),
                timestamp: rem[0].timestamp,
                is_compressed: rem[0].is_compressed,
                is_encrypted: rem[0].is_encrypted,
            }));
        }
        entries.push(e);
        dpos = dpos + dl;
        proof {
            lemma_entries_view_len(entries@);
            let rr2 = sdec_payloads(
                recordsv.subrange(j + 1, recordsv.len() as int),
                b@,
                dpos as int,
            );
            if rr2 is Ok {
                assert(sdec_payloads(rem, b@, olddpos) == Ok::<(Seq<EntryV>, int), RpfmError>(
                    (seq![entries_view(entries@).last()] + rr2->Ok_0.0, rr2->Ok_0.1),
                ));
                assert(oldev + (seq![entries_view(entries@).last()] + rr2->Ok_0.0)
                    =~= entries_view(entries@) + rr2->Ok_0.0);
            }
        }
        j += 1;
    }
    proof {
        assert(recordsv.subrange(recordsv.len() as int, recordsv.len() as int)
            =~= Seq::<RecordV>::empty());
        assert(entries_view(entries@) + Seq::<EntryV>::empty() =~= entries_view(entries@));
    }
    proof {
        lemma_entries_view_len(entries@);
    }
    if dpos != b.len() {
        return Err(RpfmError::FormatError);
    }
    Ok(entries)
}

/// Whether the twenty reserved extended-header bytes are all zero.
fn ext_zeros(b: &[u8]) -> (r: bool)
    requires
        44 <= b@.len(),
    ensures
        r == (b@.subrange(24, 44) == spec_ext_header()),
{
    let mut z: usize = 24;
    while z < 44
        invariant
            24 <= z <= 44,
            44 <= b@.len(),
            forall|k: int| 24 <= k < z ==> b@[k] == 0,
        decreases 44 - z,
    {
        if b[z] != 0 {
            proof {
                assert(b@.subrange(24, 44)[z - 24] == b@[z as int]);
                assert(spec_ext_header()[z - 24] == 0);
            }
            return false;
        }
        z += 1;
    }
    proof {
        assert forall|k: int| 0 <= k < 20 implies b@.subrange(24, 44)[k]
            == spec_ext_header()[k] by {
            assert(b@.subrange(24, 44)[k] == b@[24 + k]);
        }
        assert(b@.subrange(24, 44) =~= spec_ext_header());
    }
    true
}

/// Decodes a whole pack image.  Succeeds exactly when the spec decoder
/// does, and then holds exactly the decoded pack, with no cache filled.
#[verifier::rlimit(100)]
#[verifier::spinoff_prover]
pub fn decode_pack(b: &[u8]) -> (r: Result<PackFile, RpfmError>)
    ensures
        match r {
            Ok(p) => sdec_pack(b@) == Ok::<PackV, RpfmError>(pack_view(p)) && pack_caches_wf(p),
            Err(e) => sdec_pack(b@) == Err::<PackV, RpfmError>(e),
        },
{
    let version = match parse_magic(b) {
        Ok(v) => v,
        Err(e) => {
            return Err(e);
        },
    };
    let len = b.len();
    if len < 24 {
        return Err(RpfmError::TruncatedIndex);
    }
    let ftcode = read_u32(b, 4);
    let flagsword = read_u32(b, 8);
    let count32 = read_u32(b, 12);
    let index_size32 = read_u32(b, 16);
    let ts = read_u32(b, 20);
    if flagsword & 0xFFFFFFF0 != 0 {
        return Err(RpfmError::FormatError);
    }
    let file_type = if ftcode == 0 {
        PFHFileType::Boot
    } else if ftcode == 1 {
        PFHFileType::Release
    } else if ftcode == 2 {
        PFHFileType::Patch
    } else if ftcode == 3 {
        PFHFileType::Mod
    } else if ftcode == 4 {
        PFHFileType::Movie
    } else {
        PFHFileType::Other(ftcode)
    };
    let flags = PFHFlags {
        has_encrypted_data: flagsword & 1 == 1,
        has_index_with_timestamps: flagsword & 2 == 2,
        has_encrypted_index: flagsword & 4 == 4,
        has_extended_header: flagsword & 8 == 8,
    };
    let hdr: usize = if flags.has_extended_header {
        44
    } else {
        24
    };
    if len < hdr {
        return Err(RpfmError::TruncatedIndex);
    }
    if flags.has_extended_header {
        if !ext_zeros(b) {
            return Err(RpfmError::FormatError);
        }
    }
    let index_size = index_size32 as usize;
    if len - hdr < index_size {
        proof {
            assert(hdr + index_size32 > b@.len());
        }
        return Err(RpfmError::TruncatedIndex);
    }
    let index_stored = vstd::slice::slice_subrange(b, hdr, hdr + index_size);
    let index_plain: Vec<u8> = if flags.has_encrypted_index {
        transform(version, index_stored)
    } else {
        vstd::slice::slice_to_vec(index_stored)
    };
    let records = match decode_index(count32 as usize, flags.has_index_with_timestamps,
        index_plain.as_slice()) {
        Ok(records) => records,
        Err(e) => {
            return Err(e);
        },
    };
    let entries = match decode_payloads(records, b, hdr + index_size) {
        Ok(entries) => entries,
        Err(e) => {
            return Err(e);
        },
    };
    let p = PackFile {
        pfh_version: version,
        pfh_file_type: file_type,
        bitmask: flags,
        timestamp: ts,
        entries,
    };
    proof {
        lemma_entries_view_len(p.entries@);
    }
    Ok(p)
}

/// Appending a segment extends the segment image by its bytes.
proof fn lemma_enc_segs_push(segs: Seq<Seq<char>>, x: Seq<char>)
    ensures
        spec_enc_segs(segs.push(x)) == spec_enc_segs(segs) + spec_str8_bytes(x),
    decreases segs.len(),
{
    if segs.len() == 0 {
        assert(segs.push(x).drop_first() =~= segs);
        assert(spec_enc_segs(segs.push(x)) =~= spec_enc_segs(segs) + spec_str8_bytes(x));
    } else {
        assert(segs.push(x).drop_first() =~= segs.drop_first().push(x));
        lemma_enc_segs_push(segs.drop_first(), x);
        assert(spec_enc_segs(segs.push(x)) =~= spec_enc_segs(segs) + spec_str8_bytes(x));
    }
}

/// Appending an entry extends the index image by its record bytes.
proof fn lemma_enc_index_push(entries: Seq<EntryV>, e: EntryV, with_ts: bool)
    ensures
        spec_enc_index(entries.push(e), with_ts) == spec_enc_index(entries, with_ts)
            + spec_enc_record(e, with_ts),
    decreases entries.len(),
{
    if entries.len() == 0 {
        assert(entries.push(e).drop_first() =~= entries);
        assert(spec_enc_index(entries.push(e), with_ts) =~= spec_enc_index(entries, with_ts)
            + spec_enc_record(e, with_ts));
    } else {
        assert(entries.push(e).drop_first() =~= entries.drop_first().push(e));
        lemma_enc_index_push(entries.drop_first(), e, with_ts);
        assert(spec_enc_index(entries.push(e), with_ts) =~= spec_enc_index(entries, with_ts)
            + spec_enc_record(e, with_ts));
    }
}

/// Appending an entry extends the payload image by its bytes.
proof fn lemma_enc_payloads_push(entries: Seq<EntryV>, e: EntryV)
    ensures
        spec_enc_payloads(entries.push(e)) == spec_enc_payloads(entries) + e.data,
    decreases entries.len(),
{
    if entries.len() == 0 {
        assert(entries.push(e).drop_first() =~= entries);
        assert(spec_enc_payloads(entries.push(e)) =~= spec_enc_payloads(entries) + e.data);
    } else {
        assert(entries.push(e).drop_first() =~= entries.drop_first().push(e));
        lemma_enc_payloads_push(entries.drop_first(), e);
        assert(spec_enc_payloads(entries.push(e)) =~= spec_enc_payloads(entries) + e.data);
    }
}

/// Appends the byte image of one path.
fn encode_path(path: &Vec<String>, out: &mut Vec<u8>) -> (r: Result<(), RpfmError>)
    ensures
        match r {
            Ok(_) => {
                &&& path_view(path@).len() <= 0xFFFF
                &&& forall|i: int|
                    0 <= i < path@.len() ==> encode_utf8(path_view(path@)[i]).len() <= 0xFFFF
                &&& final(out)@ == old(out)@ + spec_enc_path(path_view(path@))
            },
            Err(e) => e == RpfmError::EncodeError && old(out)@.is_prefix_of(final(out)@) && !(
            path_view(path@).len() <= 0xFFFF && forall|i: int|
                0 <= i < path@.len() ==> encode_utf8(path_view(path@)[i]).len() <= 0xFFFF),
        },
{
    proof {
        lemma_path_view_len(path@);
    }
    if path.len() > 0xFFFF {
        return Err(RpfmError::EncodeError);
    }
    write_u16(out, path.len() as u16);
    let ghost base = out@;
    let mut i: usize = 0;
    proof {
        assert(base + spec_enc_segs(path_view(path@).subrange(0, 0)) =~= base);
    }
    while i < path.len()
        invariant
            base == old(out)@ + spec_u16_to_le_bytes(path@.len() as u16),
            i <= path@.len(),
            path_view(path@).len() == path@.len(),
            forall|k: int| 0 <= k < path@.len() ==> path_view(path@)[k] == (#[trigger] path@[k])@,
            out@ == base + spec_enc_segs(path_view(path@).subrange(0, i as int)),
            forall|k: int| 0 <= k < i ==> encode_utf8(path_view(path@)[k]).len() <= 0xFFFF,
        decreases path@.len() - i,
    {
        let ghost prefix = path_view(path@).subrange(0, i as int);
        match encode_str8(path[i].as_str(), out) {
            Ok(_) => {},
            Err(e) => {
                proof {
                    assert(encode_utf8(path_view(path@)[i as int]).len() > 0xFFFF);
                    assert(old(out)@.is_prefix_of(base));
                    assert(base.is_prefix_of(out@));
                }
                return Err(e);
            },
        }
        proof {
            lemma_enc_segs_push(prefix, path_view(path@)[i as int]);
            assert(prefix.push(path_view(path@)[i as int]) =~= path_view(path@).subrange(
                0,
                i + 1,
            ));
        }
        i += 1;
    }
    proof {
        assert(path_view(path@).subrange(0, path@.len() as int) =~= path_view(path@));
        assert(final(out)@ =~= old(out)@ + spec_enc_path(path_view(path@)));
    }
    Ok(())
}

/// Appends the byte image of one index record.
fn encode_record(e: &Entry, with_ts: bool, out: &mut Vec<u8>) -> (r: Result<(), RpfmError>)
    ensures
        match r {
            Ok(_) => entry_wf(entry_view(*e)) && final(out)@ == old(out)@ + spec_enc_record(
                entry_view(*e),
                with_ts,
            ),
            Err(err) => err == RpfmError::EncodeError && old(out)@.is_prefix_of(final(out)@)
                && !entry_wf(entry_view(*e)),
        },
{
    if e.data.len() as u64 > 0xFFFFFFFFu64 {
        return Err(RpfmError::EncodeError);
    }
    write_u32(out, e.data.len() as u32);
    if with_ts {
        write_u32(out, e.timestamp);
    }
    let fl: u8 = (if e.is_compressed {
        1u8
    } else {
        0u8
    }) | (if e.is_encrypted {
        2u8
    } else {
        0u8
    });
    out.push(fl);
    let r = encode_path(&e.path, out);
    proof {
        lemma_path_view_len(e.path@);
        if r is Ok {
            assert(final(out)@ =~= old(out)@ + spec_enc_record(entry_view(*e), with_ts));
            assert(entry_wf(entry_view(*e)));
        } else {
            assert(old(out)@.is_prefix_of(final(out)@));
        }
    }
    r
}

/// Appends the whole index image.
fn encode_index(entries: &Vec<Entry>, with_ts: bool, out: &mut Vec<u8>) -> (r: Result<
    (),
    RpfmError,
>)
    ensures
        match r {
            Ok(_) => entries_wf(entries_view(entries@)) && final(out)@ == old(out)@
                + spec_enc_index(entries_view(entries@), with_ts),
            Err(e) => e == RpfmError::EncodeError && old(out)@.is_prefix_of(final(out)@)
                && !entries_wf(entries_view(entries@)),
        },
{
    proof {
        lemma_entries_view_len(entries@);
    }
    let ghost base = out@;
    let mut i: usize = 0;
    proof {
        assert(base + spec_enc_index(entries_view(entries@).subrange(0, 0), with_ts) =~= base);
    }
    while i < entries.len()
        invariant
            base == old(out)@,
            i <= entries@.len(),
            entries_view(entries@).len() == entries@.len(),
            forall|k: int|
                0 <= k < entries@.len() ==> entries_view(entries@)[k] == entry_view(
                    #[trigger] entries@[k],
                ),
            out@ == base + spec_enc_index(entries_view(entries@).subrange(0, i as int), with_ts),
            forall|k: int| 0 <= k < i ==> entry_wf(#[trigger] entries_view(entries@)[k]),
        decreases entries@.len() - i,
    {
        let ghost prefix = entries_view(entries@).subrange(0, i as int);
        match encode_record(&entries[i], with_ts, out) {
            Ok(_) => {},
            Err(e) => {
                proof {
                    assert(!entry_wf(entries_view(entries@)[i as int]));
                    assert(base.is_prefix_of(out@));
                }
                return Err(e);
            },
        }
        proof {
            lemma_enc_index_push(prefix, entries_view(entries@)[i as int], with_ts);
            assert(prefix.push(entries_view(entries@)[i as int]) =~= entries_view(
                entries@,
            ).subrange(0, i + 1));
        }
        i += 1;
    }
    proof {
        assert(entries_view(entries@).subrange(0, entries@.len() as int) =~= entries_view(
            entries@,
        ));
    }
    Ok(())
}

/// Appends every stored payload in order.
fn encode_payloads(entries: &Vec<Entry>, out: &mut Vec<u8>)
    ensures
        final(out)@ == old(out)@ + spec_enc_payloads(entries_view(entries@)),
{
    proof {
        lemma_entries_view_len(entries@);
    }
    let ghost base = out@;
    let mut i: usize = 0;
    proof {
        assert(base + spec_enc_payloads(entries_view(entries@).subrange(0, 0)) =~= base);
    }
    while i < entries.len()
        invariant
            base == old(out)@,
            i <= entries@.len(),
            entries_view(entries@).len() == entries@.len(),
            forall|k: int|
                0 <= k < entries@.len() ==> entries_view(entries@)[k] == entry_view(
                    #[trigger] entries@[k],
                ),
            out@ == base + spec_enc_payloads(entries_view(entries@).subrange(0, i as int)),
        decreases entries@.len() - i,
    {
        let ghost prefix = entries_view(entries@).subrange(0, i as int);
        out.extend_from_slice(entries[i].data.as_slice());
        proof {
            lemma_enc_payloads_push(prefix, entries_view(entries@)[i as int]);
            assert(prefix.push(entries_view(entries@)[i as int]) =~= entries_view(
                entries@,
            ).subrange(0, i + 1));
            assert(out@ =~= base + spec_enc_payloads(entries_view(entries@).subrange(0, i + 1)));
        }
        i += 1;
    }
    proof {
        assert(entries_view(entries@).subrange(0, entries@.len() as int) =~= entries_view(
            entries@,
        ));
    }
}

impl PackFile {
    /// A fresh, empty pack of the given version and role.
    pub fn new(version: PFHVersion, file_type: PFHFileType) -> (p: PackFile)
        ensures
            pack_view(p) == (PackV {
                pfh_version: version,
                pfh_file_type: file_type,
                bitmask: PFHFlags {
                    has_encrypted_data: false,
                    has_index_with_timestamps: false,
                    has_encrypted_index: false,
                    has_extended_header: false,
                },
                timestamp: 0,
                entries: Seq::<EntryV>::empty(),
            }),
            pack_caches_wf(p),
    {
        let p = PackFile {
            pfh_version: version,
            pfh_file_type: file_type,
            bitmask: PFHFlags {
                has_encrypted_data: false,
                has_index_with_timestamps: false,
                has_encrypted_index: false,
                has_extended_header: false,
            },
            timestamp: 0,
            entries: Vec::new(),
        };
        proof {
            assert(entries_view(p.entries@) =~= Seq::<EntryV>::empty());
        }
        p
    }

    /// The byte image of this pack: what a save writes.  Succeeds exactly
    /// when the pack fits the encoding, and then re-reading the bytes gives
    /// this pack back (`lemma_pack_round_trip_from_pack`).
    pub fn save(&self) -> (r: Result<Vec<u8>, RpfmError>)
        ensures
            match r {
                Ok(bytes) => pack_wf(pack_view(*self)) && bytes@ == spec_enc_pack(
                    pack_view(*self),
                ),
                Err(e) => e == RpfmError::EncodeError && !pack_wf(pack_view(*self)),
            },
    {
        let with_ts = self.bitmask.has_index_with_timestamps;
        let mut index_plain: Vec<u8> = Vec::new();
        match encode_index(&self.entries, with_ts, &mut index_plain) {
            Ok(_) => {},
            Err(e) => {
                return Err(e);
            },
        }
        proof {
            assert(Seq::<u8>::empty() + spec_enc_index(entries_view(self.entries@), with_ts)
                =~= spec_enc_index(entries_view(self.entries@), with_ts));
        }
        if index_plain.len() as u64 > 0xFFFFFFFFu64 {
            return Err(RpfmError::EncodeError);
        }
        proof {
            lemma_entries_view_len(self.entries@);
        }
        if self.entries.len() as u64 > 0xFFFFFFFFu64 {
            return Err(RpfmError::EncodeError);
        }
        if !file_type_fits(&self.pfh_file_type) {
            return Err(RpfmError::EncodeError);
        }
        let mut out: Vec<u8> = Vec::new();
        let magic: [u8; 4] = match self.pfh_version {
            PFHVersion::PFH0 => [0x50, 0x46, 0x48, 0x30],
            PFHVersion::PFH2 => [0x50, 0x46, 0x48, 0x32],
            PFHVersion::PFH3 => [0x50, 0x46, 0x48, 0x33],
            PFHVersion::PFH4 => [0x50, 0x46, 0x48, 0x34],
            PFHVersion::PFH5 => [0x50, 0x46, 0x48, 0x35],
            PFHVersion::PFH6 => [0x50, 0x46, 0x48, 0x36],
        };
        out.push(magic[0]);
        out.push(magic[1]);
        out.push(magic[2]);
        out.push(magic[3]);
        proof {
            assert(out@ =~= spec_magic(self.pfh_version));
        }
        let ftcode: u32 = match self.pfh_file_type {
            PFHFileType::Boot => 0,
            PFHFileType::Release => 1,
            PFHFileType::Patch => 2,
            PFHFileType::Mod => 3,
            PFHFileType::Movie => 4,
            PFHFileType::Other(n) => n,
        };
        write_u32(&mut out, ftcode);
        let flagsword: u32 = (if self.bitmask.has_encrypted_data {
            1u32
        } else {
            0u32
        }) | (if self.bitmask.has_index_with_timestamps {
            2u32
        } else {
            0u32
        }) | (if self.bitmask.has_encrypted_index {
            4u32
        } else {
            0u32
        }) | (if self.bitmask.has_extended_header {
            8u32
        } else {
            0u32
        });
        write_u32(&mut out, flagsword);
        write_u32(&mut out, self.entries.len() as u32);
        write_u32(&mut out, index_plain.len() as u32);
        write_u32(&mut out, self.timestamp);
        if self.bitmask.has_extended_header {
            let mut z: usize = 0;
            let ghost mid = out@;
            while z < 20
                invariant
                    z <= 20,
                    out@ == mid + spec_ext_header().subrange(0, z as int),
                decreases 20 - z,
            {
                out.push(0);
                proof {
                    assert(out@ =~= mid + spec_ext_header().subrange(0, z + 1));
                }
                z += 1;
            }
            proof {
                assert(spec_ext_header().subrange(0, 20) =~= spec_ext_header());
            }
        }
        let mut index_stored: Vec<u8> = if self.bitmask.has_encrypted_index {
            transform(self.pfh_version, index_plain.as_slice())
        } else {
            index_plain
        };
        out.append(&mut index_stored);
        encode_payloads(&self.entries, &mut out);
        proof {
            assert(out@ =~= spec_enc_pack(pack_view(*self)));
        }
        Ok(out)
    }
}

/// Whether a file type's word survives the round trip: `Other` is only for
/// words past the named roles.
fn file_type_fits(t: &PFHFileType) -> (r: bool)
    ensures
        r == file_type_wf(*t),
{
    match t {
        PFHFileType::Other(n) => *n > 4,
        _ => true,
    }
}


/// Replacing at the first matching index, or appending, is what
/// [`spec_upsert`] yields.
proof fn lemma_upsert_at(entries: Seq<EntryV>, e: EntryV, k: int)
    requires
        0 <= k <= entries.len(),
        forall|j: int| 0 <= j < k ==> (#[trigger] entries[j]).path != e.path,
        k < entries.len() ==> entries[k].path == e.path,
    ensures
        k < entries.len() ==> spec_upsert(entries, e) == entries.update(k, e),
        k == entries.len() ==> spec_upsert(entries, e) == entries.push(e),
    decreases k,
{
    if k == 0 {
        if entries.len() == 0 {
            assert(spec_upsert(entries, e) =~= entries.push(e));
        } else if entries[0].path == e.path {
            assert(seq![e] + entries.drop_first() =~= entries.update(0, e));
        }
    } else {
        lemma_upsert_at(entries.drop_first(), e, k - 1);
        assert(forall|j: int|
            0 <= j < entries.len() - 1 ==> entries.drop_first()[j] == #[trigger] entries[j + 1]);
        if k < entries.len() {
            assert(seq![entries[0]] + spec_upsert(entries.drop_first(), e) =~= entries.update(
                k,
                e,
            ));
        } else {
            assert(seq![entries[0]] + spec_upsert(entries.drop_first(), e) =~= entries.push(e));
        }
    }
}

/// Deleting the first entry at a path.
pub open spec fn spec_delete(entries: Seq<EntryV>, path: Seq<Seq<char>>) -> Seq<EntryV>
    decreases entries.len(),
{
    if entries.len() == 0 {
        entries
    } else if entries[0].path == path {
        entries.drop_first()
    } else {
        seq![entries[0]] + spec_delete(entries.drop_first(), path)
    }
}

/// Removing at the first matching index is what [`spec_delete`] yields.
proof fn lemma_delete_at(entries: Seq<EntryV>, path: Seq<Seq<char>>, k: int)
    requires
        0 <= k <= entries.len(),
        forall|j: int| 0 <= j < k ==> (#[trigger] entries[j]).path != path,
        k < entries.len() ==> entries[k].path == path,
    ensures
        k < entries.len() ==> spec_delete(entries, path) == entries.remove(k),
        k == entries.len() ==> spec_delete(entries, path) == entries,
    decreases k,
{
    if k == 0 {
        if entries.len() > 0 && entries[0].path == path {
            assert(entries.drop_first() =~= entries.remove(0));
        }
    } else {
        lemma_delete_at(entries.drop_first(), path, k - 1);
        assert(forall|j: int|
            0 <= j < entries.len() - 1 ==> entries.drop_first()[j] == #[trigger] entries[j + 1]);
        if k < entries.len() {
            assert(seq![entries[0]] + spec_delete(entries.drop_first(), path) =~= entries.remove(
                k,
            ));
        } else {
            assert(seq![entries[0]] + spec_delete(entries.drop_first(), path) =~= entries);
        }
    }
}

/// The first entry at a path sits at the first matching index.
proof fn lemma_lookup_at(entries: Seq<EntryV>, path: Seq<Seq<char>>, k: int)
    requires
        0 <= k < entries.len(),
        entries[k].path == path,
        forall|j: int| 0 <= j < k ==> (#[trigger] entries[j]).path != path,
    ensures
        spec_lookup(entries, path) == Some(entries[k]),
    decreases k,
{
    if k > 0 {
        lemma_lookup_at(entries.drop_first(), path, k - 1);
        assert(forall|j: int|
            0 <= j < entries.len() - 1 ==> entries.drop_first()[j] == #[trigger] entries[j + 1]);
    }
}

/// With no matching index there is no entry to find.
proof fn lemma_lookup_miss(entries: Seq<EntryV>, path: Seq<Seq<char>>)
    requires
        forall|j: int| 0 <= j < entries.len() ==> (#[trigger] entries[j]).path != path,
    ensures
        spec_lookup(entries, path) is None,
    decreases entries.len(),
{
    if entries.len() > 0 {
        lemma_lookup_miss(entries.drop_first(), path);
    }
}

/// The entry-list view after an update in place.
proof fn lemma_entries_view_update(before: Seq<Entry>, after: Seq<Entry>, k: int)
    requires
        0 <= k < before.len(),
        after.len() == before.len(),
        forall|j: int| 0 <= j < before.len() && j != k ==> after[j] == #[trigger] before[j],
    ensures
        entries_view(after) == entries_view(before).update(k, entry_view(after[k])),
{
    lemma_entries_view_len(before);
    lemma_entries_view_len(after);
    assert forall|j: int| 0 <= j < after.len() implies entries_view(after)[j] == entries_view(
        before,
    ).update(k, entry_view(after[k]))[j] by {
        assert(entries_view(after)[j] == entry_view(after[j]));
        if j != k {
            assert(after[j] == before[j]);
            assert(entries_view(before)[j] == entry_view(before[j]));
        }
    }
    assert(entries_view(after) =~= entries_view(before).update(k, entry_view(after[k])));
}

/// The entry-list view after a removal.
proof fn lemma_entries_view_remove(before: Seq<Entry>, after: Seq<Entry>, k: int)
    requires
        0 <= k < before.len(),
        after == before.remove(k),
    ensures
        entries_view(after) == entries_view(before).remove(k),
{
    lemma_entries_view_len(before);
    lemma_entries_view_len(after);
    before.remove_ensures(k);
    entries_view(before).remove_ensures(k);
    assert forall|j: int| 0 <= j < after.len() implies entries_view(after)[j] == entries_view(
        before,
    ).remove(k)[j] by {
        assert(entries_view(after)[j] == entry_view(after[j]));
        if j < k {
            assert(after[j] == before[j]);
            assert(entries_view(before)[j] == entry_view(before[j]));
        } else {
            assert(after[j] == before[j + 1]);
            assert(entries_view(before)[j + 1] == entry_view(before[j + 1]));
        }
    }
    assert(entries_view(after) =~= entries_view(before).remove(k));
}

/// Folding one more entry is one more upsert.
proof fn lemma_merge_push(acc: Seq<EntryV>, more: Seq<EntryV>, e: EntryV)
    ensures
        spec_merge_entries(acc, more.push(e)) == spec_upsert(spec_merge_entries(acc, more), e),
    decreases more.len(),
{
    if more.len() == 0 {
        assert(more.push(e)[0] == e);
        assert(more.push(e).drop_first() =~= Seq::<EntryV>::empty());
        assert(spec_merge_entries(acc, more.push(e)) == spec_merge_entries(
            spec_upsert(acc, e),
            more.push(e).drop_first(),
        ));
        assert(spec_merge_entries(spec_upsert(acc, e), Seq::<EntryV>::empty()) == spec_upsert(
            acc,
            e,
        ));
        assert(spec_merge_entries(acc, more) == acc);
    } else {
        assert(more.push(e)[0] == more[0]);
        assert(more.push(e).drop_first() =~= more.drop_first().push(e));
        lemma_merge_push(spec_upsert(acc, more[0]), more.drop_first(), e);
        assert(spec_merge_entries(acc, more.push(e)) == spec_merge_entries(
            spec_upsert(acc, more[0]),
            more.drop_first().push(e),
        ));
        assert(spec_merge_entries(acc, more) == spec_merge_entries(
            spec_upsert(acc, more[0]),
            more.drop_first(),
        ));
    }
}

/// Whether two paths name the same logical entry.
pub fn paths_equal(a: &Vec<String>, b: &Vec<String>) -> (r: bool)
    ensures
        r == (path_view(a@) == path_view(b@)),
{
    proof {
        lemma_path_view_len(a@);
        lemma_path_view_len(b@);
    }
    if a.len() != b.len() {
        proof {
            assert(path_view(a@).len() != path_view(b@).len());
        }
        return false;
    }
    let mut i: usize = 0;
    while i < a.len()
        invariant
            i <= a@.len(),
            a@.len() == b@.len(),
            path_view(a@).len() == a@.len(),
            path_view(b@).len() == b@.len(),
            forall|k: int| 0 <= k < a@.len() ==> path_view(a@)[k] == (#[trigger] a@[k])@,
            forall|k: int| 0 <= k < b@.len() ==> path_view(b@)[k] == (#[trigger] b@[k])@,
            forall|k: int| 0 <= k < i ==> (#[trigger] a@[k])@ == b@[k]@,
        decreases a@.len() - i,
    {
        if !(a[i] == b[i]) {
            proof {
                assert(path_view(a@)[i as int] != path_view(b@)[i as int]);
            }
            return false;
        }
        i += 1;
    }
    proof {
        assert forall|k: int| 0 <= k < a@.len() implies path_view(a@)[k] == path_view(b@)[k] by {
            assert((a@[k])@ == (b@[k])@);
        }
        assert(path_view(a@) =~= path_view(b@));
    }
    true
}

/// Whether two byte payloads are identical.
pub fn bytes_equal(a: &Vec<u8>, b: &Vec<u8>) -> (r: bool)
    ensures
        r == (a@ == b@),
{
    if a.len() != b.len() {
        proof {
            assert(a@.len() != b@.len());
        }
        return false;
    }
    let mut i: usize = 0;
    while i < a.len()
        invariant
            i <= a@.len(),
            a@.len() == b@.len(),
            forall|k: int| 0 <= k < i ==> a@[k] == b@[k],
        decreases a@.len() - i,
    {
        if a[i] != b[i] {
            return false;
        }
        i += 1;
    }
    proof {
        assert(a@ =~= b@);
    }
    true
}

impl PackFile {
    /// The first index holding the path, scanning in order.
    fn find_entry_index(&self, path: &Vec<String>) -> (r: Option<usize>)
        ensures
            match r {
                Some(k) => {
                    &&& k < self.entries@.len()
                    &&& entries_view(self.entries@)[k as int].path == path_view(path@)
                    &&& forall|j: int|
                        0 <= j < k ==> (#[trigger] entries_view(self.entries@)[j]).path
                            != path_view(path@)
                },
                None => forall|j: int|
                    0 <= j < self.entries@.len() ==> (#[trigger] entries_view(
                        self.entries@,
                    )[j]).path != path_view(path@),
            },
    {
        proof {
            lemma_entries_view_len(self.entries@);
        }
        let mut i: usize = 0;
        while i < self.entries.len()
            invariant
                i <= self.entries@.len(),
                entries_view(self.entries@).len() == self.entries@.len(),
                forall|k: int|
                    0 <= k < self.entries@.len() ==> entries_view(self.entries@)[k] == entry_view(
                        #[trigger] self.entries@[k],
                    ),
                forall|j: int|
                    0 <= j < i ==> (#[trigger] entries_view(self.entries@)[j]).path != path_view(
                        path@,
                    ),
            decreases self.entries@.len() - i,
        {
            if paths_equal(&self.entries[i].path, path) {
                return Some(i);
            }
            i += 1;
        }
        None
    }

    /// The first entry at the path, read-only.
    pub fn get_entry(&self, path: &Vec<String>) -> (r: Option<&Entry>)
        ensures
            match r {
                Some(e) => spec_lookup(entries_view(self.entries@), path_view(path@)) == Some(
                    entry_view(*e),
                ),
                None => spec_lookup(entries_view(self.entries@), path_view(path@)) is None,
            },
    {
        proof {
            lemma_entries_view_len(self.entries@);
        }
        match self.find_entry_index(path) {
            Some(k) => {
                proof {
                    lemma_lookup_at(entries_view(self.entries@), path_view(path@), k as int);
                }
                Some(&self.entries[k])
            },
            None => {
                proof {
                    lemma_lookup_miss(entries_view(self.entries@), path_view(path@));
                }
                None
            },
        }
    }

    /// Stores an entry: replaces the first entry at its path, or appends.
    pub fn put_entry(&mut self, e: Entry)
        requires
            entry_cache_wf(e, old(self).pfh_version),
            pack_caches_wf(*old(self)),
        ensures
            final(self).pfh_version == old(self).pfh_version,
            final(self).pfh_file_type == old(self).pfh_file_type,
            final(self).bitmask == old(self).bitmask,
            final(self).timestamp == old(self).timestamp,
            entries_view(final(self).entries@) == spec_upsert(
                entries_view(old(self).entries@),
                entry_view(e),
            ),
            pack_caches_wf(*final(self)),
    {
        proof {
            lemma_entries_view_len(self.entries@);
        }
        let ghost oldv = entries_view(self.entries@);
        match self.find_entry_index(&e.path) {
            Some(k) => {
                proof {
                    lemma_upsert_at(oldv, entry_view(e), k as int);
                }
                self.entries.set(k, e);
                proof {
                    lemma_entries_view_update(old(self).entries@, self.entries@, k as int);
                }
            },
            None => {
                proof {
                    lemma_upsert_at(oldv, entry_view(e), oldv.len() as int);
                }
                self.entries.push(e);
                proof {
                    assert(self.entries@.drop_last() =~= old(self).entries@);
                    lemma_entries_view_len(self.entries@);
                }
            },
        }
        proof {
            lemma_entries_view_len(self.entries@);
        }
    }

    /// Removes the first entry at the path; reports whether one was there.
    pub fn delete_entry(&mut self, path: &Vec<String>) -> (r: bool)
        requires
            pack_caches_wf(*old(self)),
        ensures
            final(self).pfh_version == old(self).pfh_version,
            final(self).pfh_file_type == old(self).pfh_file_type,
            final(self).bitmask == old(self).bitmask,
            final(self).timestamp == old(self).timestamp,
            entries_view(final(self).entries@) == spec_delete(
                entries_view(old(self).entries@),
                path_view(path@),
            ),
            r == (spec_lookup(entries_view(old(self).entries@), path_view(path@)) is Some),
            pack_caches_wf(*final(self)),
    {
        proof {
            lemma_entries_view_len(self.entries@);
        }
        let ghost oldv = entries_view(self.entries@);
        match self.find_entry_index(path) {
            Some(k) => {
                proof {
                    lemma_delete_at(oldv, path_view(path@), k as int);
                    lemma_lookup_at(oldv, path_view(path@), k as int);
                }
                self.entries.remove(k);
                proof {
                    lemma_entries_view_remove(old(self).entries@, self.entries@, k as int);
                    lemma_entries_view_len(self.entries@);
                }
                true
            },
            None => {
                proof {
                    lemma_delete_at(oldv, path_view(path@), oldv.len() as int);
                    lemma_lookup_miss(oldv, path_view(path@));
                }
                false
            },
        }
    }

    /// Removes every entry whose path and bytes match a reference entry,
    /// keeping everything else: the optimize pass against vanilla data.
    /// `lemma_optimize_keeps_exactly_non_vanilla` states what survives.
    pub fn optimize(&mut self, reference: &PackFile)
        requires
            pack_caches_wf(*old(self)),
        ensures
            final(self).pfh_version == old(self).pfh_version,
            final(self).pfh_file_type == old(self).pfh_file_type,
            final(self).bitmask == old(self).bitmask,
            final(self).timestamp == old(self).timestamp,
            entries_view(final(self).entries@) == spec_optimized(
                entries_view(old(self).entries@),
                entries_view(reference.entries@),
            ),
            pack_caches_wf(*final(self)),
    {
        proof {
            lemma_entries_view_len(self.entries@);
            lemma_entries_view_len(reference.entries@);
        }
        let ghost oldv = entries_view(self.entries@);
        let ghost refv = entries_view(reference.entries@);
        let mut kept: Vec<Entry> = Vec::new();
        let mut i: usize = 0;
        proof {
            lemma_entries_view_len(kept@);
            assert(entries_view(kept@) =~= Seq::<EntryV>::empty());
            assert(oldv.subrange(0, oldv.len() as int) =~= oldv);
            assert(Seq::<EntryV>::empty() + spec_optimized(oldv, refv) =~= spec_optimized(
                oldv,
                refv,
            ));
        }
        while i < self.entries.len()
            invariant
                i <= self.entries@.len(),
                oldv == entries_view(self.entries@),
                refv == entries_view(reference.entries@),
                oldv.len() == self.entries@.len(),
                forall|k: int|
                    0 <= k < self.entries@.len() ==> oldv[k] == entry_view(
                        #[trigger] self.entries@[k],
                    ),
                forall|k: int| 0 <= k < kept@.len() ==> (#[trigger] kept@[k]).cache is None,
                self.entries@ == old(self).entries@,
                spec_optimized(oldv, refv) == entries_view(kept@) + spec_optimized(
                    oldv.subrange(i as int, oldv.len() as int),
                    refv,
                ),
            decreases self.entries@.len() - i,
        {
            let ghost keptv = entries_view(kept@);
            let ghost rem = oldv.subrange(i as int, oldv.len() as int);
            proof {
                assert(rem[0] == oldv[i as int]);
                assert(rem.drop_first() =~= oldv.subrange(i + 1, oldv.len() as int));
            }
            let vanilla = self.entry_is_vanilla(i, reference);
            if !vanilla {
                let e = self.clone_entry(i);
                proof {
                    assert(kept@.push(e).drop_last() =~= kept@);
                }
                kept.push(e);
                proof {
                    lemma_entries_view_len(kept@);
                    assert(keptv + (seq![entry_view(e)] + spec_optimized(rem.drop_first(), refv))
                        =~= entries_view(kept@) + spec_optimized(rem.drop_first(), refv));
                }
            }
            i += 1;
        }
        proof {
            assert(oldv.subrange(oldv.len() as int, oldv.len() as int) =~= Seq::<EntryV>::empty());
            assert(entries_view(kept@) + Seq::<EntryV>::empty() =~= entries_view(kept@));
        }
        self.entries = kept;
    }

    /// Whether entry `i` is byte-identical to a reference counterpart.
    fn entry_is_vanilla(&self, i: usize, reference: &PackFile) -> (r: bool)
        requires
            i < self.entries@.len(),
        ensures
            r == spec_is_vanilla(
                entry_view(self.entries@[i as int]),
                entries_view(reference.entries@),
            ),
    {
        proof {
            lemma_entries_view_len(reference.entries@);
        }
        let ghost ev = entry_view(self.entries@[i as int]);
        let ghost refv = entries_view(reference.entries@);
        let mut j: usize = 0;
        while j < reference.entries.len()
            invariant
                i < self.entries@.len(),
                j <= reference.entries@.len(),
                refv == entries_view(reference.entries@),
                refv.len() == reference.entries@.len(),
                forall|k: int|
                    0 <= k < reference.entries@.len() ==> refv[k] == entry_view(
                        #[trigger] reference.entries@[k],
                    ),
                ev == entry_view(self.entries@[i as int]),
                forall|k: int|
                    0 <= k < j ==> !((#[trigger] refv[k]).path == ev.path && refv[k].data
                        == ev.data),
            decreases reference.entries@.len() - j,
        {
            if paths_equal(&reference.entries[j].path, &self.entries[i].path) && bytes_equal(
                &reference.entries[j].data,
                &self.entries[i].data,
            ) {
                return true;
            }
            j += 1;
        }
        false
    }

    /// A copy of entry `i`, with an empty memo.
    fn clone_entry(&self, i: usize) -> (e: Entry)
        requires
            i < self.entries@.len(),
        ensures
            entry_view(e) == entry_view(self.entries@[i as int]),
            e.cache is None,
    {
        let src = &self.entries[i];
        let mut path: Vec<String> = Vec::new();
        let mut k: usize = 0;
        while k < src.path.len()
            invariant
                k <= src.path@.len(),
                path@.len() == k,
                forall|j: int| 0 <= j < k ==> (#[trigger] path@[j])@ == src.path@[j]@,
            decreases src.path@.len() - k,
        {
            path.push(src.path[k].clone());
            k += 1;
        }
        proof {
            lemma_path_view_len(path@);
            lemma_path_view_len(src.path@);
            assert forall|j: int| 0 <= j < path@.len() implies path_view(path@)[j] == path_view(
                src.path@,
            )[j] by {
                assert((path@[j])@ == (src.path@[j])@);
            }
            assert(path_view(path@) =~= path_view(src.path@));
        }
        let mut data: Vec<u8> = Vec::new();
        data.extend_from_slice(src.data.as_slice());
        proof {
            assert(data@ =~= src.data@);
        }
        Entry {
            path,
            data,
            timestamp: src.timestamp,
            is_compressed: src.is_compressed,
            is_encrypted: src.is_encrypted,
            cache: None,
        }
    }

    /// Opens one logical pack from several source images: the first source
    /// gives the header, and the entries of all sources are folded in
    /// order, a later entry replacing an earlier one at the same path
    /// (`lemma_merge_last_wins` says what that leaves).  Fails on an empty
    /// list, or with the first failing source's error.
    pub fn open_merged(sources: &Vec<Vec<u8>>) -> (r: Result<PackFile, RpfmError>)
        ensures
            match r {
                Ok(p) => {
                    &&& sources@.len() > 0
                    &&& forall|i: int|
                        0 <= i < sources@.len() ==> sdec_pack(
                            (#[trigger] sources@[i])@,
                        ) is Ok
                    &&& p.pfh_version == sdec_pack(sources@[0]@)->Ok_0.pfh_version
                    &&& p.pfh_file_type == sdec_pack(sources@[0]@)->Ok_0.pfh_file_type
                    &&& p.bitmask == sdec_pack(sources@[0]@)->Ok_0.bitmask
                    &&& p.timestamp == sdec_pack(sources@[0]@)->Ok_0.timestamp
                    &&& entries_view(p.entries@) == spec_merge_sources(
                        sources@,
                        sources@.len() as int,
                    )
                    &&& pack_caches_wf(p)
                },
                Err(e) => {
                    ||| (sources@.len() == 0 && e == RpfmError::FormatError)
                    ||| exists|i: int|
                        0 <= i < sources@.len() && sdec_pack((#[trigger] sources@[i])@) == Err::<
                            PackV,
                            RpfmError,
                        >(e) && (forall|j: int|
                            0 <= j < i ==> sdec_pack((#[trigger] sources@[j])@) is Ok)
                },
            },
    {
        if sources.len() == 0 {
            return Err(RpfmError::FormatError);
        }
        let first = match decode_pack(sources[0].as_slice()) {
            Ok(p) => p,
            Err(e) => {
                return Err(e);
            },
        };
        let mut pack = PackFile {
            pfh_version: first.pfh_version,
            pfh_file_type: first.pfh_file_type,
            bitmask: first.bitmask,
            timestamp: first.timestamp,
            entries: Vec::new(),
        };
        proof {
            assert(entries_view(pack.entries@) =~= Seq::<EntryV>::empty());
        }
        let mut i: usize = 0;
        while i < sources.len()
            invariant
                i <= sources@.len(),
                sources@.len() > 0,
                sdec_pack(sources@[0]@) is Ok,
                forall|j: int| 0 <= j < i ==> sdec_pack((#[trigger] sources@[j])@) is Ok,
                pack.pfh_version == sdec_pack(sources@[0]@)->Ok_0.pfh_version,
                pack.pfh_file_type == sdec_pack(sources@[0]@)->Ok_0.pfh_file_type,
                pack.bitmask == sdec_pack(sources@[0]@)->Ok_0.bitmask,
                pack.timestamp == sdec_pack(sources@[0]@)->Ok_0.timestamp,
                entries_view(pack.entries@) == spec_merge_sources(sources@, i as int),
                pack_caches_wf(pack),
            decreases sources@.len() - i,
        {
            let src = match decode_pack(sources[i].as_slice()) {
                Ok(p) => p,
                Err(e) => {
                    return Err(e);
                },
            };
            let ghost srcv = entries_view(src.entries@);
            let ghost accv = entries_view(pack.entries@);
            proof {
                lemma_entries_view_len(src.entries@);
                assert(srcv.subrange(0, 0) =~= Seq::<EntryV>::empty());
            }
            let mut k: usize = 0;
            while k < src.entries.len()
                invariant
                    k <= src.entries@.len(),
                    srcv == entries_view(src.entries@),
                    srcv.len() == src.entries@.len(),
                    forall|m: int|
                        0 <= m < src.entries@.len() ==> srcv[m] == entry_view(
                            #[trigger] src.entries@[m],
                        ),
                    entries_view(pack.entries@) == spec_merge_entries(
                        accv,
                        srcv.subrange(0, k as int),
                    ),
                    pack.pfh_version == sdec_pack(sources@[0]@)->Ok_0.pfh_version,
                    pack.pfh_file_type == sdec_pack(sources@[0]@)->Ok_0.pfh_file_type,
                    pack.bitmask == sdec_pack(sources@[0]@)->Ok_0.bitmask,
                    pack.timestamp == sdec_pack(sources@[0]@)->Ok_0.timestamp,
                    pack_caches_wf(pack),
                decreases src.entries@.len() - k,
            {
                let e = src.clone_entry(k);
                proof {
                    lemma_merge_push(accv, srcv.subrange(0, k as int), srcv[k as int]);
                    assert(srcv.subrange(0, k as int).push(srcv[k as int]) =~= srcv.subrange(
                        0,
                        k + 1,
                    ));
                }
                pack.put_entry(e);
                k += 1;
            }
            proof {
                assert(srcv.subrange(0, srcv.len() as int) =~= srcv);
            }
            i += 1;
        }
        Ok(pack)
    }
}

/// The entries after merging the first `n` sources, in order.
pub open spec fn spec_merge_sources(sources: Seq<Vec<u8>>, n: int) -> Seq<EntryV>
    recommends
        0 <= n <= sources.len(),
        forall|j: int| 0 <= j < n ==> sdec_pack((#[trigger] sources[j])@) is Ok,
    decreases n,
{
    if n <= 0 {
        seq![]
    } else {
        spec_merge_entries(
            spec_merge_sources(sources, n - 1),
            sdec_pack(sources[n - 1]@)->Ok_0.entries,
        )
    }
}
} // verus!
