//! The container codec: round trips, merging, and the optimize pass.

use rpfm_lib::decode_pack;
use rpfm_lib::Entry;
use rpfm_lib::PackFile;
use rpfm_lib::PFHFileType;
use rpfm_lib::PFHVersion;
use rpfm_lib::RpfmError;

fn path(segments: &[&str]) -> Vec<String> {
    segments.iter().map(|s| (*s).to_owned()).collect()
}

fn entry(segments: &[&str], data: &[u8]) -> Entry {
    Entry::new(path(segments), data.to_vec())
}

#[test]
fn empty_pack_round_trips() {
    let pack = PackFile::new(PFHVersion::PFH5, PFHFileType::Mod);
    let bytes = pack.save().unwrap();
    let back = decode_pack(&bytes).unwrap();
    assert_eq!(back.pfh_version, PFHVersion::PFH5);
    assert_eq!(back.pfh_file_type, PFHFileType::Mod);
    assert_eq!(back.entries.len(), 0);
    assert_eq!(back.save().unwrap(), bytes);
}

#[test]
fn pack_with_entries_round_trips() {
    let mut pack = PackFile::new(PFHVersion::PFH4, PFHFileType::Release);
    pack.put_entry(entry(&["db", "units_tables", "data"], b"unit bytes"));
    pack.put_entry(entry(&["text", "readme.txt"], b"hello"));
    let bytes = pack.save().unwrap();
    let back = decode_pack(&bytes).unwrap();
    assert_eq!(back.entries.len(), 2);
    assert_eq!(back.entries[0].path, path(&["db", "units_tables", "data"]));
    assert_eq!(back.entries[0].data, b"unit bytes");
    assert_eq!(back.entries[1].data, b"hello");
    assert_eq!(back.save().unwrap(), bytes);
}

#[test]
fn encrypted_index_round_trips() {
    let mut pack = PackFile::new(PFHVersion::PFH5, PFHFileType::Mod);
    pack.bitmask.has_encrypted_index = true;
    pack.bitmask.has_index_with_timestamps = true;
    let mut e = entry(&["secret", "file"], b"payload");
    e.timestamp = 123456789;
    pack.put_entry(e);
    let bytes = pack.save().unwrap();
    let back = decode_pack(&bytes).unwrap();
    assert_eq!(back.entries.len(), 1);
    assert_eq!(back.entries[0].data, b"payload");
    assert_eq!(back.entries[0].timestamp, 123456789);
    assert_eq!(back.save().unwrap(), bytes);
}

#[test]
fn extended_header_round_trips() {
    let mut pack = PackFile::new(PFHVersion::PFH5, PFHFileType::Other(9));
    pack.bitmask.has_extended_header = true;
    pack.timestamp = 42;
    let bytes = pack.save().unwrap();
    let back = decode_pack(&bytes).unwrap();
    assert_eq!(back.pfh_file_type, PFHFileType::Other(9));
    assert_eq!(back.timestamp, 42);
    assert_eq!(back.save().unwrap(), bytes);
}

#[test]
fn encrypted_entry_materializes_to_plain_bytes() {
    let mut pack = PackFile::new(PFHVersion::PFH5, PFHFileType::Mod);
    let mut e = entry(&["a"], b"plain");
    // Store the payload under the transform, marking the entry encrypted.
    e.data = rpfm_lib::transform(PFHVersion::PFH5, b"plain");
    e.is_encrypted = true;
    pack.put_entry(e);
    let bytes = pack.save().unwrap();
    let mut back = decode_pack(&bytes).unwrap();
    let plain = back.entries[0].materialize(PFHVersion::PFH5).clone();
    assert_eq!(plain, b"plain");
    // A second materialization answers from the memo, byte-identical.
    let plain2 = back.entries[0].materialize(PFHVersion::PFH5).clone();
    assert_eq!(plain, plain2);
}

#[test]
fn bad_magic_is_rejected() {
    match decode_pack(b"NOPE") {
        Err(RpfmError::MagicMismatch) => {}
        _ => panic!("expected MagicMismatch"),
    }
    match decode_pack(b"PF") {
        Err(RpfmError::MagicMismatch) => {}
        _ => panic!("expected MagicMismatch"),
    }
}

#[test]
fn truncated_header_is_rejected() {
    match decode_pack(b"PFH5\x00\x00") {
        Err(RpfmError::TruncatedIndex) => {}
        _ => panic!("expected TruncatedIndex"),
    }
}

#[test]
fn merged_open_takes_last_source_at_same_path() {
    let mut base = PackFile::new(PFHVersion::PFH5, PFHFileType::Release);
    base.put_entry(entry(&["db", "units_tables", "data"], b"base version"));
    base.put_entry(entry(&["base_only"], b"kept"));
    let mut modded = PackFile::new(PFHVersion::PFH5, PFHFileType::Mod);
    modded.put_entry(entry(&["db", "units_tables", "data"], b"mod version"));

    let sources = vec![base.save().unwrap(), modded.save().unwrap()];
    let merged = PackFile::open_merged(&sources).unwrap();
    let p = path(&["db", "units_tables", "data"]);
    let got = merged.get_entry(&p).unwrap();
    assert_eq!(got.data, b"mod version");
    let kept = merged.get_entry(&path(&["base_only"])).unwrap();
    assert_eq!(kept.data, b"kept");
}

#[test]
fn merged_pack_saved_and_reopened_is_unchanged() {
    let mut base = PackFile::new(PFHVersion::PFH5, PFHFileType::Release);
    base.put_entry(entry(&["db", "units_tables", "data"], b"base version"));
    let mut modded = PackFile::new(PFHVersion::PFH5, PFHFileType::Mod);
    modded.put_entry(entry(&["db", "units_tables", "data"], b"mod version"));

    let sources = vec![base.save().unwrap(), modded.save().unwrap()];
    let merged = PackFile::open_merged(&sources).unwrap();
    let saved = merged.save().unwrap();
    let reopened = decode_pack(&saved).unwrap();
    let p = path(&["db", "units_tables", "data"]);
    assert_eq!(reopened.get_entry(&p).unwrap().data, b"mod version");
}

#[test]
fn open_merged_reports_first_failing_source() {
    let good = PackFile::new(PFHVersion::PFH5, PFHFileType::Mod).save().unwrap();
    let sources = vec![good, b"JUNK".to_vec()];
    match PackFile::open_merged(&sources) {
        Err(RpfmError::MagicMismatch) => {}
        _ => panic!("expected MagicMismatch"),
    }
}

#[test]
fn optimize_removes_identical_and_keeps_changed() {
    let mut reference = PackFile::new(PFHVersion::PFH5, PFHFileType::Release);
    reference.put_entry(entry(&["same"], b"identical bytes"));
    reference.put_entry(entry(&["differs"], b"vanilla"));

    let mut pack = PackFile::new(PFHVersion::PFH5, PFHFileType::Mod);
    pack.put_entry(entry(&["same"], b"identical bytes"));
    pack.put_entry(entry(&["differs"], b"changed by one byte!"));
    pack.put_entry(entry(&["new"], b"not in reference"));

    pack.optimize(&reference);
    assert!(pack.get_entry(&path(&["same"])).is_none());
    assert_eq!(pack.get_entry(&path(&["differs"])).unwrap().data, b"changed by one byte!");
    assert_eq!(pack.get_entry(&path(&["new"])).unwrap().data, b"not in reference");
}

#[test]
fn entry_delete_and_replace() {
    let mut pack = PackFile::new(PFHVersion::PFH0, PFHFileType::Boot);
    pack.put_entry(entry(&["a"], b"one"));
    pack.put_entry(entry(&["a"], b"two"));
    assert_eq!(pack.entries.len(), 1);
    assert_eq!(pack.get_entry(&path(&["a"])).unwrap().data, b"two");
    assert!(pack.delete_entry(&path(&["a"])));
    assert!(!pack.delete_entry(&path(&["a"])));
    assert!(pack.get_entry(&path(&["a"])).is_none());
}
