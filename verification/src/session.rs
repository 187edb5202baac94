//! The command boundary: one request in, one response out.
//!
//! The programs around this crate never touch a pack directly; they send a
//! command carrying plain values and receive a single success-with-payload
//! or error-with-reason response.  The session owns at most one open pack
//! at a time.

use crate::dependency::get_reference_data;
use crate::dependency::generate_pak;
use crate::dependency::DependencyData;
use crate::error::RpfmError;
use crate::packfile::decode_pack;
use crate::packfile::entries_view;
use crate::packfile::entry_view;
use crate::packfile::pack_caches_wf;
use crate::packfile::pack_view;
use crate::packfile::path_view;
use crate::packfile::spec_delete;
use crate::packfile::spec_lookup;
use crate::packfile::spec_upsert;
use crate::packfile::Entry;
use crate::packfile::PackFile;
use crate::schema::Definition;
use crate::table::merge_tables;
use crate::table::Table;
use vstd::prelude::*;

verus! {

/// One request from the program around this crate.
pub enum Command {
    /// Open one logical pack from the given source images, merged in
    /// order.
    OpenPackFiles(Vec<Vec<u8>>),
    /// The open pack's byte image, for the caller to write to disk.
    Save,
    /// The stored bytes of the entry at a path.
    GetEntry(Vec<String>),
    /// Stores an entry with the given plain payload at a path.
    PutEntry(Vec<String>, Vec<u8>),
    /// Removes the entry at a path.
    DeleteEntry(Vec<String>),
    /// Per-reference-field lookup tables for a definition, from dependency
    /// tables and currently open tables.
    GetReferenceDataFromDefinition(Definition, Vec<(String, Table)>, Vec<(String, Table)>),
    /// Removes every entry byte-identical to its counterpart in the given
    /// reference pack image.
    Optimize(Vec<u8>),
    /// Concatenates same-definition tables into one.
    MergeTables(Vec<Table>),
    /// The derived reference artifact for the given tables.
    GeneratePak(Vec<(String, Table)>),
}

/// The single response a command yields.
pub enum Response {
    /// The pack was opened; its identity follows.
    PackFileInfo(crate::packfile::PFHVersion, crate::packfile::PFHFileType, crate::packfile::PFHFlags, u32),
    /// The open pack's byte image.
    Saved(Vec<u8>),
    /// The entry's stored bytes, or nothing at that path.
    EntryData(Option<Vec<u8>>),
    /// The entry was stored.
    Stored,
    /// Whether an entry was there to remove.
    Deleted(bool),
    /// The resolver's output.
    ReferenceData(Vec<(usize, DependencyData)>),
    /// The optimize pass ran.
    Optimized,
    /// The merged table.
    Merged(Table),
    /// The reference artifact's bytes.
    Pak(Vec<u8>),
    /// The command failed for the carried reason.
    Error(RpfmError),
}

/// One editing session: at most one open pack.
pub struct Session {
    pub pack: Option<PackFile>,
}

/// True when the open pack's memo caches are sound.
pub open spec fn session_wf(s: Session) -> bool {
    match s.pack {
        Some(p) => pack_caches_wf(p),
        None => true,
    }
}

impl Session {
    /// A session with nothing open.
    pub fn new() -> (s: Session)
        ensures
            s.pack is None,
            session_wf(s),
    {
        Session { pack: None }
    }

    /// Answers one command with exactly one response.  Commands that need
    /// an open pack fail with `NoPackOpen` while none is; an open pack is
    /// replaced by a successful open and left alone by a failed one.
    pub fn process(&mut self, command: Command) -> (r: Response)
        requires
            session_wf(*old(self)),
        ensures
            session_wf(*final(self)),
            match command {
                Command::OpenPackFiles(sources) => (match r {
                    Response::PackFileInfo(v, ft, bm, ts) => {
                        &&& final(self).pack is Some
                        &&& final(self).pack->0.pfh_version == v
                        &&& final(self).pack->0.pfh_file_type == ft
                        &&& final(self).pack->0.bitmask == bm
                        &&& final(self).pack->0.timestamp == ts
                        &&& entries_view(final(self).pack->0.entries@)
                            == crate::packfile::spec_merge_sources(
                            sources@,
                            sources@.len() as int,
                        )
                    },
                    Response::Error(e) => final(self).pack == old(self).pack && ((sources@.len()
                        == 0 && e == RpfmError::FormatError) || exists|i: int|
                        0 <= i < sources@.len() && crate::packfile::sdec_pack(
                            (#[trigger] sources@[i])@,
                        ) == Err::<crate::packfile::PackV, RpfmError>(e)),
                    _ => false,
                }),
                Command::Save => (match r {
                    Response::Saved(bytes) => {
                        &&& old(self).pack is Some
                        &&& crate::packfile::pack_wf(pack_view(old(self).pack->0))
                        &&& bytes@ == crate::packfile::spec_enc_pack(pack_view(old(self).pack->0))
                        &&& final(self).pack == old(self).pack
                    },
                    Response::Error(e) => final(self).pack == old(self).pack && ((old(self).pack
                        is None && e == RpfmError::NoPackOpen) || (old(self).pack is Some && e
                        == RpfmError::EncodeError && !crate::packfile::pack_wf(
                        pack_view(old(self).pack->0),
                    ))),
                    _ => false,
                }),
                Command::GetEntry(path) => final(self).pack == old(self).pack && (match r {
                    Response::EntryData(d) => old(self).pack is Some && (match (
                        d,
                        spec_lookup(
                            entries_view(old(self).pack->0.entries@),
                            path_view(path@),
                        ),
                    ) {
                        (Some(bytes), Some(e)) => bytes@ == e.data,
                        (None, None) => true,
                        _ => false,
                    }),
                    Response::Error(e) => old(self).pack is None && e == RpfmError::NoPackOpen,
                    _ => false,
                }),
                Command::PutEntry(path, data) => (match r {
                    Response::Stored => {
                        &&& old(self).pack is Some
                        &&& final(self).pack is Some
                        &&& entries_view(final(self).pack->0.entries@) == spec_upsert(
                            entries_view(old(self).pack->0.entries@),
                            entry_view(
                                Entry {
                                    path: path,
                                    data: data,
                                    timestamp: 0,
                                    is_compressed: false,
                                    is_encrypted: false,
                                    cache: None,
                                },
                            ),
                        )
                    },
                    Response::Error(e) => old(self).pack is None && e == RpfmError::NoPackOpen
                        && final(self).pack == old(self).pack,
                    _ => false,
                }),
                Command::DeleteEntry(path) => (match r {
                    Response::Deleted(was_there) => {
                        &&& old(self).pack is Some
                        &&& final(self).pack is Some
                        &&& entries_view(final(self).pack->0.entries@) == spec_delete(
                            entries_view(old(self).pack->0.entries@),
                            path_view(path@),
                        )
                        &&& was_there == (spec_lookup(
                            entries_view(old(self).pack->0.entries@),
                            path_view(path@),
                        ) is Some)
                    },
                    Response::Error(e) => old(self).pack is None && e == RpfmError::NoPackOpen
                        && final(self).pack == old(self).pack,
                    _ => false,
                }),
                Command::GetReferenceDataFromDefinition(definition, dep, open_tables) => {
                    &&& final(self).pack == old(self).pack
                    &&& (match r {
                        Response::ReferenceData(result) => {
                            &&& forall|k: int|
                                0 <= k < result@.len() ==> {
                                    let (fi, dd) = #[trigger] result@[k];
                                    &&& fi < definition.fields@.len()
                                    &&& definition.fields@[fi as int].is_reference is Some
                                    &&& crate::dependency::kv_view(dd.data@)
                                        == crate::dependency::kv_fold(
                                        Seq::<crate::dependency::KvPair>::empty(),
                                        crate::dependency::spec_reference_stream(
                                            definition.fields@[fi as int],
                                            dep@,
                                            open_tables@,
                                        ),
                                    )
                                }
                            &&& forall|fi: int|
                                0 <= fi < definition.fields@.len() && (
                                #[trigger] definition.fields@[fi]).is_reference is Some
                                    ==> exists|k: int|
                                    0 <= k < result@.len() && (#[trigger] result@[k]).0 == fi
                        },
                        _ => false,
                    })
                },
                Command::Optimize(reference) => (match r {
                    Response::Optimized => {
                        &&& old(self).pack is Some
                        &&& final(self).pack is Some
                        &&& crate::packfile::sdec_pack(reference@) is Ok
                        &&& entries_view(final(self).pack->0.entries@)
                            == crate::packfile::spec_optimized(
                            entries_view(old(self).pack->0.entries@),
                            crate::packfile::sdec_pack(reference@)->Ok_0.entries,
                        )
                    },
                    Response::Error(e) => final(self).pack == old(self).pack && ((
                    crate::packfile::sdec_pack(reference@) == Err::<
                        crate::packfile::PackV,
                        RpfmError,
                    >(e)) || (crate::packfile::sdec_pack(reference@) is Ok && old(self).pack
                        is None && e == RpfmError::NoPackOpen)),
                    _ => false,
                }),
                Command::MergeTables(tables) => final(self).pack == old(self).pack && (match r {
                    Response::Merged(t) => {
                        &&& tables@.len() > 0
                        &&& t.spec_definition() == tables@[0].spec_definition()
                        &&& t.spec_rows() == crate::table::spec_concat_rows(tables@)
                    },
                    Response::Error(e) => (tables@.len() == 0 && e == RpfmError::FormatError) || (
                    tables@.len() > 0 && e == RpfmError::RowWidthMismatch
                        && !crate::cell::rows_wf(
                        crate::table::spec_concat_rows(tables@),
                        tables@[0].spec_definition().fields@,
                    )),
                    _ => false,
                }),
                Command::GeneratePak(tables) => final(self).pack == old(self).pack && (match r {
                    Response::Pak(bytes) => bytes@ == crate::dependency::spec_pak(tables@),
                    Response::Error(e) => e == RpfmError::EncodeError
                        && !crate::dependency::spec_pak_wf(tables@),
                    _ => false,
                }),
            },
    {
        match command {
            Command::OpenPackFiles(sources) => {
                match PackFile::open_merged(&sources) {
                    Ok(p) => {
                        let v = p.pfh_version;
                        let ft = p.pfh_file_type;
                        let bm = p.bitmask;
                        let ts = p.timestamp;
                        self.pack = Some(p);
                        Response::PackFileInfo(v, ft, bm, ts)
                    },
                    Err(e) => Response::Error(e),
                }
            },
            Command::Save => {
                match &self.pack {
                    Some(p) => {
                        match p.save() {
                            Ok(bytes) => Response::Saved(bytes),
                            Err(e) => Response::Error(e),
                        }
                    },
                    None => Response::Error(RpfmError::NoPackOpen),
                }
            },
            Command::GetEntry(path) => {
                match &self.pack {
                    Some(p) => {
                        match p.get_entry(&path) {
                            Some(e) => {
                                let mut data: Vec<u8> = Vec::new();
                                data.extend_from_slice(e.data.as_slice());
                                proof {
                                    assert(data@ =~= e.data@);
                                }
                                Response::EntryData(Some(data))
                            },
                            None => Response::EntryData(None),
                        }
                    },
                    None => Response::Error(RpfmError::NoPackOpen),
                }
            },
            Command::PutEntry(path, data) => {
                match &mut self.pack {
                    Some(p) => {
                        let e = Entry {
                            path,
                            data,
                            timestamp: 0,
                            is_compressed: false,
                            is_encrypted: false,
                            cache: None,
                        };
                        p.put_entry(e);
                        Response::Stored
                    },
                    None => Response::Error(RpfmError::NoPackOpen),
                }
            },
            Command::DeleteEntry(path) => {
                match &mut self.pack {
                    Some(p) => {
                        let was_there = p.delete_entry(&path);
                        Response::Deleted(was_there)
                    },
                    None => Response::Error(RpfmError::NoPackOpen),
                }
            },
            Command::GetReferenceDataFromDefinition(definition, dep, open_tables) => {
                Response::ReferenceData(get_reference_data(&definition, &dep, &open_tables))
            },
            Command::Optimize(reference) => {
                match decode_pack(reference.as_slice()) {
                    Ok(refpack) => {
                        match &mut self.pack {
                            Some(p) => {
                                p.optimize(&refpack);
                                Response::Optimized
                            },
                            None => Response::Error(RpfmError::NoPackOpen),
                        }
                    },
                    Err(e) => Response::Error(e),
                }
            },
            Command::MergeTables(tables) => {
                match merge_tables(tables) {
                    Ok(t) => Response::Merged(t),
                    Err(e) => Response::Error(e),
                }
            },
            Command::GeneratePak(tables) => {
                match generate_pak(&tables) {
                    Ok(bytes) => Response::Pak(bytes),
                    Err(e) => Response::Error(e),
                }
            },
        }
    }
}

} // verus!
