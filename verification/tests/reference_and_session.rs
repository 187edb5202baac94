//! Reference resolution and the command boundary.

use rpfm_lib::cell_text;
use rpfm_lib::generate_pak;
use rpfm_lib::get_reference_data;
use rpfm_lib::Command;
use rpfm_lib::DecodedData;
use rpfm_lib::Definition;
use rpfm_lib::Field;
use rpfm_lib::FieldType;
use rpfm_lib::PackFile;
use rpfm_lib::PFHFileType;
use rpfm_lib::PFHVersion;
use rpfm_lib::Response;
use rpfm_lib::RpfmError;
use rpfm_lib::Session;
use rpfm_lib::Table;

fn field(name: &str, field_type: FieldType) -> Field {
    Field {
        name: name.to_owned(),
        field_type,
        is_key: false,
        is_reference: None,
        lookup: None,
        default_value: None,
        ca_order: -1,
        max_length: 0,
        description: String::new(),
    }
}

fn units_table(rows: Vec<(&str, &str)>) -> Table {
    let def = Definition {
        version: 1,
        fields: vec![field("key", FieldType::StringU8), field("name", FieldType::StringU8)],
    };
    let rows = rows
        .into_iter()
        .map(|(k, n)| {
            vec![
                DecodedData::StringU8(k.to_owned()),
                DecodedData::StringU8(n.to_owned()),
            ]
        })
        .collect();
    Table::from_rows(def, rows).unwrap()
}

fn referencing_definition() -> Definition {
    let mut unit = field("unit", FieldType::StringU8);
    unit.is_reference = Some(("units".to_owned(), "key".to_owned()));
    unit.lookup = Some(vec!["name".to_owned()]);
    Definition { version: 1, fields: vec![unit, field("cost", FieldType::I32)] }
}

#[test]
fn open_table_takes_precedence_over_dependency_data() {
    let definition = referencing_definition();
    // The dependency pack says key "K" is named "Foo"; the open, edited
    // copy of the same table says "Bar".  The open copy must win.
    let dependency_tables = vec![("units".to_owned(), units_table(vec![("K", "Foo")]))];
    let open_tables = vec![("units".to_owned(), units_table(vec![("K", "Bar")]))];
    let resolved = get_reference_data(&definition, &dependency_tables, &open_tables);
    assert_eq!(resolved.len(), 1);
    let (field_index, dd) = &resolved[0];
    assert_eq!(*field_index, 0);
    assert_eq!(dd.get(&"K".to_owned()).unwrap(), "Bar");
}

#[test]
fn dependency_data_covers_keys_only_in_packs() {
    let definition = referencing_definition();
    let dependency_tables = vec![(
        "units".to_owned(),
        units_table(vec![("K", "Foo"), ("L", "Lancer")]),
    )];
    let open_tables = vec![("units".to_owned(), units_table(vec![("K", "Bar")]))];
    let resolved = get_reference_data(&definition, &dependency_tables, &open_tables);
    let (_, dd) = &resolved[0];
    assert_eq!(dd.get(&"K".to_owned()).unwrap(), "Bar");
    assert_eq!(dd.get(&"L".to_owned()).unwrap(), "Lancer");
    assert!(dd.get(&"M".to_owned()).is_none());
}

#[test]
fn later_rows_win_within_one_table() {
    let definition = referencing_definition();
    let dependency_tables = vec![(
        "units".to_owned(),
        units_table(vec![("K", "First"), ("K", "Second")]),
    )];
    let open_tables: Vec<(String, Table)> = vec![];
    let resolved = get_reference_data(&definition, &dependency_tables, &open_tables);
    let (_, dd) = &resolved[0];
    assert_eq!(dd.get(&"K".to_owned()).unwrap(), "Second");
}

#[test]
fn cell_text_canonical_forms() {
    assert_eq!(cell_text(&DecodedData::Boolean(true)).unwrap(), "true");
    assert_eq!(cell_text(&DecodedData::Boolean(false)).unwrap(), "false");
    assert_eq!(cell_text(&DecodedData::I32(-42)).unwrap(), "-42");
    assert_eq!(cell_text(&DecodedData::I64(0)).unwrap(), "0");
    assert_eq!(cell_text(&DecodedData::I16(12345)).unwrap(), "12345");
    assert_eq!(cell_text(&DecodedData::StringU8("x".to_owned())).unwrap(), "x");
    assert!(cell_text(&DecodedData::F32(0)).is_none());
}

#[test]
fn pak_artifact_is_deterministic() {
    let tables = vec![("units".to_owned(), units_table(vec![("K", "Foo")]))];
    let once = generate_pak(&tables).unwrap();
    let tables_again = vec![("units".to_owned(), units_table(vec![("K", "Foo")]))];
    let twice = generate_pak(&tables_again).unwrap();
    assert_eq!(once, twice);
    assert!(!once.is_empty());
}

#[test]
fn session_open_edit_save_cycle() {
    let mut base = PackFile::new(PFHVersion::PFH5, PFHFileType::Mod);
    base.put_entry(rpfm_lib::Entry::new(
        vec!["db".to_owned(), "units_tables".to_owned(), "data".to_owned()],
        b"original".to_vec(),
    ));
    let image = base.save().unwrap();

    let mut session = Session::new();
    match session.process(Command::OpenPackFiles(vec![image])) {
        Response::PackFileInfo(v, ft, _, _) => {
            assert_eq!(v, PFHVersion::PFH5);
            assert_eq!(ft, PFHFileType::Mod);
        }
        _ => panic!("expected PackFileInfo"),
    }
    let p = vec!["db".to_owned(), "units_tables".to_owned(), "data".to_owned()];
    match session.process(Command::GetEntry(p.clone())) {
        Response::EntryData(Some(d)) => assert_eq!(d, b"original"),
        _ => panic!("expected the entry"),
    }
    match session.process(Command::PutEntry(p.clone(), b"edited".to_vec())) {
        Response::Stored => {}
        _ => panic!("expected Stored"),
    }
    match session.process(Command::Save) {
        Response::Saved(bytes) => {
            let back = rpfm_lib::decode_pack(&bytes).unwrap();
            assert_eq!(back.get_entry(&p).unwrap().data, b"edited");
        }
        _ => panic!("expected Saved"),
    }
    match session.process(Command::DeleteEntry(p.clone())) {
        Response::Deleted(true) => {}
        _ => panic!("expected Deleted(true)"),
    }
    match session.process(Command::GetEntry(p)) {
        Response::EntryData(None) => {}
        _ => panic!("expected no entry"),
    }
}

#[test]
fn session_requires_an_open_pack() {
    let mut session = Session::new();
    match session.process(Command::Save) {
        Response::Error(RpfmError::NoPackOpen) => {}
        _ => panic!("expected NoPackOpen"),
    }
    match session.process(Command::GetEntry(vec!["a".to_owned()])) {
        Response::Error(RpfmError::NoPackOpen) => {}
        _ => panic!("expected NoPackOpen"),
    }
}

#[test]
fn session_merge_tables_and_pak() {
    let mut session = Session::new();
    let t1 = units_table(vec![("a", "A")]);
    let t2 = units_table(vec![("b", "B")]);
    match session.process(Command::MergeTables(vec![t1, t2])) {
        Response::Merged(t) => assert_eq!(t.row_count(), 2),
        _ => panic!("expected Merged"),
    }
    match session.process(Command::MergeTables(vec![])) {
        Response::Error(RpfmError::FormatError) => {}
        _ => panic!("expected an error on no tables"),
    }
    let tables = vec![("units".to_owned(), units_table(vec![("K", "Foo")]))];
    match session.process(Command::GeneratePak(tables)) {
        Response::Pak(bytes) => assert!(!bytes.is_empty()),
        _ => panic!("expected Pak"),
    }
}

#[test]
fn session_optimize_against_reference_image() {
    let mut reference = PackFile::new(PFHVersion::PFH5, PFHFileType::Release);
    reference.put_entry(rpfm_lib::Entry::new(vec!["same".to_owned()], b"x".to_vec()));
    let ref_image = reference.save().unwrap();

    let mut pack = PackFile::new(PFHVersion::PFH5, PFHFileType::Mod);
    pack.put_entry(rpfm_lib::Entry::new(vec!["same".to_owned()], b"x".to_vec()));
    pack.put_entry(rpfm_lib::Entry::new(vec!["kept".to_owned()], b"y".to_vec()));
    let image = pack.save().unwrap();

    let mut session = Session::new();
    session.process(Command::OpenPackFiles(vec![image]));
    match session.process(Command::Optimize(ref_image)) {
        Response::Optimized => {}
        _ => panic!("expected Optimized"),
    }
    match session.process(Command::GetEntry(vec!["same".to_owned()])) {
        Response::EntryData(None) => {}
        _ => panic!("the vanilla duplicate must be gone"),
    }
    match session.process(Command::GetEntry(vec!["kept".to_owned()])) {
        Response::EntryData(Some(d)) => assert_eq!(d, b"y"),
        _ => panic!("the changed entry must stay"),
    }
}
