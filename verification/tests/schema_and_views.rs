//! Schema resolution, column presentation, settings and selections.

use rpfm_lib::clean_column_names;
use rpfm_lib::dedup_indexes_per_row;
use rpfm_lib::get_fields_sorted;
use rpfm_lib::sort_column;
use rpfm_lib::sort_indexes_by_model;
use rpfm_lib::update_recent_files;
use rpfm_lib::Definition;
use rpfm_lib::Field;
use rpfm_lib::FieldType;
use rpfm_lib::RpfmError;
use rpfm_lib::Schema;
use rpfm_lib::Settings;
use rpfm_lib::TableDiagnostic;
use rpfm_lib::TableDiagnosticReportType;

fn field(name: &str, field_type: FieldType) -> Field {
    Field {
        name: name.to_owned(),
        field_type,
        is_key: false,
        is_reference: None,
        lookup: None,
        default_value: None,
        ca_order: -1,
        max_length: 0,
        description: String::new(),
    }
}

#[test]
fn resolve_version_exact_and_best_effort() {
    let mut schema = Schema::new();
    schema.add_definition("units", Definition { version: 2, fields: vec![] });
    schema.add_definition("units", Definition { version: 5, fields: vec![] });
    schema.add_definition("units", Definition { version: 4, fields: vec![] });

    assert_eq!(schema.resolve_version("units", 4, false).unwrap().version, 4);
    match schema.resolve_version("units", 3, false) {
        Err(RpfmError::NoMatchingVersion) => {}
        _ => panic!("expected NoMatchingVersion"),
    }
    // Best effort: the highest version at most the requested one.
    assert_eq!(schema.resolve_version("units", 3, true).unwrap().version, 2);
    assert_eq!(schema.resolve_version("units", 9, true).unwrap().version, 5);
    match schema.resolve_version("units", 1, true) {
        Err(RpfmError::NoMatchingVersion) => {}
        _ => panic!("expected NoMatchingVersion"),
    }
    match schema.resolve_version("buildings", 1, true) {
        Err(RpfmError::NoMatchingVersion) => {}
        _ => panic!("expected NoMatchingVersion"),
    }
}

#[test]
fn definitions_are_kept_version_descending() {
    let mut schema = Schema::new();
    schema.add_definition("t", Definition { version: 1, fields: vec![] });
    schema.add_definition("t", Definition { version: 3, fields: vec![] });
    schema.add_definition("t", Definition { version: 2, fields: vec![] });
    let defs = schema.get_versioned_definitions("t").unwrap();
    let versions: Vec<i32> = defs.iter().map(|d| d.version).collect();
    assert_eq!(versions, vec![3, 2, 1]);
    // Re-adding an existing version replaces it in place.
    schema.add_definition("t", Definition { version: 2, fields: vec![field("x", FieldType::I32)] });
    let defs = schema.get_versioned_definitions("t").unwrap();
    assert_eq!(defs.len(), 3);
    assert_eq!(defs[1].fields.len(), 1);
}

#[test]
fn db_entry_decodes_against_the_tagged_version() {
    let mut schema = Schema::new();
    schema.add_definition(
        "units",
        Definition { version: 2, fields: vec![field("cost", FieldType::I32)] },
    );
    schema.add_definition(
        "units",
        Definition {
            version: 4,
            fields: vec![field("cost", FieldType::I32), field("upkeep", FieldType::I32)],
        },
    );
    // A version-2 entry: tag 2, one row, one I32 column.
    let mut bytes: Vec<u8> = Vec::new();
    bytes.extend_from_slice(&2i32.to_le_bytes());
    bytes.extend_from_slice(&1u32.to_le_bytes());
    bytes.extend_from_slice(&150i32.to_le_bytes());
    let (table, outdated) = rpfm_lib::decode_db(&schema, "units", &bytes, false).unwrap();
    assert!(!outdated);
    assert_eq!(table.row_count(), 1);

    // A tag with no exact definition fails unless best-effort is asked for.
    let mut bytes3: Vec<u8> = Vec::new();
    bytes3.extend_from_slice(&3i32.to_le_bytes());
    bytes3.extend_from_slice(&1u32.to_le_bytes());
    bytes3.extend_from_slice(&150i32.to_le_bytes());
    match rpfm_lib::decode_db(&schema, "units", &bytes3, false) {
        Err(RpfmError::NoMatchingVersion) => {}
        _ => panic!("expected NoMatchingVersion"),
    }
    let (_, outdated) = rpfm_lib::decode_db(&schema, "units", &bytes3, true).unwrap();
    assert!(outdated);
}

#[test]
fn column_names_are_cleaned_for_display() {
    assert_eq!(clean_column_names("unit_name"), "Unit Name");
    assert_eq!(clean_column_names("cost"), "Cost");
    assert_eq!(clean_column_names("already Clean"), "Already Clean");
    assert_eq!(clean_column_names(""), "");
    assert_eq!(clean_column_names("a_b_c"), "A B C");
    assert_eq!(clean_column_names("_x"), "_x");
}

#[test]
fn fields_sorted_old_order_puts_keys_first() {
    let mut k = field("key", FieldType::StringU8);
    k.is_key = true;
    let def = Definition {
        version: 0,
        fields: vec![field("a", FieldType::I32), k, field("b", FieldType::I32)],
    };
    let sorted = get_fields_sorted(&def, true);
    assert_eq!(sorted.len(), 3);
    assert_eq!(sorted[0].name, "key");
}

#[test]
fn fields_sorted_by_canonical_order_hint() {
    let mut a = field("a", FieldType::I32);
    a.ca_order = 2;
    let mut b = field("b", FieldType::I32);
    b.ca_order = 0;
    let mut c = field("c", FieldType::I32);
    c.ca_order = 1;
    let def = Definition { version: 0, fields: vec![a, b, c] };
    let sorted = get_fields_sorted(&def, false);
    let names: Vec<&str> = sorted.iter().map(|f| f.name.as_str()).collect();
    assert_eq!(names, vec!["b", "c", "a"]);
}

#[test]
fn settings_defaults_hold_expected_values() {
    let s = Settings::new();
    assert_eq!(s.get_bool("use_lazy_loading"), Some(true));
    assert_eq!(s.get_bool("use_dark_theme"), Some(false));
    assert_eq!(s.get_bool("no_such_setting"), None);
    assert_eq!(s.get_string("recent_files").unwrap(), "[]");
    assert_eq!(s.get_string("autosave_amount").unwrap(), "10");
    assert!(s.get_string("no_such_setting").is_none());
    assert_eq!(s.paths.len(), 2);
}

#[test]
fn reconcile_keeps_loaded_values_and_default_keys() {
    let mut loaded = Settings::new();
    // A loaded file with one edited value, one stale key, one missing key.
    for pair in loaded.settings_bool.iter_mut() {
        if pair.0 == "use_dark_theme" {
            pair.1 = true;
        }
    }
    loaded.settings_bool.push(("no_longer_supported".to_owned(), true));
    loaded.settings_string.retain(|p| p.0 != "language");

    let merged = Settings::reconcile(Settings::new(), &loaded);
    assert_eq!(merged.get_bool("use_dark_theme"), Some(true));
    assert_eq!(merged.get_bool("no_longer_supported"), None);
    assert_eq!(merged.get_string("language").unwrap(), "English_en");
    assert_eq!(merged.settings_bool.len(), Settings::new().settings_bool.len());
}

#[test]
fn recent_files_move_to_front_without_duplicates() {
    let list = vec!["b.pack".to_owned(), "a.pack".to_owned()];
    let updated = update_recent_files(&list, "a.pack");
    assert_eq!(updated, vec!["a.pack".to_owned(), "b.pack".to_owned()]);
    let updated = update_recent_files(&updated, "c.pack");
    assert_eq!(
        updated,
        vec!["c.pack".to_owned(), "a.pack".to_owned(), "b.pack".to_owned()]
    );
}

#[test]
fn recent_files_keep_at_most_ten() {
    let list: Vec<String> = (0..10).map(|i| i.to_string()).collect();
    let updated = update_recent_files(&list, "fresh");
    assert_eq!(updated.len(), 10);
    assert_eq!(updated[0], "fresh");
    assert_eq!(updated[9], "8");
}

#[test]
fn selection_sorted_row_major() {
    let mut sel = vec![(2, 1), (0, 3), (2, 0), (0, 1)];
    sort_indexes_by_model(&mut sel);
    assert_eq!(sel, vec![(0, 1), (0, 3), (2, 0), (2, 1)]);
}

#[test]
fn selection_dedup_keeps_first_of_each_row() {
    let mut sel = vec![(1, 5), (2, 0), (1, 0), (3, 1), (2, 9)];
    dedup_indexes_per_row(&mut sel);
    assert_eq!(sel, vec![(1, 5), (2, 0), (3, 1)]);
}

#[test]
fn sort_state_cycles_and_clears() {
    let (s1, clear1) = sort_column(4, (-1, 0));
    assert_eq!(s1, (4, 1));
    assert!(!clear1);
    let (s2, clear2) = sort_column(4, s1);
    assert_eq!(s2, (4, 2));
    assert!(!clear2);
    let (s3, clear3) = sort_column(4, s2);
    assert_eq!(s3, (-1, -1));
    assert!(clear3);
    // Clicking a different column restarts the cycle.
    let (s4, clear4) = sort_column(7, (4, 2));
    assert_eq!(s4, (7, 1));
    assert!(!clear4);
}

#[test]
fn diagnostics_hold_path_and_reports() {
    let path = vec!["db".to_owned(), "units_tables".to_owned(), "data".to_owned()];
    let mut d = TableDiagnostic::new(&path);
    assert_eq!(d.get_path(), &path[..]);
    assert!(d.get_ref_result().is_empty());
    d.get_ref_mut_result().push(rpfm_lib::TableDiagnosticReport {
        column_number: 2,
        row_number: 7,
        message: "bad reference".to_owned(),
        report_type: TableDiagnosticReportType::InvalidReference,
        level: rpfm_lib::DiagnosticLevel::High,
    });
    assert_eq!(d.get_ref_result().len(), 1);
    assert_eq!(d.get_ref_result()[0].report_type, TableDiagnosticReportType::InvalidReference);
    assert_eq!(
        TableDiagnosticReportType::DuplicatedRow.as_text(),
        "DuplicatedRow"
    );
}

#[test]
fn error_messages_are_not_empty() {
    assert!(!RpfmError::MagicMismatch.message().is_empty());
    assert!(!RpfmError::NoMatchingVersion.message().is_empty());
}
