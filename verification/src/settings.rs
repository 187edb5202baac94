//! The settings of the library and of the programs around it.
//!
//! Settings live as three key-value tables: configured paths, string
//! settings and boolean settings.  Reading them from disk and writing them
//! back is the caller's business; this module holds the defaults, the
//! reconciliation of a loaded set against them, and the recent-files
//! bookkeeping, all on plain values.

use vstd::prelude::*;

verus! {

/// First value stored under a key.
pub open spec fn setting_lookup<V>(entries: Seq<(String, V)>, key: Seq<char>) -> Option<V>
    decreases entries.len(),
{
    if entries.len() == 0 {
        None
    } else if entries[0].0@ == key {
        Some(entries[0].1)
    } else {
        setting_lookup(entries.drop_first(), key)
    }
}

/// Every setting of the library and of the programs around it, as
/// key-value tables ordered as the defaults list them.
pub struct Settings {
    pub paths: Vec<(String, Option<String>)>,
    pub settings_string: Vec<(String, String)>,
    pub settings_bool: Vec<(String, bool)>,
}

impl Settings {
    /// The default settings: what a program starts from when no settings
    /// were saved yet.
    pub fn new() -> (s: Settings)
        ensures
            s.paths@.len() == 2,
            s.paths@[0].0@ == "mymods_base_path"@ && s.paths@[0].1 is None,
            s.paths@[1].0@ == "7zip_path"@ && s.paths@[1].1 is None,
            s.settings_string@.len() == 6,
            s.settings_string@[0].0@ == "default_game"@,
            s.settings_string@[1].0@ == "language"@ && s.settings_string@[1].1@ == "English_en"@,
            s.settings_string@[2].0@ == "autosave_amount"@ && s.settings_string@[2].1@ == "10"@,
            s.settings_string@[3].0@ == "autosave_interval"@ && s.settings_string@[3].1@ == "5"@,
            s.settings_string@[4].0@ == "font_name"@ && s.settings_string@[4].1@ == ""@,
            s.settings_string@[5].0@ == "recent_files"@ && s.settings_string@[5].1@ == "[]"@,
            s.settings_bool@.len() == 14,
            setting_lookup(s.settings_bool@, "start_maximized"@) == Some(false),
            setting_lookup(s.settings_bool@, "use_dark_theme"@) == Some(false),
            setting_lookup(s.settings_bool@, "allow_editing_of_ca_packfiles"@) == Some(false),
            setting_lookup(s.settings_bool@, "check_updates_on_start"@) == Some(true),
            setting_lookup(s.settings_bool@, "check_schema_updates_on_start"@) == Some(true),
            setting_lookup(s.settings_bool@, "use_lazy_loading"@) == Some(true),
            setting_lookup(s.settings_bool@, "optimize_not_renamed_packedfiles"@) == Some(false),
            setting_lookup(s.settings_bool@, "adjust_columns_to_content"@) == Some(true),
            setting_lookup(s.settings_bool@, "extend_last_column_on_tables"@) == Some(true),
            setting_lookup(s.settings_bool@, "disable_combos_on_tables"@) == Some(false),
            setting_lookup(s.settings_bool@, "tables_use_old_column_order"@) == Some(false),
            setting_lookup(s.settings_bool@, "enable_debug_menu"@) == Some(false),
            setting_lookup(s.settings_bool@, "enable_diagnostics_tool"@) == Some(true),
            setting_lookup(s.settings_bool@, "diagnostics_trigger_on_open"@) == Some(true),
    {
        let mut paths: Vec<(String, Option<String>)> = Vec::new();
        paths.push(("mymods_base_path".to_owned(), None));
        paths.push(("7zip_path".to_owned(), None));
        let mut settings_string: Vec<(String, String)> = Vec::new();
        settings_string.push(("default_game".to_owned(), "three_kingdoms".to_owned()));
        settings_string.push(("language".to_owned(), "English_en".to_owned()));
        settings_string.push(("autosave_amount".to_owned(), "10".to_owned()));
        settings_string.push(("autosave_interval".to_owned(), "5".to_owned()));
        settings_string.push(("font_name".to_owned(), "".to_owned()));
        settings_string.push(("recent_files".to_owned(), "[]".to_owned()));
        let mut settings_bool: Vec<(String, bool)> = Vec::new();
        settings_bool.push(("start_maximized".to_owned(), false));
        settings_bool.push(("use_dark_theme".to_owned(), false));
        settings_bool.push(("allow_editing_of_ca_packfiles".to_owned(), false));
        settings_bool.push(("check_updates_on_start".to_owned(), true));
        settings_bool.push(("check_schema_updates_on_start".to_owned(), true));
        settings_bool.push(("use_lazy_loading".to_owned(), true));
        settings_bool.push(("optimize_not_renamed_packedfiles".to_owned(), false));
        settings_bool.push(("adjust_columns_to_content".to_owned(), true));
        settings_bool.push(("extend_last_column_on_tables".to_owned(), true));
        settings_bool.push(("disable_combos_on_tables".to_owned(), false));
        settings_bool.push(("tables_use_old_column_order".to_owned(), false));
        settings_bool.push(("enable_debug_menu".to_owned(), false));
        settings_bool.push(("enable_diagnostics_tool".to_owned(), true));
        settings_bool.push(("diagnostics_trigger_on_open".to_owned(), true));
        let s = Settings { paths, settings_string, settings_bool };
        proof {
            lemma_bool_defaults(s.settings_bool@);
        }
        s
    }

    /// Looks a boolean setting up.
    pub fn get_bool(&self, key: &str) -> (r: Option<bool>)
        ensures
            r == setting_lookup(self.settings_bool@, key@),
    {
        lookup_bool(&self.settings_bool, &key.to_owned())
    }

    /// Looks a string setting up.
    pub fn get_string(&self, key: &str) -> (r: Option<&String>)
        ensures
            match r {
                Some(v) => (match setting_lookup(self.settings_string@, key@) {
                    Some(w) => w@ == v@,
                    None => false,
                }),
                None => setting_lookup(self.settings_string@, key@) is None,
            },
    {
        lookup_string(&self.settings_string, &key.to_owned())
    }
}

proof fn lemma_setting_lookup_at<V>(entries: Seq<(String, V)>, key: Seq<char>, k: int)
    requires
        0 <= k < entries.len(),
        entries[k].0@ == key,
        forall|j: int| 0 <= j < k ==> (#[trigger] entries[j]).0@ != key,
    ensures
        setting_lookup(entries, key) == Some(entries[k].1),
    decreases k,
{
    if k > 0 {
        lemma_setting_lookup_at(entries.drop_first(), key, k - 1);
        assert(forall|j: int|
            0 <= j < entries.len() - 1 ==> entries.drop_first()[j] == #[trigger] entries[j + 1]);
    }
}

proof fn lemma_setting_lookup_miss<V>(entries: Seq<(String, V)>, key: Seq<char>)
    requires
        forall|j: int| 0 <= j < entries.len() ==> (#[trigger] entries[j]).0@ != key,
    ensures
        setting_lookup(entries, key) is None,
    decreases entries.len(),
{
    if entries.len() > 0 {
        lemma_setting_lookup_miss(entries.drop_first(), key);
    }
}

/// The boolean defaults looked up by key, from their literal list.
proof fn lemma_bool_defaults(entries: Seq<(String, bool)>)
    requires
        entries.len() == 14,
        entries[0].0@ == "start_maximized"@ && entries[0].1 == false,
        entries[1].0@ == "use_dark_theme"@ && entries[1].1 == false,
        entries[2].0@ == "allow_editing_of_ca_packfiles"@ && entries[2].1 == false,
        entries[3].0@ == "check_updates_on_start"@ && entries[3].1 == true,
        entries[4].0@ == "check_schema_updates_on_start"@ && entries[4].1 == true,
        entries[5].0@ == "use_lazy_loading"@ && entries[5].1 == true,
        entries[6].0@ == "optimize_not_renamed_packedfiles"@ && entries[6].1 == false,
        entries[7].0@ == "adjust_columns_to_content"@ && entries[7].1 == true,
        entries[8].0@ == "extend_last_column_on_tables"@ && entries[8].1 == true,
        entries[9].0@ == "disable_combos_on_tables"@ && entries[9].1 == false,
        entries[10].0@ == "tables_use_old_column_order"@ && entries[10].1 == false,
        entries[11].0@ == "enable_debug_menu"@ && entries[11].1 == false,
        entries[12].0@ == "enable_diagnostics_tool"@ && entries[12].1 == true,
        entries[13].0@ == "diagnostics_trigger_on_open"@ && entries[13].1 == true,
    ensures
        setting_lookup(entries, "start_maximized"@) == Some(false),
        setting_lookup(entries, "use_dark_theme"@) == Some(false),
        setting_lookup(entries, "allow_editing_of_ca_packfiles"@) == Some(false),
        setting_lookup(entries, "check_updates_on_start"@) == Some(true),
        setting_lookup(entries, "check_schema_updates_on_start"@) == Some(true),
        setting_lookup(entries, "use_lazy_loading"@) == Some(true),
        setting_lookup(entries, "optimize_not_renamed_packedfiles"@) == Some(false),
        setting_lookup(entries, "adjust_columns_to_content"@) == Some(true),
        setting_lookup(entries, "extend_last_column_on_tables"@) == Some(true),
        setting_lookup(entries, "disable_combos_on_tables"@) == Some(false),
        setting_lookup(entries, "tables_use_old_column_order"@) == Some(false),
        setting_lookup(entries, "enable_debug_menu"@) == Some(false),
        setting_lookup(entries, "enable_diagnostics_tool"@) == Some(true),
        setting_lookup(entries, "diagnostics_trigger_on_open"@) == Some(true),
{
    reveal_strlit("start_maximized");
    reveal_strlit("use_dark_theme");
    reveal_strlit("allow_editing_of_ca_packfiles");
    reveal_strlit("check_updates_on_start");
    reveal_strlit("check_schema_updates_on_start");
    reveal_strlit("use_lazy_loading");
    reveal_strlit("optimize_not_renamed_packedfiles");
    reveal_strlit("adjust_columns_to_content");
    reveal_strlit("extend_last_column_on_tables");
    reveal_strlit("disable_combos_on_tables");
    reveal_strlit("tables_use_old_column_order");
    reveal_strlit("enable_debug_menu");
    reveal_strlit("enable_diagnostics_tool");
    reveal_strlit("diagnostics_trigger_on_open");
    assert("start_maximized"@.len() == 15);
    assert("use_dark_theme"@.len() == 14);
    assert("allow_editing_of_ca_packfiles"@.len() == 29);
    assert("check_updates_on_start"@.len() == 22);
    assert("check_schema_updates_on_start"@.len() == 29);
    assert("use_lazy_loading"@.len() == 16);
    assert("optimize_not_renamed_packedfiles"@.len() == 32);
    assert("adjust_columns_to_content"@.len() == 25);
    assert("extend_last_column_on_tables"@.len() == 28);
    assert("disable_combos_on_tables"@.len() == 24);
    assert("tables_use_old_column_order"@.len() == 27);
    assert("enable_debug_menu"@.len() == 17);
    assert("enable_diagnostics_tool"@.len() == 23);
    assert("diagnostics_trigger_on_open"@.len() == 27);
    assert("allow_editing_of_ca_packfiles"@[0] == 'a' && "check_schema_updates_on_start"@[0]
        == 'c');
    assert("tables_use_old_column_order"@[0] == 't' && "diagnostics_trigger_on_open"@[0] == 'd');
    lemma_setting_lookup_at(entries, "start_maximized"@, 0);
    lemma_setting_lookup_at(entries, "use_dark_theme"@, 1);
    lemma_setting_lookup_at(entries, "allow_editing_of_ca_packfiles"@, 2);
    lemma_setting_lookup_at(entries, "check_updates_on_start"@, 3);
    lemma_setting_lookup_at(entries, "check_schema_updates_on_start"@, 4);
    lemma_setting_lookup_at(entries, "use_lazy_loading"@, 5);
    lemma_setting_lookup_at(entries, "optimize_not_renamed_packedfiles"@, 6);
    lemma_setting_lookup_at(entries, "adjust_columns_to_content"@, 7);
    lemma_setting_lookup_at(entries, "extend_last_column_on_tables"@, 8);
    lemma_setting_lookup_at(entries, "disable_combos_on_tables"@, 9);
    lemma_setting_lookup_at(entries, "tables_use_old_column_order"@, 10);
    lemma_setting_lookup_at(entries, "enable_debug_menu"@, 11);
    lemma_setting_lookup_at(entries, "enable_diagnostics_tool"@, 12);
    lemma_setting_lookup_at(entries, "diagnostics_trigger_on_open"@, 13);
}

/// The first occurrence of a value removed, the rest kept in order.
pub open spec fn spec_remove_first(list: Seq<Seq<char>>, p: Seq<char>) -> Seq<Seq<char>>
    decreases list.len(),
{
    if list.len() == 0 {
        list
    } else if list[0] == p {
        list.drop_first()
    } else {
        seq![list[0]] + spec_remove_first(list.drop_first(), p)
    }
}

/// The views of a string list.
pub open spec fn strings_view(list: Seq<String>) -> Seq<Seq<char>>
    decreases list,
{
    if list.len() == 0 {
        seq![]
    } else {
        strings_view(list.drop_last()).push(list.last()@)
    }
}

/// Index form of [`strings_view`].
pub proof fn lemma_strings_view_len(list: Seq<String>)
    ensures
        strings_view(list).len() == list.len(),
        forall|i: int| 0 <= i < list.len() ==> strings_view(list)[i] == (#[trigger] list[i])@,
    decreases list,
{
    if list.len() > 0 {
        lemma_strings_view_len(list.drop_last());
        assert(forall|i: int| 0 <= i < list.len() - 1 ==> list.drop_last()[i] == list[i]);
    }
}

/// What a recent-files list becomes when a path is used again: the path
/// moves to the front, its earlier occurrence goes, and the list keeps at
/// most ten entries.
pub open spec fn spec_update_recent(list: Seq<Seq<char>>, p: Seq<char>) -> Seq<Seq<char>> {
    let moved = seq![p] + spec_remove_first(list, p);
    if moved.len() <= 10 {
        moved
    } else {
        moved.subrange(0, 10)
    }
}

/// Moves a just-used path to the front of the recent-files list, dropping
/// its earlier occurrence and keeping at most ten entries.
pub fn update_recent_files(recent_files: &Vec<String>, new_path: &str) -> (r: Vec<String>)
    ensures
        strings_view(r@) == spec_update_recent(strings_view(recent_files@), new_path@),
{
    proof {
        lemma_strings_view_len(recent_files@);
    }
    let ghost listv = strings_view(recent_files@);
    let needle = new_path.to_owned();
    let mut out: Vec<String> = Vec::new();
    out.push(new_path.to_owned());
    let mut i: usize = 0;
    let mut removed = false;
    proof {
        lemma_strings_view_len(out@);
        assert(strings_view(out@) =~= seq![new_path@]);
        assert(listv.subrange(0, listv.len() as int) =~= listv);
    }
    while i < recent_files.len()
        invariant
            needle@ == new_path@,
            i <= recent_files@.len(),
            listv == strings_view(recent_files@),
            listv.len() == recent_files@.len(),
            forall|k: int| 0 <= k < listv.len() ==> listv[k] == (#[trigger] recent_files@[k])@,
            seq![new_path@] + spec_remove_first(listv, new_path@) == strings_view(out@) + (
            if removed {
                listv.subrange(i as int, listv.len() as int)
            } else {
                spec_remove_first(listv.subrange(i as int, listv.len() as int), new_path@)
            }),
        decreases recent_files@.len() - i,
    {
        let ghost suffix = listv.subrange(i as int, listv.len() as int);
        proof {
            assert(suffix[0] == listv[i as int]);
            assert(suffix.drop_first() =~= listv.subrange(i + 1, listv.len() as int));
        }
        if !removed && recent_files[i] == needle {
            removed = true;
        } else {
            let ghost oldout = out@;
            out.push(recent_files[i].clone());
            proof {
                lemma_strings_view_len(out@);
                assert(out@.drop_last() =~= oldout);
                assert(strings_view(out@) == strings_view(oldout).push(listv[i as int]));
                if removed {
                    assert(strings_view(oldout) + suffix =~= strings_view(out@)
                        + suffix.drop_first());
                } else {
                    assert(spec_remove_first(suffix, new_path@) == seq![suffix[0]]
                        + spec_remove_first(suffix.drop_first(), new_path@));
                    assert(strings_view(oldout) + (seq![suffix[0]] + spec_remove_first(
                        suffix.drop_first(),
                        new_path@,
                    )) =~= strings_view(out@) + spec_remove_first(
                        suffix.drop_first(),
                        new_path@,
                    ));
                }
            }
        }
        i += 1;
    }
    proof {
        assert(listv.subrange(listv.len() as int, listv.len() as int)
            =~= Seq::<Seq<char>>::empty());
        assert(spec_remove_first(Seq::<Seq<char>>::empty(), new_path@)
            =~= Seq::<Seq<char>>::empty());
        assert(strings_view(out@) + Seq::<Seq<char>>::empty() =~= strings_view(out@));
    }
    if out.len() > 10 {
        let ghost pre = out@;
        out.truncate(10);
        proof {
            assert(out@ =~= pre.subrange(0, 10));
            lemma_strings_view_len(pre);
            lemma_strings_view_len(out@);
            assert forall|k: int| 0 <= k < 10 implies strings_view(out@)[k] == strings_view(
                pre,
            ).subrange(0, 10)[k] by {
                assert(out@[k] == pre[k]);
            }
            assert(strings_view(out@) =~= strings_view(pre).subrange(0, 10));
        }
    } else {
        proof {
            lemma_strings_view_len(out@);
        }
    }
    out
}


/// Keeps a loaded value where one exists, the default otherwise: the
/// reconciled table has exactly the default keys, in default order.
fn reconcile_bools(defaults: Vec<(String, bool)>, loaded: &Vec<(String, bool)>) -> (r: Vec<
    (String, bool),
>)
    ensures
        r@.len() == defaults@.len(),
        forall|k: int|
            0 <= k < r@.len() ==> {
                let (key, value) = #[trigger] r@[k];
                &&& key@ == defaults@[k].0@
                &&& value == (match setting_lookup(loaded@, defaults@[k].0@) {
                    Some(v) => v,
                    None => defaults@[k].1,
                })
            },
{
    let mut out: Vec<(String, bool)> = Vec::new();
    let mut i: usize = 0;
    while i < defaults.len()
        invariant
            i <= defaults@.len(),
            out@.len() == i,
            forall|k: int|
                0 <= k < i ==> {
                    let (key, value) = #[trigger] out@[k];
                    &&& key@ == defaults@[k].0@
                    &&& value == (match setting_lookup(loaded@, defaults@[k].0@) {
                        Some(v) => v,
                        None => defaults@[k].1,
                    })
                },
        decreases defaults@.len() - i,
    {
        let (key, default_value) = (defaults[i].0.clone(), defaults[i].1);
        let value = match lookup_bool(loaded, &key) {
            Some(v) => v,
            None => default_value,
        };
        out.push((key, value));
        i += 1;
    }
    out
}

/// The first boolean stored under a key.
fn lookup_bool(entries: &Vec<(String, bool)>, key: &String) -> (r: Option<bool>)
    ensures
        r == setting_lookup(entries@, key@),
{
    let n = entries.len();
    let mut i: usize = 0;
    while i < n
        invariant
            i <= n,
            n == entries@.len(),
            forall|k: int| 0 <= k < i ==> (#[trigger] entries@[k]).0@ != key@,
        decreases n - i,
    {
        if entries[i].0 == *key {
            proof {
                lemma_setting_lookup_at(entries@, key@, i as int);
            }
            return Some(entries[i].1);
        }
        i += 1;
    }
    proof {
        lemma_setting_lookup_miss(entries@, key@);
    }
    None
}

/// As [`reconcile_bools`], for string values.
fn reconcile_strings(defaults: Vec<(String, String)>, loaded: &Vec<(String, String)>) -> (r: Vec<
    (String, String),
>)
    ensures
        r@.len() == defaults@.len(),
        forall|k: int|
            0 <= k < r@.len() ==> {
                let (key, value) = #[trigger] r@[k];
                &&& key@ == defaults@[k].0@
                &&& value@ == (match setting_lookup(loaded@, defaults@[k].0@) {
                    Some(v) => v@,
                    None => defaults@[k].1@,
                })
            },
{
    let mut out: Vec<(String, String)> = Vec::new();
    let mut i: usize = 0;
    while i < defaults.len()
        invariant
            i <= defaults@.len(),
            out@.len() == i,
            forall|k: int|
                0 <= k < i ==> {
                    let (key, value) = #[trigger] out@[k];
                    &&& key@ == defaults@[k].0@
                    &&& value@ == (match setting_lookup(loaded@, defaults@[k].0@) {
                        Some(v) => v@,
                        None => defaults@[k].1@,
                    })
                },
        decreases defaults@.len() - i,
    {
        let key = defaults[i].0.clone();
        let value = match lookup_string(loaded, &key) {
            Some(v) => v.clone(),
            None => defaults[i].1.clone(),
        };
        out.push((key, value));
        i += 1;
    }
    out
}

/// The first string stored under a key.
fn lookup_string<'a>(entries: &'a Vec<(String, String)>, key: &String) -> (r: Option<&'a String>)
    ensures
        match r {
            Some(v) => (match setting_lookup(entries@, key@) {
                Some(w) => w@ == v@,
                None => false,
            }),
            None => setting_lookup(entries@, key@) is None,
        },
{
    let n = entries.len();
    let mut i: usize = 0;
    while i < n
        invariant
            i <= n,
            n == entries@.len(),
            forall|k: int| 0 <= k < i ==> (#[trigger] entries@[k]).0@ != key@,
        decreases n - i,
    {
        if entries[i].0 == *key {
            proof {
                lemma_setting_lookup_at(entries@, key@, i as int);
            }
            return Some(&entries[i].1);
        }
        i += 1;
    }
    proof {
        lemma_setting_lookup_miss(entries@, key@);
    }
    None
}

/// As [`reconcile_bools`], for optional path values.
fn reconcile_paths(
    defaults: Vec<(String, Option<String>)>,
    loaded: &Vec<(String, Option<String>)>,
) -> (r: Vec<(String, Option<String>)>)
    ensures
        r@.len() == defaults@.len(),
        forall|k: int|
            0 <= k < r@.len() ==> {
                let (key, value) = #[trigger] r@[k];
                &&& key@ == defaults@[k].0@
                &&& opt_path_eqv(
                    value,
                    match setting_lookup(loaded@, defaults@[k].0@) {
                        Some(v) => v,
                        None => defaults@[k].1,
                    },
                )
            },
{
    let mut out: Vec<(String, Option<String>)> = Vec::new();
    let mut i: usize = 0;
    while i < defaults.len()
        invariant
            i <= defaults@.len(),
            out@.len() == i,
            forall|k: int|
                0 <= k < i ==> {
                    let (key, value) = #[trigger] out@[k];
                    &&& key@ == defaults@[k].0@
                    &&& opt_path_eqv(
                        value,
                        match setting_lookup(loaded@, defaults@[k].0@) {
                            Some(v) => v,
                            None => defaults@[k].1,
                        },
                    )
                },
        decreases defaults@.len() - i,
    {
        let key = defaults[i].0.clone();
        let value: Option<String> = match lookup_path(loaded, &key) {
            Some(v) => clone_opt_path(v),
            None => clone_opt_path(&defaults[i].1),
        };
        out.push((key, value));
        i += 1;
    }
    out
}

/// Sameness of two optional paths, by contents.
pub open spec fn opt_path_eqv(a: Option<String>, b: Option<String>) -> bool {
    match (a, b) {
        (Some(x), Some(y)) => x@ == y@,
        (None, None) => true,
        _ => false,
    }
}

/// A copy of an optional path whose contents are unchanged.
fn clone_opt_path(v: &Option<String>) -> (r: Option<String>)
    ensures
        opt_path_eqv(r, *v),
{
    match v {
        Some(s) => Some(s.clone()),
        None => None,
    }
}

/// The first optional path stored under a key.
fn lookup_path<'a>(entries: &'a Vec<(String, Option<String>)>, key: &String) -> (r: Option<
    &'a Option<String>,
>)
    ensures
        match r {
            Some(v) => setting_lookup(entries@, key@) == Some(*v),
            None => setting_lookup(entries@, key@) is None,
        },
{
    let n = entries.len();
    let mut i: usize = 0;
    while i < n
        invariant
            i <= n,
            n == entries@.len(),
            forall|k: int| 0 <= k < i ==> (#[trigger] entries@[k]).0@ != key@,
        decreases n - i,
    {
        if entries[i].0 == *key {
            proof {
                lemma_setting_lookup_at(entries@, key@, i as int);
            }
            return Some(&entries[i].1);
        }
        i += 1;
    }
    proof {
        lemma_setting_lookup_miss(entries@, key@);
    }
    None
}

impl Settings {
    /// Reconciles a loaded settings set against a default set, keeping it
    /// update friendly: keys the defaults no longer carry are dropped,
    /// missing keys take their default, and a key present in both keeps
    /// the loaded value.  Callers pass [`Settings::new`] as the defaults.
    pub fn reconcile(defaults: Settings, loaded: &Settings) -> (s: Settings)
        ensures
            s.paths@.len() == defaults.paths@.len(),
            s.settings_string@.len() == defaults.settings_string@.len(),
            s.settings_bool@.len() == defaults.settings_bool@.len(),
            forall|k: int|
                0 <= k < s.settings_bool@.len() ==> {
                    let (key, value) = #[trigger] s.settings_bool@[k];
                    &&& key@ == defaults.settings_bool@[k].0@
                    &&& value == (match setting_lookup(loaded.settings_bool@, key@) {
                        Some(v) => v,
                        None => defaults.settings_bool@[k].1,
                    })
                },
            forall|k: int|
                0 <= k < s.settings_string@.len() ==> {
                    let (key, value) = #[trigger] s.settings_string@[k];
                    &&& key@ == defaults.settings_string@[k].0@
                    &&& value@ == (match setting_lookup(loaded.settings_string@, key@) {
                        Some(v) => v@,
                        None => defaults.settings_string@[k].1@,
                    })
                },
            forall|k: int|
                0 <= k < s.paths@.len() ==> {
                    let (key, value) = #[trigger] s.paths@[k];
                    &&& key@ == defaults.paths@[k].0@
                    &&& opt_path_eqv(
                        value,
                        match setting_lookup(loaded.paths@, key@) {
                            Some(v) => v,
                            None => defaults.paths@[k].1,
                        },
                    )
                },
    {
        Settings {
            paths: reconcile_paths(defaults.paths, &loaded.paths),
            settings_string: reconcile_strings(defaults.settings_string, &loaded.settings_string),
            settings_bool: reconcile_bools(defaults.settings_bool, &loaded.settings_bool),
        }
    }
}

} // verus!
