use mod_manager::db_deal::{
    add_game_file_to_db, add_mod_to_db, check_mod_exist, clone_paths, contains_path,
    copy_with_apply, exist_mod_path, files_named, get_game_file_from_db, get_mods_from_db,
    is_name_taken, load_catalog, merge_paths, remove_all_game_file, update_mod_to_db, Catalog,
};
use mod_manager::entry::{GamePath, ModFileInfo, ModInfo};
use mod_manager::error::ModError;
use mod_manager::service::{
    clear_game_file_backup, get_game_path, get_mods, load_game_path, remove_mod, remove_path,
    set_game_path, settings_text,
};

fn overlay(name: &str, files: &[&str], time: i64) -> ModInfo {
    ModInfo {
        name: name.to_string(),
        path: Some(files.iter().map(|f| f.to_string()).collect()),
        apply: false,
        insert_time: time,
    }
}

fn empty_catalog() -> Catalog {
    Catalog { mods: Vec::new(), game_files: Vec::new() }
}

fn strings(items: &[&str]) -> Vec<String> {
    items.iter().map(|s| s.to_string()).collect()
}

#[test]
fn mod_file_info_new_keeps_both_fields() {
    let info = ModFileInfo::new("hd".to_string(), ".\\mods\\hd\\a".to_string());
    assert_eq!(info.name, "hd");
    assert_eq!(info.path, ".\\mods\\hd\\a");
}

#[test]
fn mod_info_new_is_bare_and_stamped() {
    let info = ModInfo::new("hd".to_string());
    assert_eq!(info.name, "hd");
    assert!(info.path.is_none());
    assert!(!info.apply);
    assert!(info.insert_time > 1_000_000_000_000);
}

#[test]
fn check_mod_exist_is_true_for_a_registered_name() {
    let mut catalog = empty_catalog();
    assert!(!check_mod_exist(&catalog, &"hd".to_string()));
    assert_eq!(add_mod_to_db(&mut catalog, &overlay("hd", &["a"], 1)), Ok(()));
    assert!(check_mod_exist(&catalog, &"hd".to_string()));
    assert!(!check_mod_exist(&catalog, &"HD".to_string()));
}

#[test]
fn the_reserved_name_is_taken_from_the_start() {
    let mut catalog = empty_catalog();
    assert!(is_name_taken(&catalog, &"_game_file".to_string()));
    assert!(!is_name_taken(&catalog, &"hd".to_string()));
    assert!(!check_mod_exist(&catalog, &"_game_file".to_string()));
    assert_eq!(
        add_mod_to_db(&mut catalog, &overlay("_game_file", &["a"], 1)),
        Err(ModError::DuplicateOverlay)
    );
    assert!(catalog.mods.is_empty());
    add_mod_to_db(&mut catalog, &overlay("hd", &["a"], 1)).unwrap();
    assert!(is_name_taken(&catalog, &"hd".to_string()));
}

#[test]
fn add_mod_to_db_registers_as_not_applied() {
    let mut catalog = empty_catalog();
    let mut m = overlay("hd", &["a", "b"], 7);
    m.apply = true;
    assert_eq!(add_mod_to_db(&mut catalog, &m), Ok(()));
    assert_eq!(catalog.mods.len(), 1);
    assert_eq!(catalog.mods[0].name, "hd");
    assert_eq!(catalog.mods[0].path, Some(strings(&["a", "b"])));
    assert!(!catalog.mods[0].apply);
    assert_eq!(catalog.mods[0].insert_time, 7);
}

#[test]
fn add_mod_to_db_refuses_a_taken_name() {
    let mut catalog = empty_catalog();
    assert_eq!(add_mod_to_db(&mut catalog, &overlay("hd", &["a"], 1)), Ok(()));
    assert_eq!(
        add_mod_to_db(&mut catalog, &overlay("hd", &["other"], 2)),
        Err(ModError::DuplicateOverlay)
    );
    assert_eq!(catalog.mods.len(), 1);
    assert_eq!(catalog.mods[0].path, Some(strings(&["a"])));
}

#[test]
fn add_mod_to_db_refuses_an_overlay_without_files() {
    let mut catalog = empty_catalog();
    assert_eq!(add_mod_to_db(&mut catalog, &overlay("hd", &[], 1)), Err(ModError::NoFilesFound));
    let mut bare = overlay("hd", &[], 1);
    bare.path = None;
    assert_eq!(add_mod_to_db(&mut catalog, &bare), Err(ModError::NoFilesFound));
    assert!(catalog.mods.is_empty());
}

#[test]
fn update_mod_to_db_sets_only_the_named_flag() {
    let mut catalog = empty_catalog();
    add_mod_to_db(&mut catalog, &overlay("a", &["x"], 1)).unwrap();
    add_mod_to_db(&mut catalog, &overlay("b", &["y"], 2)).unwrap();
    let mut b = overlay("b", &["ignored"], 99);
    b.apply = true;
    update_mod_to_db(&mut catalog, &b);
    assert!(!catalog.mods[0].apply);
    assert!(catalog.mods[1].apply);
    assert_eq!(catalog.mods[1].path, Some(strings(&["y"])));
    assert_eq!(catalog.mods[1].insert_time, 2);
    b.apply = false;
    update_mod_to_db(&mut catalog, &b);
    assert!(!catalog.mods[1].apply);
}

#[test]
fn update_mod_to_db_of_an_unknown_name_changes_nothing() {
    let mut catalog = empty_catalog();
    add_mod_to_db(&mut catalog, &overlay("a", &["x"], 1)).unwrap();
    let mut z = overlay("z", &["x"], 1);
    z.apply = true;
    update_mod_to_db(&mut catalog, &z);
    assert_eq!(catalog.mods.len(), 1);
    assert!(!catalog.mods[0].apply);
}

#[test]
fn game_files_are_kept_once() {
    let mut catalog = empty_catalog();
    add_game_file_to_db(&mut catalog, &strings(&["t1", "t2", "t1", "t3", "t2"]));
    assert_eq!(get_game_file_from_db(&catalog), strings(&["t1", "t2", "t3"]));
    add_game_file_to_db(&mut catalog, &strings(&["t9", "t2"]));
    assert_eq!(get_game_file_from_db(&catalog), strings(&["t1", "t2", "t3", "t9"]));
    add_game_file_to_db(&mut catalog, &Vec::new());
    assert_eq!(get_game_file_from_db(&catalog), strings(&["t1", "t2", "t3", "t9"]));
}

#[test]
fn adding_game_files_tidies_a_list_with_repeats() {
    let mut catalog = empty_catalog();
    catalog.game_files = strings(&["t1", "t1", "t2"]);
    add_game_file_to_db(&mut catalog, &strings(&["t2", "t3"]));
    assert_eq!(catalog.game_files, strings(&["t1", "t2", "t3"]));
}

#[test]
fn merge_paths_appends_what_is_new() {
    assert_eq!(
        merge_paths(strings(&["a", "b"]), &strings(&["b", "c", "c", "a", "d"])),
        strings(&["a", "b", "c", "d"])
    );
    assert_eq!(merge_paths(Vec::new(), &Vec::new()), Vec::<String>::new());
}

#[test]
fn remove_all_game_file_empties_the_set() {
    let mut catalog = empty_catalog();
    add_mod_to_db(&mut catalog, &overlay("a", &["x"], 1)).unwrap();
    add_game_file_to_db(&mut catalog, &strings(&["t1", "t2"]));
    remove_all_game_file(&mut catalog);
    assert!(catalog.game_files.is_empty());
    assert_eq!(catalog.mods.len(), 1);
}

#[test]
fn clear_game_file_backup_ignores_apply_states() {
    let mut catalog = empty_catalog();
    add_mod_to_db(&mut catalog, &overlay("a", &["x"], 1)).unwrap();
    let mut a = overlay("a", &["x"], 1);
    a.apply = true;
    update_mod_to_db(&mut catalog, &a);
    add_game_file_to_db(&mut catalog, &strings(&["t1", "t2"]));
    let archive = clear_game_file_backup(&mut catalog);
    assert_eq!(archive, ".\\mods\\_game_file");
    assert!(get_game_file_from_db(&catalog).is_empty());
    assert!(catalog.mods[0].apply);
}

#[test]
fn get_mods_from_db_joins_rows_by_name() {
    let mut a = ModInfo::new("a".to_string());
    a.insert_time = 5;
    a.apply = true;
    let mut b = ModInfo::new("b".to_string());
    b.insert_time = 6;
    let mut c = ModInfo::new("c".to_string());
    c.insert_time = 7;
    let rows = vec![
        ModFileInfo::new("b".to_string(), "b1".to_string()),
        ModFileInfo::new("a".to_string(), "a1".to_string()),
        ModFileInfo::new("ghost".to_string(), "g1".to_string()),
        ModFileInfo::new("b".to_string(), "b2".to_string()),
    ];
    let mods = get_mods_from_db(&vec![a, b, c], &rows);
    assert_eq!(mods.len(), 3);
    assert_eq!(mods[0].name, "a");
    assert_eq!(mods[0].path, Some(strings(&["a1"])));
    assert!(mods[0].apply);
    assert_eq!(mods[0].insert_time, 5);
    assert_eq!(mods[1].name, "b");
    assert_eq!(mods[1].path, Some(strings(&["b1", "b2"])));
    assert!(!mods[1].apply);
    assert_eq!(mods[2].name, "c");
    assert_eq!(mods[2].path, None);
    assert_eq!(mods[2].insert_time, 7);
}

#[test]
fn exist_mod_path_names_the_holders() {
    let mut catalog = empty_catalog();
    add_mod_to_db(&mut catalog, &overlay("a", &["x", "shared"], 1)).unwrap();
    add_mod_to_db(&mut catalog, &overlay("b", &["y"], 2)).unwrap();
    add_mod_to_db(&mut catalog, &overlay("c", &["shared"], 3)).unwrap();
    assert_eq!(exist_mod_path(&catalog, &"shared".to_string()), strings(&["a", "c"]));
    assert_eq!(exist_mod_path(&catalog, &"y".to_string()), strings(&["b"]));
    assert!(exist_mod_path(&catalog, &"none".to_string()).is_empty());
}

#[test]
fn get_mods_lists_most_recent_first() {
    let mut catalog = empty_catalog();
    add_mod_to_db(&mut catalog, &overlay("old", &["x"], 10)).unwrap();
    add_mod_to_db(&mut catalog, &overlay("new", &["y"], 30)).unwrap();
    add_mod_to_db(&mut catalog, &overlay("mid", &["z"], 20)).unwrap();
    add_mod_to_db(&mut catalog, &overlay("mid2", &["w"], 20)).unwrap();
    let names: Vec<String> = get_mods(&catalog).into_iter().map(|m| m.name).collect();
    assert_eq!(names, strings(&["new", "mid", "mid2", "old"]));
    assert_eq!(catalog.mods.len(), 4);
}

#[test]
fn get_mods_of_an_empty_catalog_is_empty() {
    assert!(get_mods(&empty_catalog()).is_empty());
}

#[test]
fn remove_mod_deletes_the_rows_and_names_the_directory() {
    let mut catalog = empty_catalog();
    add_mod_to_db(&mut catalog, &overlay("a", &["x"], 1)).unwrap();
    add_mod_to_db(&mut catalog, &overlay("b", &["y"], 2)).unwrap();
    add_game_file_to_db(&mut catalog, &strings(&["t1"]));
    let dir = remove_mod(&mut catalog, &overlay("a", &["x"], 1));
    assert_eq!(dir, ".\\mods\\a");
    assert_eq!(catalog.mods.len(), 1);
    assert_eq!(catalog.mods[0].name, "b");
    assert_eq!(catalog.game_files, strings(&["t1"]));
    assert!(!check_mod_exist(&catalog, &"a".to_string()));
    assert!(check_mod_exist(&catalog, &"b".to_string()));
}

#[test]
fn game_path_is_unset_until_configured() {
    let mut game_path = GamePath(None);
    assert_eq!(get_game_path(&game_path), Err(ModError::InstallRootUnset));
    let text = set_game_path("C:\\game".to_string(), &mut game_path);
    assert_eq!(text, Ok("\"C:\\\\game\"".to_string()));
    assert_eq!(get_game_path(&game_path), Ok("C:\\game".to_string()));
    let text = set_game_path("D:\\other".to_string(), &mut game_path);
    assert_eq!(text, Ok("\"D:\\\\other\"".to_string()));
    assert_eq!(get_game_path(&game_path), Ok("D:\\other".to_string()));
}

#[test]
fn settings_text_round_trips_through_load() {
    let mut game_path = GamePath(None);
    let text = set_game_path("C:\\Games\\\"quoted\"".to_string(), &mut game_path).unwrap();
    assert_ne!(text, "C:\\Games\\\"quoted\"");
    let loaded = load_game_path(&text);
    assert_eq!(loaded.0, Some("C:\\Games\\\"quoted\"".to_string()));
}

#[test]
fn load_game_path_of_other_text_is_unset() {
    assert_eq!(load_game_path("").0, None);
    assert_eq!(load_game_path("42").0, None);
    assert_eq!(load_game_path("null").0, None);
    assert_eq!(load_game_path("\"plain\"").0, Some("plain".to_string()));
}

#[test]
fn settings_text_reports_a_missing_text() {
    assert_eq!(settings_text(Some("x".to_string())), Ok("x".to_string()));
    assert_eq!(settings_text(None), Err(ModError::IOFailure { processed: 0 }));
}

#[test]
fn small_helpers_on_path_lists() {
    let paths = strings(&["a", "b", "a", "c"]);
    assert!(contains_path(&paths, &"b".to_string()));
    assert!(!contains_path(&paths, &"d".to_string()));
    assert_eq!(clone_paths(&paths), paths);
    assert_eq!(remove_path(&paths, &"a".to_string()), strings(&["b", "c"]));
    assert_eq!(remove_path(&paths, &"zz".to_string()), paths);
    let copy = copy_with_apply(&overlay("a", &["x"], 4), true);
    assert_eq!(copy.name, "a");
    assert_eq!(copy.path, Some(strings(&["x"])));
    assert!(copy.apply);
    assert_eq!(copy.insert_time, 4);
}

#[test]
fn load_catalog_separates_overlays_from_preserved_paths() {
    let mut a = ModInfo::new("a".to_string());
    a.insert_time = 5;
    let mut odd = ModInfo::new("_game_file".to_string());
    odd.insert_time = 6;
    let rows = vec![
        ModFileInfo::new("a".to_string(), "a1".to_string()),
        ModFileInfo::new("_game_file".to_string(), "t1".to_string()),
        ModFileInfo::new("a".to_string(), "a2".to_string()),
        ModFileInfo::new("_game_file".to_string(), "t2".to_string()),
        ModFileInfo::new("_game_file".to_string(), "t1".to_string()),
    ];
    assert_eq!(files_named(&rows, &"a".to_string()), strings(&["a1", "a2"]));
    let catalog = load_catalog(&vec![a, odd], &rows);
    assert_eq!(catalog.mods.len(), 2);
    assert_eq!(catalog.mods[0].path, Some(strings(&["a1", "a2"])));
    assert_eq!(catalog.mods[1].name, "_game_file");
    assert_eq!(catalog.mods[1].path, None);
    assert_eq!(catalog.game_files, strings(&["t1", "t2"]));
}
