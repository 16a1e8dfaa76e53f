use mod_manager::error::ModError;
use mod_manager::paths::{
    archive_dir, archive_path, base_name, lies_under, managed_dir, replace_prefix, starts_with,
    target_path, trim_separators,
};

#[test]
fn starts_with_accepts_a_leading_prefix() {
    assert!(starts_with(".\\mods\\hd\\a.txt", ".\\mods\\hd"));
    assert!(starts_with("abc", ""));
    assert!(starts_with("abc", "abc"));
}

#[test]
fn starts_with_refuses_anything_else() {
    assert!(!starts_with("abc", "abcd"));
    assert!(!starts_with("xabc", "abc"));
    assert!(!starts_with("", "a"));
}

#[test]
fn replace_prefix_swaps_only_the_head() {
    assert_eq!(replace_prefix("aa/aa/x", "aa", "b"), Some(String::from("b/aa/x")));
    assert_eq!(replace_prefix("aa", "aa", ""), Some(String::new()));
    assert_eq!(replace_prefix("x/aa", "aa", "b"), None);
}

#[test]
fn replace_prefix_counts_characters_not_bytes() {
    assert_eq!(
        replace_prefix("模组/图.png", "模组", "游戏"),
        Some(String::from("游戏/图.png"))
    );
}

#[test]
fn managed_and_archive_directories() {
    assert_eq!(managed_dir("hd"), ".\\mods\\hd");
    assert_eq!(archive_dir(), ".\\mods\\_game_file");
}

#[test]
fn target_path_substitutes_the_install_root() {
    assert_eq!(
        target_path(".\\mods\\hd\\data\\a.pak", "hd", "C:\\game"),
        Ok(String::from("C:\\game\\data\\a.pak"))
    );
}

#[test]
fn archive_path_substitutes_the_archive_root() {
    assert_eq!(
        archive_path(".\\mods\\hd\\data\\a.pak", "hd"),
        Ok(String::from(".\\mods\\_game_file\\data\\a.pak"))
    );
}

#[test]
fn paths_outside_the_overlay_are_mapping_errors() {
    assert_eq!(target_path(".\\mods\\other\\a", "hd", "C:\\game"), Err(ModError::MappingError));
    assert_eq!(archive_path("C:\\elsewhere\\a", "hd"), Err(ModError::MappingError));
}

#[test]
fn base_name_is_the_last_component() {
    assert_eq!(base_name("C:\\downloads\\hd"), "hd");
    assert_eq!(base_name("/home/me/mods/hd_textures"), "hd_textures");
    assert_eq!(base_name("plain"), "plain");
}

#[test]
fn base_name_sets_trailing_separators_aside() {
    assert_eq!(base_name("C:\\downloads\\hd\\"), "hd");
    assert_eq!(base_name("a/b/"), "b");
    assert_eq!(base_name("a/b//\\"), "b");
}

#[test]
fn base_name_of_a_path_without_a_component_is_empty() {
    assert_eq!(base_name(""), "");
    assert_eq!(base_name("/"), "");
    assert_eq!(base_name("\\/\\"), "");
}

#[test]
fn trim_separators_cuts_only_the_end() {
    assert_eq!(trim_separators("/a/b//"), "/a/b");
    assert_eq!(trim_separators("a\\b\\"), "a\\b");
    assert_eq!(trim_separators("a/b"), "a/b");
    assert_eq!(trim_separators("///"), "");
    assert_eq!(trim_separators(""), "");
}

#[test]
fn lies_under_wants_a_separator_after_the_directory() {
    assert!(lies_under(".\\mods\\m\\a.txt", ".\\mods\\m"));
    assert!(lies_under("/src/hd/a", "/src/hd"));
    assert!(!lies_under(".\\mods\\mm\\a.txt", ".\\mods\\m"));
    assert!(!lies_under(".\\mods\\m", ".\\mods\\m"));
    assert!(!lies_under("/other/a", "/src/hd"));
}

#[test]
fn the_managed_directory_itself_is_no_file_of_the_overlay() {
    assert_eq!(target_path(".\\mods\\hd", "hd", "C:\\game"), Err(ModError::MappingError));
    assert_eq!(target_path(".\\mods\\hdx\\a", "hd", "C:\\game"), Err(ModError::MappingError));
    assert_eq!(archive_path(".\\mods\\hdx\\a", "hd"), Err(ModError::MappingError));
}

#[test]
fn error_messages_differ() {
    let all = vec![
        ModError::DuplicateOverlay,
        ModError::NoFilesFound,
        ModError::SourceNotFound,
        ModError::MappingError,
        ModError::InstallRootUnset,
        ModError::IOFailure { processed: 3 },
    ];
    for (i, a) in all.iter().enumerate() {
        assert!(!a.message().is_empty());
        for b in all.iter().skip(i + 1) {
            assert_ne!(a.message(), b.message());
        }
    }
    assert_eq!(ModError::InstallRootUnset.message(), "installation root is not set");
}
