use pngs::paths::{dir_name, output_dir};
use typed_path::Utf8NativePath;

#[test]
fn directory_is_named_after_the_stem() {
    assert_eq!(dir_name("game"), "game_pngs");
    assert_eq!(dir_name(""), "_pngs");
    assert_eq!(dir_name("default.xex"), "default.xex_pngs");
}

#[test]
fn output_directory_stands_beside_the_file() {
    let expected = Utf8NativePath::new("some").join("dir").join("game_pngs").into_string();
    let file = Utf8NativePath::new("some").join("dir").join("game.exe").into_string();
    assert_eq!(output_dir(&file), Some(expected));
    if std::path::MAIN_SEPARATOR == '/' {
        assert_eq!(output_dir("some/dir/game.exe"), Some(String::from("some/dir/game_pngs")));
        assert_eq!(output_dir("/abs/default.xex"), Some(String::from("/abs/default_pngs")));
        assert_eq!(output_dir("/top.bin"), Some(String::from("/top_pngs")));
    }
}

#[test]
fn output_directory_of_a_bare_file_name_is_relative() {
    assert_eq!(output_dir("game.exe"), Some(String::from("game_pngs")));
    assert_eq!(output_dir("archive.tar.gz"), Some(String::from("archive.tar_pngs")));
    assert_eq!(output_dir("noext"), Some(String::from("noext_pngs")));
    assert_eq!(output_dir(".hidden"), Some(String::from(".hidden_pngs")));
}

#[test]
fn path_without_a_file_name_has_no_output_directory() {
    assert_eq!(output_dir(""), None);
    assert_eq!(output_dir(".."), None);
    let up = Utf8NativePath::new("dir").join("..").into_string();
    assert_eq!(output_dir(&up), None);
    if std::path::MAIN_SEPARATOR == '/' {
        assert_eq!(output_dir("/"), None);
    }
}
