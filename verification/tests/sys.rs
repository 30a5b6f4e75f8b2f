use csv2json::sys::{get_file_name, name_from_stem, Stem};

#[test]
fn the_file_name_loses_directory_and_extension() {
    assert_eq!(get_file_name("data/input.csv"), Some("input".to_string()));
    assert_eq!(get_file_name("input.csv"), Some("input".to_string()));
    assert_eq!(get_file_name("archive.tar.gz"), Some("archive.tar".to_string()));
    assert_eq!(get_file_name("output"), Some("output".to_string()));
    assert_eq!(get_file_name(".hidden"), Some(".hidden".to_string()));
}

#[test]
fn a_path_without_a_file_name_has_none() {
    assert_eq!(get_file_name(""), None);
    assert_eq!(get_file_name(".."), None);
    assert_eq!(get_file_name("/"), None);
}

#[test]
fn only_a_stem_that_is_text_gives_a_name() {
    assert_eq!(name_from_stem(Stem::Text("input".to_string())), Some("input".to_string()));
    assert_eq!(name_from_stem(Stem::Text(String::new())), Some(String::new()));
    assert_eq!(name_from_stem(Stem::Absent), None);
    assert_eq!(name_from_stem(Stem::NotText), None);
}
