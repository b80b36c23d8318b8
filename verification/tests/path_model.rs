use album_maker::paths::{
    extension_of, file_name, get_cache_dir_path, is_html_file, is_image_file, parent_path,
    path_join, split_components,
};

#[test]
fn file_name_and_parent() {
    let p = String::from("/photos/trip/a.jpg");
    assert_eq!(file_name(&p), "a.jpg");
    assert_eq!(parent_path(&p), "/photos/trip");

    let bare = String::from("a.jpg");
    assert_eq!(file_name(&bare), "a.jpg");
    assert_eq!(parent_path(&bare), "");

    let top = String::from("/a.jpg");
    assert_eq!(file_name(&top), "a.jpg");
    assert_eq!(parent_path(&top), "/");
}

#[test]
fn join_inserts_one_separator() {
    assert_eq!(path_join(&String::from("/photos"), "cacheDir"), "/photos/cacheDir");
    assert_eq!(path_join(&String::from(""), "cacheDir"), "cacheDir");
    assert_eq!(path_join(&String::from("/"), "a.jpg"), "/a.jpg");
}

#[test]
fn extension_rules() {
    assert_eq!(extension_of(&String::from("a.jpg")), Some(String::from("jpg")));
    assert_eq!(extension_of(&String::from("/d/archive.tar.gz")), Some(String::from("gz")));
    assert_eq!(extension_of(&String::from("README")), None);
    // A hidden file whose only dot is the leading one has no extension.
    assert_eq!(extension_of(&String::from(".bashrc")), None);
    assert_eq!(extension_of(&String::from("trailing.")), Some(String::from("")));
}

#[test]
fn image_allow_list_is_case_sensitive() {
    assert!(is_image_file(&String::from("a.jpg")));
    assert!(is_image_file(&String::from("b.jpeg")));
    assert!(is_image_file(&String::from("c.png")));
    assert!(!is_image_file(&String::from("d.JPG")));
    assert!(!is_image_file(&String::from("e.gif")));
    assert!(!is_image_file(&String::from("noextension")));
}

#[test]
fn html_recognition() {
    assert!(is_html_file(&String::from("index.html")));
    assert!(!is_html_file(&String::from("index.htm")));
    assert!(!is_html_file(&String::from("index")));
}

#[test]
fn cache_dir_path_shape() {
    let p = String::from("/photos/trip/a.jpg");
    assert_eq!(get_cache_dir_path(&p, "cacheDir"), "/photos/trip/cacheDir/a.jpg");
    let rel = String::from("a.jpg");
    assert_eq!(get_cache_dir_path(&rel, "cacheDir"), "cacheDir/a.jpg");
}

#[test]
fn components_split() {
    let abs = String::from("/a/b/c.txt");
    let comps = split_components(&abs);
    assert_eq!(comps, vec!["/".to_string(), "a".to_string(), "b".to_string(), "c.txt".to_string()]);
    let rel = String::from("a/b");
    assert_eq!(split_components(&rel), vec!["a".to_string(), "b".to_string()]);
    let empty = String::from("");
    assert!(split_components(&empty).is_empty());
}
