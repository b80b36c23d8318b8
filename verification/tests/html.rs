use album_maker::html_builder::{
    space_pad, to_class_string, to_property_string, HtmlDom, HtmlElement, HtmlElementType,
};
use album_maker::html_generation::{create_html_index, format_dir_template, format_image_template};
use album_maker::record::{ActionRecord, PhotoAction};
use album_maker::snapshot::{DirTree, FileEntry};
use album_maker::staleness::Timestamp;
use album_maker::walker::walk;

#[test]
fn build_hello_world() {
    let mut dom = HtmlDom::new();
    dom.add_element(
        HtmlElement::new(HtmlElementType::Head)
            .add_element(
                HtmlElement::new(HtmlElementType::Link)
                    .set_rel("stylesheet")
                    .set_href("styles.css"),
            )
            .add_element(HtmlElement::new(HtmlElementType::Script).set_src("main.js"))
            .add_element(HtmlElement::new(HtmlElementType::Title).set_text("Photo Album")),
    );
    dom.add_element(
        HtmlElement::new(HtmlElementType::Body)
            .add_element(HtmlElement::new(HtmlElementType::Ul).add_class("dirs_list"))
            .add_element(HtmlElement::new(HtmlElementType::Ul).set_text("images_list")),
    );
    let rendered = dom.render();
    let expected = "<!DOCTYPE html>\n<head class=\"\">\n    <link rel=\"stylesheet\" href=\"styles.css\">\n    <script src=\"main.js\"></script>\n    <title>Photo Album</title>\n</head>\n<body class=\"\">\n    <ul class=\"dirs_list \">\n    </ul>\n    <ul class=\"\">\n    </ul>\n</body>\n";
    assert_eq!(rendered, expected);
}

#[test]
fn class_string_quirks() {
    assert_eq!(to_class_string(vec![]), "\"\"");
    assert_eq!(to_class_string(vec![String::from("a")]), "\"a \"");
    // Names are run together; only the last one gets a trailing space.
    assert_eq!(to_class_string(vec![String::from("a"), String::from("b")]), "\"ab \"");
}

#[test]
fn property_and_padding() {
    assert_eq!(to_property_string(Some(String::from("x"))), "\"x\"");
    assert_eq!(to_property_string(None), "\"\"");
    assert_eq!(space_pad(0), "");
    assert_eq!(space_pad(2), "        ");
}

#[test]
fn image_entry_markup() {
    let pa = PhotoAction::new(
        String::from("/root"),
        String::from("A.jpg"),
        String::from("cacheDir/A.jpg"),
    );
    let mut out = String::new();
    format_image_template(&pa).render(0, &mut out);
    let expected = "<div class=\"images_item \">\n    <a class=\"images_linkdisp_img \" href=\"A.jpg\">\n        <img class=\"\" src=\"cacheDir/A.jpg\" alt=\"A.jpg\">\n    </a>\n</div>\n";
    assert_eq!(out, expected);
}

#[test]
fn dir_entry_markup_with_cover() {
    let mut rec = ActionRecord::new(&String::from("/top/Sub"));
    rec.add_photo_action(PhotoAction::new(
        String::from("/top/Sub"),
        String::from("c.png"),
        String::from("cacheDir/c.png"),
    ));
    let mut out = String::new();
    format_dir_template(&rec, false).render(0, &mut out);
    let expected = "<div class=\"dirs_item \">\n    <a class=\"dirs_link \" href=\"/top/Sub/index.html\">\n        <img class=\"dirs_img \" src=\"/top/Sub/cacheDir/c.png\" alt=\"Sub\">\n        <p class=\"\">Sub</p>\n    </a>\n</div>\n";
    assert_eq!(out, expected);
}

#[test]
fn dir_entry_markup_local_resources() {
    let mut rec = ActionRecord::new(&String::from("/top/Sub"));
    rec.add_photo_action(PhotoAction::new(
        String::from("/top/Sub"),
        String::from("c.png"),
        String::from("cacheDir/c.png"),
    ));
    let mut out = String::new();
    format_dir_template(&rec, true).render(0, &mut out);
    // Both the index link and the cover are re-rooted under `.` at `Sub`.
    let expected = "<div class=\"dirs_item \">\n    <a class=\"dirs_link \" href=\"./Sub/index.html\">\n        <img class=\"dirs_img \" src=\"./Sub/cacheDir/c.png\" alt=\"Sub\">\n        <p class=\"\">Sub</p>\n    </a>\n</div>\n";
    assert_eq!(out, expected);
}

#[test]
fn dir_entry_markup_without_cover() {
    let rec = ActionRecord::new(&String::from("/top/Empty"));
    let mut out = String::new();
    format_dir_template(&rec, false).render(0, &mut out);
    let expected = "<div class=\"dirs_item \">\n    <a class=\"dirs_link \" href=\"\">\n        <img class=\"\" src=\"\" alt=\"\">\n    </a>\n</div>\n";
    assert_eq!(out, expected);
}

#[test]
fn index_page_for_empty_directory() {
    let rec = ActionRecord::new(&String::from("/root"));
    let page = create_html_index(&rec, &String::from("/res"), false);
    let expected = "<!DOCTYPE html>\n<head class=\"\">\n    <link rel=\"stylesheet\" href=\"/res/styles.css\">\n    <script src=\"/res/main.js\"></script>\n    <title>Photo Album</title>\n</head>\n<body class=\"\">\n</body>\n";
    assert_eq!(page, expected);
}

#[test]
fn index_page_local_resources_point_into_cache() {
    let rec = ActionRecord::new(&String::from("/root"));
    let page = create_html_index(&rec, &String::from("/res"), true);
    assert!(page.contains("href=\"./cacheDir/styles.css\""));
    assert!(page.contains("src=\"./cacheDir/main.js\""));
}

#[test]
fn identical_walks_give_identical_pages() {
    let make_tree = || DirTree {
        name: String::from("root"),
        subdirs: vec![DirTree {
            name: String::from("Sub"),
            subdirs: vec![],
            files: vec![FileEntry {
                name: String::from("c.png"),
                created: Timestamp::Known(10),
                derivative_created: Timestamp::Missing,
                readable: true,
            }],
        }],
        files: vec![FileEntry {
            name: String::from("a.jpg"),
            created: Timestamp::Known(10),
            derivative_created: Timestamp::Missing,
            readable: true,
        }],
    };
    let path = String::from("/top/root");
    let res = String::from("/res");
    let rec1 = walk(make_tree(), &path, 0, 2, false, false).unwrap();
    let rec2 = walk(make_tree(), &path, 0, 2, false, false).unwrap();
    let page1 = create_html_index(&rec1, &res, false);
    let page2 = create_html_index(&rec2, &res, false);
    assert_eq!(page1, page2);
    // The page lists both the subdirectory and the image.
    assert!(page1.contains("Sub Directories"));
    assert!(page1.contains("Images"));
    assert!(page1.contains("href=\"a.jpg\""));
    assert!(page1.contains("src=\"cacheDir/a.jpg\""));
}
