use album_maker::record::ActionRecord;
use album_maker::snapshot::{classify_entry, keeps_dir, sort_entries, DirTree, FileEntry, FileKind};
use album_maker::staleness::Timestamp;
use album_maker::walker::{plan_cache_dir, plan_photos, walk};

fn file(name: &str, created: Timestamp, derivative: Timestamp, readable: bool) -> FileEntry {
    FileEntry { name: String::from(name), created, derivative_created: derivative, readable }
}

fn fresh_image(name: &str) -> FileEntry {
    file(name, Timestamp::Known(10), Timestamp::Known(11), true)
}

fn new_image(name: &str) -> FileEntry {
    file(name, Timestamp::Known(10), Timestamp::Missing, true)
}

fn dir(name: &str, subdirs: Vec<DirTree>, files: Vec<FileEntry>) -> DirTree {
    DirTree { name: String::from(name), subdirs, files }
}

fn photo_names(rec: &ActionRecord) -> Vec<String> {
    rec.get_photos().iter().map(|p| p.get_actual()).collect()
}

#[test]
fn example_tree() {
    // Root holds `b.png` and `A.jpg` plus subdirectory `Sub/` with `c.png`.
    let tree = dir(
        "root",
        vec![dir("Sub", vec![], vec![new_image("c.png")])],
        vec![new_image("b.png"), new_image("A.jpg")],
    );
    let rec = walk(tree, &String::from("/top/root"), 0, 1, false, false).unwrap();
    assert_eq!(rec.get_path(), "/top/root");
    assert_eq!(photo_names(&rec), vec!["A.jpg".to_string(), "b.png".to_string()]);
    assert_eq!(rec.get_subdirs().len(), 1);
    let sub = &rec.get_subdirs()[0];
    assert_eq!(sub.get_path(), "/top/root/Sub");
    assert_eq!(photo_names(sub), vec!["c.png".to_string()]);
    // The downsized copy sits under the cache directory, same file name.
    assert_eq!(rec.get_photos()[0].get_downsized(), "cacheDir/A.jpg");
    assert_eq!(rec.get_photos()[0].get_dir(), "/top/root");
}

#[test]
fn depth_bound_prunes_silently() {
    let tree = dir(
        "root",
        vec![dir("Sub", vec![dir("Deeper", vec![], vec![new_image("d.png")])], vec![
            new_image("c.png"),
        ])],
        vec![new_image("a.jpg")],
    );
    // With the bound at zero the subdirectory yields no record at all.
    let rec = walk(tree, &String::from("/root"), 0, 0, false, false).unwrap();
    assert_eq!(rec.get_subdirs().len(), 0);
    assert_eq!(photo_names(&rec), vec!["a.jpg".to_string()]);

    // A call already beyond the bound returns nothing.
    let pruned = walk(dir("x", vec![], vec![]), &String::from("/x"), 3, 2, false, false);
    assert!(pruned.is_none());

    // With the bound at one, `Sub` appears but `Deeper` does not.
    let tree2 = dir(
        "root",
        vec![dir("Sub", vec![dir("Deeper", vec![], vec![new_image("d.png")])], vec![
            new_image("c.png"),
        ])],
        vec![],
    );
    let rec2 = walk(tree2, &String::from("/root"), 0, 1, false, false).unwrap();
    assert_eq!(rec2.get_subdirs().len(), 1);
    assert_eq!(rec2.get_subdirs()[0].get_subdirs().len(), 0);
}

#[test]
fn visit_order_is_case_insensitive_alphabetical() {
    let tree = dir(
        "root",
        vec![
            dir("banana", vec![], vec![]),
            dir("Apple", vec![], vec![]),
            dir("cherry", vec![], vec![]),
        ],
        vec![],
    );
    let rec = walk(tree, &String::from("/root"), 0, 5, false, false).unwrap();
    let names: Vec<String> = rec.get_subdirs().iter().map(|s| s.get_path()).collect();
    assert_eq!(
        names,
        vec![
            "/root/Apple".to_string(),
            "/root/banana".to_string(),
            "/root/cherry".to_string()
        ]
    );
}

#[test]
fn photo_order_is_case_insensitive_and_stable() {
    let tree = dir(
        "root",
        vec![],
        vec![
            new_image("b.png"),
            new_image("A.jpg"),
            new_image("C.png"),
            new_image("a.jpg"),
        ],
    );
    let rec = walk(tree, &String::from("/root"), 0, 1, false, false).unwrap();
    // `A.jpg` and `a.jpg` share a key; the earlier one stays first.
    assert_eq!(
        photo_names(&rec),
        vec![
            "A.jpg".to_string(),
            "a.jpg".to_string(),
            "b.png".to_string(),
            "C.png".to_string()
        ]
    );
}

#[test]
fn reserved_and_hidden_directories_are_not_visited() {
    let tree = dir(
        "root",
        vec![
            dir("cacheDir", vec![], vec![new_image("x.png")]),
            dir("imageCache", vec![], vec![new_image("y.png")]),
            dir(".hidden", vec![], vec![new_image("z.png")]),
            dir("Real", vec![], vec![]),
        ],
        vec![],
    );
    let rec = walk(tree, &String::from("/root"), 0, 3, false, false).unwrap();
    assert_eq!(rec.get_subdirs().len(), 1);
    assert_eq!(rec.get_subdirs()[0].get_path(), "/root/Real");
    assert!(!keeps_dir(&String::from("cacheDir")));
    assert!(!keeps_dir(&String::from("imageCache")));
    assert!(!keeps_dir(&String::from(".hidden")));
    assert!(keeps_dir(&String::from("Real")));
}

#[test]
fn partial_failure_keeps_the_other_photos() {
    // Three images all need regeneration; one of them cannot be read.
    let tree = dir(
        "root",
        vec![],
        vec![
            new_image("a.jpg"),
            file("broken.png", Timestamp::Known(10), Timestamp::Missing, false),
            new_image("c.png"),
        ],
    );
    let rec = walk(tree, &String::from("/root"), 0, 1, false, false).unwrap();
    assert_eq!(photo_names(&rec), vec!["a.jpg".to_string(), "c.png".to_string()]);
}

#[test]
fn skipped_photo_stays_even_if_unreadable() {
    // A fresh derivative means no conversion is attempted, so an unreadable
    // source is never noticed and the photo stays in the record.
    let tree = dir(
        "root",
        vec![],
        vec![file("a.jpg", Timestamp::Known(10), Timestamp::Known(11), false)],
    );
    let rec = walk(tree, &String::from("/root"), 0, 1, false, false).unwrap();
    assert_eq!(photo_names(&rec), vec!["a.jpg".to_string()]);
}

#[test]
fn second_run_plans_no_regeneration() {
    // First run: no derivatives yet, everything is planned for regeneration.
    let first = plan_photos(
        &String::from("/root"),
        vec![new_image("a.jpg"), new_image("b.png")],
        false,
        false,
    );
    assert!(first.iter().all(|p| p.regenerate));

    // Second run: every derivative is now newer than its source, and with
    // neither clean nor force the oracle skips every file.
    let second = plan_photos(
        &String::from("/root"),
        vec![fresh_image("a.jpg"), fresh_image("b.png")],
        false,
        false,
    );
    assert_eq!(second.len(), 2);
    assert!(second.iter().all(|p| !p.regenerate));
}

#[test]
fn clean_flag_regenerates_everything() {
    // Even derivatives that look perfectly fresh are regenerated: the cache
    // directory is wiped first, so nothing cached survives.
    let plans = plan_photos(
        &String::from("/root"),
        vec![fresh_image("a.jpg"), fresh_image("b.png")],
        true,
        false,
    );
    assert_eq!(plans.len(), 2);
    assert!(plans.iter().all(|p| p.regenerate));
}

#[test]
fn force_flag_regenerates_everything() {
    let plans = plan_photos(
        &String::from("/root"),
        vec![fresh_image("a.jpg")],
        false,
        true,
    );
    assert!(plans.iter().all(|p| p.regenerate));
}

#[test]
fn classifier_partition() {
    assert_eq!(classify_entry(&String::from("a.jpg")), FileKind::Image);
    assert_eq!(classify_entry(&String::from("a.jpeg")), FileKind::Image);
    assert_eq!(classify_entry(&String::from("a.png")), FileKind::Image);
    assert_eq!(classify_entry(&String::from("index.html")), FileKind::GeneratedHtml);
    assert_eq!(classify_entry(&String::from("notes.txt")), FileKind::Other);
    assert_eq!(classify_entry(&String::from("noextension")), FileKind::Other);
}

#[test]
fn sort_entries_orders_by_folded_name() {
    let sorted = sort_entries(vec![
        new_image("delta.png"),
        new_image("ALPHA.png"),
        new_image("beta.png"),
    ]);
    let names: Vec<String> = sorted.iter().map(|f| f.name.clone()).collect();
    assert_eq!(
        names,
        vec!["ALPHA.png".to_string(), "beta.png".to_string(), "delta.png".to_string()]
    );
}

#[test]
fn html_and_other_files_are_not_photos() {
    let tree = dir(
        "root",
        vec![],
        vec![
            new_image("a.jpg"),
            file("index.html", Timestamp::Known(1), Timestamp::Missing, true),
            file("notes.txt", Timestamp::Known(1), Timestamp::Missing, true),
        ],
    );
    let rec = walk(tree, &String::from("/root"), 0, 1, false, false).unwrap();
    assert_eq!(photo_names(&rec), vec!["a.jpg".to_string()]);
}

#[test]
fn cache_preparation_decisions() {
    // Cleaning wipes an existing cache and recreates it.
    let p = plan_cache_dir(true, true, false);
    assert!(p.wipe && p.create && !p.purge_legacy);
    // Cleaning with no cache yet only creates.
    let p = plan_cache_dir(true, false, false);
    assert!(!p.wipe && p.create);
    // Without cleaning an existing cache is left alone.
    let p = plan_cache_dir(false, true, false);
    assert!(!p.wipe && !p.create);
    // A missing cache is always created, and a legacy cache always purged.
    let p = plan_cache_dir(false, false, true);
    assert!(!p.wipe && p.create && p.purge_legacy);
}
