//! A snapshot of the directory tree the walker runs over, and the
//! classification of its entries.
//!
//! The walker itself never touches the filesystem: the caller lists each
//! directory once and hands the walker this plain-value picture of it.  A
//! file entry carries the creation times the lister observed for the file
//! and for its cached derivative, and whether the file's content could be
//! read and converted; a directory entry carries its own entries.

use vstd::prelude::*;
use crate::order::{
    ci_insert,
    ci_le,
    ci_leq,
    ci_sort_by,
    lemma_ci_insert_position,
};
use crate::paths::{is_image_file, is_html_file, spec_is_image_file, spec_is_html_file, str_eq};
use crate::staleness::Timestamp;

verus! {

/// One plain file of a directory, as the lister saw it.
pub struct FileEntry {
    /// The entry's file name (no separators).
    pub name: String,
    /// Creation time of the file itself.
    pub created: Timestamp,
    /// Creation time of `cacheDir/<name>`, the file's cached derivative.
    pub derivative_created: Timestamp,
    /// Whether the file's content can be read and converted; a corrupt or
    /// unreadable image has `false` here and is dropped from the record when
    /// its conversion is attempted.
    pub readable: bool,
}

/// One directory of the snapshot: its entry name, its subdirectories and its
/// plain files.  Entries whose kind could not even be determined are dropped
/// by the lister and do not appear at all.
pub struct DirTree {
    /// The entry's name (no separators); unused for the root of the walk,
    /// whose full path is passed separately.
    pub name: String,
    /// The subdirectories, in no particular order.
    pub subdirs: Vec<DirTree>,
    /// The plain files, in no particular order.
    pub files: Vec<FileEntry>,
}

/// The reserved cache subdirectory name.
pub open spec fn spec_cache_dir_name() -> Seq<char> {
    "cacheDir"@
}

/// The cache subdirectory name an earlier version of the tool used; it is
/// purged, never visited.
pub open spec fn spec_legacy_cache_dir_name() -> Seq<char> {
    "imageCache"@
}

/// The reserved cache subdirectory name.
pub fn cache_dir_name() -> (r: &'static str)
    ensures
        r@ == spec_cache_dir_name(),
{
    "cacheDir"
}

/// The legacy cache subdirectory name.
pub fn legacy_cache_dir_name() -> (r: &'static str)
    ensures
        r@ == spec_legacy_cache_dir_name(),
{
    "imageCache"
}

/// How one plain file is treated.
#[derive(Clone, Copy, PartialEq, Eq, Structural, Debug)]
pub enum FileKind {
    /// An image on the allow-list: a thumbnail is produced for it.
    Image,
    /// Previously generated HTML: deleted, so every run regenerates it.
    GeneratedHtml,
    /// Anything else: ignored.
    Other,
}

/// The classifier's verdict on one file name.
pub open spec fn spec_classify(name: Seq<char>) -> FileKind {
    if spec_is_image_file(name) {
        FileKind::Image
    } else if spec_is_html_file(name) {
        FileKind::GeneratedHtml
    } else {
        FileKind::Other
    }
}

/// Partitions one plain file by its name: image, generated HTML, or ignored.
pub fn classify_entry(name: &String) -> (k: FileKind)
    ensures
        k == spec_classify(name@),
{
    if is_image_file(name) {
        FileKind::Image
    } else if is_html_file(name) {
        FileKind::GeneratedHtml
    } else {
        FileKind::Other
    }
}

/// Whether the walk descends into a subdirectory of this name: the reserved
/// cache directory, the legacy cache directory and hidden entries (a leading
/// dot) are excluded.
pub open spec fn spec_keeps_dir(name: Seq<char>) -> bool {
    &&& name != spec_cache_dir_name()
    &&& name != spec_legacy_cache_dir_name()
    &&& !(name.len() > 0 && name[0] == '.')
}

/// Whether the walk descends into a subdirectory of this name.
pub fn keeps_dir(name: &String) -> (r: bool)
    ensures
        r == spec_keeps_dir(name@),
{
    if str_eq(name.as_str(), "cacheDir") {
        return false;
    }
    if str_eq(name.as_str(), "imageCache") {
        return false;
    }
    let n = name.as_str().unicode_len();
    if n > 0 && name.as_str().get_char(0) == '.' {
        return false;
    }
    true
}

/// The sort key of a file entry: its name.
pub open spec fn file_name_key() -> spec_fn(FileEntry) -> Seq<char> {
    |f: FileEntry| f.name@
}

/// The sort key of a directory entry: its name.
pub open spec fn tree_name_key() -> spec_fn(DirTree) -> Seq<char> {
    |t: DirTree| t.name@
}

/// The subdirectories the walk descends into.
pub open spec fn keeps_pred() -> spec_fn(DirTree) -> bool {
    |t: DirTree| spec_keeps_dir(t.name@)
}

/// The files the walk plans thumbnails for.
pub open spec fn image_pred() -> spec_fn(FileEntry) -> bool {
    |f: FileEntry| spec_is_image_file(f.name@)
}

/// The order in which a directory's subdirectories are visited: the kept
/// ones, sorted case-insensitively by name.
pub open spec fn spec_visit_order(subs: Seq<DirTree>) -> Seq<DirTree> {
    ci_sort_by(tree_name_key(), subs.filter(keeps_pred()))
}

/// A directory's image files in the order their photo actions take: sorted
/// case-insensitively by name.
pub open spec fn spec_sorted_images(files: Seq<FileEntry>) -> Seq<FileEntry> {
    ci_sort_by(file_name_key(), files.filter(image_pred()))
}

/// The place the stable insertion gives a new file entry: after every entry
/// whose name sorts at or below its own.
fn entry_position(out: &Vec<FileEntry>, x: &FileEntry) -> (j: usize)
    ensures
        j <= out@.len(),
        forall|k: int| 0 <= k < j ==> ci_le((#[trigger] out@[k]).name@, x.name@),
        j < out@.len() ==> !ci_le(out@[j as int].name@, x.name@),
{
    let mut j: usize = 0;
    while j < out.len()
        invariant
            j <= out@.len(),
            forall|k: int| 0 <= k < j ==> ci_le((#[trigger] out@[k]).name@, x.name@),
        decreases out@.len() - j,
    {
        if !ci_leq(out[j].name.as_str(), x.name.as_str()) {
            return j;
        }
        j = j + 1;
    }
    j
}

/// Inserts one file entry into an already sorted vector, stably.
fn insert_entry(out: &mut Vec<FileEntry>, x: FileEntry)
    ensures
        final(out)@ == ci_insert(file_name_key(), x, old(out)@),
{
    let ghost s = out@;
    let j = entry_position(out, &x);
    proof {
        lemma_ci_insert_position(file_name_key(), x, s, j as int);
    }
    out.insert(j, x);
    proof {
        assert(out@ =~= s.subrange(0, j as int) + seq![x] + s.subrange(j as int, s.len() as int));
    }
}

/// Sorts file entries by case-insensitive name, stably.
pub fn sort_entries(v: Vec<FileEntry>) -> (r: Vec<FileEntry>)
    ensures
        r@ == ci_sort_by(file_name_key(), v@),
{
    let mut rest = v;
    let ghost v0 = rest@;
    let mut out: Vec<FileEntry> = Vec::new();
    proof {
        assert(v0.take(0) =~= Seq::<FileEntry>::empty());
        assert(v0.skip(0) =~= v0);
    }
    while rest.len() > 0
        invariant
            rest@.len() <= v0.len(),
            rest@ == v0.skip(v0.len() - rest@.len()),
            out@ == ci_sort_by(file_name_key(), v0.take(v0.len() - rest@.len())),
        decreases rest@.len(),
    {
        let ghost k = v0.len() - rest@.len();
        let x = rest.remove(0);
        proof {
            assert(0 <= k < v0.len());
            assert(v0.skip(k as int)[0] == v0[k as int]);
            assert(x == v0[k as int]);
            assert(rest@ =~= v0.skip(k as int + 1)) by {
                assert(forall|j: int|
                    0 <= j < rest@.len() ==> rest@[j] == #[trigger] v0.skip(k as int)[j + 1]);
            }
        }
        insert_entry(&mut out, x);
        proof {
            assert(v0.take(k as int + 1).drop_last() =~= v0.take(k as int));
            assert(v0.take(k as int + 1).last() == v0[k as int]);
        }
    }
    proof {
        assert(v0.take(v0.len() as int) =~= v0);
    }
    out
}

/// The place the stable insertion gives a new directory entry.
fn tree_position(out: &Vec<DirTree>, x: &DirTree) -> (j: usize)
    ensures
        j <= out@.len(),
        forall|k: int| 0 <= k < j ==> ci_le((#[trigger] out@[k]).name@, x.name@),
        j < out@.len() ==> !ci_le(out@[j as int].name@, x.name@),
{
    let mut j: usize = 0;
    while j < out.len()
        invariant
            j <= out@.len(),
            forall|k: int| 0 <= k < j ==> ci_le((#[trigger] out@[k]).name@, x.name@),
        decreases out@.len() - j,
    {
        if !ci_leq(out[j].name.as_str(), x.name.as_str()) {
            return j;
        }
        j = j + 1;
    }
    j
}

/// Inserts one directory entry into an already sorted vector, stably.
fn insert_tree(out: &mut Vec<DirTree>, x: DirTree)
    ensures
        final(out)@ == ci_insert(tree_name_key(), x, old(out)@),
{
    let ghost s = out@;
    let j = tree_position(out, &x);
    proof {
        lemma_ci_insert_position(tree_name_key(), x, s, j as int);
    }
    out.insert(j, x);
    proof {
        assert(out@ =~= s.subrange(0, j as int) + seq![x] + s.subrange(j as int, s.len() as int));
    }
}

/// Sorts directory entries by case-insensitive name, stably.
pub fn sort_trees(v: Vec<DirTree>) -> (r: Vec<DirTree>)
    ensures
        r@ == ci_sort_by(tree_name_key(), v@),
{
    let mut rest = v;
    let ghost v0 = rest@;
    let mut out: Vec<DirTree> = Vec::new();
    proof {
        assert(v0.take(0) =~= Seq::<DirTree>::empty());
        assert(v0.skip(0) =~= v0);
    }
    while rest.len() > 0
        invariant
            rest@.len() <= v0.len(),
            rest@ == v0.skip(v0.len() - rest@.len()),
            out@ == ci_sort_by(tree_name_key(), v0.take(v0.len() - rest@.len())),
        decreases rest@.len(),
    {
        let ghost k = v0.len() - rest@.len();
        let x = rest.remove(0);
        proof {
            assert(0 <= k < v0.len());
            assert(v0.skip(k as int)[0] == v0[k as int]);
            assert(x == v0[k as int]);
            assert(rest@ =~= v0.skip(k as int + 1)) by {
                assert(forall|j: int|
                    0 <= j < rest@.len() ==> rest@[j] == #[trigger] v0.skip(k as int)[j + 1]);
            }
        }
        insert_tree(&mut out, x);
        proof {
            assert(v0.take(k as int + 1).drop_last() =~= v0.take(k as int));
            assert(v0.take(k as int + 1).last() == v0[k as int]);
        }
    }
    proof {
        assert(v0.take(v0.len() as int) =~= v0);
    }
    out
}

} // verus!
