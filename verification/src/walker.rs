//! The tree walker: the recursive engine that turns a directory snapshot
//! into an `ActionRecord` tree.
//!
//! For each directory it decides, per image file, whether the cached
//! thumbnail must be regenerated (the photo plans), visits the kept
//! subdirectories in case-insensitive alphabetical order, and assembles the
//! record bottom-up.  A directory deeper than the depth bound yields no
//! record at all.  The whole walk is a pure function of the snapshot:
//! [`record_matches`] says exactly which record comes out.

use vstd::prelude::*;
use crate::order::{
    ci_le,
    ci_sorted_by,
    lemma_ci_sort_contains,
    lemma_ci_sort_len,
    lemma_ci_sort_sorted,
    lemma_ci_sorted_filter,
};
use crate::paths::{
    get_cache_dir_path,
    is_image_file,
    path_join,
    spec_cache_dir_path,
    spec_is_image_file,
    spec_join,
};
use crate::record::{views_of, ActionRecord, ActionRecordView, PhotoAction, PhotoActionView};
use crate::snapshot::{
    cache_dir_name,
    file_name_key,
    image_pred,
    keeps_dir,
    keeps_pred,
    sort_entries,
    sort_trees,
    spec_cache_dir_name,
    spec_sorted_images,
    spec_visit_order,
    tree_name_key,
    DirTree,
    FileEntry,
};
use crate::staleness::{should_regenerate, spec_should_regenerate, Timestamp};

verus! {

/// The per-file work planned for one image: the photo action that may enter
/// the record, whether the thumbnail must be regenerated, and whether the
/// image's content can actually be converted.
pub struct PhotoPlan {
    /// The photo action the record gets if the file survives processing.
    pub photo: PhotoAction,
    /// The staleness oracle's verdict for this file.
    pub regenerate: bool,
    /// Whether the conversion succeeds when attempted.
    pub readable: bool,
}

/// The mathematical content of a [`PhotoPlan`].
#[verifier::ext_equal]
pub struct PhotoPlanView {
    pub photo: PhotoActionView,
    pub regenerate: bool,
    pub readable: bool,
}

impl View for PhotoPlan {
    type V = PhotoPlanView;

    open spec fn view(&self) -> PhotoPlanView {
        PhotoPlanView { photo: self.photo@, regenerate: self.regenerate, readable: self.readable }
    }
}

/// The derivative timestamp the staleness oracle sees: wiping the cache
/// directory first means there is no derivative any more.
pub open spec fn spec_effective_derivative(f: FileEntry, clean: bool) -> Timestamp {
    if clean {
        Timestamp::Missing
    } else {
        f.derivative_created
    }
}

/// The photo action planned for one image file of a directory.
pub open spec fn spec_photo_view(dir: Seq<char>, name: Seq<char>) -> PhotoActionView {
    PhotoActionView {
        dir: dir,
        actual: name,
        downsized: spec_cache_dir_path(name, spec_cache_dir_name()),
    }
}

/// The whole plan for one image file.
pub open spec fn spec_plan_of(dir: Seq<char>, f: FileEntry, clean: bool, force: bool) -> PhotoPlanView {
    PhotoPlanView {
        photo: spec_photo_view(dir, f.name@),
        regenerate: spec_should_regenerate(force, f.created, spec_effective_derivative(f, clean)),
        readable: f.readable,
    }
}

/// [`spec_plan_of`] as a value, for `map_values`.
pub open spec fn plan_of_fn(dir: Seq<char>, clean: bool, force: bool) -> spec_fn(FileEntry) -> PhotoPlanView {
    |f: FileEntry| spec_plan_of(dir, f, clean, force)
}

/// The plans of one directory, sorted by case-insensitive file name.
pub open spec fn spec_photo_plans(
    dir: Seq<char>,
    files: Seq<FileEntry>,
    clean: bool,
    force: bool,
) -> Seq<PhotoPlanView> {
    spec_sorted_images(files).map_values(plan_of_fn(dir, clean, force))
}

/// A planned photo enters the record unless its conversion was attempted and
/// failed: per-file failures never abort the directory, the file is omitted.
pub open spec fn plan_kept(p: PhotoPlanView) -> bool {
    !p.regenerate || p.readable
}

/// [`plan_kept`] as a value, for `filter`.
pub open spec fn plan_kept_pred() -> spec_fn(PhotoPlanView) -> bool {
    |p: PhotoPlanView| plan_kept(p)
}

/// The photo action of a plan, for `map_values`.
pub open spec fn plan_photo() -> spec_fn(PhotoPlanView) -> PhotoActionView {
    |p: PhotoPlanView| p.photo
}

/// The photo actions one directory's record ends up with: the surviving
/// plans, in sorted order.
pub open spec fn spec_kept_photos(
    dir: Seq<char>,
    files: Seq<FileEntry>,
    clean: bool,
    force: bool,
) -> Seq<PhotoActionView> {
    spec_photo_plans(dir, files, clean, force).filter(plan_kept_pred()).map_values(plan_photo())
}

/// Computes the per-image plans of one directory: every image file of
/// `files`, sorted case-insensitively by name, each with its photo action
/// and the staleness oracle's verdict (a wiped cache counts as missing).
#[verifier::loop_isolation(false)]
pub fn plan_photos(dir: &String, files: Vec<FileEntry>, clean: bool, force_regen: bool) -> (r: Vec<
    PhotoPlan,
>)
    ensures
        views_of(r@) == spec_photo_plans(dir@, files@, clean, force_regen),
{
    let ghost files0 = files@;
    let mut rest = files;
    let mut imgs: Vec<FileEntry> = Vec::new();
    proof {
        reveal(Seq::filter);
        assert(files0.take(0) =~= Seq::<FileEntry>::empty());
        assert(files0.skip(0) =~= files0);
        assert(imgs@ =~= files0.take(0).filter(image_pred()));
    }
    while rest.len() > 0
        invariant
            rest@.len() <= files0.len(),
            rest@ == files0.skip(files0.len() - rest@.len()),
            imgs@ == files0.take(files0.len() - rest@.len()).filter(image_pred()),
        decreases rest@.len(),
    {
        let ghost k = files0.len() - rest@.len();
        let f = rest.remove(0);
        proof {
            assert(0 <= k < files0.len());
            assert(files0.skip(k as int)[0] == files0[k as int]);
            assert(f == files0[k as int]);
            assert(rest@ =~= files0.skip(k as int + 1)) by {
                assert(forall|j: int|
                    0 <= j < rest@.len() ==> rest@[j] == #[trigger] files0.skip(k as int)[j + 1]);
            }
        }
        let keep = is_image_file(&f.name);
        proof {
            reveal(Seq::filter);
            assert(files0.take(k as int + 1).drop_last() =~= files0.take(k as int));
            assert(files0.take(k as int + 1).last() == files0[k as int]);
        }
        if keep {
            imgs.push(f);
        }
    }
    proof {
        assert(files0.take(files0.len() as int) =~= files0);
    }
    let sorted = sort_entries(imgs);
    let ghost imgs0 = sorted@;
    proof {
        assert(imgs0 == spec_sorted_images(files0));
        assert(imgs0.take(0) =~= Seq::<FileEntry>::empty());
        assert(imgs0.skip(0) =~= imgs0);
    }
    let mut rest2 = sorted;
    let mut r: Vec<PhotoPlan> = Vec::new();
    proof {
        assert(views_of(r@) =~= imgs0.take(0).map_values(plan_of_fn(dir@, clean, force_regen)));
    }
    while rest2.len() > 0
        invariant
            rest2@.len() <= imgs0.len(),
            rest2@ == imgs0.skip(imgs0.len() - rest2@.len()),
            views_of(r@) == imgs0.take(imgs0.len() - rest2@.len()).map_values(
                plan_of_fn(dir@, clean, force_regen),
            ),
        decreases rest2@.len(),
    {
        let ghost k = imgs0.len() - rest2@.len();
        let f = rest2.remove(0);
        proof {
            assert(0 <= k < imgs0.len());
            assert(imgs0.skip(k as int)[0] == imgs0[k as int]);
            assert(f == imgs0[k as int]);
            assert(rest2@ =~= imgs0.skip(k as int + 1)) by {
                assert(forall|j: int|
                    0 <= j < rest2@.len() ==> rest2@[j] == #[trigger] imgs0.skip(k as int)[j + 1]);
            }
        }
        let downsized = get_cache_dir_path(&f.name, cache_dir_name());
        let effective = if clean {
            Timestamp::Missing
        } else {
            f.derivative_created
        };
        let regen = should_regenerate(f.created, effective, force_regen);
        let readable = f.readable;
        let photo = PhotoAction::new(dir.clone(), f.name, downsized);
        let plan = PhotoPlan { photo, regenerate: regen, readable };
        proof {
            assert(plan@ == spec_plan_of(dir@, imgs0[k as int], clean, force_regen));
        }
        let ghost rb = r@;
        r.push(plan);
        proof {
            let ghost g = plan_of_fn(dir@, clean, force_regen);
            assert(views_of(r@) =~= imgs0.take(k as int + 1).map_values(g)) by {
                assert(r@ == rb.push(plan));
                assert forall|i: int| 0 <= i < r@.len() implies views_of(r@)[i] == imgs0.take(
                    k as int + 1,
                ).map_values(g)[i] by {
                    assert(views_of(r@)[i] == r@[i]@);
                    assert(imgs0.take(k as int + 1)[i] == imgs0[i]);
                    if i < k {
                        assert(r@[i] == rb[i]);
                        assert(views_of(rb)[i] == imgs0.take(k as int).map_values(g)[i]);
                        assert(views_of(rb)[i] == rb[i]@);
                        assert(imgs0.take(k as int)[i] == imgs0[i]);
                    } else {
                        assert(r@[i] == plan);
                    }
                }
            }
        }
    }
    proof {
        assert(imgs0.take(imgs0.len() as int) =~= imgs0);
    }
    r
}

/// What the walk of one directory returns: `v` is the record for the
/// directory snapshot `t` at absolute path `path` and depth `depth`.  The
/// record carries the directory's path, the surviving photo actions in
/// sorted order, and — when the children are still within the depth bound —
/// one sub-record per kept subdirectory, in visit order; beyond the bound
/// the children are absent entirely.
pub open spec fn record_matches(
    v: ActionRecordView,
    t: DirTree,
    path: Seq<char>,
    depth: int,
    max_depth: int,
    clean: bool,
    force: bool,
) -> bool
    decreases v,
{
    let kept = spec_visit_order(t.subdirs@);
    &&& v.dir == path
    &&& v.photos == spec_kept_photos(path, t.files@, clean, force)
    &&& if depth + 1 <= max_depth {
        &&& v.sub_dirs.len() == kept.len()
        &&& (forall|i: int|
            0 <= i < v.sub_dirs.len() ==> record_matches(
                #[trigger] v.sub_dirs[i],
                kept[i],
                spec_join(path, kept[i].name@),
                depth + 1,
                max_depth,
                clean,
                force,
            ))
    } else {
        v.sub_dirs.len() == 0
    }
}

/// Walks one directory of the snapshot.
///
/// Returns `None` exactly when the directory lies beyond the depth bound;
/// otherwise the returned record is pinned down by [`record_matches`]: the
/// kept subdirectories were visited in case-insensitive alphabetical order
/// and the surviving photo plans entered the record sorted by file name.
#[verifier::loop_isolation(false)]
pub fn walk(
    tree: DirTree,
    path: &String,
    depth: usize,
    max_depth: usize,
    clean: bool,
    force_regen: bool,
) -> (r: Option<ActionRecord>)
    ensures
        (depth <= max_depth) <==> (r is Some),
        (match r {
            Some(rec) => record_matches(
                rec@,
                tree,
                path@,
                depth as int,
                max_depth as int,
                clean,
                force_regen,
            ),
            None => true,
        }),
    decreases tree,
{
    if depth > max_depth {
        return None;
    }
    let ghost t0 = tree;
    let DirTree { name: _, subdirs, files } = tree;
    proof {
        assert(t0.subdirs@ == subdirs@);
        assert(t0.files@ == files@);
    }
    let mut rec = ActionRecord::new(path);
    if depth < max_depth {
        // keep only the real subdirectories, then order the visit
        let ghost subs0 = subdirs@;
        let mut rest = subdirs;
        let mut kept: Vec<DirTree> = Vec::new();
        proof {
            reveal(Seq::filter);
            assert(subs0.take(0) =~= Seq::<DirTree>::empty());
            assert(subs0.skip(0) =~= subs0);
            assert(kept@ =~= subs0.take(0).filter(keeps_pred()));
        }
        while rest.len() > 0
            invariant
                rest@.len() <= subs0.len(),
                rest@ == subs0.skip(subs0.len() - rest@.len()),
                kept@ == subs0.take(subs0.len() - rest@.len()).filter(keeps_pred()),
            decreases rest@.len(),
        {
            let ghost k = subs0.len() - rest@.len();
            let sub = rest.remove(0);
            proof {
                assert(0 <= k < subs0.len());
                assert(subs0.skip(k as int)[0] == subs0[k as int]);
                assert(sub == subs0[k as int]);
                assert(rest@ =~= subs0.skip(k as int + 1)) by {
                    assert(forall|j: int|
                        0 <= j < rest@.len() ==> rest@[j] == #[trigger] subs0.skip(k as int)[j
                            + 1]);
                }
            }
            let keep = keeps_dir(&sub.name);
            proof {
                reveal(Seq::filter);
                assert(subs0.take(k as int + 1).drop_last() =~= subs0.take(k as int));
                assert(subs0.take(k as int + 1).last() == subs0[k as int]);
            }
            if keep {
                kept.push(sub);
            }
        }
        proof {
            assert(subs0.take(subs0.len() as int) =~= subs0);
        }
        let mut sorted = sort_trees(kept);
        let ghost order0 = sorted@;
        proof {
            assert(order0 == spec_visit_order(t0.subdirs@));
            assert(order0.skip(0) =~= order0);
        }
        while sorted.len() > 0
            invariant
                depth < max_depth,
                sorted@.len() <= order0.len(),
                sorted@ == order0.skip(order0.len() - sorted@.len()),
                order0 == spec_visit_order(t0.subdirs@),
                rec@.dir == path@,
                rec@.photos == Seq::<PhotoActionView>::empty(),
                rec@.sub_dirs.len() == order0.len() - sorted@.len(),
                forall|i: int|
                    0 <= i < rec@.sub_dirs.len() ==> record_matches(
                        #[trigger] rec@.sub_dirs[i],
                        order0[i],
                        spec_join(path@, order0[i].name@),
                        depth + 1,
                        max_depth as int,
                        clean,
                        force_regen,
                    ),
            decreases sorted@.len(),
        {
            let ghost k = order0.len() - sorted@.len();
            let sub = sorted.remove(0);
            proof {
                assert(0 <= k < order0.len());
                assert(order0.skip(k as int)[0] == order0[k as int]);
                assert(sub == order0[k as int]);
                assert(sorted@ =~= order0.skip(k as int + 1)) by {
                    assert(forall|j: int|
                        0 <= j < sorted@.len() ==> sorted@[j] == #[trigger] order0.skip(
                            k as int,
                        )[j + 1]);
                }
            }
            let child_path = path_join(path, sub.name.as_str());
            proof {
                // the child is one of this directory's own subdirectories,
                // so the recursion descends into a strictly smaller tree
                lemma_ci_sort_contains(tree_name_key(), t0.subdirs@.filter(keeps_pred()), sub);
                assert(order0.contains(sub)) by {
                    assert(order0[k as int] == sub);
                }
                t0.subdirs@.lemma_filter_contains_rev(keeps_pred(), sub);
                assert(t0.subdirs@.contains(sub));
                let j = choose|j: int| 0 <= j < t0.subdirs@.len() && t0.subdirs@[j] == sub;
                assert(decreases_to!(t0.subdirs@ => t0.subdirs@[j]));
                assert(decreases_to!(t0.subdirs => t0.subdirs@));
                assert(decreases_to!(t0 => t0.subdirs));
                assert(decreases_to!(t0 => sub));
            }
            let child = walk(sub, &child_path, depth + 1, max_depth, clean, force_regen);
            if let Some(c) = child {
                rec.add_subdir_action(c);
            } else {
                proof {
                    assert(false);
                }
            }
        }
        proof {
            assert(sorted@.len() == 0);
        }
    }
    let plans = plan_photos(path, files, clean, force_regen);
    let ghost pexec0 = plans@;
    let ghost plans0 = views_of(plans@);
    let ghost subs_done = rec@.sub_dirs;
    let mut rest_plans = plans;
    proof {
        reveal(Seq::filter);
        assert(plans0.take(0) =~= Seq::<PhotoPlanView>::empty());
        assert(pexec0.skip(0) =~= pexec0);
        assert(rec@.photos =~= plans0.take(0).filter(plan_kept_pred()).map_values(plan_photo()));
    }
    while rest_plans.len() > 0
        invariant
            rest_plans@.len() <= pexec0.len(),
            rest_plans@ == pexec0.skip(pexec0.len() - rest_plans@.len()),
            plans0 == views_of(pexec0),
            plans0.len() == pexec0.len(),
            rec@.dir == path@,
            rec@.sub_dirs == subs_done,
            rec@.photos == plans0.take(pexec0.len() - rest_plans@.len()).filter(
                plan_kept_pred(),
            ).map_values(plan_photo()),
        decreases rest_plans@.len(),
    {
        let ghost k = pexec0.len() - rest_plans@.len();
        let p = rest_plans.remove(0);
        proof {
            assert(0 <= k < pexec0.len());
            assert(pexec0.skip(k as int)[0] == pexec0[k as int]);
            assert(p == pexec0[k as int]);
            assert(p@ == plans0[k as int]);
            assert(rest_plans@ =~= pexec0.skip(k as int + 1)) by {
                assert(forall|j: int|
                    0 <= j < rest_plans@.len() ==> rest_plans@[j] == #[trigger] pexec0.skip(
                        k as int,
                    )[j + 1]);
            }
            reveal(Seq::filter);
            assert(plans0.take(k as int + 1).drop_last() =~= plans0.take(k as int));
            assert(plans0.take(k as int + 1).last() == plans0[k as int]);
        }
        let PhotoPlan { photo, regenerate, readable } = p;
        if !regenerate || readable {
            rec.add_photo_action(photo);
            proof {
                assert(rec@.photos =~= plans0.take(k as int + 1).filter(
                    plan_kept_pred(),
                ).map_values(plan_photo()));
            }
        } else {
            proof {
                assert(rec@.photos =~= plans0.take(k as int + 1).filter(
                    plan_kept_pred(),
                ).map_values(plan_photo()));
            }
        }
    }
    proof {
        assert(plans0.take(plans0.len() as int) =~= plans0);
        assert(rec@.photos == spec_kept_photos(path@, t0.files@, clean, force_regen));
        if depth < max_depth {
            lemma_ci_sort_len(tree_name_key(), t0.subdirs@.filter(keeps_pred()));
        }
    }
    Some(rec)
}

/// A cached derivative that is provably newer than its source: the oracle
/// will skip it.
pub open spec fn derivative_fresh(f: FileEntry) -> bool {
    match (f.created, f.derivative_created) {
        (Timestamp::Known(s), Timestamp::Known(d)) => d > s,
        _ => false,
    }
}

/// Every image file in the tree has a fresh cached derivative.
pub open spec fn all_derivatives_fresh(t: DirTree) -> bool
    decreases t,
{
    &&& (forall|i: int|
        0 <= i < t.files@.len() && spec_is_image_file((#[trigger] t.files@[i]).name@)
            ==> derivative_fresh(t.files@[i]))
    &&& (forall|i: int|
        0 <= i < t.subdirs@.len() ==> all_derivatives_fresh(#[trigger] t.subdirs@[i]))
}

/// No photo plan anywhere in the tree asks for regeneration.
pub open spec fn no_regen_in_tree(t: DirTree, clean: bool, force: bool) -> bool
    decreases t,
{
    &&& (forall|path: Seq<char>, i: int|
        0 <= i < spec_photo_plans(path, t.files@, clean, force).len() ==> !(#[trigger] spec_photo_plans(
            path,
            t.files@,
            clean,
            force,
        )[i]).regenerate)
    &&& (forall|i: int|
        0 <= i < t.subdirs@.len() ==> no_regen_in_tree(#[trigger] t.subdirs@[i], clean, force))
}

/// Every photo plan anywhere in the tree asks for regeneration.
pub open spec fn all_regen_in_tree(t: DirTree, clean: bool, force: bool) -> bool
    decreases t,
{
    &&& (forall|path: Seq<char>, i: int|
        0 <= i < spec_photo_plans(path, t.files@, clean, force).len() ==> (#[trigger] spec_photo_plans(
            path,
            t.files@,
            clean,
            force,
        )[i]).regenerate)
    &&& (forall|i: int|
        0 <= i < t.subdirs@.len() ==> all_regen_in_tree(#[trigger] t.subdirs@[i], clean, force))
}

/// Every sorted image of a directory is one of its files.
proof fn lemma_sorted_image_is_file(files: Seq<FileEntry>, i: int)
    requires
        0 <= i < spec_sorted_images(files).len(),
    ensures
        exists|j: int|
            0 <= j < files.len() && files[j] == spec_sorted_images(files)[i]
                && spec_is_image_file(spec_sorted_images(files)[i].name@),
{
    let f = spec_sorted_images(files)[i];
    lemma_ci_sort_contains(file_name_key(), files.filter(image_pred()), f);
    assert(spec_sorted_images(files).contains(f)) by {
        assert(spec_sorted_images(files)[i] == f);
    }
    files.lemma_filter_contains_rev(image_pred(), f);
    broadcast use vstd::seq_lib::group_seq_properties;

    assert(files.filter(image_pred()).contains(f));
    Seq::lemma_filter_pred(
        files,
        image_pred(),
        choose|k: int| 0 <= k < files.filter(image_pred()).len() && files.filter(image_pred())[k]
            == f,
    );
}

/// Idempotence: walking a tree whose cached derivatives are all strictly
/// newer than their sources, with neither the clean flag nor forced
/// regeneration, plans no thumbnail work anywhere: the staleness oracle
/// answers "skip" for every image file, so a second identical run after a
/// successful one regenerates nothing.
pub proof fn lemma_walk_idempotent(t: DirTree)
    requires
        all_derivatives_fresh(t),
    ensures
        no_regen_in_tree(t, false, false),
    decreases t,
{
    assert forall|path: Seq<char>, i: int|
        0 <= i < spec_photo_plans(path, t.files@, false, false).len() implies !(
    #[trigger] spec_photo_plans(path, t.files@, false, false)[i]).regenerate by {
        lemma_sorted_image_is_file(t.files@, i);
        let f = spec_sorted_images(t.files@)[i];
        assert(derivative_fresh(f));
    }
    assert forall|i: int| 0 <= i < t.subdirs@.len() implies no_regen_in_tree(
        #[trigger] t.subdirs@[i],
        false,
        false,
    ) by {
        lemma_walk_idempotent(t.subdirs@[i]);
    }
}

/// The clean flag wins: with it set, every image file in the tree is planned
/// for regeneration, whatever its timestamps say.
pub proof fn lemma_clean_regenerates_all(t: DirTree, force: bool)
    ensures
        all_regen_in_tree(t, true, force),
    decreases t,
{
    assert forall|i: int| 0 <= i < t.subdirs@.len() implies all_regen_in_tree(
        #[trigger] t.subdirs@[i],
        true,
        force,
    ) by {
        lemma_clean_regenerates_all(t.subdirs@[i], force);
    }
}

/// The height of a record tree: one for the directory itself plus its
/// deepest subdirectory record.
pub open spec fn record_height(v: ActionRecordView) -> nat
    decreases v, 1int,
{
    1 + records_height(v.sub_dirs)
}

/// The largest height among a sequence of record trees.
pub open spec fn records_height(subs: Seq<ActionRecordView>) -> nat
    decreases subs, 0int,
{
    if subs.len() == 0 {
        0
    } else {
        let rest = records_height(subs.drop_last());
        let last = record_height(subs.last());
        if rest >= last {
            rest
        } else {
            last
        }
    }
}

/// Depth bound: a record produced at `depth` under bound `max_depth` nests
/// at most `max_depth - depth + 1` directory levels: no record exists for
/// any directory more than `max_depth` below the root, and such directories
/// are absent rather than present as empty nodes.
pub proof fn lemma_depth_bound(
    v: ActionRecordView,
    t: DirTree,
    path: Seq<char>,
    depth: int,
    max_depth: int,
    clean: bool,
    force: bool,
)
    requires
        record_matches(v, t, path, depth, max_depth, clean, force),
        depth <= max_depth,
    ensures
        record_height(v) <= max_depth - depth + 1,
    decreases v,
{
    let kept = spec_visit_order(t.subdirs@);
    if depth + 1 <= max_depth {
        assert forall|i: int| 0 <= i < v.sub_dirs.len() implies record_height(
            #[trigger] v.sub_dirs[i],
        ) <= max_depth - depth by {
            lemma_depth_bound(
                v.sub_dirs[i],
                kept[i],
                spec_join(path, kept[i].name@),
                depth + 1,
                max_depth,
                clean,
                force,
            );
        }
        lemma_records_height_le(v.sub_dirs, (max_depth - depth) as nat);
    } else {
        assert(records_height(v.sub_dirs) == 0);
    }
}

/// A sequence of record trees each no taller than `b` is no taller than `b`.
proof fn lemma_records_height_le(subs: Seq<ActionRecordView>, b: nat)
    requires
        forall|i: int| 0 <= i < subs.len() ==> record_height(#[trigger] subs[i]) <= b,
    ensures
        records_height(subs) <= b,
    decreases subs.len(),
{
    if subs.len() > 0 {
        assert(forall|i: int|
            0 <= i < subs.len() - 1 ==> #[trigger] subs.drop_last()[i] == subs[i]);
        lemma_records_height_le(subs.drop_last(), b);
    }
}

/// Determinism: the walk's outcome is pinned down completely.  Any two
/// records that match the same snapshot under the same parameters are equal,
/// so two runs over the same tree produce identical record trees, and with
/// them byte-identical index pages.
pub proof fn lemma_walk_deterministic(
    v1: ActionRecordView,
    v2: ActionRecordView,
    t: DirTree,
    path: Seq<char>,
    depth: int,
    max_depth: int,
    clean: bool,
    force: bool,
)
    requires
        record_matches(v1, t, path, depth, max_depth, clean, force),
        record_matches(v2, t, path, depth, max_depth, clean, force),
    ensures
        v1 == v2,
    decreases v1,
{
    let kept = spec_visit_order(t.subdirs@);
    if depth + 1 <= max_depth {
        assert forall|i: int| 0 <= i < v1.sub_dirs.len() implies #[trigger] v1.sub_dirs[i]
            == v2.sub_dirs[i] by {
            lemma_walk_deterministic(
                v1.sub_dirs[i],
                v2.sub_dirs[i],
                kept[i],
                spec_join(path, kept[i].name@),
                depth + 1,
                max_depth,
                clean,
                force,
            );
        }
        assert(v1.sub_dirs =~= v2.sub_dirs);
    } else {
        assert(v1.sub_dirs =~= v2.sub_dirs);
    }
    assert(v1 =~= v2);
}

/// A filter that rejects exactly one element shortens the sequence by one.
proof fn lemma_filter_all_but_one(s: Seq<PhotoPlanView>, pred: spec_fn(PhotoPlanView) -> bool, bad: int)
    requires
        0 <= bad < s.len(),
        !pred(s[bad]),
        forall|i: int| 0 <= i < s.len() && i != bad ==> pred(#[trigger] s[i]),
    ensures
        s.filter(pred).len() == s.len() - 1,
    decreases s.len(),
{
    reveal(Seq::filter);
    if bad == s.len() - 1 {
        lemma_filter_all(s.drop_last(), pred);
    } else {
        assert(forall|i: int|
            0 <= i < s.len() - 1 ==> #[trigger] s.drop_last()[i] == s[i]);
        lemma_filter_all_but_one(s.drop_last(), pred, bad);
    }
}

/// A filter that accepts everything keeps everything.
proof fn lemma_filter_all(s: Seq<PhotoPlanView>, pred: spec_fn(PhotoPlanView) -> bool)
    requires
        forall|i: int| 0 <= i < s.len() ==> pred(#[trigger] s[i]),
    ensures
        s.filter(pred).len() == s.len(),
    decreases s.len(),
{
    reveal(Seq::filter);
    if s.len() > 0 {
        assert(forall|i: int|
            0 <= i < s.len() - 1 ==> #[trigger] s.drop_last()[i] == s[i]);
        lemma_filter_all(s.drop_last(), pred);
    }
}

/// Partial failure isolation: when every image of a directory needs
/// regeneration and exactly one of them cannot be converted, the directory's
/// record carries exactly one photo action fewer than it has images — the
/// broken file is omitted, nothing else is lost and the walk still returns a
/// record.
pub proof fn lemma_partial_failure_isolation(
    path: Seq<char>,
    files: Seq<FileEntry>,
    clean: bool,
    force: bool,
    bad: int,
)
    requires
        0 <= bad < spec_photo_plans(path, files, clean, force).len(),
        forall|i: int|
            0 <= i < spec_photo_plans(path, files, clean, force).len() ==> (
            #[trigger] spec_photo_plans(path, files, clean, force)[i]).regenerate,
        !spec_photo_plans(path, files, clean, force)[bad].readable,
        forall|i: int|
            0 <= i < spec_photo_plans(path, files, clean, force).len() && i != bad ==> (
            #[trigger] spec_photo_plans(path, files, clean, force)[i]).readable,
    ensures
        spec_kept_photos(path, files, clean, force).len() == spec_photo_plans(
            path,
            files,
            clean,
            force,
        ).len() - 1,
{
    let plans = spec_photo_plans(path, files, clean, force);
    lemma_filter_all_but_one(plans, plan_kept_pred(), bad);
}

/// The sort key a photo plan is ordered by: its file name.
pub open spec fn plan_name_key() -> spec_fn(PhotoPlanView) -> Seq<char> {
    |p: PhotoPlanView| p.photo.actual
}

/// The visit order really is ordered: the kept subdirectories come sorted
/// case-insensitively by name.
pub proof fn lemma_visit_order_sorted(subs: Seq<DirTree>)
    ensures
        ci_sorted_by(tree_name_key(), spec_visit_order(subs)),
{
    lemma_ci_sort_sorted(tree_name_key(), subs.filter(keeps_pred()));
}

/// The photo actions of any record the walk produces come sorted
/// case-insensitively by file name.
pub proof fn lemma_record_photos_sorted(
    v: ActionRecordView,
    t: DirTree,
    path: Seq<char>,
    depth: int,
    max_depth: int,
    clean: bool,
    force: bool,
)
    requires
        record_matches(v, t, path, depth, max_depth, clean, force),
    ensures
        forall|i: int, j: int|
            0 <= i < j < v.photos.len() ==> ci_le(
                (#[trigger] v.photos[i]).actual,
                (#[trigger] v.photos[j]).actual,
            ),
{
    let imgs = spec_sorted_images(t.files@);
    let plans = spec_photo_plans(path, t.files@, clean, force);
    let kept = plans.filter(plan_kept_pred());
    lemma_ci_sort_sorted(file_name_key(), t.files@.filter(image_pred()));
    assert(ci_sorted_by(plan_name_key(), plans)) by {
        assert(forall|i: int|
            0 <= i < plans.len() ==> plan_name_key()(#[trigger] plans[i]) == file_name_key()(
                imgs[i],
            ));
    }
    lemma_ci_sorted_filter(plan_name_key(), plan_kept_pred(), plans);
    assert forall|i: int, j: int| 0 <= i < j < v.photos.len() implies ci_le(
        (#[trigger] v.photos[i]).actual,
        (#[trigger] v.photos[j]).actual,
    ) by {
        assert(v.photos[i] == kept[i].photo);
        assert(v.photos[j] == kept[j].photo);
        assert(ci_le(plan_name_key()(kept[i]), plan_name_key()(kept[j])));
    }
}

/// What must happen to a directory's cache subdirectories before its files
/// are processed.
#[derive(Clone, Copy, PartialEq, Eq, Structural, Debug)]
pub struct CachePlan {
    /// Delete the cache directory and everything in it first.
    pub wipe: bool,
    /// Create the cache directory (anew, after a wipe).
    pub create: bool,
    /// Delete the legacy cache directory a prior tool version left behind.
    pub purge_legacy: bool,
}

/// Decides the cache preparation for one directory: cleaning wipes an
/// existing cache unconditionally, the cache directory exists afterwards
/// either way, and a legacy cache directory is always purged.
pub fn plan_cache_dir(clean: bool, cache_exists: bool, legacy_exists: bool) -> (r: CachePlan)
    ensures
        r.wipe == (clean && cache_exists),
        r.create == (clean || !cache_exists),
        r.purge_legacy == legacy_exists,
{
    CachePlan {
        wipe: clean && cache_exists,
        create: clean || !cache_exists,
        purge_legacy: legacy_exists,
    }
}

} // verus!
