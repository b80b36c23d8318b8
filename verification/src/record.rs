//! The per-directory result model: what one walk of a directory did.
//!
//! An `ActionRecord` is built while a directory is visited and is read-only
//! afterwards: its subdirectory records arrive in visit order as recursion
//! returns, and its photo actions arrive sorted by case-insensitive file
//! name.  A `PhotoAction` pairs one discovered image with the place of its
//! downsized copy; both are plain path strings.

use vstd::prelude::*;

verus! {

/// The views of a sequence's elements, in order.
pub open spec fn views_of<T: View>(s: Seq<T>) -> Seq<T::V> {
    s.map_values(|x: T| x@)
}

/// One discovered image: the directory that holds it, its file name, and the
/// cache-relative name of its downsized copy.
pub struct PhotoAction {
    dir: String,
    actual: String,
    downsized: String,
}

/// The mathematical content of a [`PhotoAction`].
#[verifier::ext_equal]
pub struct PhotoActionView {
    pub dir: Seq<char>,
    pub actual: Seq<char>,
    pub downsized: Seq<char>,
}

impl View for PhotoAction {
    type V = PhotoActionView;

    closed spec fn view(&self) -> PhotoActionView {
        PhotoActionView { dir: self.dir@, actual: self.actual@, downsized: self.downsized@ }
    }
}

impl Clone for PhotoAction {
    fn clone(&self) -> (r: Self)
        ensures
            r == *self,
    {
        PhotoAction {
            dir: self.dir.clone(),
            actual: self.actual.clone(),
            downsized: self.downsized.clone(),
        }
    }
}

impl PhotoAction {
    pub fn new(dir: String, actual: String, downsized: String) -> (r: Self)
        ensures
            r@ == (PhotoActionView { dir: dir@, actual: actual@, downsized: downsized@ }),
    {
        PhotoAction { dir, actual, downsized }
    }

    /// The image's own path fragment.
    pub fn get_actual(&self) -> (r: String)
        ensures
            r@ == self@.actual,
    {
        self.actual.clone()
    }

    /// Where the downsized copy lives, relative to the containing directory.
    pub fn get_downsized(&self) -> (r: String)
        ensures
            r@ == self@.downsized,
    {
        self.downsized.clone()
    }

    /// The directory that holds the image.
    pub fn get_dir(&self) -> (r: String)
        ensures
            r@ == self@.dir,
    {
        self.dir.clone()
    }
}

/// The work done within one directory: its path, the records of its visited
/// subdirectories in visit order, and its photo actions in sorted order.
pub struct ActionRecord {
    dir: String,
    sub_dirs: Vec<ActionRecord>,
    photos: Vec<PhotoAction>,
}

/// The mathematical content of an [`ActionRecord`]: a finite tree.
#[verifier::ext_equal]
pub struct ActionRecordView {
    pub dir: Seq<char>,
    pub sub_dirs: Seq<ActionRecordView>,
    pub photos: Seq<PhotoActionView>,
}

impl View for ActionRecord {
    type V = ActionRecordView;

    closed spec fn view(&self) -> ActionRecordView
        decreases *self,
    {
        ActionRecordView {
            dir: self.dir@,
            sub_dirs: Seq::new(
                self.sub_dirs@.len(),
                |i: int|
                    if 0 <= i < self.sub_dirs@.len() {
                        self.sub_dirs@[i]@
                    } else {
                        ActionRecordView { dir: Seq::empty(), sub_dirs: Seq::empty(), photos: Seq::empty() }
                    },
            ),
            photos: Seq::new(self.photos@.len(), |i: int| self.photos@[i]@),
        }
    }
}

impl ActionRecord {
    /// A fresh record for the directory at `path`, with nothing visited yet.
    pub fn new(path: &String) -> (r: Self)
        ensures
            r@.dir == path@,
            r@.sub_dirs == Seq::<ActionRecordView>::empty(),
            r@.photos == Seq::<PhotoActionView>::empty(),
    {
        let r = ActionRecord { dir: path.clone(), sub_dirs: Vec::new(), photos: Vec::new() };
        proof {
            assert(r@.sub_dirs =~= Seq::<ActionRecordView>::empty());
            assert(r@.photos =~= Seq::<PhotoActionView>::empty());
        }
        r
    }

    /// The directory this record describes.
    pub fn get_path(&self) -> (r: String)
        ensures
            r@ == self@.dir,
    {
        self.dir.clone()
    }

    /// Appends one photo action; everything else is untouched.
    pub fn add_photo_action(&mut self, pa: PhotoAction)
        ensures
            final(self)@.dir == old(self)@.dir,
            final(self)@.sub_dirs == old(self)@.sub_dirs,
            final(self)@.photos == old(self)@.photos.push(pa@),
    {
        self.photos.push(pa);
        proof {
            assert(self@.sub_dirs =~= old(self)@.sub_dirs);
            assert(self@.photos =~= old(self)@.photos.push(pa@));
        }
    }

    /// Appends one subdirectory record; everything else is untouched.
    pub fn add_subdir_action(&mut self, sda: ActionRecord)
        ensures
            final(self)@.dir == old(self)@.dir,
            final(self)@.sub_dirs == old(self)@.sub_dirs.push(sda@),
            final(self)@.photos == old(self)@.photos,
    {
        self.sub_dirs.push(sda);
        proof {
            assert(self@.sub_dirs =~= old(self)@.sub_dirs.push(sda@));
            assert(self@.photos =~= old(self)@.photos);
        }
    }

    /// The subdirectory records, in visit order.
    pub fn get_subdirs(&self) -> (r: &Vec<ActionRecord>)
        ensures
            r@.len() == self@.sub_dirs.len(),
            forall|i: int| 0 <= i < r@.len() ==> (#[trigger] r@[i])@ == self@.sub_dirs[i],
    {
        &self.sub_dirs
    }

    /// The photo actions, sorted by case-insensitive file name.
    pub fn get_photos(&self) -> (r: &Vec<PhotoAction>)
        ensures
            r@.len() == self@.photos.len(),
            forall|i: int| 0 <= i < r@.len() ==> (#[trigger] r@[i])@ == self@.photos[i],
    {
        &self.photos
    }
}

/// The cover photo: the first photo action found in a depth-first,
/// left-to-right search of the record tree.
pub open spec fn spec_first_photo(v: ActionRecordView) -> Option<PhotoActionView>
    decreases v, 1int,
{
    if v.photos.len() > 0 {
        Some(v.photos[0])
    } else {
        spec_first_photo_in(v.sub_dirs)
    }
}

/// The first photo action found in a sequence of record trees.
pub open spec fn spec_first_photo_in(subs: Seq<ActionRecordView>) -> Option<PhotoActionView>
    decreases subs, 0int,
{
    if subs.len() == 0 {
        None
    } else {
        match spec_first_photo(subs[0]) {
            Some(p) => Some(p),
            None => spec_first_photo_in(subs.drop_first()),
        }
    }
}

/// Finds the record tree's cover photo: its first photo action in
/// depth-first, left-to-right order, if it has any at all.
#[verifier::loop_isolation(false)]
pub fn get_first_photo(ar: &ActionRecord) -> (r: Option<PhotoAction>)
    ensures
        match (r, spec_first_photo(ar@)) {
            (Some(p), Some(q)) => p@ == q,
            (None, None) => true,
            _ => false,
        },
    decreases *ar,
{
    if ar.photos.len() > 0 {
        proof {
            assert(ar@.photos[0] == ar.photos@[0]@);
        }
        return Some(ar.photos[0].clone());
    }
    let ghost subs0 = ar@.sub_dirs;
    let n = ar.sub_dirs.len();
    let mut i: usize = 0;
    proof {
        assert(subs0.skip(0) =~= subs0);
    }
    while i < n
        invariant
            i <= n,
            n == ar.sub_dirs@.len(),
            spec_first_photo_in(subs0) == spec_first_photo_in(subs0.skip(i as int)),
        decreases n - i,
    {
        proof {
            assert(decreases_to!(*ar => ar.sub_dirs));
            assert(decreases_to!(ar.sub_dirs => ar.sub_dirs@));
            assert(decreases_to!(ar.sub_dirs@ => ar.sub_dirs@[i as int]));
            assert(decreases_to!(*ar => ar.sub_dirs@[i as int]));
        }
        let sub = &ar.sub_dirs[i];
        proof {
            assert(sub@ == subs0[i as int]);
            assert(subs0.skip(i as int)[0] == subs0[i as int]);
        }
        let found = get_first_photo(sub);
        if let Some(pa) = found {
            return Some(pa);
        }
        proof {
            assert(subs0.skip(i as int).drop_first() =~= subs0.skip(i as int + 1));
        }
        i = i + 1;
    }
    proof {
        assert(subs0.skip(n as int).len() == 0);
    }
    None
}

} // verus!
