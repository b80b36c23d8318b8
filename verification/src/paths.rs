//! A small path algebra over plain strings.
//!
//! The library represents a filesystem path as a `String` whose components
//! are separated by single `/` characters and that does not end in a
//! separator.  `file_name` is the text after the last separator, the parent
//! is the text before it, and an extension is the text after the last dot of
//! the file name (a name whose only dot is its first character has none).

use vstd::prelude::*;
use crate::record::views_of;

verus! {

/// The index of the last occurrence of `c` in `s`, if any.
pub open spec fn spec_rfind(s: Seq<char>, c: char) -> Option<int>
    decreases s.len(),
{
    if s.len() == 0 {
        None
    } else if s.last() == c {
        Some(s.len() - 1)
    } else {
        spec_rfind(s.drop_last(), c)
    }
}

/// `spec_rfind` finds the last occurrence: the character stands at the
/// returned index and nowhere after it; `None` means it occurs nowhere.
pub proof fn lemma_rfind_characterization(s: Seq<char>, c: char)
    ensures
        match spec_rfind(s, c) {
            Some(i) => 0 <= i < s.len() && s[i] == c && (forall|j: int|
                i < j < s.len() ==> s[j] != c),
            None => forall|j: int| 0 <= j < s.len() ==> s[j] != c,
        },
    decreases s.len(),
{
    if s.len() == 0 {
    } else if s.last() == c {
    } else {
        lemma_rfind_characterization(s.drop_last(), c);
        assert(forall|j: int| 0 <= j < s.len() - 1 ==> s[j] == s.drop_last()[j]);
    }
}

/// The file name: everything after the last separator, or the whole path.
pub open spec fn spec_file_name(p: Seq<char>) -> Seq<char> {
    match spec_rfind(p, '/') {
        None => p,
        Some(i) => p.subrange(i + 1, p.len() as int),
    }
}

/// The parent: everything before the last separator; the lone separator when
/// the path is directly under the root; empty when there is no separator.
pub open spec fn spec_parent(p: Seq<char>) -> Seq<char> {
    match spec_rfind(p, '/') {
        None => Seq::empty(),
        Some(i) => if i == 0 {
            p.subrange(0, 1)
        } else {
            p.subrange(0, i)
        },
    }
}

/// Appending one component: a separator is inserted unless the left side is
/// empty or already ends in one.
pub open spec fn spec_join(a: Seq<char>, b: Seq<char>) -> Seq<char> {
    if a.len() == 0 {
        b
    } else if a.last() == '/' {
        a + b
    } else {
        a + seq!['/'] + b
    }
}

/// The extension of the path's file name, if it has one.
pub open spec fn spec_extension(p: Seq<char>) -> Option<Seq<char>> {
    let name = spec_file_name(p);
    match spec_rfind(name, '.') {
        None => None,
        Some(i) => if i == 0 {
            None
        } else {
            Some(name.subrange(i + 1, name.len() as int))
        },
    }
}

/// Where the downsized copy of a file lives: the same file name inside the
/// cache subdirectory beside it.
pub open spec fn spec_cache_dir_path(p: Seq<char>, cache_dir_name: Seq<char>) -> Seq<char> {
    spec_join(spec_join(spec_parent(p), cache_dir_name), spec_file_name(p))
}

/// A file counts as an image when its extension matches the fixed allow-list
/// exactly (case-sensitively).
pub open spec fn spec_is_image_file(p: Seq<char>) -> bool {
    match spec_extension(p) {
        Some(e) => e == "jpg"@ || e == "jpeg"@ || e == "png"@,
        None => false,
    }
}

/// A file counts as previously generated HTML when its extension is `html`.
pub open spec fn spec_is_html_file(p: Seq<char>) -> bool {
    match spec_extension(p) {
        Some(e) => e == "html"@,
        None => false,
    }
}

/// Character-for-character string equality.
pub fn str_eq(a: &str, b: &str) -> (r: bool)
    ensures
        r == (a@ == b@),
{
    let alen = a.unicode_len();
    let blen = b.unicode_len();
    if alen != blen {
        return false;
    }
    let mut i: usize = 0;
    while i < alen
        invariant
            alen == a@.len(),
            blen == b@.len(),
            alen == blen,
            i <= alen,
            forall|j: int| 0 <= j < i ==> a@[j] == b@[j],
        decreases alen - i,
    {
        if a.get_char(i) != b.get_char(i) {
            return false;
        }
        i = i + 1;
    }
    proof {
        assert(a@ =~= b@);
    }
    true
}

/// The index of the last occurrence of `c` in `s`, if any.
pub fn rfind_char(s: &str, c: char) -> (r: Option<usize>)
    ensures
        spec_rfind(s@, c) == match r {
            Some(i) => Some(i as int),
            None => None::<int>,
        },
{
    let n = s.unicode_len();
    let mut i = n;
    while i > 0
        invariant
            n == s@.len(),
            i <= n,
            forall|j: int| i <= j < n ==> s@[j] != c,
        decreases i,
    {
        i = i - 1;
        if s.get_char(i) == c {
            proof {
                lemma_rfind_characterization(s@, c);
            }
            return Some(i);
        }
    }
    proof {
        lemma_rfind_characterization(s@, c);
    }
    None
}

/// The file name of a path: the text after its last separator.
pub fn file_name(p: &String) -> (r: String)
    ensures
        r@ == spec_file_name(p@),
{
    proof {
        lemma_rfind_characterization(p@, '/');
    }
    let n = p.as_str().unicode_len();
    match rfind_char(p.as_str(), '/') {
        None => p.clone(),
        Some(i) => String::from_str(p.as_str().substring_char(i + 1, n)),
    }
}

/// The parent of a path: the text before its last separator.
pub fn parent_path(p: &String) -> (r: String)
    ensures
        r@ == spec_parent(p@),
{
    proof {
        lemma_rfind_characterization(p@, '/');
    }
    match rfind_char(p.as_str(), '/') {
        None => String::new(),
        Some(i) => {
            if i == 0 {
                String::from_str(p.as_str().substring_char(0, 1))
            } else {
                String::from_str(p.as_str().substring_char(0, i))
            }
        },
    }
}

/// Appends one path component.
pub fn path_join(a: &String, b: &str) -> (r: String)
    ensures
        r@ == spec_join(a@, b@),
{
    let n = a.as_str().unicode_len();
    if n == 0 {
        return String::from_str(b);
    }
    let mut r = a.clone();
    if a.as_str().get_char(n - 1) != '/' {
        r.append("/");
        proof {
            reveal_strlit("/");
            assert(a@ + "/"@ =~= a@ + seq!['/']);
        }
    }
    r.append(b);
    proof {
        if a@.last() != '/' {
            assert(a@ + seq!['/'] + b@ =~= (a@ + seq!['/']) + b@);
        }
    }
    r
}

/// The extension of a path's file name, if it has one.
pub fn extension_of(p: &String) -> (r: Option<String>)
    ensures
        match r {
            Some(e) => spec_extension(p@) == Some(e@),
            None => spec_extension(p@) is None,
        },
{
    let name = file_name(p);
    proof {
        lemma_rfind_characterization(name@, '.');
    }
    let n = name.as_str().unicode_len();
    match rfind_char(name.as_str(), '.') {
        None => None,
        Some(i) => {
            if i == 0 {
                None
            } else {
                Some(String::from_str(name.as_str().substring_char(i + 1, n)))
            }
        },
    }
}

/// The path of a file's downsized copy: the same file name inside the cache
/// subdirectory beside it.
pub fn get_cache_dir_path(original_path: &String, cache_dir_name: &str) -> (r: String)
    ensures
        r@ == spec_cache_dir_path(original_path@, cache_dir_name@),
{
    let name = file_name(original_path);
    let parent = parent_path(original_path);
    let joined = path_join(&parent, cache_dir_name);
    path_join(&joined, name.as_str())
}

/// Whether the path names an image file: its extension is on the fixed,
/// case-sensitive allow-list (`jpg`, `jpeg`, `png`).
pub fn is_image_file(original_path: &String) -> (r: bool)
    ensures
        r == spec_is_image_file(original_path@),
{
    match extension_of(original_path) {
        None => false,
        Some(e) => str_eq(e.as_str(), "jpg") || str_eq(e.as_str(), "jpeg") || str_eq(
            e.as_str(),
            "png",
        ),
    }
}

/// Whether the path names a previously generated HTML file.
pub fn is_html_file(original_path: &String) -> (r: bool)
    ensures
        r == spec_is_html_file(original_path@),
{
    match extension_of(original_path) {
        None => false,
        Some(e) => str_eq(e.as_str(), "html"),
    }
}

/// The index of the first occurrence of `c` in `s`, if any.
pub open spec fn spec_find(s: Seq<char>, c: char) -> Option<int>
    decreases s.len(),
{
    if s.len() == 0 {
        None
    } else if s[0] == c {
        Some(0)
    } else {
        match spec_find(s.drop_first(), c) {
            None => None,
            Some(i) => Some(i + 1),
        }
    }
}

/// `spec_find` finds the first occurrence: the character stands at the
/// returned index and nowhere before it; `None` means it occurs nowhere.
pub proof fn lemma_find_characterization(s: Seq<char>, c: char)
    ensures
        match spec_find(s, c) {
            Some(i) => 0 <= i < s.len() && s[i] == c && (forall|j: int| 0 <= j < i ==> s[j] != c),
            None => forall|j: int| 0 <= j < s.len() ==> s[j] != c,
        },
    decreases s.len(),
{
    if s.len() == 0 {
    } else if s[0] == c {
    } else {
        lemma_find_characterization(s.drop_first(), c);
        assert(forall|j: int| 0 <= j < s.len() - 1 ==> s.drop_first()[j] == s[j + 1]);
        match spec_find(s.drop_first(), c) {
            Some(i) => {
                assert(spec_find(s, c) == Some(i + 1));
                assert(s.drop_first()[i] == c);
                assert forall|j: int| 0 <= j < i + 1 implies s[j] != c by {
                    if j > 0 {
                        assert(s.drop_first()[j - 1] != c);
                    }
                }
            },
            None => {
                assert forall|j: int| 0 <= j < s.len() implies s[j] != c by {
                    if j > 0 {
                        assert(s.drop_first()[j - 1] != c);
                    }
                }
            },
        }
    }
}

/// The index of the first occurrence of `c` in `s`, if any.
#[verifier::loop_isolation(false)]
pub fn find_char(s: &str, c: char) -> (r: Option<usize>)
    ensures
        spec_find(s@, c) == match r {
            Some(i) => Some(i as int),
            None => None::<int>,
        },
{
    proof {
        lemma_find_characterization(s@, c);
    }
    let n = s.unicode_len();
    let mut i: usize = 0;
    while i < n
        invariant
            n == s@.len(),
            i <= n,
            forall|j: int| 0 <= j < i ==> s@[j] != c,
        decreases n - i,
    {
        if s.get_char(i) == c {
            proof {
                match spec_find(s@, c) {
                    Some(k) => {
                        if k < i {
                            assert(s@[k] != c);
                        } else if k > i {
                            assert(s@[i as int] != c);
                        }
                    },
                    None => {
                        assert(s@[i as int] != c);
                    },
                }
            }
            return Some(i);
        }
        i = i + 1;
    }
    None
}

/// The non-empty pieces of a path between its separators, in order.
pub open spec fn spec_split(p: Seq<char>) -> Seq<Seq<char>>
    decreases p.len(),
{
    if p.len() == 0 {
        Seq::empty()
    } else {
        match spec_find(p, '/') {
            None => seq![p],
            Some(i) => if 0 <= i < p.len() {
                (if i == 0 {
                    Seq::<Seq<char>>::empty()
                } else {
                    seq![p.take(i)]
                }) + spec_split(p.skip(i + 1))
            } else {
                seq![p]
            },
        }
    }
}

/// A path's components: a lone leading separator counts as one, then the
/// non-empty pieces between separators.
pub open spec fn spec_components(p: Seq<char>) -> Seq<Seq<char>> {
    if p.len() > 0 && p[0] == '/' {
        seq!["/"@] + spec_split(p.skip(1))
    } else {
        spec_split(p)
    }
}

/// Splits off the pieces of a path after its (possible) leading separator.
fn split_pieces(p: &str) -> (r: Vec<String>)
    ensures
        views_of(r@) == spec_split(p@),
    decreases p@.len(),
{
    let n = p.unicode_len();
    if n == 0 {
        let r: Vec<String> = Vec::new();
        proof {
            assert(views_of(r@) =~= spec_split(p@));
        }
        return r;
    }
    match find_char(p, '/') {
        None => {
            let mut r: Vec<String> = Vec::new();
            r.push(String::from_str(p));
            proof {
                assert(views_of(r@) =~= spec_split(p@));
            }
            r
        },
        Some(i) => {
            proof {
                lemma_find_characterization(p@, '/');
            }
            let mut r: Vec<String> = Vec::new();
            if i > 0 {
                r.push(String::from_str(p.substring_char(0, i)));
            }
            let ghost head = views_of(r@);
            let mut rest = split_pieces(p.substring_char(i + 1, n));
            let ghost tail = views_of(rest@);
            let ghost rlen = r@.len();
            r.append(&mut rest);
            proof {
                assert(views_of(r@) =~= head + tail) by {
                    assert(forall|j: int|
                        0 <= j < rlen ==> views_of(r@)[j] == #[trigger] head[j]);
                    assert(forall|j: int|
                        rlen <= j < r@.len() ==> views_of(r@)[j] == tail[j - rlen]);
                }
                assert(views_of(r@) =~= spec_split(p@));
            }
            r
        },
    }
}

/// The components of a path: a lone leading separator first, then the
/// non-empty pieces between separators.
pub fn split_components(p: &String) -> (r: Vec<String>)
    ensures
        views_of(r@) == spec_components(p@),
{
    let n = p.as_str().unicode_len();
    if n > 0 && p.as_str().get_char(0) == '/' {
        let mut r: Vec<String> = Vec::new();
        r.push(String::from_str("/"));
        let ghost head = views_of(r@);
        let mut rest = split_pieces(p.as_str().substring_char(1, n));
        let ghost tail = views_of(rest@);
        r.append(&mut rest);
        proof {
            assert(views_of(r@) =~= head + tail) by {
                assert(forall|j: int| 0 <= j < 1 ==> views_of(r@)[j] == #[trigger] head[j]);
                assert(forall|j: int|
                    1 <= j < r@.len() ==> views_of(r@)[j] == tail[j - 1]);
            }
            assert(head =~= seq!["/"@]);
            assert(views_of(r@) =~= spec_components(p@));
        }
        r
    } else {
        let r = split_pieces(p.as_str());
        proof {
            assert(p@.len() > 0 ==> p@[0] != '/');
        }
        r
    }
}

/// One path component appended after another, in order, onto a base path.
pub open spec fn spec_join_segments(base: Seq<char>, segs: Seq<Seq<char>>) -> Seq<char>
    decreases segs.len(),
{
    if segs.len() == 0 {
        base
    } else {
        spec_join(spec_join_segments(base, segs.drop_last()), segs.last())
    }
}

} // verus!
