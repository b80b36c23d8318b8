//! Case-insensitive alphabetical ordering of names, and the stable
//! insertion sort the walker uses to impose it.
//!
//! Names are compared lexicographically after folding the ASCII letters
//! `A`..`Z` down to their lower-case forms; all other characters compare by
//! their code points.

use vstd::prelude::*;

verus! {

/// The folded code point one character is ordered by.
pub open spec fn ci_key(c: char) -> u32 {
    if 65 <= c as u32 && c as u32 <= 90 {
        (c as u32 + 32) as u32
    } else {
        c as u32
    }
}

/// Case-insensitive lexicographic "less than or equal" on names.
pub open spec fn ci_le(a: Seq<char>, b: Seq<char>) -> bool
    decreases a.len(),
{
    if a.len() == 0 {
        true
    } else if b.len() == 0 {
        false
    } else if ci_key(a[0]) < ci_key(b[0]) {
        true
    } else if ci_key(a[0]) > ci_key(b[0]) {
        false
    } else {
        ci_le(a.drop_first(), b.drop_first())
    }
}

/// `ci_le` is total: of any two names, one is less than or equal the other.
pub proof fn lemma_ci_le_total(a: Seq<char>, b: Seq<char>)
    ensures
        ci_le(a, b) || ci_le(b, a),
    decreases a.len(),
{
    if a.len() == 0 {
    } else if b.len() == 0 {
    } else if ci_key(a[0]) == ci_key(b[0]) {
        lemma_ci_le_total(a.drop_first(), b.drop_first());
    }
}

/// `ci_le` is reflexive.
pub proof fn lemma_ci_le_refl(a: Seq<char>)
    ensures
        ci_le(a, a),
    decreases a.len(),
{
    if a.len() > 0 {
        lemma_ci_le_refl(a.drop_first());
    }
}

/// `ci_le` is transitive.
pub proof fn lemma_ci_le_trans(a: Seq<char>, b: Seq<char>, c: Seq<char>)
    requires
        ci_le(a, b),
        ci_le(b, c),
    ensures
        ci_le(a, c),
    decreases a.len(),
{
    if a.len() == 0 {
    } else {
        // b and c are nonempty as well, else the hypotheses fail.
        if ci_key(a[0]) == ci_key(b[0]) && ci_key(b[0]) == ci_key(c[0]) {
            lemma_ci_le_trans(a.drop_first(), b.drop_first(), c.drop_first());
        }
    }
}

/// Names whose first `i` characters share folded keys compare as their
/// remainders do.
pub proof fn lemma_ci_le_skip(a: Seq<char>, b: Seq<char>, i: int)
    requires
        0 <= i <= a.len(),
        i <= b.len(),
        forall|j: int| 0 <= j < i ==> ci_key(a[j]) == ci_key(b[j]),
    ensures
        ci_le(a, b) == ci_le(a.skip(i), b.skip(i)),
    decreases i,
{
    if i == 0 {
        assert(a.skip(0) =~= a);
        assert(b.skip(0) =~= b);
    } else {
        assert(forall|j: int|
            0 <= j < i - 1 ==> ci_key(a.drop_first()[j]) == ci_key(b.drop_first()[j]));
        lemma_ci_le_skip(a.drop_first(), b.drop_first(), i - 1);
        assert(a.drop_first().skip(i - 1) =~= a.skip(i));
        assert(b.drop_first().skip(i - 1) =~= b.skip(i));
    }
}

/// Case-insensitive comparison of two names: whether `a` sorts at or before
/// `b`.
pub fn ci_leq(a: &str, b: &str) -> (r: bool)
    ensures
        r == ci_le(a@, b@),
{
    let alen = a.unicode_len();
    let blen = b.unicode_len();
    let mut i: usize = 0;
    loop
        invariant
            alen == a@.len(),
            blen == b@.len(),
            i <= alen,
            i <= blen,
            forall|j: int| 0 <= j < i ==> ci_key(a@[j]) == ci_key(b@[j]),
        decreases alen - i,
    {
        proof {
            lemma_ci_le_skip(a@, b@, i as int);
        }
        if i == alen {
            return true;
        }
        if i == blen {
            return false;
        }
        let ca = a.get_char(i) as u32;
        let cb = b.get_char(i) as u32;
        let ka = if 65 <= ca && ca <= 90 {
            ca + 32
        } else {
            ca
        };
        let kb = if 65 <= cb && cb <= 90 {
            cb + 32
        } else {
            cb
        };
        proof {
            assert(a@.skip(i as int)[0] == a@[i as int]);
            assert(b@.skip(i as int)[0] == b@[i as int]);
        }
        if ka < kb {
            return true;
        }
        if ka > kb {
            return false;
        }
        i = i + 1;
    }
}

/// Stable insertion of `x` into `s`: `x` lands after every element whose key
/// is at or below its own.
pub open spec fn ci_insert<T>(key: spec_fn(T) -> Seq<char>, x: T, s: Seq<T>) -> Seq<T>
    decreases s.len(),
{
    if s.len() == 0 {
        seq![x]
    } else if ci_le(key(s[0]), key(x)) {
        seq![s[0]] + ci_insert(key, x, s.drop_first())
    } else {
        seq![x] + s
    }
}

/// Stable insertion sort by a key: elements with equal keys keep their
/// original relative order.
pub open spec fn ci_sort_by<T>(key: spec_fn(T) -> Seq<char>, s: Seq<T>) -> Seq<T>
    decreases s.len(),
{
    if s.len() == 0 {
        Seq::empty()
    } else {
        ci_insert(key, s.last(), ci_sort_by(key, s.drop_last()))
    }
}

/// A sequence ordered by a key under `ci_le`.
pub open spec fn ci_sorted_by<T>(key: spec_fn(T) -> Seq<char>, s: Seq<T>) -> bool {
    forall|i: int, j: int| 0 <= i < j < s.len() ==> ci_le(key(#[trigger] s[i]), key(#[trigger] s[j]))
}

/// Where `ci_insert` puts the new element: before the first resident whose
/// key exceeds the new one, after everything at or below it.
pub proof fn lemma_ci_insert_position<T>(key: spec_fn(T) -> Seq<char>, x: T, s: Seq<T>, j: int)
    requires
        0 <= j <= s.len(),
        forall|k: int| 0 <= k < j ==> ci_le(key(#[trigger] s[k]), key(x)),
        j < s.len() ==> !ci_le(key(s[j]), key(x)),
    ensures
        ci_insert(key, x, s) == s.subrange(0, j) + seq![x] + s.subrange(j, s.len() as int),
    decreases s.len(),
{
    if s.len() == 0 {
        assert(ci_insert(key, x, s) =~= s.subrange(0, j) + seq![x] + s.subrange(
            j,
            s.len() as int,
        ));
    } else if ci_le(key(s[0]), key(x)) {
        assert(j > 0) by {
            if j == 0 {
                assert(!ci_le(key(s[0]), key(x)));
            }
        }
        assert(forall|k: int|
            0 <= k < j - 1 ==> ci_le(key(#[trigger] s.drop_first()[k]), key(x)));
        lemma_ci_insert_position(key, x, s.drop_first(), j - 1);
        assert(ci_insert(key, x, s) =~= s.subrange(0, j) + seq![x] + s.subrange(
            j,
            s.len() as int,
        ));
    } else {
        assert(j == 0) by {
            if j > 0 {
                assert(ci_le(key(s[0]), key(x)));
            }
        }
        assert(ci_insert(key, x, s) =~= s.subrange(0, j) + seq![x] + s.subrange(
            j,
            s.len() as int,
        ));
    }
}

/// Insertion adds exactly the new element to the sequence's contents.
pub proof fn lemma_ci_insert_contains<T>(key: spec_fn(T) -> Seq<char>, x: T, s: Seq<T>, y: T)
    ensures
        ci_insert(key, x, s).contains(y) <==> (y == x || s.contains(y)),
    decreases s.len(),
{
    broadcast use vstd::seq_lib::group_seq_properties;

    if s.len() == 0 {
        assert(ci_insert(key, x, s)[0] == x);
    } else if ci_le(key(s[0]), key(x)) {
        lemma_ci_insert_contains(key, x, s.drop_first(), y);
        assert(seq![s[0]].contains(y) <==> y == s[0]) by {
            if seq![s[0]].contains(y) {
            } else {
                assert(seq![s[0]][0] == s[0]);
            }
        }
        assert(s.contains(y) <==> (y == s[0] || s.drop_first().contains(y))) by {
            assert(s =~= seq![s[0]] + s.drop_first());
        }
    } else {
        assert(seq![x].contains(y) <==> y == x) by {
            if !seq![x].contains(y) {
                assert(seq![x][0] == x);
            }
        }
    }
}

/// Sorting keeps exactly the original contents.
pub proof fn lemma_ci_sort_contains<T>(key: spec_fn(T) -> Seq<char>, s: Seq<T>, y: T)
    ensures
        ci_sort_by(key, s).contains(y) <==> s.contains(y),
    decreases s.len(),
{
    broadcast use vstd::seq_lib::group_seq_properties;

    if s.len() == 0 {
    } else {
        lemma_ci_sort_contains(key, s.drop_last(), y);
        lemma_ci_insert_contains(key, s.last(), ci_sort_by(key, s.drop_last()), y);
        assert(s.contains(y) <==> (y == s.last() || s.drop_last().contains(y))) by {
            assert(s =~= s.drop_last() + seq![s.last()]);
            assert(seq![s.last()].contains(y) <==> y == s.last()) by {
                if !seq![s.last()].contains(y) {
                    assert(seq![s.last()][0] == s.last());
                }
            }
        }
    }
}

/// Inserting into an ordered sequence keeps it ordered.
pub proof fn lemma_ci_insert_sorted<T>(key: spec_fn(T) -> Seq<char>, x: T, s: Seq<T>)
    requires
        ci_sorted_by(key, s),
    ensures
        ci_sorted_by(key, ci_insert(key, x, s)),
    decreases s.len(),
{
    if s.len() == 0 {
    } else if ci_le(key(s[0]), key(x)) {
        assert(ci_sorted_by(key, s.drop_first())) by {
            assert(forall|i: int, j: int|
                0 <= i < j < s.drop_first().len() ==> ci_le(
                    key(#[trigger] s.drop_first()[i]),
                    key(#[trigger] s.drop_first()[j]),
                ));
        }
        lemma_ci_insert_sorted(key, x, s.drop_first());
        let r = seq![s[0]] + ci_insert(key, x, s.drop_first());
        assert forall|i: int, j: int| 0 <= i < j < r.len() implies ci_le(
            key(#[trigger] r[i]),
            key(#[trigger] r[j]),
        ) by {
            if i == 0 {
                let t = ci_insert(key, x, s.drop_first());
                assert(r[j] == t[j - 1]);
                lemma_ci_insert_contains(key, x, s.drop_first(), t[j - 1]);
                if t[j - 1] == x {
                    assert(ci_le(key(s[0]), key(x)));
                } else {
                    let k = choose|k: int|
                        0 <= k < s.drop_first().len() && s.drop_first()[k] == t[j - 1];
                    assert(s.drop_first()[k] == s[k + 1]);
                    assert(ci_le(key(s[0]), key(s[k + 1])));
                }
            }
        }
    } else {
        lemma_ci_le_total(key(s[0]), key(x));
        let r = seq![x] + s;
        assert forall|i: int, j: int| 0 <= i < j < r.len() implies ci_le(
            key(#[trigger] r[i]),
            key(#[trigger] r[j]),
        ) by {
            if i == 0 {
                assert(r[j] == s[j - 1]);
                if j - 1 > 0 {
                    assert(ci_le(key(s[0]), key(s[j - 1])));
                    lemma_ci_le_trans(key(x), key(s[0]), key(s[j - 1]));
                } else {
                    assert(ci_le(key(x), key(s[0])));
                }
            }
        }
    }
}

/// What the insertion sort returns is ordered by the key.
pub proof fn lemma_ci_sort_sorted<T>(key: spec_fn(T) -> Seq<char>, s: Seq<T>)
    ensures
        ci_sorted_by(key, ci_sort_by(key, s)),
    decreases s.len(),
{
    if s.len() > 0 {
        lemma_ci_sort_sorted(key, s.drop_last());
        lemma_ci_insert_sorted(key, s.last(), ci_sort_by(key, s.drop_last()));
    }
}

/// Sorting neither adds nor drops elements: the result has the same length
/// and the same contents.
pub proof fn lemma_ci_sort_len<T>(key: spec_fn(T) -> Seq<char>, s: Seq<T>)
    ensures
        ci_sort_by(key, s).len() == s.len(),
    decreases s.len(),
{
    if s.len() > 0 {
        lemma_ci_sort_len(key, s.drop_last());
        lemma_ci_insert_len(key, s.last(), ci_sort_by(key, s.drop_last()));
    }
}

/// Insertion grows the sequence by exactly one.
pub proof fn lemma_ci_insert_len<T>(key: spec_fn(T) -> Seq<char>, x: T, s: Seq<T>)
    ensures
        ci_insert(key, x, s).len() == s.len() + 1,
    decreases s.len(),
{
    if s.len() > 0 && ci_le(key(s[0]), key(x)) {
        lemma_ci_insert_len(key, x, s.drop_first());
    }
}

/// Filtering an ordered sequence keeps it ordered.
pub proof fn lemma_ci_sorted_filter<T>(
    key: spec_fn(T) -> Seq<char>,
    pred: spec_fn(T) -> bool,
    s: Seq<T>,
)
    requires
        ci_sorted_by(key, s),
    ensures
        ci_sorted_by(key, s.filter(pred)),
    decreases s.len(),
{
    reveal(Seq::filter);
    broadcast use vstd::seq_lib::group_seq_properties;

    if s.len() > 0 {
        assert(ci_sorted_by(key, s.drop_last())) by {
            assert(forall|i: int, j: int|
                0 <= i < j < s.drop_last().len() ==> ci_le(
                    key(#[trigger] s.drop_last()[i]),
                    key(#[trigger] s.drop_last()[j]),
                ));
        }
        lemma_ci_sorted_filter(key, pred, s.drop_last());
        if pred(s.last()) {
            let head = s.drop_last().filter(pred);
            let r = head.push(s.last());
            assert forall|i: int, j: int| 0 <= i < j < r.len() implies ci_le(
                key(#[trigger] r[i]),
                key(#[trigger] r[j]),
            ) by {
                if j < head.len() {
                    assert(r[i] == head[i]);
                    assert(r[j] == head[j]);
                } else {
                    assert(r[j] == s.last());
                    assert(r[i] == head[i]);
                    assert(head.contains(head[i]));
                    s.drop_last().lemma_filter_contains_rev(pred, head[i]);
                    let k = choose|k: int|
                        0 <= k < s.drop_last().len() && s.drop_last()[k] == head[i];
                    assert(s[k] == head[i]);
                    assert(ci_le(key(s[k]), key(s[s.len() - 1])));
                }
            }
        }
    }
}

} // verus!
