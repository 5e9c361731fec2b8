//! Orders used to sort lists for display, and the stable sort they are
//! sorted by.

use vstd::prelude::*;

verus! {

/// Text order: lexicographic by character, as `String`'s `Ord` orders text
/// (byte order of UTF-8, which is code-point order).
pub open spec fn text_le(a: Seq<char>, b: Seq<char>) -> bool
    decreases a.len(),
{
    if a.len() == 0 {
        true
    } else if b.len() == 0 {
        false
    } else if a[0] != b[0] {
        (a[0] as u32) < (b[0] as u32)
    } else {
        text_le(a.drop_first(), b.drop_first())
    }
}

/// The index where a stable insertion places `x`: after every element that
/// is not after it.
pub open spec fn insert_index<T>(s: Seq<T>, x: T, le: spec_fn(T, T) -> bool) -> nat
    decreases s.len(),
{
    if s.len() == 0 {
        0
    } else if le(s.last(), x) {
        s.len()
    } else {
        insert_index(s.drop_last(), x, le)
    }
}

/// `s` sorted by `le`, equal elements keeping their order: each element in
/// turn is inserted after the elements already placed that are not after it.
pub open spec fn stable_sort<T>(s: Seq<T>, le: spec_fn(T, T) -> bool) -> Seq<T>
    decreases s.len(),
{
    if s.len() == 0 {
        s
    } else {
        let sorted = stable_sort(s.drop_last(), le);
        sorted.insert(insert_index(sorted, s.last(), le) as int, s.last())
    }
}

/// `le` orders every pair, transitively.
pub open spec fn total_preorder<T>(le: spec_fn(T, T) -> bool) -> bool {
    &&& forall|a: T, b: T| #[trigger] le(a, b) || le(b, a)
    &&& forall|a: T, b: T, c: T| #[trigger] le(a, b) && #[trigger] le(b, c) ==> le(a, c)
}

/// `s` is sorted by `le`.
pub open spec fn sorted_by<T>(s: Seq<T>, le: spec_fn(T, T) -> bool) -> bool {
    forall|i: int, j: int| 0 <= i < j < s.len() ==> le(#[trigger] s[i], #[trigger] s[j])
}

proof fn lemma_insert_index<T>(s: Seq<T>, x: T, le: spec_fn(T, T) -> bool)
    ensures
        insert_index(s, x, le) <= s.len(),
        forall|j: int| insert_index(s, x, le) <= j < s.len() ==> !le(#[trigger] s[j], x),
        insert_index(s, x, le) > 0 ==> le(s[insert_index(s, x, le) - 1], x),
    decreases s.len(),
{
    if s.len() > 0 && !le(s.last(), x) {
        let p = s.drop_last();
        lemma_insert_index(p, x, le);
        let k = insert_index(s, x, le);
        assert forall|j: int| k <= j < s.len() implies !le(#[trigger] s[j], x) by {
            if j < p.len() {
                assert(s[j] == p[j]);
            }
        }
        if k > 0 {
            assert(s[k - 1] == p[k - 1]);
        }
    }
}

/// A stable sort by a total preorder is sorted.
pub proof fn law_stable_sort_sorted<T>(s: Seq<T>, le: spec_fn(T, T) -> bool)
    requires
        total_preorder(le),
    ensures
        sorted_by(stable_sort(s, le), le),
    decreases s.len(),
{
    if s.len() > 0 {
        let p = stable_sort(s.drop_last(), le);
        law_stable_sort_sorted(s.drop_last(), le);
        let x = s.last();
        let k = insert_index(p, x, le) as int;
        lemma_insert_index(p, x, le);
        let t = p.insert(k, x);
        assert forall|i: int, j: int| 0 <= i < j < t.len() implies le(#[trigger] t[i], #[trigger] t[j]) by {
            if j < k {
                assert(t[i] == p[i] && t[j] == p[j]);
            } else if j == k {
                assert(t[i] == p[i]);
                assert(le(p[k - 1], x));
                if i < k - 1 {
                    assert(le(p[i], p[k - 1]));
                }
            } else if i < k {
                assert(t[i] == p[i] && t[j] == p[j - 1]);
                if i < j - 1 {
                    assert(le(p[i], p[j - 1]));
                } else {
                    assert(le(p[i], p[j - 1]) || le(p[j - 1], p[i]));
                }
            } else if i == k {
                assert(t[j] == p[j - 1]);
                assert(!le(p[j - 1], x));
                assert(le(x, p[j - 1]) || le(p[j - 1], x));
            } else {
                assert(t[i] == p[i - 1] && t[j] == p[j - 1]);
            }
        }
    }
}

/// A stable sort keeps exactly the elements it was given.
pub proof fn law_stable_sort_permutes<T>(s: Seq<T>, le: spec_fn(T, T) -> bool)
    ensures
        stable_sort(s, le).to_multiset() == s.to_multiset(),
    decreases s.len(),
{
    broadcast use vstd::seq_lib::group_to_multiset_ensures;
    broadcast use vstd::multiset::group_multiset_axioms;

    if s.len() > 0 {
        let p = stable_sort(s.drop_last(), le);
        law_stable_sort_permutes(s.drop_last(), le);
        let x = s.last();
        let k = insert_index(p, x, le) as int;
        lemma_insert_index(p, x, le);
        let t = p.insert(k, x);
        assert(t.remove(k) =~= p);
        assert(t[k] == x);
        assert(t.to_multiset() =~= p.to_multiset().insert(x)) by {
            assert(t.remove(k).to_multiset() =~= t.to_multiset().remove(x));
            assert(t.to_multiset().count(x) > 0) by {
                assert(t.contains(x));
            }
        }
        assert(s == s.drop_last().push(x));
    }
}

/// Any two texts are ordered one way or the other.
pub proof fn lemma_text_le_total(a: Seq<char>, b: Seq<char>)
    ensures
        text_le(a, b) || text_le(b, a),
    decreases a.len(),
{
    if a.len() > 0 && b.len() > 0 {
        if a[0] == b[0] {
            lemma_text_le_total(a.drop_first(), b.drop_first());
        } else {
            vstd::utf8::char_u32_cast(a[0], a[0] as u32);
            vstd::utf8::char_u32_cast(b[0], b[0] as u32);
        }
    }
}

/// Text order is transitive.
pub proof fn lemma_text_le_transitive(a: Seq<char>, b: Seq<char>, c: Seq<char>)
    requires
        text_le(a, b),
        text_le(b, c),
    ensures
        text_le(a, c),
    decreases a.len(),
{
    if a.len() > 0 && b.len() > 0 && c.len() > 0 && a[0] == b[0] && b[0] == c[0] {
        lemma_text_le_transitive(a.drop_first(), b.drop_first(), c.drop_first());
    }
}

/// Text order is a total preorder.
pub proof fn law_text_order_total()
    ensures
        total_preorder(|a: Seq<char>, b: Seq<char>| text_le(a, b)),
{
    assert forall|a: Seq<char>, b: Seq<char>| text_le(a, b) || text_le(b, a) by {
        lemma_text_le_total(a, b);
    }
    assert forall|a: Seq<char>, b: Seq<char>, c: Seq<char>| text_le(a, b) && text_le(b, c) implies text_le(a, c) by {
        lemma_text_le_transitive(a, b, c);
    }
}

/// Compares two texts in text order.
pub fn text_leq(a: &String, b: &String) -> (r: bool)
    ensures
        r == text_le(a@, b@),
{
    let x = crate::text::to_chars(a.as_str());
    let y = crate::text::to_chars(b.as_str());
    let mut i: usize = 0;
    assert(x@.skip(0) == x@ && y@.skip(0) == y@);
    while i < x.len() && i < y.len() && x[i] == y[i]
        invariant
            i <= x@.len() && i <= y@.len(),
            text_le(x@, y@) == text_le(x@.skip(i as int), y@.skip(i as int)),
        decreases x@.len() - i,
    {
        assert(x@.skip(i as int).drop_first() == x@.skip(i + 1));
        assert(y@.skip(i as int).drop_first() == y@.skip(i + 1));
        i = i + 1;
    }
    if i == x.len() {
        true
    } else if i == y.len() {
        false
    } else {
        (x[i] as u32) < (y[i] as u32)
    }
}

} // verus!

verus! {

/// Removes and returns the first element.
pub fn take_first<T: DeepView>(v: &mut Vec<T>) -> (r: T)
    requires
        old(v)@.len() > 0,
    ensures
        r.deep_view() == old(v).deep_view()[0],
        final(v).deep_view() == old(v).deep_view().drop_first(),
{
    let ghost before = v@;
    let r = v.remove(0);
    assert(v.deep_view() =~= Seq::new(before.len(), |i: int| before[i].deep_view()).drop_first());
    r
}

} // verus!
