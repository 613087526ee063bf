//! The order in which domains are handed to the tree builder: label
//! sequences are sorted by length first (shorter, higher-level domains
//! first) and lexicographically second, so that a parent path is always
//! built before any of its descendants.

use vstd::prelude::*;
use crate::text::doms_views;
use crate::text::str_eq;
use crate::text::str_views;

verus! {

/// Strict lexicographic order on character sequences, by code point.
/// This agrees with the byte order of the UTF-8 encodings.
pub open spec fn chars_lt(a: Seq<char>, b: Seq<char>) -> bool
    decreases a.len(),
{
    if b.len() == 0 {
        false
    } else if a.len() == 0 {
        true
    } else if a[0] != b[0] {
        (a[0] as u32) < (b[0] as u32)
    } else {
        chars_lt(a.drop_first(), b.drop_first())
    }
}

/// Strict lexicographic order on label sequences, labels compared by
/// `chars_lt`.
pub open spec fn labels_lt(a: Seq<Seq<char>>, b: Seq<Seq<char>>) -> bool
    decreases a.len(),
{
    if b.len() == 0 {
        false
    } else if a.len() == 0 {
        true
    } else if a[0] != b[0] {
        chars_lt(a[0], b[0])
    } else {
        labels_lt(a.drop_first(), b.drop_first())
    }
}

/// The sort order of the builder: by length, then lexicographically.
/// For equal lengths, `a` comes no later than `b` exactly when `b` is not
/// strictly below `a`.
pub open spec fn domain_le(a: Seq<Seq<char>>, b: Seq<Seq<char>>) -> bool {
    a.len() < b.len() || (a.len() == b.len() && !labels_lt(b, a))
}

pub proof fn lemma_chars_lt_skip(a: Seq<char>, b: Seq<char>, i: int)
    requires
        0 <= i <= a.len(),
        i <= b.len(),
        a.take(i) =~= b.take(i),
    ensures
        chars_lt(a, b) == chars_lt(a.skip(i), b.skip(i)),
    decreases i,
{
    if i == 0 {
        assert(a.skip(0) =~= a);
        assert(b.skip(0) =~= b);
    } else {
        assert(a.take(i)[0] == b.take(i)[0]);
        assert(a[0] == b[0]);
        let a1 = a.drop_first();
        let b1 = b.drop_first();
        assert(a1.take(i - 1) =~= b1.take(i - 1)) by {
            assert forall|j: int| 0 <= j < i - 1 implies #[trigger] a1.take(i - 1)[j] == b1.take(
                i - 1,
            )[j] by {
                assert(a.take(i)[j + 1] == b.take(i)[j + 1]);
            }
        }
        lemma_chars_lt_skip(a1, b1, i - 1);
        assert(a1.skip(i - 1) =~= a.skip(i));
        assert(b1.skip(i - 1) =~= b.skip(i));
    }
}

pub proof fn lemma_labels_lt_skip(a: Seq<Seq<char>>, b: Seq<Seq<char>>, i: int)
    requires
        0 <= i <= a.len(),
        i <= b.len(),
        a.take(i) =~= b.take(i),
    ensures
        labels_lt(a, b) == labels_lt(a.skip(i), b.skip(i)),
    decreases i,
{
    if i == 0 {
        assert(a.skip(0) =~= a);
        assert(b.skip(0) =~= b);
    } else {
        assert(a.take(i)[0] == b.take(i)[0]);
        assert(a[0] == b[0]);
        let a1 = a.drop_first();
        let b1 = b.drop_first();
        assert(a1.take(i - 1) =~= b1.take(i - 1)) by {
            assert forall|j: int| 0 <= j < i - 1 implies #[trigger] a1.take(i - 1)[j] == b1.take(
                i - 1,
            )[j] by {
                assert(a.take(i)[j + 1] == b.take(i)[j + 1]);
            }
        }
        lemma_labels_lt_skip(a1, b1, i - 1);
        assert(a1.skip(i - 1) =~= a.skip(i));
        assert(b1.skip(i - 1) =~= b.skip(i));
    }
}

/// Decides `chars_lt` on two strings.
pub fn chars_lt_str(a: &str, b: &str) -> (r: bool)
    ensures
        r == chars_lt(a@, b@),
{
    let na = a.unicode_len();
    let nb = b.unicode_len();
    let mut i: usize = 0;
    while i < na && i < nb
        invariant
            na == a@.len(),
            nb == b@.len(),
            i <= na,
            i <= nb,
            a@.take(i as int) =~= b@.take(i as int),
        decreases na - i,
    {
        let ca = a.get_char(i);
        let cb = b.get_char(i);
        proof {
            lemma_chars_lt_skip(a@, b@, i as int);
            assert(a@.skip(i as int)[0] == a@[i as int]);
            assert(b@.skip(i as int)[0] == b@[i as int]);
        }
        if ca != cb {
            return (ca as u32) < (cb as u32);
        }
        proof {
            assert(a@.take(i + 1) =~= a@.take(i as int).push(a@[i as int]));
            assert(b@.take(i + 1) =~= b@.take(i as int).push(b@[i as int]));
        }
        i = i + 1;
    }
    proof {
        lemma_chars_lt_skip(a@, b@, i as int);
        if i == nb {
            assert(b@.skip(i as int) =~= Seq::<char>::empty());
        } else {
            assert(a@.skip(i as int) =~= Seq::<char>::empty());
            assert(b@.skip(i as int).len() > 0);
        }
    }
    na < nb
}

/// Decides `labels_lt` on two label vectors.
pub fn labels_lt_vec(a: &Vec<String>, b: &Vec<String>) -> (r: bool)
    ensures
        r == labels_lt(str_views(a@), str_views(b@)),
{
    let na = a.len();
    let nb = b.len();
    let ghost av = str_views(a@);
    let ghost bv = str_views(b@);
    let mut i: usize = 0;
    while i < na && i < nb
        invariant
            na == av.len(),
            nb == bv.len(),
            av == str_views(a@),
            bv == str_views(b@),
            i <= na,
            i <= nb,
            av.take(i as int) =~= bv.take(i as int),
        decreases na - i,
    {
        proof {
            lemma_labels_lt_skip(av, bv, i as int);
            assert(av.skip(i as int)[0] == av[i as int]);
            assert(bv.skip(i as int)[0] == bv[i as int]);
        }
        if !str_eq(a[i].as_str(), b[i].as_str()) {
            return chars_lt_str(a[i].as_str(), b[i].as_str());
        }
        proof {
            assert(av.take(i + 1) =~= av.take(i as int).push(av[i as int]));
            assert(bv.take(i + 1) =~= bv.take(i as int).push(bv[i as int]));
        }
        i = i + 1;
    }
    proof {
        lemma_labels_lt_skip(av, bv, i as int);
        if i == nb {
            assert(bv.skip(i as int) =~= Seq::<Seq<char>>::empty());
        } else {
            assert(av.skip(i as int) =~= Seq::<Seq<char>>::empty());
            assert(bv.skip(i as int).len() > 0);
        }
    }
    na < nb
}

/// Decides `domain_le` on two label vectors.
pub fn domain_le_vec(a: &Vec<String>, b: &Vec<String>) -> (r: bool)
    ensures
        r == domain_le(str_views(a@), str_views(b@)),
{
    if a.len() < b.len() {
        true
    } else if a.len() == b.len() {
        !labels_lt_vec(b, a)
    } else {
        false
    }
}

/// Inserts `x` into `s` after every element that sorts no later than it.
pub open spec fn dom_insert(x: Seq<Seq<char>>, s: Seq<Seq<Seq<char>>>) -> Seq<Seq<Seq<char>>>
    decreases s.len(),
{
    if s.len() == 0 {
        seq![x]
    } else if domain_le(s[0], x) {
        seq![s[0]] + dom_insert(x, s.drop_first())
    } else {
        seq![x] + s
    }
}

/// The insertion sort of the first `k` elements of `s`, in order.
pub open spec fn dom_sort_upto(s: Seq<Seq<Seq<char>>>, k: int) -> Seq<Seq<Seq<char>>>
    decreases k,
{
    if k <= 0 {
        Seq::empty()
    } else {
        dom_insert(s[k - 1], dom_sort_upto(s, k - 1))
    }
}

/// The builder's sort: every element inserted in turn, in input order.
pub open spec fn dom_sort(s: Seq<Seq<Seq<char>>>) -> Seq<Seq<Seq<char>>> {
    dom_sort_upto(s, s.len() as int)
}

pub proof fn lemma_dom_insert_at(x: Seq<Seq<char>>, s: Seq<Seq<Seq<char>>>, k: int)
    requires
        0 <= k <= s.len(),
        forall|j: int| 0 <= j < k ==> domain_le(#[trigger] s[j], x),
        k < s.len() ==> !domain_le(s[k], x),
    ensures
        dom_insert(x, s) == s.take(k) + seq![x] + s.skip(k),
    decreases k,
{
    if k == 0 {
        if s.len() == 0 {
            assert(s.take(0) + seq![x] + s.skip(0) =~= seq![x]);
        } else {
            assert(s.take(0) + seq![x] + s.skip(0) =~= seq![x] + s);
        }
    } else {
        let s1 = s.drop_first();
        assert(domain_le(s[0], x));
        assert(forall|j: int| 0 <= j < k - 1 ==> domain_le(#[trigger] s1[j], x)) by {
            assert(forall|j: int| 0 <= j < k - 1 ==> s1[j] == s[j + 1]);
        }
        lemma_dom_insert_at(x, s1, k - 1);
        assert(seq![s[0]] + (s1.take(k - 1) + seq![x] + s1.skip(k - 1)) =~= s.take(k) + seq![x]
            + s.skip(k));
    }
}

/// The position at which `x` belongs in the already-sorted `out`.
fn insert_pos(out: &Vec<Vec<String>>, x: &Vec<String>) -> (k: usize)
    ensures
        k <= out@.len(),
        forall|j: int| 0 <= j < k ==> domain_le(#[trigger] doms_views(out@)[j], str_views(x@)),
        k < out@.len() ==> !domain_le(doms_views(out@)[k as int], str_views(x@)),
{
    let n = out.len();
    let mut k: usize = 0;
    while k < n
        invariant
            n == out@.len(),
            k <= n,
            forall|j: int| 0 <= j < k ==> domain_le(#[trigger] doms_views(out@)[j], str_views(x@)),
        decreases n - k,
    {
        if !domain_le_vec(&out[k], x) {
            return k;
        }
        k = k + 1;
    }
    k
}

/// Inserts one label vector into the sorted vector `out`.
fn insert_domain_sorted(out: &mut Vec<Vec<String>>, x: Vec<String>)
    ensures
        doms_views(final(out)@) == dom_insert(str_views(x@), doms_views(old(out)@)),
{
    let ghost before = doms_views(out@);
    let ghost xv = str_views(x@);
    let k = insert_pos(out, &x);
    out.insert(k, x);
    proof {
        lemma_dom_insert_at(xv, before, k as int);
        assert(doms_views(out@) =~= before.take(k as int) + seq![xv] + before.skip(k as int));
    }
}

/// Sorts label vectors by length, then lexicographically.
pub fn sort_domains(ds: Vec<Vec<String>>) -> (r: Vec<Vec<String>>)
    ensures
        doms_views(r@) == dom_sort(doms_views(ds@)),
{
    let ghost g = doms_views(ds@);
    let mut ds = ds;
    let n_total = ds.len();
    let mut out: Vec<Vec<String>> = Vec::new();
    let mut k: usize = 0;
    proof {
        assert(doms_views(out@) =~= Seq::<Seq<Seq<char>>>::empty());
    }
    while ds.len() > 0
        invariant
            g.len() == n_total,
            k + ds@.len() == g.len(),
            doms_views(ds@) =~= g.skip(k as int),
            doms_views(out@) == dom_sort_upto(g, k as int),
        decreases ds@.len(),
    {
        let ghost ds_before = ds@;
        let d = ds.remove(0);
        proof {
            assert(str_views(d@) == doms_views(ds_before)[0]);
            assert(str_views(d@) == g[k as int]);
            assert(doms_views(ds@) =~= doms_views(ds_before).drop_first());
            assert(doms_views(ds_before).drop_first() =~= g.skip(k + 1));
            assert(dom_sort_upto(g, k + 1) == dom_insert(g[k as int], dom_sort_upto(g, k as int)));
        }
        insert_domain_sorted(&mut out, d);
        k = k + 1;
    }
    proof {
        assert(doms_views(ds@).len() == 0);
        assert(dom_sort(g) == dom_sort_upto(g, g.len() as int));
    }
    out
}

} // verus!
