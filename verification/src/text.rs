//! Character-sequence utilities shared by the tree builder and renderer:
//! splitting a string on a separator, joining parts with a separator,
//! counting occurrences of a character, and string equality.

use vstd::prelude::*;
use vstd::string::StrSliceExecFns;
use vstd::string::StringExecFns;

verus! {

/// The character-sequence views of a sequence of strings.
pub open spec fn str_views(ss: Seq<String>) -> Seq<Seq<char>> {
    ss.map_values(|s: String| s@)
}

/// The views of a sequence of label vectors.
pub open spec fn doms_views(ds: Seq<Vec<String>>) -> Seq<Seq<Seq<char>>> {
    ds.map_values(|d: Vec<String>| str_views(d@))
}

/// The parts interleaved with a single separator character.
pub open spec fn joined(parts: Seq<Seq<char>>, sep: char) -> Seq<char>
    decreases parts.len(),
{
    if parts.len() == 0 {
        Seq::empty()
    } else if parts.len() == 1 {
        parts[0]
    } else {
        parts[0] + seq![sep] + joined(parts.drop_first(), sep)
    }
}

pub proof fn lemma_joined_push(parts: Seq<Seq<char>>, sep: char, part: Seq<char>)
    ensures
        parts.len() == 0 ==> joined(parts.push(part), sep) == part,
        parts.len() > 0 ==> joined(parts.push(part), sep) == joined(parts, sep) + seq![sep]
            + part,
    decreases parts.len(),
{
    let w = parts.push(part);
    if parts.len() == 0 {
        assert(w.len() == 1);
        assert(w[0] == part);
    } else if parts.len() == 1 {
        assert(w.drop_first() =~= seq![part]);
        assert(joined(seq![part], sep) == part);
        assert(joined(w, sep) == w[0] + seq![sep] + joined(w.drop_first(), sep));
        assert(joined(w, sep) == parts[0] + seq![sep] + part);
    } else {
        lemma_joined_push(parts.drop_first(), sep, part);
        assert(w.drop_first() =~= parts.drop_first().push(part));
        assert(parts[0] + seq![sep] + (joined(parts.drop_first(), sep) + seq![sep] + part) =~= (
        parts[0] + seq![sep] + joined(parts.drop_first(), sep)) + seq![sep] + part);
    }
}

/// Joins the strings of `parts` with the single-character separator `sep`.
pub fn join_with(parts: &Vec<String>, sep: &str) -> (r: String)
    requires
        sep@.len() == 1,
    ensures
        r@ == joined(str_views(parts@), sep@[0]),
{
    let mut r = String::new();
    let n = parts.len();
    let mut i: usize = 0;
    while i < n
        invariant
            n == parts@.len(),
            sep@.len() == 1,
            i <= n,
            r@ == joined(str_views(parts@).take(i as int), sep@[0]),
        decreases n - i,
    {
        if i > 0 {
            r.append(sep);
        }
        r.append(parts[i].as_str());
        proof {
            let vs = str_views(parts@);
            let c = sep@[0];
            lemma_joined_push(vs.take(i as int), c, vs[i as int]);
            assert(vs.take(i as int).push(vs[i as int]) =~= vs.take(i + 1));
            assert(sep@ =~= seq![c]);
            if i == 0 {
                assert(joined(vs.take(0), c) + vs[0] =~= vs[0]);
            }
        }
        i = i + 1;
    }
    proof {
        assert(str_views(parts@).take(n as int) =~= str_views(parts@));
    }
    r
}

/// Splits a character sequence on `sep`; `cur` is the label accumulated so
/// far. Empty labels are kept, so the result is never empty.
pub open spec fn split_acc(s: Seq<char>, sep: char, cur: Seq<char>) -> Seq<Seq<char>>
    decreases s.len(),
{
    if s.len() == 0 {
        seq![cur]
    } else if s[0] == sep {
        seq![cur] + split_acc(s.drop_first(), sep, Seq::empty())
    } else {
        split_acc(s.drop_first(), sep, cur.push(s[0]))
    }
}

/// All maximal `sep`-free labels of `s`, in order.
pub open spec fn split_on(s: Seq<char>, sep: char) -> Seq<Seq<char>> {
    split_acc(s, sep, Seq::empty())
}

pub proof fn lemma_split_acc_len(s: Seq<char>, sep: char, cur: Seq<char>)
    ensures
        split_acc(s, sep, cur).len() >= 1,
    decreases s.len(),
{
    if s.len() == 0 {
    } else if s[0] == sep {
    } else {
        lemma_split_acc_len(s.drop_first(), sep, cur.push(s[0]));
    }
}

pub proof fn lemma_joined_split_acc(s: Seq<char>, sep: char, cur: Seq<char>)
    ensures
        joined(split_acc(s, sep, cur), sep) == cur + s,
    decreases s.len(),
{
    if s.len() == 0 {
        assert(cur + s =~= cur);
    } else if s[0] == sep {
        lemma_joined_split_acc(s.drop_first(), sep, Seq::empty());
        lemma_split_acc_len(s.drop_first(), sep, Seq::empty());
        let rest = split_acc(s.drop_first(), sep, Seq::empty());
        let w = seq![cur] + rest;
        assert(w.drop_first() =~= rest);
        assert(Seq::<char>::empty() + s.drop_first() =~= s.drop_first());
        assert(cur + seq![sep] + s.drop_first() =~= cur + s);
    } else {
        lemma_joined_split_acc(s.drop_first(), sep, cur.push(s[0]));
        assert(cur.push(s[0]) + s.drop_first() =~= cur + s);
    }
}

/// Joining the labels of a split gives back the sequence that was split.
pub proof fn lemma_joined_split(s: Seq<char>, sep: char)
    ensures
        joined(split_on(s, sep), sep) == s,
{
    lemma_joined_split_acc(s, sep, Seq::empty());
    assert(Seq::<char>::empty() + s =~= s);
}

/// Splits `s` on the separator character `sep`, keeping empty labels.
pub fn split_on_str(s: &str, sep: char) -> (r: Vec<String>)
    ensures
        str_views(r@) == split_on(s@, sep),
{
    let n = s.unicode_len();
    let mut r: Vec<String> = Vec::new();
    let mut start: usize = 0;
    let mut i: usize = 0;
    proof {
        assert(str_views(r@) =~= Seq::<Seq<char>>::empty());
        assert(s@.subrange(0, 0) =~= Seq::<char>::empty());
        assert(s@.skip(0) =~= s@);
        assert(str_views(r@) + split_acc(s@, sep, Seq::empty()) =~= split_acc(
            s@,
            sep,
            Seq::empty(),
        ));
    }
    while i < n
        invariant
            n == s@.len(),
            i <= n,
            start <= i,
            split_on(s@, sep) == str_views(r@) + split_acc(
                s@.skip(i as int),
                sep,
                s@.subrange(start as int, i as int),
            ),
        decreases n - i,
    {
        let ghost cur = s@.subrange(start as int, i as int);
        let c = s.get_char(i);
        proof {
            assert(s@.skip(i as int)[0] == s@[i as int]);
            assert(s@.skip(i as int).drop_first() =~= s@.skip(i + 1));
        }
        if c == sep {
            let label = s.substring_char(start, i);
            r.push(String::from_str(label));
            start = i + 1;
            proof {
                assert(split_acc(s@.skip(i as int), sep, cur) == seq![cur] + split_acc(
                    s@.skip(i + 1),
                    sep,
                    Seq::empty(),
                ));
                assert(str_views(r@) =~= str_views(r@.drop_last()).push(cur));
                assert(str_views(r@.drop_last()).push(cur) + split_acc(
                    s@.skip(i + 1),
                    sep,
                    Seq::empty(),
                ) =~= str_views(r@.drop_last()) + (seq![cur] + split_acc(
                    s@.skip(i + 1),
                    sep,
                    Seq::empty(),
                )));
                assert(s@.subrange(start as int, (i + 1) as int) =~= Seq::<char>::empty());
            }
        } else {
            proof {
                assert(cur.push(s@[i as int]) =~= s@.subrange(start as int, i + 1));
            }
        }
        i = i + 1;
    }
    let last = s.substring_char(start, n);
    r.push(String::from_str(last));
    proof {
        let ghost cur = s@.subrange(start as int, n as int);
        assert(s@.skip(n as int) =~= Seq::<char>::empty());
        assert(split_acc(s@.skip(n as int), sep, cur) == seq![cur]);
        assert(str_views(r@) =~= str_views(r@.drop_last()) + seq![cur]);
    }
    r
}

/// The strings of `v` in reverse order.
pub fn reverse_strings(v: &Vec<String>) -> (r: Vec<String>)
    ensures
        str_views(r@) == str_views(v@).reverse(),
{
    let n = v.len();
    let mut out: Vec<String> = Vec::new();
    let mut t: usize = 0;
    proof {
        assert(str_views(out@) =~= str_views(v@).reverse().take(0));
    }
    while t < n
        invariant
            t <= n,
            n == v@.len(),
            str_views(out@) =~= str_views(v@).reverse().take(t as int),
        decreases n - t,
    {
        let ghost out_old = out@;
        out.push(v[n - 1 - t].clone());
        proof {
            let rev = str_views(v@).reverse();
            assert(out@ == out_old.push(v@[n - 1 - t]));
            assert(str_views(out@) =~= str_views(out_old).push(v@[n - 1 - t]@));
            assert(rev[t as int] == str_views(v@)[n - 1 - t]);
            assert(str_views(v@)[n - 1 - t] == v@[n - 1 - t]@);
            assert(str_views(out@) =~= rev.take(t + 1));
        }
        t = t + 1;
    }
    proof {
        assert(str_views(v@).reverse().take(n as int) =~= str_views(v@).reverse());
    }
    out
}

/// The number of occurrences of `c` in `s`.
pub open spec fn count_matches(s: Seq<char>, c: char) -> int
    decreases s.len(),
{
    if s.len() == 0 {
        0
    } else {
        (if s[0] == c {
            1int
        } else {
            0int
        }) + count_matches(s.drop_first(), c)
    }
}

pub proof fn lemma_count_push(s: Seq<char>, c: char, x: char)
    ensures
        count_matches(s.push(x), c) == count_matches(s, c) + (if x == c {
            1int
        } else {
            0int
        }),
    decreases s.len(),
{
    if s.len() == 0 {
        assert(s.push(x) =~= seq![x]);
        assert(seq![x].drop_first() =~= Seq::<char>::empty());
        assert(count_matches(Seq::<char>::empty(), c) == 0);
        assert(count_matches(seq![x], c) == (if x == c {
            1int
        } else {
            0int
        }) + count_matches(seq![x].drop_first(), c));
    } else {
        assert(s.push(x).drop_first() =~= s.drop_first().push(x));
        lemma_count_push(s.drop_first(), c, x);
    }
}

/// Counts the occurrences of `c` among the characters of `s`.
pub fn count_char(s: &str, c: char) -> (r: usize)
    ensures
        r as int == count_matches(s@, c),
{
    let n = s.unicode_len();
    let mut count: usize = 0;
    let mut i: usize = 0;
    while i < n
        invariant
            n == s@.len(),
            i <= n,
            count <= i,
            count as int == count_matches(s@.take(i as int), c),
        decreases n - i,
    {
        proof {
            lemma_count_push(s@.take(i as int), c, s@[i as int]);
            assert(s@.take(i as int).push(s@[i as int]) =~= s@.take(i + 1));
        }
        if s.get_char(i) == c {
            count = count + 1;
        }
        i = i + 1;
    }
    proof {
        assert(s@.take(n as int) =~= s@);
    }
    count
}

/// Character-for-character string equality.
pub fn str_eq(a: &str, b: &str) -> (r: bool)
    ensures
        r == (a@ == b@),
{
    let na = a.unicode_len();
    let nb = b.unicode_len();
    if na != nb {
        return false;
    }
    let mut i: usize = 0;
    while i < na
        invariant
            na == a@.len(),
            na == b@.len(),
            i <= na,
            a@.take(i as int) =~= b@.take(i as int),
        decreases na - i,
    {
        if s_neq_at(a, b, i) {
            return false;
        }
        proof {
            assert(a@.take(i + 1) =~= a@.take(i as int).push(a@[i as int]));
            assert(b@.take(i + 1) =~= b@.take(i as int).push(b@[i as int]));
        }
        i = i + 1;
    }
    proof {
        assert(a@.take(na as int) =~= a@);
        assert(b@.take(na as int) =~= b@);
    }
    true
}

/// Whether the characters of `a` and `b` at position `i` differ.
fn s_neq_at(a: &str, b: &str, i: usize) -> (r: bool)
    requires
        i < a@.len(),
        i < b@.len(),
    ensures
        r == (a@[i as int] != b@[i as int]),
{
    a.get_char(i) != b.get_char(i)
}

} // verus!
