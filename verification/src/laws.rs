//! Laws of the builder and renderer: every input name gets a node, shared
//! suffixes collapse into one node, rendering is deterministic, children
//! render in insertion order, empty input renders empty, and the color
//! cycle wraps at six.

use vstd::prelude::*;
use crate::forest::NodeModel;
use crate::forest::build_forest;
use crate::forest::build_upto;
use crate::forest::domain_of;
use crate::forest::forest_wf;
use crate::forest::has_name;
use crate::forest::insert_domain_upto;
use crate::forest::insert_step;
use crate::forest::lemma_build_wf;
use crate::forest::lemma_insert_step_current;
use crate::forest::lemma_insert_step_keeps;
use crate::forest::path_of;
use crate::order::dom_insert;
use crate::order::dom_sort;
use crate::order::dom_sort_upto;
use crate::render::NodeKind;
use crate::render::StyleModel;
use crate::render::line_of;
use crate::render::render_kids;
use crate::render::render_node;
use crate::render::roots_from;
use crate::render::spec_color;
use crate::render::spec_create_tree;
use crate::render::spec_indent;
use crate::render::default_style;
use crate::text::joined;
use crate::text::lemma_joined_split;
use crate::text::lemma_split_acc_len;
use crate::text::split_on;

verus! {

/// The forest that `spec_create_tree` builds from a collection of names.
pub open spec fn forest_of(names: Seq<Seq<char>>) -> Seq<NodeModel> {
    build_forest(dom_sort(names.map_values(|n: Seq<char>| domain_of(n))))
}

proof fn lemma_dom_insert_contains_x(x: Seq<Seq<char>>, s: Seq<Seq<Seq<char>>>)
    ensures
        dom_insert(x, s).contains(x),
    decreases s.len(),
{
    if s.len() == 0 {
        assert(dom_insert(x, s)[0] == x);
    } else if crate::order::domain_le(s[0], x) {
        lemma_dom_insert_contains_x(x, s.drop_first());
        let rec = dom_insert(x, s.drop_first());
        let w = choose|w: int| 0 <= w < rec.len() && rec[w] == x;
        assert(dom_insert(x, s)[w + 1] == x);
    } else {
        assert(dom_insert(x, s)[0] == x);
    }
}

proof fn lemma_dom_insert_keeps(x: Seq<Seq<char>>, s: Seq<Seq<Seq<char>>>, y: Seq<Seq<char>>)
    requires
        s.contains(y),
    ensures
        dom_insert(x, s).contains(y),
    decreases s.len(),
{
    let w = choose|w: int| 0 <= w < s.len() && s[w] == y;
    if crate::order::domain_le(s[0], x) {
        if w == 0 {
            assert(dom_insert(x, s)[0] == y);
        } else {
            assert(s.drop_first()[w - 1] == y);
            assert(s.drop_first().contains(y));
            lemma_dom_insert_keeps(x, s.drop_first(), y);
            let rec = dom_insert(x, s.drop_first());
            let u = choose|u: int| 0 <= u < rec.len() && rec[u] == y;
            assert(dom_insert(x, s)[u + 1] == y);
        }
    } else {
        assert(dom_insert(x, s)[w + 1] == y);
    }
}

proof fn lemma_dom_sort_upto_contains(s: Seq<Seq<Seq<char>>>, k: int, j: int)
    requires
        0 <= j < k <= s.len(),
    ensures
        dom_sort_upto(s, k).contains(s[j]),
    decreases k,
{
    if j == k - 1 {
        lemma_dom_insert_contains_x(s[k - 1], dom_sort_upto(s, k - 1));
    } else {
        lemma_dom_sort_upto_contains(s, k - 1, j);
        lemma_dom_insert_keeps(s[k - 1], dom_sort_upto(s, k - 1), s[j]);
    }
}

proof fn lemma_insert_domain_keeps(
    f: Seq<NodeModel>,
    d: Seq<Seq<char>>,
    k: int,
    name: Seq<char>,
)
    requires
        has_name(f, name),
    ensures
        has_name(insert_domain_upto(f, d, k), name),
    decreases k,
{
    if k <= 0 {
    } else {
        lemma_insert_domain_keeps(f, d, k - 1, name);
        lemma_insert_step_keeps(
            insert_domain_upto(f, d, k - 1),
            path_of(d, k),
            path_of(d, k - 1),
            name,
        );
    }
}

proof fn lemma_build_keeps(doms: Seq<Seq<Seq<char>>>, k1: int, k2: int, name: Seq<char>)
    requires
        0 <= k1 <= k2,
        has_name(build_upto(doms, k1), name),
    ensures
        has_name(build_upto(doms, k2), name),
    decreases k2 - k1,
{
    if k1 == k2 {
    } else {
        lemma_build_keeps(doms, k1, k2 - 1, name);
        lemma_insert_domain_keeps(
            build_upto(doms, k2 - 1),
            doms[k2 - 1],
            doms[k2 - 1].len() as int,
            name,
        );
    }
}

/// Every input name appears as the full dotted path of a node of the
/// built forest: the node's name reconstructs the input exactly.
pub proof fn lemma_every_name_has_node(names: Seq<Seq<char>>, idx: int)
    requires
        0 <= idx < names.len(),
    ensures
        has_name(forest_of(names), names[idx]),
{
    let name = names[idx];
    let d = domain_of(name);
    let doms = names.map_values(|n: Seq<char>| domain_of(n));
    assert(doms[idx] == d);
    lemma_dom_sort_upto_contains(doms, doms.len() as int, idx);
    let sorted = dom_sort(doms);
    assert(sorted.contains(d));
    let t = choose|t: int| 0 <= t < sorted.len() && sorted[t] == d;
    lemma_split_acc_len(name, '.', Seq::empty());
    let sp = split_on(name, '.');
    assert(d.len() == sp.len());
    let dl = d.len() as int;
    assert(d.take(dl) =~= d);
    assert(d.reverse() =~= sp) by {
        assert forall|j: int| 0 <= j < sp.len() implies #[trigger] d.reverse()[j] == sp[j] by {
            assert(d.reverse()[j] == d[d.len() - 1 - j]);
            assert(d[d.len() - 1 - j] == sp[j]);
        }
    }
    lemma_joined_split(name, '.');
    assert(path_of(d, dl) == name);
    let base = build_upto(sorted, t);
    assert(insert_domain_upto(base, d, dl) == insert_step(
        insert_domain_upto(base, d, dl - 1),
        path_of(d, dl),
        path_of(d, dl - 1),
    ));
    lemma_insert_step_current(insert_domain_upto(base, d, dl - 1), path_of(d, dl), path_of(d, dl - 1));
    assert(build_upto(sorted, t + 1) == insert_domain_upto(base, sorted[t], sorted[t].len() as int));
    assert(has_name(build_upto(sorted, t + 1), name));
    lemma_build_keeps(sorted, t + 1, sorted.len() as int, name);
}

/// A character sequence without any dot.
pub open spec fn dot_free(l: Seq<char>) -> bool {
    forall|i: int| 0 <= i < l.len() ==> l[i] != '.'
}

/// Every label of `d` is dot-free.
pub open spec fn labels_wf(d: Seq<Seq<char>>) -> bool {
    forall|i: int| 0 <= i < d.len() ==> dot_free(#[trigger] d[i])
}

/// `name` splits as a dot-free leading label `l` followed by a dot and
/// the rest `p` (the dotted path of the enclosing domain).
pub open spec fn dotted_pair(name: Seq<char>, l: Seq<char>, p: Seq<char>) -> bool {
    dot_free(l) && name == l + seq!['.'] + p
}

/// The node named `child` stands in the child list of the node named
/// `parent`.
pub open spec fn linked(f: Seq<NodeModel>, parent: Seq<char>, child: Seq<char>) -> bool {
    &&& has_name(f, parent)
    &&& has_name(f, child)
    &&& f[crate::forest::name_index(f, parent)].children.contains(
        crate::forest::name_index(f, child),
    )
}

/// Every node whose path has at least one dot hangs in the child list of
/// the node for its parent path.
pub open spec fn linked_inv(f: Seq<NodeModel>) -> bool {
    forall|i: int, l: Seq<char>, p: Seq<char>|
        0 <= i < f.len() && #[trigger] dotted_pair(f[i].name, l, p) ==> linked(f, p, f[i].name)
}

proof fn lemma_dotted_inj(l1: Seq<char>, p1: Seq<char>, l2: Seq<char>, p2: Seq<char>)
    requires
        dot_free(l1),
        dot_free(l2),
        l1 + seq!['.'] + p1 == l2 + seq!['.'] + p2,
    ensures
        l1 == l2,
        p1 == p2,
{
    let s = l1 + seq!['.'] + p1;
    assert(s.len() == l1.len() + 1 + p1.len());
    assert(s.len() == l2.len() + 1 + p2.len());
    if l1.len() < l2.len() {
        assert(s[l1.len() as int] == '.');
        assert(s[l1.len() as int] == l2[l1.len() as int]);
        assert(false);
    }
    if l2.len() < l1.len() {
        assert(s[l2.len() as int] == '.');
        assert(s[l2.len() as int] == l1[l2.len() as int]);
        assert(false);
    }
    assert(l1 =~= l2) by {
        assert forall|i: int| 0 <= i < l1.len() implies l1[i] == l2[i] by {
            assert(s[i] == l1[i]);
            assert(s[i] == l2[i]);
        }
    }
    assert(p1 =~= p2) by {
        assert forall|i: int| 0 <= i < p1.len() implies p1[i] == p2[i] by {
            assert(s[l1.len() + 1 + i] == p1[i]);
            assert(s[l1.len() + 1 + i] == p2[i]);
        }
    }
}

proof fn lemma_path_step(d: Seq<Seq<char>>, k: int)
    requires
        2 <= k <= d.len(),
    ensures
        path_of(d, k) == d[k - 1] + seq!['.'] + path_of(d, k - 1),
{
    let r = d.take(k).reverse();
    assert(r.len() == k);
    assert(r[0] == d[k - 1]);
    assert(r.drop_first() =~= d.take(k - 1).reverse()) by {
        assert forall|j: int| 0 <= j < k - 1 implies #[trigger] r.drop_first()[j] == d.take(
            k - 1,
        ).reverse()[j] by {
            assert(r.drop_first()[j] == r[j + 1]);
            assert(r[j + 1] == d.take(k)[k - 1 - (j + 1)]);
            assert(d.take(k - 1).reverse()[j] == d.take(k - 1)[k - 2 - j]);
        }
    }
    assert(joined(r, '.') == r[0] + seq!['.'] + joined(r.drop_first(), '.'));
}

proof fn lemma_path_single(d: Seq<Seq<char>>)
    requires
        d.len() >= 1,
    ensures
        path_of(d, 1) == d[0],
{
    let r = d.take(1).reverse();
    assert(r =~= seq![d[0]]);
    assert(joined(seq![d[0]], '.') == d[0]);
}

proof fn lemma_name_index_stable(
    f: Seq<NodeModel>,
    c: Seq<char>,
    p0: Seq<char>,
    y: Seq<char>,
)
    requires
        forest_wf(f),
        has_name(f, y),
    ensures
        has_name(insert_step(f, c, p0), y),
        crate::forest::name_index(insert_step(f, c, p0), y) == crate::forest::name_index(f, y),
{
    let g = insert_step(f, c, p0);
    crate::forest::lemma_insert_step_wf(f, c, p0);
    lemma_insert_step_keeps(f, c, p0, y);
    let w = crate::forest::name_index(f, y);
    assert(0 <= w < f.len() && f[w].name == y);
    assert(g[w].name == y);
    let w2 = crate::forest::name_index(g, y);
    assert(0 <= w2 < g.len() && g[w2].name == y);
    if w2 != w {
        assert(forest_wf(g));
        assert(g[w].name != g[w2].name);
        assert(false);
    }
}

proof fn lemma_linked_persists(
    f: Seq<NodeModel>,
    c: Seq<char>,
    p0: Seq<char>,
    p: Seq<char>,
    x: Seq<char>,
)
    requires
        forest_wf(f),
        linked(f, p, x),
    ensures
        linked(insert_step(f, c, p0), p, x),
{
    let g = insert_step(f, c, p0);
    lemma_name_index_stable(f, c, p0, p);
    lemma_name_index_stable(f, c, p0, x);
    let pi = crate::forest::name_index(f, p);
    let xi = crate::forest::name_index(f, x);
    assert(f[pi].children.contains(xi));
    let w = choose|w: int| 0 <= w < f[pi].children.len() && f[pi].children[w] == xi;
    if has_name(f, c) {
    } else if has_name(f, p0) {
        let q = crate::forest::name_index(f, p0);
        if q == pi {
            assert(g[pi].children[w] == xi);
        } else {
            assert(g[pi].children[w] == xi);
        }
    } else {
        assert(g[pi].children[w] == xi);
    }
    assert(g[pi].children.contains(xi));
}

proof fn lemma_insert_step_linked(f: Seq<NodeModel>, c: Seq<char>, p0: Seq<char>)
    requires
        forest_wf(f),
        linked_inv(f),
        forall|l: Seq<char>, p: Seq<char>| #[trigger] dotted_pair(c, l, p) ==> p == p0
            && has_name(f, p0),
    ensures
        linked_inv(insert_step(f, c, p0)),
{
    let g = insert_step(f, c, p0);
    crate::forest::lemma_insert_step_wf(f, c, p0);
    if has_name(f, c) {
    } else {
        assert forall|i: int, l: Seq<char>, p: Seq<char>|
            0 <= i < g.len() && #[trigger] dotted_pair(g[i].name, l, p) implies linked(
            g,
            p,
            g[i].name,
        ) by {
            if i < f.len() {
                assert(g[i].name == f[i].name);
                assert(dotted_pair(f[i].name, l, p));
                assert(linked(f, p, f[i].name));
                lemma_linked_persists(f, c, p0, p, f[i].name);
            } else {
                assert(g[i].name == c);
                assert(p == p0 && has_name(f, p0));
                let q = crate::forest::name_index(f, p0);
                assert(0 <= q < f.len() && f[q].name == p0);
                assert(g[q].children == f[q].children.push(f.len() as int));
                assert(g[q].children[f[q].children.len() as int] == f.len() as int);
                assert(g[q].children.contains(f.len() as int));
                lemma_name_index_stable(f, c, p0, p0);
                assert(crate::forest::name_index(g, p0) == q);
                let w2 = crate::forest::name_index(g, c);
                assert(g[f.len() as int].name == c);
                assert(0 <= w2 < g.len() && g[w2].name == c);
                if w2 != f.len() as int {
                    assert(g[w2].name == f[w2].name);
                    assert(has_name(f, c));
                    assert(false);
                }
                assert(linked(g, p0, c));
            }
        }
    }
}

proof fn lemma_insert_domain_linked(f: Seq<NodeModel>, d: Seq<Seq<char>>, k: int)
    requires
        forest_wf(f),
        linked_inv(f),
        labels_wf(d),
        0 <= k <= d.len(),
    ensures
        forest_wf(insert_domain_upto(f, d, k)),
        linked_inv(insert_domain_upto(f, d, k)),
        forall|j: int| 1 <= j <= k ==> has_name(insert_domain_upto(f, d, k), path_of(d, j)),
    decreases k,
{
    if k <= 0 {
    } else {
        lemma_insert_domain_linked(f, d, k - 1);
        let fp = insert_domain_upto(f, d, k - 1);
        let c = path_of(d, k);
        let p0 = path_of(d, k - 1);
        if k >= 2 {
            lemma_path_step(d, k);
            assert(has_name(fp, p0));
            assert forall|l: Seq<char>, p: Seq<char>| #[trigger] dotted_pair(c, l, p) implies p
                == p0 && has_name(fp, p0) by {
                lemma_dotted_inj(l, p, d[k - 1], p0);
            }
        } else {
            lemma_path_single(d);
            assert(dot_free(c));
            assert forall|l: Seq<char>, p: Seq<char>| #[trigger] dotted_pair(c, l, p) implies p
                == p0 && has_name(fp, p0) by {
                assert(c.len() == l.len() + 1 + p.len());
                assert(c[l.len() as int] == '.');
                assert(false);
            }
        }
        lemma_insert_step_linked(fp, c, p0);
        crate::forest::lemma_insert_step_wf(fp, c, p0);
        assert forall|j: int| 1 <= j <= k implies has_name(
            insert_domain_upto(f, d, k),
            path_of(d, j),
        ) by {
            if j == k {
                lemma_insert_step_current(fp, c, p0);
            } else {
                lemma_insert_step_keeps(fp, c, p0, path_of(d, j));
            }
        }
    }
}

proof fn lemma_dom_insert_src(x: Seq<Seq<char>>, s: Seq<Seq<Seq<char>>>, y: Seq<Seq<char>>)
    requires
        dom_insert(x, s).contains(y),
    ensures
        y == x || s.contains(y),
    decreases s.len(),
{
    let r = dom_insert(x, s);
    let w = choose|w: int| 0 <= w < r.len() && r[w] == y;
    if s.len() == 0 {
        assert(y == x);
    } else if crate::order::domain_le(s[0], x) {
        if w == 0 {
            assert(s[0] == y);
            assert(s.contains(y));
        } else {
            assert(dom_insert(x, s.drop_first())[w - 1] == y);
            assert(dom_insert(x, s.drop_first()).contains(y));
            lemma_dom_insert_src(x, s.drop_first(), y);
            if s.drop_first().contains(y) {
                let u = choose|u: int| 0 <= u < s.drop_first().len() && s.drop_first()[u] == y;
                assert(s[u + 1] == y);
            }
        }
    } else {
        if w == 0 {
            assert(y == x);
        } else {
            assert(s[w - 1] == y);
        }
    }
}

proof fn lemma_dom_sort_src(s: Seq<Seq<Seq<char>>>, k: int, y: Seq<Seq<char>>)
    requires
        0 <= k <= s.len(),
        dom_sort_upto(s, k).contains(y),
    ensures
        s.contains(y),
    decreases k,
{
    if k <= 0 {
    } else {
        lemma_dom_insert_src(s[k - 1], dom_sort_upto(s, k - 1), y);
        if y == s[k - 1] {
        } else {
            lemma_dom_sort_src(s, k - 1, y);
        }
    }
}

proof fn lemma_split_acc_dot_free(s: Seq<char>, cur: Seq<char>)
    requires
        dot_free(cur),
    ensures
        labels_wf(crate::text::split_acc(s, '.', cur)),
    decreases s.len(),
{
    let r = crate::text::split_acc(s, '.', cur);
    if s.len() == 0 {
        assert(r =~= seq![cur]);
    } else if s[0] == '.' {
        lemma_split_acc_dot_free(s.drop_first(), Seq::empty());
        let rest = crate::text::split_acc(s.drop_first(), '.', Seq::empty());
        assert forall|i: int| 0 <= i < r.len() implies dot_free(#[trigger] r[i]) by {
            if i == 0 {
            } else {
                assert(r[i] == rest[i - 1]);
            }
        }
    } else {
        assert(dot_free(cur.push(s[0]))) by {
            assert forall|i: int| 0 <= i < cur.push(s[0]).len() implies #[trigger] cur.push(
                s[0],
            )[i] != '.' by {
                if i < cur.len() {
                    assert(cur.push(s[0])[i] == cur[i]);
                }
            }
        }
        lemma_split_acc_dot_free(s.drop_first(), cur.push(s[0]));
    }
}

proof fn lemma_domain_labels_wf(name: Seq<char>)
    ensures
        labels_wf(domain_of(name)),
{
    lemma_split_acc_dot_free(name, Seq::empty());
    let sp = split_on(name, '.');
    let d = domain_of(name);
    assert forall|i: int| 0 <= i < d.len() implies dot_free(#[trigger] d[i]) by {
        assert(d[i] == sp[sp.len() - 1 - i]);
    }
}

proof fn lemma_build_linked(doms: Seq<Seq<Seq<char>>>, k: int)
    requires
        0 <= k <= doms.len(),
        forall|j: int| 0 <= j < doms.len() ==> labels_wf(#[trigger] doms[j]),
    ensures
        forest_wf(build_upto(doms, k)),
        linked_inv(build_upto(doms, k)),
    decreases k,
{
    if k <= 0 {
        assert(build_upto(doms, k) == Seq::<NodeModel>::empty());
    } else {
        lemma_build_linked(doms, k - 1);
        lemma_insert_domain_linked(build_upto(doms, k - 1), doms[k - 1], doms[k - 1].len() as int);
    }
}

/// Every node of the built forest whose dotted path holds a dot stands in
/// the child list of the node for its parent path, so each input name's
/// node is reachable by child links from its second-level-domain root.
pub proof fn lemma_every_node_attached(names: Seq<Seq<char>>)
    ensures
        linked_inv(forest_of(names)),
{
    let doms = names.map_values(|n: Seq<char>| domain_of(n));
    let sorted = dom_sort(doms);
    assert forall|j: int| 0 <= j < sorted.len() implies labels_wf(#[trigger] sorted[j]) by {
        assert(sorted.contains(sorted[j]));
        lemma_dom_sort_src(doms, doms.len() as int, sorted[j]);
        let u = choose|u: int| 0 <= u < doms.len() && doms[u] == sorted[j];
        lemma_domain_labels_wf(names[u]);
    }
    lemma_build_linked(sorted, sorted.len() as int);
}

/// Shared-suffix invariant: the built forest holds exactly one node per
/// dotted path, so two distinct nodes never share a name.
pub proof fn lemma_one_node_per_path(names: Seq<Seq<char>>, i: int, j: int)
    requires
        0 <= i < forest_of(names).len(),
        0 <= j < forest_of(names).len(),
        i != j,
    ensures
        forest_of(names)[i].name != forest_of(names)[j].name,
{
    let doms = dom_sort(names.map_values(|n: Seq<char>| domain_of(n)));
    lemma_build_wf(doms, doms.len() as int);
}

/// Rendering is a function of the built forest and the color flag alone:
/// two renderings of the same input are byte-identical.
pub proof fn lemma_render_idempotent(
    names: Seq<Seq<char>>,
    colored: bool,
    r1: Seq<char>,
    r2: Seq<char>,
)
    requires
        r1 == spec_create_tree(names, colored),
        r2 == spec_create_tree(names, colored),
    ensures
        r1 == r2,
{
}

/// Children appear in the renderer's output in the order they stand in
/// the child list: a subtree's lines are the node's own line followed by
/// the children's blocks, block `k` directly before block `k + 1`.
pub proof fn lemma_children_in_order(
    f: Seq<NodeModel>,
    i: int,
    st: StyleModel,
    colored: bool,
    kind: NodeKind,
    depth: int,
    k: int,
)
    requires
        forest_wf(f),
        0 <= i < f.len(),
        0 <= k < f[i].children.len(),
    ensures
        render_node(f, i, st, colored, kind, depth) == seq![
            line_of(f[i].name, st, colored, kind, depth),
        ] + render_kids(f, i, st, colored, depth, spec_indent(st, kind), 0),
        render_kids(f, i, st, colored, depth, spec_indent(st, kind), k) == render_node(
            f,
            f[i].children[k],
            st,
            colored,
            if k == f[i].children.len() - 1 {
                NodeKind::Last
            } else {
                NodeKind::Default
            },
            depth + 1,
        ).map_values(|l: Seq<char>| spec_color(colored, depth) + spec_indent(st, kind) + l)
            + render_kids(f, i, st, colored, depth, spec_indent(st, kind), k + 1),
{
}

/// An empty input set renders as the empty string.
pub proof fn lemma_empty_input(colored: bool)
    ensures
        spec_create_tree(Seq::empty(), colored) == Seq::<char>::empty(),
{
    let names = Seq::<Seq<char>>::empty();
    let doms = names.map_values(|n: Seq<char>| domain_of(n));
    assert(doms.len() == 0);
    assert(dom_sort_upto(doms, 0) == Seq::<Seq<Seq<char>>>::empty());
    assert(build_upto(dom_sort(doms), 0) == Seq::<NodeModel>::empty());
    let f = build_forest(dom_sort(doms));
    assert(f.len() == 0);
    assert(forest_wf(f));
    assert(roots_from(f, default_style(), colored, 0) == Seq::<Seq<char>>::empty());
    assert(joined(Seq::<Seq<char>>::empty(), '\n') =~= Seq::<char>::empty());
}

/// The color cycle wraps: the color at depth `d + 6` is the color at
/// depth `d`.
pub proof fn lemma_color_cycle(colored: bool, depth: int)
    requires
        0 <= depth,
    ensures
        spec_color(colored, depth + 6) == spec_color(colored, depth),
{
    assert((depth + 6) % 6 == depth % 6) by (nonlinear_arith);
}

} // verus!
