//! The tree builder: an arena of nodes, one per unique dotted path, with
//! children attached in creation order. Shared suffixes of different
//! domain names collapse into a single node.

use vstd::prelude::*;
use crate::text::joined;
use crate::text::str_views;

verus! {

/// One DNS label's cumulative path: its full dotted name and the arena
/// indices of its children, in the order they were attached.
pub struct Node {
    pub name: String,
    pub children: Vec<usize>,
}

/// The mathematical image of a node.
#[verifier::ext_equal]
pub ghost struct NodeModel {
    pub name: Seq<char>,
    pub children: Seq<int>,
}

impl View for Node {
    type V = NodeModel;

    open spec fn view(&self) -> NodeModel {
        NodeModel { name: self.name@, children: self.children@.map_values(|c: usize| c as int) }
    }
}

/// A forest of path nodes, owned by one arena; a node is identified by its
/// arena index, and the index order is the creation order.
pub struct Forest {
    pub nodes: Vec<Node>,
}

impl View for Forest {
    type V = Seq<NodeModel>;

    open spec fn view(&self) -> Seq<NodeModel> {
        self.nodes@.map_values(|n: Node| n@)
    }
}

/// Well-formedness of an arena: every child index points past its parent
/// (so paths strictly grow and no cycles are possible), and no two nodes
/// share a name.
pub open spec fn forest_wf(f: Seq<NodeModel>) -> bool {
    &&& forall|i: int, k: int|
        0 <= i < f.len() && 0 <= k < f[i].children.len() ==> i < #[trigger] f[i].children[k]
            < f.len()
    &&& forall|i: int, j: int|
        0 <= i < f.len() && 0 <= j < f.len() && i != j ==> f[i].name != f[j].name
}

/// Whether some node of `f` carries the dotted path `name`.
pub open spec fn has_name(f: Seq<NodeModel>, name: Seq<char>) -> bool {
    exists|i: int| 0 <= i < f.len() && (#[trigger] f[i]).name == name
}

/// The index of the node named `name`; meaningful only when the names of
/// `f` are unique and `name` is present.
pub open spec fn name_index(f: Seq<NodeModel>, name: Seq<char>) -> int {
    choose|i: int| 0 <= i < f.len() && (#[trigger] f[i]).name == name
}

/// One builder step: create the node for `current` unless it already
/// exists, and attach it to the node named `parent` when there is one.
pub open spec fn insert_step(f: Seq<NodeModel>, current: Seq<char>, parent: Seq<char>) -> Seq<
    NodeModel,
> {
    if has_name(f, current) {
        f
    } else {
        let appended = f.push(NodeModel { name: current, children: Seq::empty() });
        if has_name(f, parent) {
            let p = name_index(f, parent);
            appended.update(
                p,
                NodeModel { name: f[p].name, children: f[p].children.push(f.len() as int) },
            )
        } else {
            appended
        }
    }
}

/// The dotted path of the first `k` labels of the reversed-label sequence
/// `d`, read back in natural order.
pub open spec fn path_of(d: Seq<Seq<char>>, k: int) -> Seq<char> {
    joined(d.take(k).reverse(), '.')
}

/// The forest after walking the first `k` positions of one domain.
pub open spec fn insert_domain_upto(f: Seq<NodeModel>, d: Seq<Seq<char>>, k: int) -> Seq<NodeModel>
    decreases k,
{
    if k <= 0 {
        f
    } else {
        insert_step(insert_domain_upto(f, d, k - 1), path_of(d, k), path_of(d, k - 1))
    }
}

/// The forest after the first `k` domains of `doms`.
pub open spec fn build_upto(doms: Seq<Seq<Seq<char>>>, k: int) -> Seq<NodeModel>
    decreases k,
{
    if k <= 0 {
        Seq::empty()
    } else {
        let prev = build_upto(doms, k - 1);
        insert_domain_upto(prev, doms[k - 1], doms[k - 1].len() as int)
    }
}

/// The forest built from all the (reversed-label) domains of `doms`, in
/// order.
pub open spec fn build_forest(doms: Seq<Seq<Seq<char>>>) -> Seq<NodeModel> {
    build_upto(doms, doms.len() as int)
}

/// The reversed-label sequence of one domain name: its labels from the
/// top-level domain down.
pub open spec fn domain_of(name: Seq<char>) -> Seq<Seq<char>> {
    crate::text::split_on(name, '.').reverse()
}

/// Walking one domain keeps the arena well formed.
pub proof fn lemma_insert_domain_wf(f: Seq<NodeModel>, d: Seq<Seq<char>>, k: int)
    requires
        forest_wf(f),
    ensures
        forest_wf(insert_domain_upto(f, d, k)),
    decreases k,
{
    if k <= 0 {
    } else {
        lemma_insert_domain_wf(f, d, k - 1);
        lemma_insert_step_wf(insert_domain_upto(f, d, k - 1), path_of(d, k), path_of(d, k - 1));
    }
}

/// The built forest is well formed: child indices point forward and no
/// two nodes share a dotted path.
pub proof fn lemma_build_wf(doms: Seq<Seq<Seq<char>>>, k: int)
    ensures
        forest_wf(build_upto(doms, k)),
    decreases k,
{
    if k <= 0 {
    } else {
        lemma_build_wf(doms, k - 1);
        lemma_insert_domain_wf(build_upto(doms, k - 1), doms[k - 1], doms[k - 1].len() as int);
    }
}

/// A builder step keeps the arena well formed.
pub proof fn lemma_insert_step_wf(f: Seq<NodeModel>, current: Seq<char>, parent: Seq<char>)
    requires
        forest_wf(f),
    ensures
        forest_wf(insert_step(f, current, parent)),
        f.len() <= insert_step(f, current, parent).len(),
{
    let g = insert_step(f, current, parent);
    if has_name(f, current) {
    } else {
        let appended = f.push(NodeModel { name: current, children: Seq::empty() });
        if has_name(f, parent) {
            let p = name_index(f, parent);
            assert(0 <= p < f.len() && f[p].name == parent);
            assert forall|i: int, k: int|
                0 <= i < g.len() && 0 <= k < g[i].children.len() implies i
                < #[trigger] g[i].children[k] < g.len() by {
                if i == p {
                    if k < f[p].children.len() {
                        assert(g[i].children[k] == f[i].children[k]);
                    } else {
                        assert(g[i].children[k] == f.len() as int);
                    }
                } else if i < f.len() {
                    assert(g[i] == f[i]);
                }
            }
            assert forall|i: int, j: int|
                0 <= i < g.len() && 0 <= j < g.len() && i != j implies g[i].name != g[j].name by {
                assert(g[f.len() as int].name == current);
                if i < f.len() && j < f.len() {
                    assert(g[i].name == f[i].name);
                    assert(g[j].name == f[j].name);
                } else if i < f.len() {
                    assert(g[i].name == f[i].name);
                    assert(!has_name(f, current) ==> f[i].name != current);
                } else if j < f.len() {
                    assert(g[j].name == f[j].name);
                }
            }
        } else {
            assert forall|i: int, j: int|
                0 <= i < g.len() && 0 <= j < g.len() && i != j implies g[i].name != g[j].name by {
                if i < f.len() && j < f.len() {
                } else if i < f.len() {
                    assert(f[i].name != current);
                } else if j < f.len() {
                    assert(f[j].name != current);
                }
            }
        }
    }
}

/// A builder step never removes a name.
pub proof fn lemma_insert_step_keeps(
    f: Seq<NodeModel>,
    current: Seq<char>,
    parent: Seq<char>,
    name: Seq<char>,
)
    requires
        has_name(f, name),
    ensures
        has_name(insert_step(f, current, parent), name),
{
    let g = insert_step(f, current, parent);
    let w = choose|i: int| 0 <= i < f.len() && (#[trigger] f[i]).name == name;
    if has_name(f, current) {
    } else {
        if has_name(f, parent) {
            let p = name_index(f, parent);
            assert(g[w].name == name);
        } else {
            assert(g[w].name == name);
        }
    }
}

/// After a builder step, `current` is always present.
pub proof fn lemma_insert_step_current(f: Seq<NodeModel>, current: Seq<char>, parent: Seq<char>)
    ensures
        has_name(insert_step(f, current, parent), current),
{
    let g = insert_step(f, current, parent);
    if has_name(f, current) {
    } else {
        if has_name(f, parent) {
            let p = name_index(f, parent);
            assert(0 <= p < f.len());
            assert(g[f.len() as int].name == current);
        } else {
            assert(g[f.len() as int].name == current);
        }
    }
}

/// The dotted path of the first `k` labels of `domain`, read back in
/// natural order and joined with dots.
pub fn path_string(domain: &Vec<String>, k: usize) -> (r: String)
    requires
        k <= domain@.len(),
    ensures
        r@ == path_of(str_views(domain@), k as int),
{
    let ghost rev = str_views(domain@).take(k as int).reverse();
    let mut parts: Vec<String> = Vec::new();
    let mut t: usize = 0;
    proof {
        assert(str_views(parts@) =~= rev.take(0));
    }
    while t < k
        invariant
            t <= k,
            k <= domain@.len(),
            rev == str_views(domain@).take(k as int).reverse(),
            str_views(parts@) =~= rev.take(t as int),
        decreases k - t,
    {
        let ghost parts_old = parts@;
        parts.push(domain[k - 1 - t].clone());
        proof {
            assert(parts@ == parts_old.push(domain@[k - 1 - t]));
            assert(str_views(parts@) =~= str_views(parts_old).push(domain@[k - 1 - t]@));
            assert(rev[t as int] == str_views(domain@)[k - 1 - t]);
            assert(str_views(domain@)[k - 1 - t] == domain@[k - 1 - t]@);
            assert(str_views(parts@) =~= rev.take(t + 1));
        }
        t = t + 1;
    }
    proof {
        assert(rev.take(k as int) =~= rev);
        reveal_strlit(".");
    }
    let r = crate::text::join_with(&parts, ".");
    proof {
        assert("."@[0] == '.');
    }
    r
}

impl Forest {
    /// A fresh, empty arena.
    pub fn new() -> (r: Forest)
        ensures
            r@ == Seq::<NodeModel>::empty(),
            forest_wf(r@),
    {
        let r = Forest { nodes: Vec::new() };
        proof {
            assert(r@ =~= Seq::<NodeModel>::empty());
        }
        r
    }

    /// The arena index of the node named `name`, if any.
    pub fn find(&self, name: &String) -> (r: Option<usize>)
        ensures
            match r {
                Some(i) => i < self@.len() && self@[i as int].name == name@,
                None => !has_name(self@, name@),
            },
    {
        let n = self.nodes.len();
        let mut i: usize = 0;
        while i < n
            invariant
                n == self@.len(),
                i <= n,
                forall|j: int| 0 <= j < i ==> (#[trigger] self@[j]).name != name@,
            decreases n - i,
        {
            if self.nodes[i].name == *name {
                return Some(i);
            }
            i = i + 1;
        }
        None
    }

    /// One builder step: create-or-fetch the node for `current` and, when
    /// it is new and `parent` is present, append it to the parent's
    /// children.
    pub fn add_path(&mut self, current: String, parent: &String)
        requires
            forest_wf(old(self)@),
        ensures
            final(self)@ == insert_step(old(self)@, current@, parent@),
            forest_wf(final(self)@),
    {
        proof {
            lemma_insert_step_wf(old(self)@, current@, parent@);
        }
        let ghost f0 = self@;
        let found = self.find(&current);
        if let Some(_) = found {
            return ;
        }
        let n = self.nodes.len();
        let p_opt = self.find(parent);
        let ghost cur = current@;
        self.nodes.push(Node { name: current, children: Vec::new() });
        proof {
            assert(self@ =~~= f0.push(NodeModel { name: cur, children: Seq::empty() }));
        }
        if let Some(p) = p_opt {
            let ghost f1 = self@;
            self.nodes[p].children.push(n);
            proof {
                let sp = name_index(f0, parent@);
                assert(0 <= sp < f0.len() && f0[sp].name == parent@);
                assert(f0[p as int].name == parent@);
                assert(sp == p as int);
                assert(self@[p as int].children =~= f1[p as int].children.push(n as int));
                assert(self@ =~~= f1.update(
                    p as int,
                    NodeModel {
                        name: f0[p as int].name,
                        children: f0[p as int].children.push(f0.len() as int),
                    },
                ));
            }
        }
    }
}

} // verus!
