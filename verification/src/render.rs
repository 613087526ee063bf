//! The tree renderer: walks a forest depth-first and produces
//! indentation-and-branch-decorated lines, with an optional six-color
//! ANSI cycle chosen by depth.

use vstd::prelude::*;
use vstd::string::StringExecFns;
use vstd::string::StringSliceAdditionalSpecFns;
use vstd::utf8::encode_scalar;
use vstd::utf8::encode_utf8;
use crate::forest::Forest;
use crate::forest::NodeModel;
use crate::forest::build_forest;
use crate::forest::build_upto;
use crate::forest::insert_domain_upto;
use crate::forest::domain_of;
use crate::forest::forest_wf;
use crate::forest::path_string;
use crate::order::dom_sort;
use crate::order::sort_domains;
use crate::text::count_char;
use crate::text::count_matches;
use crate::text::doms_views;
use crate::text::join_with;
use crate::text::joined;
use crate::text::reverse_strings;
use crate::text::split_on_str;
use crate::text::str_eq;
use crate::text::str_views;

verus! {

/// The three glyph strings of the renderer: the vertical-continuation
/// glyph used in descendants' indentation, the branch glyph of a
/// non-last child, and (optionally) the corner glyph of a last child.
pub struct Style {
    pub indent_prefix: String,
    pub t_prefix: String,
    pub last_prefix: Option<String>,
}

/// The mathematical image of a style.
#[verifier::ext_equal]
pub ghost struct StyleModel {
    pub indent_prefix: Seq<char>,
    pub t_prefix: Seq<char>,
    pub last_prefix: Option<Seq<char>>,
}

impl View for Style {
    type V = StyleModel;

    open spec fn view(&self) -> StyleModel {
        StyleModel {
            indent_prefix: self.indent_prefix@,
            t_prefix: self.t_prefix@,
            last_prefix: match self.last_prefix {
                Option::Some(ref s) => Option::Some(s@),
                Option::None => Option::None,
            },
        }
    }
}

/// Rendering options: the glyph style, the color switch, and whether the
/// topmost node is drawn with a corner glyph instead of bare.
pub struct Options {
    pub style: Style,
    pub colored: bool,
    pub include_root: bool,
}

/// How a node relates to its parent's child list: an ordinary child, the
/// last child, or the top of a rendered tree.
#[derive(Clone, Copy, Debug)]
pub enum NodeKind {
    Default,
    Last,
    Root,
}

/// Parses the lowercase name of a node kind.
pub fn parse_kind(s: &str) -> (r: Result<NodeKind, ()>)
    ensures
        r == (if s@ == "default"@ {
            Result::<NodeKind, ()>::Ok(NodeKind::Default)
        } else if s@ == "last"@ {
            Result::<NodeKind, ()>::Ok(NodeKind::Last)
        } else if s@ == "root"@ {
            Result::<NodeKind, ()>::Ok(NodeKind::Root)
        } else {
            Result::<NodeKind, ()>::Err(())
        }),
{
    if str_eq(s, "default") {
        Ok(NodeKind::Default)
    } else if str_eq(s, "last") {
        Ok(NodeKind::Last)
    } else if str_eq(s, "root") {
        Ok(NodeKind::Root)
    } else {
        Err(())
    }
}

impl core::str::FromStr for NodeKind {
    type Err = ();

    fn from_str(s: &str) -> Result<Self, ()> {
        parse_kind(s)
    }
}

/// The UTF-8 byte length of a character sequence; glyph widths are
/// measured in bytes.
pub open spec fn byte_len(s: Seq<char>) -> int {
    encode_utf8(s).len() as int
}

/// `n` spaces (none for a non-positive count).
pub open spec fn spaces(n: int) -> Seq<char> {
    if n <= 0 {
        Seq::empty()
    } else {
        Seq::new(n as nat, |i: int| ' ')
    }
}

/// A style is usable when the continuation glyph is no wider than the
/// branch glyph it pads up to, and the glyph widths fit in a machine
/// word.
pub open spec fn style_wf(st: StyleModel) -> bool {
    &&& byte_len(st.indent_prefix) <= byte_len(st.t_prefix)
    &&& byte_len(st.t_prefix) <= usize::MAX
    &&& match st.last_prefix {
        Option::Some(l) => byte_len(l) <= usize::MAX,
        Option::None => true,
    }
}

/// The branch glyph in front of a node of the given kind.
pub open spec fn spec_prefix(st: StyleModel, kind: NodeKind) -> Seq<char> {
    match kind {
        NodeKind::Root => Seq::empty(),
        NodeKind::Default => st.t_prefix,
        NodeKind::Last => match st.last_prefix {
            Option::Some(l) => l,
            Option::None => st.t_prefix,
        },
    }
}

/// The indentation a node of the given kind contributes to all its
/// descendants' lines.
pub open spec fn spec_indent(st: StyleModel, kind: NodeKind) -> Seq<char> {
    match kind {
        NodeKind::Root => Seq::empty(),
        NodeKind::Last => spaces(byte_len(spec_prefix(st, kind))),
        NodeKind::Default => st.indent_prefix + spaces(
            byte_len(st.t_prefix) - byte_len(st.indent_prefix),
        ),
    }
}

/// The color of the six-color cycle at index `i`.
pub open spec fn color_entry(i: int) -> Seq<char> {
    if i == 0 {
        "\x1b[91m"@
    } else if i == 1 {
        "\x1b[92m"@
    } else if i == 2 {
        "\x1b[93m"@
    } else if i == 3 {
        "\x1b[94m"@
    } else if i == 4 {
        "\x1b[95m"@
    } else {
        "\x1b[96m"@
    }
}

/// The color code put in front of a line at the given depth; empty when
/// color is off.
pub open spec fn spec_color(colored: bool, depth: int) -> Seq<char> {
    if colored {
        color_entry(depth % 6)
    } else {
        Seq::empty()
    }
}

/// The reset code ending each line; empty when color is off.
pub open spec fn spec_reset(colored: bool) -> Seq<char> {
    if colored {
        "\x1b[0m"@
    } else {
        Seq::empty()
    }
}

/// The one line a node itself contributes.
pub open spec fn line_of(
    name: Seq<char>,
    st: StyleModel,
    colored: bool,
    kind: NodeKind,
    depth: int,
) -> Seq<char> {
    spec_color(colored, depth) + spec_prefix(st, kind) + name + spec_reset(colored)
}

/// The lines of the subtree rooted at node `i`: the node's own line,
/// then each child's block in child-list order.
pub open spec fn render_node(
    f: Seq<NodeModel>,
    i: int,
    st: StyleModel,
    colored: bool,
    kind: NodeKind,
    depth: int,
) -> Seq<Seq<char>>
    decreases f.len() - i, f[i].children.len() + 1,
        when forest_wf(f) && 0 <= i < f.len()
{
    seq![line_of(f[i].name, st, colored, kind, depth)] + render_kids(
        f,
        i,
        st,
        colored,
        depth,
        spec_indent(st, kind),
        0,
    )
}

/// The concatenated blocks of the children of node `i` from position `k`
/// on; each block is the child's subtree, every line prefixed with the
/// parent's color and indentation.
pub open spec fn render_kids(
    f: Seq<NodeModel>,
    i: int,
    st: StyleModel,
    colored: bool,
    depth: int,
    indent: Seq<char>,
    k: int,
) -> Seq<Seq<char>>
    decreases f.len() - i, f[i].children.len() - k,
        when forest_wf(f) && 0 <= i < f.len() && 0 <= k
{
    if k >= f[i].children.len() {
        Seq::empty()
    } else {
        let ck = if k == f[i].children.len() - 1 {
            NodeKind::Last
        } else {
            NodeKind::Default
        };
        render_node(f, f[i].children[k], st, colored, ck, depth + 1).map_values(
            |l: Seq<char>| spec_color(colored, depth) + indent + l,
        ) + render_kids(f, i, st, colored, depth, indent, k + 1)
    }
}

/// `n` spaces as a string.
#[verifier::loop_isolation(false)]
pub fn make_spaces(n: usize) -> (r: String)
    ensures
        r@ == spaces(n as int),
{
    let mut r = String::new();
    let mut i: usize = 0;
    proof {
        reveal_strlit(" ");
        assert(r@ =~= spaces(0));
    }
    while i < n
        invariant
            i <= n,
            r@ == spaces(i as int),
        decreases n - i,
    {
        r.append(" ");
        proof {
            assert(" "@ =~= seq![' ']);
            assert(spaces(i as int) + seq![' '] =~= spaces(i + 1));
        }
        i = i + 1;
    }
    r
}

/// The ANSI color for a line at the given depth.
pub fn color_for(colored: bool, depth: usize) -> (r: &'static str)
    ensures
        r@ == spec_color(colored, depth as int),
{
    if !colored {
        proof {
            reveal_strlit("");
            assert(""@ =~= Seq::<char>::empty());
        }
        return "";
    }
    let m = depth % 6;
    if m == 0 {
        "\x1b[91m"
    } else if m == 1 {
        "\x1b[92m"
    } else if m == 2 {
        "\x1b[93m"
    } else if m == 3 {
        "\x1b[94m"
    } else if m == 4 {
        "\x1b[95m"
    } else {
        "\x1b[96m"
    }
}

/// The ANSI reset code, or nothing when color is off.
pub fn reset_for(colored: bool) -> (r: &'static str)
    ensures
        r@ == spec_reset(colored),
{
    if colored {
        "\x1b[0m"
    } else {
        proof {
            reveal_strlit("");
            assert(""@ =~= Seq::<char>::empty());
        }
        ""
    }
}

/// Renders the subtree rooted at `idx` as one line per node.
#[verifier::loop_isolation(false)]
pub fn generate_node(
    forest: &Forest,
    idx: usize,
    opts: &Options,
    kind: NodeKind,
    depth: usize,
) -> (lines: Vec<String>)
    requires
        forest_wf(forest@),
        idx < forest@.len(),
        style_wf(opts.style@),
        depth + forest@.len() - idx <= usize::MAX,
    ensures
        str_views(lines@) == render_node(
            forest@,
            idx as int,
            opts.style@,
            opts.colored,
            kind,
            depth as int,
        ),
    decreases forest@.len() - idx,
{
    let prefix: &str = match kind {
        NodeKind::Root => {
            proof {
                reveal_strlit("");
                assert(""@ =~= Seq::<char>::empty());
            }
            ""
        },
        NodeKind::Default => opts.style.t_prefix.as_str(),
        NodeKind::Last => match &opts.style.last_prefix {
            Option::Some(lp) => lp.as_str(),
            Option::None => opts.style.t_prefix.as_str(),
        },
    };
    proof {
        assert(prefix@ == spec_prefix(opts.style@, kind));
        if kind is Root {
            assert(encode_utf8(Seq::<char>::empty()).len() == 0);
        }
        assert(byte_len(prefix@) <= usize::MAX);
        assert(prefix.len() as int == byte_len(prefix@));
    }
    let indent: String = match kind {
        NodeKind::Root => {
            let e = String::new();
            proof {
                assert(e@ =~= spec_indent(opts.style@, kind));
            }
            e
        },
        NodeKind::Last => {
            let w = make_spaces(prefix.len());
            proof {
                assert(w@ =~= spec_indent(opts.style@, kind));
            }
            w
        },
        NodeKind::Default => {
            let ip = opts.style.indent_prefix.as_str();
            proof {
                assert(ip@ == opts.style@.indent_prefix);
                assert(ip.len() as int == byte_len(opts.style@.indent_prefix));
            }
            let pad = make_spaces(prefix.len() - ip.len());
            let mut w = String::from_str(ip);
            w.append(pad.as_str());
            proof {
                assert(w@ =~= spec_indent(opts.style@, kind));
            }
            w
        },
    };
    let color = color_for(opts.colored, depth);
    let reset = reset_for(opts.colored);

    let mut line = String::from_str(color);
    line.append(prefix);
    line.append(forest.nodes[idx].name.as_str());
    line.append(reset);
    proof {
        assert(forest@[idx as int].name == forest.nodes@[idx as int]@.name);
        assert(line@ =~= line_of(
            forest@[idx as int].name,
            opts.style@,
            opts.colored,
            kind,
            depth as int,
        ));
    }
    let mut lines: Vec<String> = Vec::new();
    lines.push(line);

    let ghost hd = line_of(forest@[idx as int].name, opts.style@, opts.colored, kind, depth as int);
    let ghost goal = render_node(
        forest@,
        idx as int,
        opts.style@,
        opts.colored,
        kind,
        depth as int,
    );
    proof {
        assert(str_views(lines@) =~= seq![hd]);
        assert(goal == seq![hd] + render_kids(
            forest@,
            idx as int,
            opts.style@,
            opts.colored,
            depth as int,
            spec_indent(opts.style@, kind),
            0,
        ));
    }
    let n = forest.nodes[idx].children.len();
    let mut k: usize = 0;
    while k < n
        invariant
            n == forest@[idx as int].children.len(),
            k <= n,
            str_views(lines@) + render_kids(
                forest@,
                idx as int,
                opts.style@,
                opts.colored,
                depth as int,
                indent@,
                k as int,
            ) == goal,
        decreases n - k,
    {
        let c = forest.nodes[idx].children[k];
        let child_kind = if k == n - 1 {
            NodeKind::Last
        } else {
            NodeKind::Default
        };
        proof {
            assert(forest@[idx as int].children[k as int] == c as int);
            assert((idx as int) < (c as int) < forest@.len());
        }
        let child_lines = generate_node(forest, c, opts, child_kind, depth + 1);
        let ghost block = render_node(
            forest@,
            c as int,
            opts.style@,
            opts.colored,
            child_kind,
            depth + 1,
        ).map_values(|l: Seq<char>| spec_color(opts.colored, depth as int) + indent@ + l);
        let ghost lines_start = lines@;
        let m = child_lines.len();
        let mut j: usize = 0;
        while j < m
            invariant
                m == child_lines@.len(),
                j <= m,
                block == str_views(child_lines@).map_values(
                    |l: Seq<char>| spec_color(opts.colored, depth as int) + indent@ + l,
                ),
                str_views(lines@) =~= str_views(lines_start) + block.take(j as int),
            decreases m - j,
        {
            let mut l = String::from_str(color);
            l.append(indent.as_str());
            l.append(child_lines[j].as_str());
            let ghost lines_old = lines@;
            lines.push(l);
            proof {
                assert(l@ == block[j as int]);
                assert(str_views(lines@) =~= str_views(lines_old).push(block[j as int]));
                assert(block.take(j as int).push(block[j as int]) =~= block.take(j + 1));
            }
            j = j + 1;
        }
        proof {
            assert(block.take(m as int) =~= block);
            assert(render_kids(
                forest@,
                idx as int,
                opts.style@,
                opts.colored,
                depth as int,
                indent@,
                k as int,
            ) == block + render_kids(
                forest@,
                idx as int,
                opts.style@,
                opts.colored,
                depth as int,
                indent@,
                k + 1,
            ));
            assert(str_views(lines_start) + block =~= str_views(lines@));
            assert(str_views(lines@) + render_kids(
                forest@,
                idx as int,
                opts.style@,
                opts.colored,
                depth as int,
                indent@,
                k + 1,
            ) =~= goal);
        }
        k = k + 1;
    }
    proof {
        assert(render_kids(
            forest@,
            idx as int,
            opts.style@,
            opts.colored,
            depth as int,
            indent@,
            n as int,
        ) =~= Seq::<Seq<char>>::empty());
        assert(str_views(lines@) =~= goal);
    }
    lines
}

/// The rendering of one whole tree: its lines joined by newlines. The
/// topmost node is bare unless `include_root` asks for a corner glyph.
pub open spec fn spec_generate(
    f: Seq<NodeModel>,
    i: int,
    st: StyleModel,
    colored: bool,
    include_root: bool,
) -> Seq<char> {
    joined(
        render_node(
            f,
            i,
            st,
            colored,
            if include_root {
                NodeKind::Last
            } else {
                NodeKind::Root
            },
            0,
        ),
        '\n',
    )
}

/// Renders the tree rooted at `idx` as a newline-joined string.
pub fn generate(forest: &Forest, idx: usize, opts: &Options) -> (r: String)
    requires
        forest_wf(forest@),
        idx < forest@.len(),
        style_wf(opts.style@),
    ensures
        r@ == spec_generate(forest@, idx as int, opts.style@, opts.colored, opts.include_root),
{
    let kind = if opts.include_root {
        NodeKind::Last
    } else {
        NodeKind::Root
    };
    let total = forest.nodes.len();
    proof {
        assert(total as int == forest@.len());
    }
    let lines = generate_node(forest, idx, opts, kind, 0);
    proof {
        reveal_strlit("\n");
    }
    let r = join_with(&lines, "\n");
    proof {
        assert("\n"@[0] == '\n');
    }
    r
}

/// The style of the forest renderer: a vertical bar for continuation, a
/// tee for ordinary children, and a corner for last children.
pub open spec fn default_style() -> StyleModel {
    StyleModel {
        indent_prefix: "\u{2502}"@,
        t_prefix: "\u{251c}\u{2500}"@,
        last_prefix: Option::Some("\u{2514}\u{2500}"@),
    }
}

/// The UTF-8 encoding of a three-byte character.
pub proof fn lemma_three_byte_char(c: char)
    requires
        0x800 <= (c as u32),
        (c as u32) < 0x10000,
    ensures
        encode_scalar(c as u32).len() == 3,
{
}

/// The box-drawing glyphs are three bytes each, so the default style is
/// well formed.
pub proof fn lemma_default_style_wf()
    ensures
        style_wf(default_style()),
        byte_len("\u{2502}"@) == 3,
        byte_len("\u{251c}\u{2500}"@) == 6,
        byte_len("\u{2514}\u{2500}"@) == 6,
{
    reveal_strlit("\u{2502}");
    reveal_strlit("\u{251c}\u{2500}");
    reveal_strlit("\u{2514}\u{2500}");
    assert(encode_utf8(Seq::<char>::empty()).len() == 0);
    let bar = seq!['\u{2502}'];
    assert("\u{2502}"@ =~= bar);
    assert(bar.drop_first() =~= Seq::<char>::empty());
    lemma_three_byte_char('\u{2502}');
    assert(encode_utf8(bar) == encode_scalar('\u{2502}' as u32) + encode_utf8(bar.drop_first()));
    assert(encode_utf8(bar).len() == 3);
    let dash = seq!['\u{2500}'];
    assert(dash.drop_first() =~= Seq::<char>::empty());
    lemma_three_byte_char('\u{2500}');
    assert(encode_utf8(dash) == encode_scalar('\u{2500}' as u32) + encode_utf8(dash.drop_first()));
    assert(encode_utf8(dash).len() == 3);
    let tee = seq!['\u{251c}', '\u{2500}'];
    assert("\u{251c}\u{2500}"@ =~= tee);
    assert(tee.drop_first() =~= dash);
    lemma_three_byte_char('\u{251c}');
    assert(encode_utf8(tee) == encode_scalar('\u{251c}' as u32) + encode_utf8(tee.drop_first()));
    assert(encode_utf8(tee).len() == 6);
    let corner = seq!['\u{2514}', '\u{2500}'];
    assert("\u{2514}\u{2500}"@ =~= corner);
    assert(corner.drop_first() =~= dash);
    lemma_three_byte_char('\u{2514}');
    assert(encode_utf8(corner) == encode_scalar('\u{2514}' as u32) + encode_utf8(
        corner.drop_first(),
    ));
    assert(encode_utf8(corner).len() == 6);
}

/// The rendered strings of all the forest's roots, in arena order; a root
/// is a node whose dotted path holds exactly one dot (a second-level
/// domain).
pub open spec fn roots_from(f: Seq<NodeModel>, st: StyleModel, colored: bool, k: int) -> Seq<
    Seq<char>,
>
    decreases f.len() - k,
        when forest_wf(f) && 0 <= k
{
    if k >= f.len() {
        Seq::empty()
    } else {
        let rest = roots_from(f, st, colored, k + 1);
        if count_matches(f[k].name, '.') == 1 {
            seq![joined(render_node(f, k, st, colored, NodeKind::Root, 0), '\n')] + rest
        } else {
            rest
        }
    }
}

/// The full pipeline on a collection of domain names: split each name
/// into labels reversed to start at the top-level domain, sort by length
/// then lexicographically, build the forest, and render every
/// second-level-domain root, trees joined by newlines.
pub open spec fn spec_create_tree(names: Seq<Seq<char>>, colored: bool) -> Seq<char> {
    let doms = names.map_values(|n: Seq<char>| domain_of(n));
    let f = build_forest(dom_sort(doms));
    joined(roots_from(f, default_style(), colored, 0), '\n')
}

/// Builds and renders the subdomain tree of the given names. Duplicates
/// collapse into single nodes; an empty input renders as the empty
/// string.
#[verifier::loop_isolation(false)]
pub fn create_tree(common_names: Vec<String>, colored: bool) -> (r: String)
    ensures
        r@ == spec_create_tree(str_views(common_names@), colored),
        common_names@.len() == 0 ==> r@.len() == 0,
{
    let ghost names = str_views(common_names@);
    let ghost doms_spec = names.map_values(|n: Seq<char>| domain_of(n));

    let mut split_domains: Vec<Vec<String>> = Vec::new();
    let nn = common_names.len();
    let mut i: usize = 0;
    proof {
        assert(doms_views(split_domains@) =~= doms_spec.take(0));
    }
    while i < nn
        invariant
            i <= nn,
            doms_views(split_domains@) =~= doms_spec.take(i as int),
        decreases nn - i,
    {
        let labels = split_on_str(common_names[i].as_str(), '.');
        let rev = reverse_strings(&labels);
        let ghost rv = str_views(rev@);
        let ghost sd_old = split_domains@;
        split_domains.push(rev);
        proof {
            assert(rv == domain_of(names[i as int]));
            assert(doms_views(split_domains@) =~= doms_views(sd_old).push(rv));
            assert(doms_views(split_domains@) =~= doms_spec.take(i + 1));
        }
        i = i + 1;
    }
    proof {
        assert(doms_spec.take(nn as int) =~= doms_spec);
    }

    let sorted = sort_domains(split_domains);
    let ghost sorted_doms = doms_views(sorted@);
    proof {
        assert(sorted_doms == dom_sort(doms_spec));
    }

    let mut forest = Forest::new();
    let nd = sorted.len();
    let mut t: usize = 0;
    proof {
        assert(forest@ == build_upto(sorted_doms, 0));
    }
    while t < nd
        invariant
            t <= nd,
            forest_wf(forest@),
            forest@ == build_upto(sorted_doms, t as int),
        decreases nd - t,
    {
        let d = &sorted[t];
        let ghost dv = str_views(d@);
        let ghost base = build_upto(sorted_doms, t as int);
        proof {
            assert(dv == sorted_doms[t as int]);
            assert(forest@ == insert_domain_upto(base, dv, 0));
        }
        let dn = d.len();
        let mut p: usize = 0;
        while p < dn
            invariant
                p <= dn,
                forest_wf(forest@),
                forest@ == insert_domain_upto(base, dv, p as int),
            decreases dn - p,
        {
            let parent = path_string(d, p);
            let current = path_string(d, p + 1);
            forest.add_path(current, &parent);
            proof {
                assert(insert_domain_upto(base, dv, p + 1) == crate::forest::insert_step(
                    insert_domain_upto(base, dv, p as int),
                    crate::forest::path_of(dv, p + 1),
                    crate::forest::path_of(dv, p as int),
                ));
            }
            p = p + 1;
        }
        proof {
            assert(build_upto(sorted_doms, t + 1) == insert_domain_upto(
                base,
                sorted_doms[t as int],
                sorted_doms[t as int].len() as int,
            ));
        }
        t = t + 1;
    }
    proof {
        assert(forest@ == build_forest(sorted_doms));
    }

    let options = Options {
        style: Style {
            indent_prefix: String::from_str("\u{2502}"),
            t_prefix: String::from_str("\u{251c}\u{2500}"),
            last_prefix: Some(String::from_str("\u{2514}\u{2500}")),
        },
        colored,
        include_root: false,
    };
    let ghost st = default_style();
    proof {
        lemma_default_style_wf();
        assert(options.style@ == st);
    }

    let ghost fv = forest@;
    let mut lines: Vec<String> = Vec::new();
    let total = forest.nodes.len();
    let mut k: usize = 0;
    proof {
        assert(str_views(lines@) =~= Seq::<Seq<char>>::empty());
        assert(str_views(lines@) + roots_from(fv, st, colored, 0) =~= roots_from(
            fv,
            st,
            colored,
            0,
        ));
    }
    while k < total
        invariant
            k <= total,
            str_views(lines@) + roots_from(fv, st, colored, k as int) == roots_from(
                fv,
                st,
                colored,
                0,
            ),
        decreases total - k,
    {
        proof {
            assert(forest.nodes@[k as int]@.name == fv[k as int].name);
        }
        let dots = count_char(forest.nodes[k].name.as_str(), '.');
        if dots == 1 {
            let one = generate(&forest, k, &options);
            let ghost ov = one@;
            let ghost lines_old = lines@;
            lines.push(one);
            proof {
                assert(str_views(lines@) =~= str_views(lines_old).push(ov));
                assert(roots_from(fv, st, colored, k as int) == seq![ov] + roots_from(
                    fv,
                    st,
                    colored,
                    k + 1,
                ));
                assert(str_views(lines@) + roots_from(fv, st, colored, k + 1) =~= roots_from(
                    fv,
                    st,
                    colored,
                    0,
                ));
            }
        } else {
            proof {
                assert(roots_from(fv, st, colored, k as int) == roots_from(fv, st, colored, k + 1));
            }
        }
        k = k + 1;
    }
    proof {
        assert(roots_from(fv, st, colored, total as int) =~= Seq::<Seq<char>>::empty());
        assert(str_views(lines@) =~= roots_from(fv, st, colored, 0));
        reveal_strlit("\n");
    }
    let r = join_with(&lines, "\n");
    proof {
        assert("\n"@[0] == '\n');
        assert(r@ == spec_create_tree(names, colored));
        if common_names@.len() == 0 {
            assert(doms_spec.len() == 0);
            assert(crate::order::dom_sort_upto(doms_spec, 0) == Seq::<Seq<Seq<char>>>::empty());
            assert(sorted_doms.len() == 0);
            assert(build_upto(sorted_doms, 0) == Seq::<NodeModel>::empty());
            assert(fv.len() == 0);
            assert(roots_from(fv, st, colored, 0) == Seq::<Seq<char>>::empty());
            assert(joined(Seq::<Seq<char>>::empty(), '\n') =~= Seq::<char>::empty());
        }
    }
    r
}

} // verus!
