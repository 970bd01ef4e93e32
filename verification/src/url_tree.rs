//! Per-host path trees.
//!
//! Each canonical URL is inserted by walking one node per path segment —
//! `Folder` for intermediate segments, `File` for the last — and the URLs
//! themselves accumulate at the node their path leads to. Children are kept
//! ordered by name, so rendering walks them as they stand and produces the
//! deterministic, lexicographically sorted depth-first listing with
//! per-node URL counts.

use crate::text::dec_str;
use crate::text::digit_char;
use crate::text::equal_str;
use crate::text::push_dec;
use crate::text::push_digit;
use crate::text::text_le;
use crate::text::text_le_exec;
use crate::url_parser::norm_parts;
use crate::url_parser::path_segs;
use crate::url_parser::texts_view;
use crate::url_parser::split_segments;
use crate::url_parser::UrlRef;
use vstd::prelude::*;
use vstd::string::StrSliceExecFns;
use vstd::string::StringExecFns;

verus! {

/// What a node stands for in the hierarchy.
#[derive(Debug, Clone, Copy, PartialEq, Eq, Structural)]
pub enum NodeType {
    /// Domain level (a per-host root).
    Domain,
    /// An intermediate path segment.
    Folder,
    /// The final segment of some path.
    File,
}

/// The mathematical shape of a tree node: its name, kind, children in
/// stored order, and the full URLs accumulated at it.
#[verifier::ext_equal]
pub struct NodeModel {
    pub name: Seq<char>,
    pub node_type: NodeType,
    pub children: Seq<NodeModel>,
    pub urls: Seq<Seq<char>>,
}

/// A node of the per-host path tree.
#[derive(Debug)]
pub struct TreeNode {
    /// The path segment (or host) this node stands for.
    pub name: String,
    pub node_type: NodeType,
    /// Child nodes, ordered by name.
    pub children: Vec<TreeNode>,
    /// The URLs whose path ends at this node.
    pub urls: Vec<UrlRef>,
}

/// The models of the nodes of `s` from position `i` on.
pub open spec fn models_from(s: Seq<TreeNode>, i: int) -> Seq<NodeModel>
    decreases s, s.len() - i when 0 <= i <= s.len()
{
    if i >= s.len() {
        Seq::<NodeModel>::empty()
    } else {
        seq![s[i].model()] + models_from(s, i + 1)
    }
}

/// `models_from` is the pointwise model of the node sequence.
pub proof fn lemma_models(s: Seq<TreeNode>, i: int)
    requires
        0 <= i <= s.len(),
    ensures
        models_from(s, i).len() == s.len() - i,
        forall|j: int| 0 <= j < s.len() - i ==> models_from(s, i)[j] == s[i + j].model(),
    decreases s.len() - i,
{
    if i < s.len() {
        lemma_models(s, i + 1);
    }
}

impl TreeNode {
    /// The node's mathematical shape.
    pub open spec fn model(self) -> NodeModel
        decreases self,
    {
        NodeModel {
            name: self.name@,
            node_type: self.node_type,
            children: models_from(self.children@, 0),
            urls: self.urls@.map_values(|u: UrlRef| u.full_url@),
        }
    }

    pub fn new(name: &str, node_type: NodeType) -> (r: Self)
        ensures
            r.model() == empty_node(name@, node_type),
    {
        let r = TreeNode {
            name: String::from_str(name),
            node_type,
            children: Vec::new(),
            urls: Vec::new(),
        };
        proof {
            assert(r.model() =~~= empty_node(name@, node_type));
        }
        r
    }

    /// Inserts a URL: walks or creates one child per path segment, keeping
    /// the children ordered by name, and stores the URL at the last node.
    pub fn insert(&mut self, url: UrlRef)
        ensures
            final(self).model() == spec_insert_node(
                old(self).model(),
                path_segs(url.path@),
                0,
                url.full_url@,
            ),
    {
        let segments = split_segments(url.path.as_str());
        insert_at(self, &segments, 0, url);
    }

    /// Renders the subtree: one line per node with its URL count, children
    /// in stored (name) order, connected with box-drawing markers.
    pub fn render_to_string(&self, prefix: &str, is_last: bool, is_root: bool) -> (r: String)
        ensures
            r@ == spec_render(self.model(), prefix@, is_last, is_root),
        decreases *self,
    {
        proof {
            reveal_strlit("\u{2514}\u{2500}\u{2500} ");
            reveal_strlit("\u{251c}\u{2500}\u{2500} ");
            reveal_strlit("\u{2502}   ");
            reveal_strlit("    ");
            reveal_strlit(" ");
            reveal_strlit(" (");
            reveal_strlit(")");
            reveal_strlit("\n");
        }
        let mut out = String::new();
        if !is_root {
            out.append(prefix);
            if is_last {
                out.append("\u{2514}\u{2500}\u{2500} ");
            } else {
                out.append("\u{251c}\u{2500}\u{2500} ");
            }
        }
        out.append(" ");
        out.append(self.name.as_str());
        if !is_root {
            out.append(" (");
            push_dec(&mut out, self.urls.len() as u128);
            out.append(")");
        }
        out.append("\n");
        proof {
            assert(out@ =~= render_head(self.model(), prefix@, is_last, is_root));
        }
        let mut new_prefix = String::new();
        if !is_root {
            new_prefix.append(prefix);
            if is_last {
                new_prefix.append("    ");
            } else {
                new_prefix.append("\u{2502}   ");
            }
        }
        proof {
            assert(new_prefix@ =~= child_prefix(prefix@, is_last, is_root));
            lemma_models(self.children@, 0);
        }
        let n = self.children.len();
        let mut i: usize = 0;
        while i < n
            invariant
                i <= n,
                n == self.children@.len(),
                new_prefix@ == child_prefix(prefix@, is_last, is_root),
                models_from(self.children@, 0).len() == n,
                forall|j: int|
                    0 <= j < n ==> models_from(self.children@, 0)[j] == self.children@[j].model(),
                out@ == render_head(self.model(), prefix@, is_last, is_root) + spec_render_upto(
                    self.model().children,
                    0,
                    i as int,
                    new_prefix@,
                ),
            decreases n - i,
        {
            let last_child = i == n - 1;
            let piece = self.children[i].render_to_string(new_prefix.as_str(), last_child, false);
            out.append(piece.as_str());
            proof {
                lemma_render_upto_snoc(self.model().children, 0, i as int, new_prefix@);
            }
            i = i + 1;
        }
        proof {
            lemma_render_upto_all(self.model().children, new_prefix@);
            assert(out@ =~= spec_render(self.model(), prefix@, is_last, is_root));
        }
        out
    }
}

/// A node with no children and no URLs yet.
pub open spec fn empty_node(name: Seq<char>, nt: NodeType) -> NodeModel {
    NodeModel { name, node_type: nt, children: Seq::<NodeModel>::empty(), urls: Seq::<Seq<char>>::empty() }
}

/// The position for `name` among children ordered by name: the first index
/// at or after `i` whose name is not below `name`, or the end.
pub open spec fn child_pos(s: Seq<NodeModel>, name: Seq<char>, i: int) -> int
    decreases s.len() - i when 0 <= i <= s.len()
{
    if i >= s.len() {
        i
    } else if text_le(name, s[i].name) {
        i
    } else {
        child_pos(s, name, i + 1)
    }
}

/// Inserting a URL under the path segments `segs[k..]`: at the end of the
/// path the URL lands at this node; otherwise the walk continues in the
/// child named after the next segment, created in name order when absent.
pub open spec fn spec_insert_node(
    m: NodeModel,
    segs: Seq<Seq<char>>,
    k: int,
    url: Seq<char>,
) -> NodeModel
    decreases segs.len() - k when 0 <= k <= segs.len()
{
    if k >= segs.len() {
        NodeModel { urls: m.urls.push(url), ..m }
    } else {
        let nt = if k == segs.len() - 1 {
            NodeType::File
        } else {
            NodeType::Folder
        };
        let pos = child_pos(m.children, segs[k], 0);
        if pos < m.children.len() && m.children[pos].name == segs[k] {
            NodeModel {
                children: m.children.update(pos, spec_insert_node(m.children[pos], segs, k + 1, url)),
                ..m
            }
        } else {
            NodeModel {
                children: m.children.insert(pos, spec_insert_node(empty_node(segs[k], nt), segs, k + 1, url)),
                ..m
            }
        }
    }
}

/// Walks or creates one node per remaining segment and stores the URL at
/// the last one.
fn insert_at(node: &mut TreeNode, segs: &Vec<String>, k: usize, url: UrlRef)
    requires
        k <= segs@.len(),
    ensures
        final(node).model() == spec_insert_node(
            old(node).model(),
            texts_view(segs@),
            k as int,
            url.full_url@,
        ),
    decreases segs@.len() - k,
{
    if k == segs.len() {
        let ghost pre = node.model();
        node.urls.push(url);
        proof {
            assert(node.model() =~~= NodeModel { urls: pre.urls.push(url.full_url@), ..pre });
        }
        return;
    }
    let ghost ms = node.model().children;
    proof {
        lemma_models(node.children@, 0);
    }
    let name = segs[k].clone();
    let n = node.children.len();
    let mut pos: usize = 0;
    loop
        invariant_except_break
            pos <= n,
            n == node.children@.len(),
            ms == node.model().children,
            ms.len() == n,
            forall|j: int| 0 <= j < n ==> ms[j] == node.children@[j].model(),
            name@ == segs@[k as int]@,
            child_pos(ms, name@, 0) == child_pos(ms, name@, pos as int),
        ensures
            pos <= n,
            n == node.children@.len(),
            ms == node.model().children,
            ms.len() == n,
            forall|j: int| 0 <= j < n ==> ms[j] == node.children@[j].model(),
            name@ == segs@[k as int]@,
            child_pos(ms, name@, 0) == pos as int,
        decreases n - pos,
    {
        if pos == n {
            break;
        }
        if text_le_exec(name.as_str(), node.children[pos].name.as_str()) {
            proof {
                assert(ms[pos as int].name == node.children@[pos as int].name@);
            }
            break;
        }
        proof {
            assert(ms[pos as int].name == node.children@[pos as int].name@);
        }
        pos = pos + 1;
    }
    let nt = if k + 1 == segs.len() {
        NodeType::File
    } else {
        NodeType::Folder
    };
    let ghost pre = node.model();
    if pos < n && equal_str(node.children[pos].name.as_str(), name.as_str()) {
        let mut c = node.children.remove(pos);
        let ghost c_pre = c.model();
        proof {
            assert(c_pre == ms[pos as int]);
        }
        insert_at(&mut c, segs, k + 1, url);
        let ghost c_post = c.model();
        node.children.insert(pos, c);
        proof {
            assert(node.children@ =~= old(node).children@.update(pos as int, c));
            lemma_models(node.children@, 0);
            assert(node.model().children =~~= ms.update(
                pos as int,
                spec_insert_node(ms[pos as int], texts_view(segs@), k + 1, url.full_url@),
            )) by {
                assert forall|j: int| 0 <= j < n implies node.model().children[j] == ms.update(
                    pos as int,
                    c_post,
                )[j] by {
                    if j != pos {
                        assert(node.children@[j] == old(node).children@[j]);
                    }
                }
            }
            assert(node.model() =~~= spec_insert_node(pre, texts_view(segs@), k as int, url.full_url@));
        }
    } else {
        let mut c = TreeNode::new(name.as_str(), nt);
        insert_at(&mut c, segs, k + 1, url);
        let ghost c_post = c.model();
        node.children.insert(pos, c);
        proof {
            assert(node.children@ =~= old(node).children@.insert(pos as int, c));
            lemma_models(node.children@, 0);
            assert(node.model().children =~~= ms.insert(pos as int, c_post)) by {
                assert forall|j: int| 0 <= j < n + 1 implies node.model().children[j] == ms.insert(
                    pos as int,
                    c_post,
                )[j] by {
                    if j < pos {
                        assert(node.children@[j] == old(node).children@[j]);
                    } else if j > pos {
                        assert(node.children@[j] == old(node).children@[j - 1]);
                    }
                }
            }
            if pos < n {
                assert(ms[pos as int].name == old(node).children@[pos as int].name@);
            }
            assert(node.model() =~~= spec_insert_node(pre, texts_view(segs@), k as int, url.full_url@));
        }
    }
}

/// The line a node contributes: prefix and marker (except at a root), a
/// space, the name, its URL count in parentheses (except at a root), and a
/// newline.
pub open spec fn render_head(
    m: NodeModel,
    prefix: Seq<char>,
    is_last: bool,
    is_root: bool,
) -> Seq<char> {
    let marker = if is_root {
        Seq::<char>::empty()
    } else if is_last {
        prefix + "\u{2514}\u{2500}\u{2500} "@
    } else {
        prefix + "\u{251c}\u{2500}\u{2500} "@
    };
    let count = if is_root {
        Seq::<char>::empty()
    } else {
        " ("@ + dec_str(m.urls.len()) + ")"@
    };
    marker + " "@ + m.name + count + "\n"@
}

/// The prefix the children inherit.
pub open spec fn child_prefix(prefix: Seq<char>, is_last: bool, is_root: bool) -> Seq<char> {
    if is_root {
        Seq::<char>::empty()
    } else if is_last {
        prefix + "    "@
    } else {
        prefix + "\u{2502}   "@
    }
}

/// The rendering of a subtree: the node's own line, then its children in
/// stored order, the last child marked as last.
pub open spec fn spec_render(
    m: NodeModel,
    prefix: Seq<char>,
    is_last: bool,
    is_root: bool,
) -> Seq<char>
    decreases m, 0int,
{
    render_head(m, prefix, is_last, is_root) + spec_render_children(
        m.children,
        0,
        child_prefix(prefix, is_last, is_root),
    )
}

/// The renderings of the children from position `i` on.
pub open spec fn spec_render_children(ms: Seq<NodeModel>, i: int, prefix: Seq<char>) -> Seq<char>
    decreases ms, ms.len() - i when 0 <= i <= ms.len()
{
    if i >= ms.len() {
        Seq::<char>::empty()
    } else {
        spec_render(ms[i], prefix, i == ms.len() - 1, false) + spec_render_children(
            ms,
            i + 1,
            prefix,
        )
    }
}

/// The renderings of the children with positions in `[i, upto)`.
pub open spec fn spec_render_upto(
    ms: Seq<NodeModel>,
    i: int,
    upto: int,
    prefix: Seq<char>,
) -> Seq<char>
    decreases upto - i when 0 <= i <= upto <= ms.len()
{
    if i >= upto {
        Seq::<char>::empty()
    } else {
        spec_render(ms[i], prefix, i == ms.len() - 1, false) + spec_render_upto(
            ms,
            i + 1,
            upto,
            prefix,
        )
    }
}

/// One more child extends the bounded rendering at its right end.
proof fn lemma_render_upto_snoc(ms: Seq<NodeModel>, i: int, b: int, prefix: Seq<char>)
    requires
        0 <= i <= b < ms.len(),
    ensures
        spec_render_upto(ms, i, b + 1, prefix) == spec_render_upto(ms, i, b, prefix)
            + spec_render(ms[b], prefix, b == ms.len() - 1, false),
    decreases b - i,
{
    if i < b {
        lemma_render_upto_snoc(ms, i + 1, b, prefix);
        assert(spec_render_upto(ms, i, b + 1, prefix) == spec_render(
            ms[i],
            prefix,
            i == ms.len() - 1,
            false,
        ) + spec_render_upto(ms, i + 1, b + 1, prefix));
        assert(spec_render_upto(ms, i, b, prefix) == spec_render(
            ms[i],
            prefix,
            i == ms.len() - 1,
            false,
        ) + spec_render_upto(ms, i + 1, b, prefix));
        assert(spec_render_upto(ms, i, b + 1, prefix) =~= spec_render_upto(ms, i, b, prefix)
            + spec_render(ms[b], prefix, b == ms.len() - 1, false));
    } else {
        assert(spec_render_upto(ms, i, b + 1, prefix) == spec_render(
            ms[b],
            prefix,
            b == ms.len() - 1,
            false,
        ) + spec_render_upto(ms, b + 1, b + 1, prefix));
        assert(spec_render_upto(ms, b + 1, b + 1, prefix) == Seq::<char>::empty());
        assert(spec_render_upto(ms, i, b, prefix) == Seq::<char>::empty());
        assert(spec_render_upto(ms, i, b + 1, prefix) =~= spec_render_upto(ms, i, b, prefix)
            + spec_render(ms[b], prefix, b == ms.len() - 1, false));
    }
}

/// The canonical key of a parsed URL: what `normalize` returns for it.
pub open spec fn url_key(u: UrlRef) -> Seq<char> {
    norm_parts(u.protocol@, u.hostname@, u.path@, u.query@)
}

/// Inserting a URL into the forest: the walk starts at the tree rooted at
/// the URL's hostname, created lazily in name order.
pub open spec fn spec_add_tree(
    ts: Seq<NodeModel>,
    host: Seq<char>,
    segs: Seq<Seq<char>>,
    url: Seq<char>,
) -> Seq<NodeModel> {
    let pos = child_pos(ts, host, 0);
    if pos < ts.len() && ts[pos].name == host {
        ts.update(pos, spec_insert_node(ts[pos], segs, 0, url))
    } else {
        ts.insert(pos, spec_insert_node(empty_node(host, NodeType::Domain), segs, 0, url))
    }
}

/// The sum of the path depths of the held URLs.
pub open spec fn depth_sum(s: Seq<(String, UrlRef)>) -> nat
    decreases s.len(),
{
    if s.len() == 0 {
        0
    } else {
        depth_sum(s.drop_last()) + (s.last().1.depth as nat)
    }
}

/// Every depth is a machine word, so the sum is bounded by the count.
proof fn lemma_depth_sum_bound(s: Seq<(String, UrlRef)>)
    ensures
        depth_sum(s) <= s.len() * 0xffff_ffff_ffff_ffff,
    decreases s.len(),
{
    if s.len() > 0 {
        lemma_depth_sum_bound(s.drop_last());
        assert(s.last().1.depth <= 0xffff_ffff_ffff_ffff);
        assert((s.len() - 1) * 0xffff_ffff_ffff_ffff + 0xffff_ffff_ffff_ffff == s.len()
            * 0xffff_ffff_ffff_ffff) by (nonlinear_arith);
    }
}

/// The stats report: the unique-URL count, the number of distinct hosts,
/// and — when any URL is held — the average path depth, rounded to two
/// decimals.
pub open spec fn spec_stats(count: nat, hosts: nat, sum: nat) -> Seq<char> {
    let base = "  Total Unique URLs:    "@ + dec_str(count) + "\n"@
        + "  Total Domains:        "@ + dec_str(hosts) + "\n"@;
    if count > 0 {
        let avg = (sum * 200 + count) / (2 * count);
        base + "  Average Depth:        "@ + dec_str(avg / 100) + "."@ + seq![
            digit_char(((avg / 10) % 10) as nat),
            digit_char((avg % 10) as nat),
        ] + "\n"@
    } else {
        base
    }
}

/// The renderings of the per-host trees from position `i` on, each as a
/// root, the last one marked as last.
pub open spec fn spec_render_forest(ts: Seq<NodeModel>, i: int) -> Seq<char>
    decreases ts.len() - i when 0 <= i <= ts.len()
{
    if i >= ts.len() {
        Seq::<char>::empty()
    } else {
        spec_render(ts[i], Seq::<char>::empty(), i == ts.len() - 1, true) + spec_render_forest(
            ts,
            i + 1,
        )
    }
}

/// The set of unique canonical URLs and their per-host hierarchies.
pub struct UrlCollection {
    /// One entry per canonical key, with the first URL that produced it.
    pub unique_urls: Vec<(String, UrlRef)>,
    /// The per-host trees, ordered by hostname.
    pub hierarchies: Vec<TreeNode>,
}

impl UrlCollection {
    /// The canonical keys, in first-seen order.
    pub open spec fn keys(&self) -> Seq<Seq<char>> {
        self.unique_urls@.map_values(|p: (String, UrlRef)| p.0@)
    }

    /// The models of the per-host trees, in stored order.
    pub open spec fn trees(&self) -> Seq<NodeModel> {
        models_from(self.hierarchies@, 0)
    }

    /// No canonical key is held twice, and there is room for one more.
    pub open spec fn wf(&self) -> bool {
        &&& self.keys().no_duplicates()
        &&& self.unique_urls@.len() < 0x7fff_ffff
    }

    pub fn new() -> (r: Self)
        ensures
            r.wf(),
            r.keys() == Seq::<Seq<char>>::empty(),
            r.trees() == Seq::<NodeModel>::empty(),
            r.unique_urls@ == Seq::<(String, UrlRef)>::empty(),
    {
        let r = UrlCollection { unique_urls: Vec::new(), hierarchies: Vec::new() };
        proof {
            assert(r.keys() =~= Seq::<Seq<char>>::empty());
            assert(r.trees() =~= Seq::<NodeModel>::empty());
        }
        r
    }

    /// Adds a parsed URL under its canonical key. A URL whose key is held
    /// already changes nothing; otherwise the entry is appended and the URL
    /// inserted into its host's tree.
    pub fn add(&mut self, url: UrlRef)
        requires
            old(self).wf(),
            old(self).unique_urls@.len() + 1 < 0x7fff_ffff,
        ensures
            final(self).wf(),
            old(self).keys().contains(url_key(url)) ==> *final(self) == *old(self),
            !old(self).keys().contains(url_key(url)) ==> {
                &&& final(self).unique_urls@.len() == old(self).unique_urls@.len() + 1
                &&& final(self).unique_urls@.drop_last() == old(self).unique_urls@
                &&& final(self).unique_urls@.last().0@ == url_key(url)
                &&& final(self).unique_urls@.last().1 == url
                &&& final(self).trees() == spec_add_tree(
                    old(self).trees(),
                    url.hostname@,
                    path_segs(url.path@),
                    url.full_url@,
                )
            },
    {
        let k = url.normalize();
        let mut i: usize = 0;
        while i < self.unique_urls.len()
            invariant
                i <= self.unique_urls@.len(),
                self.wf(),
                *self == *old(self),
                k@ == url_key(url),
                forall|j: int| 0 <= j < i ==> self.keys()[j] != k@,
            decreases self.unique_urls@.len() - i,
        {
            if equal_str(self.unique_urls[i].0.as_str(), k.as_str()) {
                proof {
                    assert(self.keys()[i as int] == k@);
                }
                return;
            }
            proof {
                assert(self.keys()[i as int] == self.unique_urls@[i as int].0@);
            }
            i = i + 1;
        }
        proof {
            assert(!self.keys().contains(url_key(url)));
        }
        let u2 = url.duplicate();
        let ghost pre_keys = self.keys();
        self.unique_urls.push((k, url));
        proof {
            assert(self.keys() =~= pre_keys.push(url_key(u2)));
            assert(self.unique_urls@.drop_last() =~= old(self).unique_urls@);
            assert(self.keys().no_duplicates()) by {
                assert forall|a: int, b: int|
                    0 <= a < b < self.keys().len() implies self.keys()[a] != self.keys()[b] by {
                    if b == self.keys().len() - 1 {
                        assert(self.keys()[a] == pre_keys[a]);
                    } else {
                        assert(self.keys()[a] == pre_keys[a] && self.keys()[b] == pre_keys[b]);
                    }
                }
            }
        }
        let ghost ts = self.trees();
        proof {
            lemma_models(self.hierarchies@, 0);
        }
        let n = self.hierarchies.len();
        let mut pos: usize = 0;
        loop
            invariant_except_break
                pos <= n,
                n == self.hierarchies@.len(),
                ts == self.trees(),
                ts.len() == n,
                forall|j: int| 0 <= j < n ==> ts[j] == self.hierarchies@[j].model(),
                u2.hostname@ == url.hostname@,
                child_pos(ts, u2.hostname@, 0) == child_pos(ts, u2.hostname@, pos as int),
            ensures
                pos <= n,
                n == self.hierarchies@.len(),
                ts == self.trees(),
                ts.len() == n,
                forall|j: int| 0 <= j < n ==> ts[j] == self.hierarchies@[j].model(),
                u2.hostname@ == url.hostname@,
                child_pos(ts, u2.hostname@, 0) == pos as int,
            decreases n - pos,
        {
            if pos == n {
                break;
            }
            if text_le_exec(u2.hostname.as_str(), self.hierarchies[pos].name.as_str()) {
                proof {
                    assert(ts[pos as int].name == self.hierarchies@[pos as int].name@);
                }
                break;
            }
            proof {
                assert(ts[pos as int].name == self.hierarchies@[pos as int].name@);
            }
            pos = pos + 1;
        }
        let ghost hpre = self.hierarchies@;
        if pos < n && equal_str(self.hierarchies[pos].name.as_str(), u2.hostname.as_str()) {
            let mut t = self.hierarchies.remove(pos);
            let ghost segs_ghost = path_segs(u2.path@);
            t.insert(u2);
            let ghost t_post = t.model();
            self.hierarchies.insert(pos, t);
            proof {
                assert(self.hierarchies@ =~= hpre.update(pos as int, t));
                lemma_models(self.hierarchies@, 0);
                assert(self.trees() =~~= ts.update(
                    pos as int,
                    spec_insert_node(ts[pos as int], path_segs(url.path@), 0, url.full_url@),
                )) by {
                    assert forall|j: int| 0 <= j < n implies self.trees()[j] == ts.update(
                        pos as int,
                        t_post,
                    )[j] by {
                        if j != pos {
                            assert(self.hierarchies@[j] == hpre[j]);
                        }
                    }
                }
                assert(self.trees() =~~= spec_add_tree(
                    ts,
                    url.hostname@,
                    path_segs(url.path@),
                    url.full_url@,
                ));
            }
        } else {
            let mut t = TreeNode::new(u2.hostname.as_str(), NodeType::Domain);
            t.insert(u2);
            let ghost t_post = t.model();
            self.hierarchies.insert(pos, t);
            proof {
                assert(self.hierarchies@ =~= hpre.insert(pos as int, t));
                lemma_models(self.hierarchies@, 0);
                assert(self.trees() =~~= ts.insert(pos as int, t_post)) by {
                    assert forall|j: int| 0 <= j < n + 1 implies self.trees()[j] == ts.insert(
                        pos as int,
                        t_post,
                    )[j] by {
                        if j < pos {
                            assert(self.hierarchies@[j] == hpre[j]);
                        } else if j > pos {
                            assert(self.hierarchies@[j] == hpre[j - 1]);
                        }
                    }
                }
                if pos < n {
                    assert(ts[pos as int].name == hpre[pos as int].name@);
                }
                assert(self.trees() =~~= spec_add_tree(
                    ts,
                    url.hostname@,
                    path_segs(url.path@),
                    url.full_url@,
                ));
            }
        }
    }

    /// How many distinct canonical URLs the collection holds.
    pub fn unique_count(&self) -> (r: usize)
        ensures
            r == self.keys().len(),
    {
        self.unique_urls.len()
    }

    /// The stats report: unique-URL count, number of distinct hosts, and
    /// the average path depth to two decimals when any URL is held.
    pub fn stats(&self) -> (r: String)
        requires
            self.wf(),
        ensures
            r@ == spec_stats(
                self.keys().len(),
                self.trees().len(),
                depth_sum(self.unique_urls@),
            ),
    {
        let mut out = String::new();
        out.append("  Total Unique URLs:    ");
        let count = self.unique_urls.len();
        push_dec(&mut out, count as u128);
        out.append("\n");
        out.append("  Total Domains:        ");
        proof {
            lemma_models(self.hierarchies@, 0);
        }
        push_dec(&mut out, self.hierarchies.len() as u128);
        out.append("\n");
        if count > 0 {
            let mut sum: u128 = 0;
            let mut i: usize = 0;
            proof {
                assert(depth_sum(self.unique_urls@.take(0)) == 0);
                lemma_depth_sum_bound(self.unique_urls@);
            }
            while i < self.unique_urls.len()
                invariant
                    i <= self.unique_urls@.len(),
                    self.wf(),
                    sum == depth_sum(self.unique_urls@.take(i as int)),
                    sum <= depth_sum(self.unique_urls@),
                decreases self.unique_urls@.len() - i,
            {
                proof {
                    assert(self.unique_urls@.take(i + 1).drop_last() =~= self.unique_urls@.take(
                        i as int,
                    ));
                    assert(self.unique_urls@.take(i + 1).last() == self.unique_urls@[i as int]);
                    lemma_depth_sum_prefix(self.unique_urls@, i + 1);
                    lemma_depth_sum_bound(self.unique_urls@);
                }
                sum = sum + self.unique_urls[i].1.depth as u128;
                i = i + 1;
            }
            proof {
                assert(self.unique_urls@.take(self.unique_urls@.len() as int) =~=
                    self.unique_urls@);
                lemma_depth_sum_bound(self.unique_urls@);
                assert(sum * 200 + count <= 0xffff_ffff_ffff_ffff_ffff_ffff_ffff_ffff) by (nonlinear_arith)
                    requires
                        sum <= 0x7fff_ffff * 0xffff_ffff_ffff_ffff,
                        count < 0x7fff_ffff,
                ;
            }
            let avg = (sum * 200 + count as u128) / (2 * count as u128);
            out.append("  Average Depth:        ");
            push_dec(&mut out, avg / 100);
            out.append(".");
            push_digit(&mut out, (avg / 10) % 10);
            push_digit(&mut out, avg % 10);
            out.append("\n");
            proof {
                assert(out@ =~= spec_stats(
                    self.keys().len(),
                    self.trees().len(),
                    depth_sum(self.unique_urls@),
                ));
            }
        } else {
            proof {
                assert(out@ =~= spec_stats(
                    self.keys().len(),
                    self.trees().len(),
                    depth_sum(self.unique_urls@),
                ));
            }
        }
        out
    }

    /// Renders every per-host tree in stored (name) order, as one string.
    pub fn display_trees(&self) -> (r: String)
        ensures
            r@ == spec_render_forest(self.trees(), 0),
    {
        proof {
            reveal_strlit("");
            lemma_models(self.hierarchies@, 0);
        }
        let mut out = String::new();
        let n = self.hierarchies.len();
        let mut i: usize = 0;
        proof {
            assert(Seq::<char>::empty() + spec_render_forest(self.trees(), 0) =~=
                spec_render_forest(self.trees(), 0));
        }
        while i < n
            invariant
                i <= n,
                n == self.hierarchies@.len(),
                self.trees().len() == n,
                forall|j: int| 0 <= j < n ==> self.trees()[j] == self.hierarchies@[j].model(),
                spec_render_forest(self.trees(), 0) == out@ + spec_render_forest(
                    self.trees(),
                    i as int,
                ),
            decreases n - i,
        {
            let last = i == n - 1;
            let piece = self.hierarchies[i].render_to_string("", last, true);
            proof {
                reveal_strlit("");
                assert(""@ =~= Seq::<char>::empty());
            }
            out.append(piece.as_str());
            i = i + 1;
        }
        out
    }
}

/// One more entry extends the depth sum by its depth.
proof fn lemma_depth_sum_prefix(s: Seq<(String, UrlRef)>, i: int)
    requires
        0 < i <= s.len(),
    ensures
        depth_sum(s.take(i)) == depth_sum(s.take(i - 1)) + s[i - 1].1.depth,
        depth_sum(s.take(i)) <= depth_sum(s),
    decreases s.len() - i,
{
    assert(s.take(i).drop_last() =~= s.take(i - 1));
    assert(s.take(i).last() == s[i - 1]);
    if i == s.len() {
        assert(s.take(i) =~= s);
    } else {
        lemma_depth_sum_prefix(s, i + 1);
    }
}

/// Rendering every child is rendering them all.
pub proof fn lemma_render_upto_all(ms: Seq<NodeModel>, prefix: Seq<char>)
    ensures
        spec_render_upto(ms, 0, ms.len() as int, prefix) == spec_render_children(ms, 0, prefix),
{
    lemma_render_upto_from(ms, 0, prefix);
}

/// From any start, the bounded and the unbounded child renderings agree.
proof fn lemma_render_upto_from(ms: Seq<NodeModel>, i: int, prefix: Seq<char>)
    requires
        0 <= i <= ms.len(),
    ensures
        spec_render_upto(ms, i, ms.len() as int, prefix) == spec_render_children(ms, i, prefix),
    decreases ms.len() - i,
{
    if i < ms.len() {
        lemma_render_upto_from(ms, i + 1, prefix);
    }
}

} // verus!
