//! A persisted representation of a forest, for model reuse across processes:
//! a flat sequence of numbers holding a small header followed by every tree
//! in preorder, with fixed-length vectors written out element by element.
//!
//! Decoding checks everything it reads, so any decoded forest is well formed;
//! and decoding what `encode` wrote gives back a forest equivalent to the
//! original, which therefore produces identical scores for every point.

use vstd::prelude::*;

use crate::forest::spec_score;
use crate::forest::spec_sum_paths;
use crate::forest::Forest;
use crate::tree::node_ext_ok;
use crate::tree::node_height;
use crate::tree::node_wf;
use crate::tree::nonzero_count;
use crate::tree::spec_path_length;
use crate::tree::Node;
use crate::tree::Tree;
use crate::COORD_BOUND;
use crate::DEPTH_CAP;
use crate::DIM_CAP;
use crate::NORMAL_BOUND;
use crate::ROW_CAP;
use crate::SCALE;

verus! {

/// Two nodes are equivalent when they carry the same numbers in the same
/// shape.
pub open spec fn node_equiv(a: Node, b: Node) -> bool
    decreases a,
{
    match (a, b) {
        (Node::Ex { num_samples: na }, Node::Ex { num_samples: nb }) => na == nb,
        (
            Node::In { left: la, right: ra, n: nna, p: ppa },
            Node::In { left: lb, right: rb, n: nnb, p: ppb },
        ) => nna@ == nnb@ && ppa@ == ppb@ && node_equiv(*la, *lb) && node_equiv(*ra, *rb),
        _ => false,
    }
}

/// Two forests are equivalent when they carry the same constant, dimension,
/// extension level, and equivalent trees in the same order.
pub open spec fn forest_equiv(a: Forest, b: Forest) -> bool {
    a.avg_path_length_c == b.avg_path_length_c && a.dim == b.dim && a.extension_level
        == b.extension_level && a.trees@.len() == b.trees@.len() && forall|k: int|
        0 <= k < a.trees@.len() ==> node_equiv(#[trigger] a.trees@[k].root, b.trees@[k].root)
}

/// Equivalent nodes give every query point the same path length.
pub proof fn lemma_node_equiv_path(a: Node, b: Node, vs: Seq<i64>)
    requires
        node_equiv(a, b),
    ensures
        spec_path_length(a, vs) == spec_path_length(b, vs),
    decreases a,
{
    match (a, b) {
        (Node::Ex { .. }, Node::Ex { .. }) => {
        },
        (Node::In { left: la, right: ra, .. }, Node::In { left: lb, right: rb, .. }) => {
            lemma_node_equiv_path(*la, *lb, vs);
            lemma_node_equiv_path(*ra, *rb, vs);
        },
        _ => {
        },
    }
}

/// Equivalent tree sequences give every query point the same path-length sum.
proof fn lemma_sum_paths_equiv(a: Seq<Tree>, b: Seq<Tree>, vs: Seq<i64>)
    requires
        a.len() == b.len(),
        forall|k: int| 0 <= k < a.len() ==> node_equiv(#[trigger] a[k].root, b[k].root),
    ensures
        spec_sum_paths(a, vs) == spec_sum_paths(b, vs),
    decreases a.len(),
{
    if a.len() > 0 {
        lemma_sum_paths_equiv(a.drop_last(), b.drop_last(), vs);
        lemma_node_equiv_path(a.last().root, b.last().root, vs);
    }
}

/// Equivalent forests produce identical scores for every query point.
pub proof fn lemma_forest_equiv_score(a: Forest, b: Forest, vs: Seq<i64>)
    requires
        forest_equiv(a, b),
    ensures
        spec_score(a, vs) == spec_score(b, vs),
{
    lemma_sum_paths_equiv(a.trees@, b.trees@, vs);
}

/// The persisted form of one node, in preorder.
pub open spec fn spec_encode_node(node: Node) -> Seq<i64>
    decreases node,
{
    match node {
        Node::Ex { num_samples } => seq![0i64, num_samples as i64],
        Node::In { left, right, n, p } => seq![1i64] + n@ + p@ + spec_encode_node(*left)
            + spec_encode_node(*right),
    }
}

/// The persisted form of a sequence of trees, one after the other.
pub open spec fn spec_encode_trees(ts: Seq<Tree>) -> Seq<i64>
    decreases ts.len(),
{
    if ts.len() == 0 {
        Seq::empty()
    } else {
        spec_encode_trees(ts.drop_last()) + spec_encode_node(ts.last().root)
    }
}

/// The persisted form of a forest: dimension, extension level, normalization
/// constant and tree count, followed by the trees.
pub open spec fn spec_encode_forest(f: Forest) -> Seq<i64> {
    seq![
        f.dim as i64,
        f.extension_level as i64,
        f.avg_path_length_c as i64,
        f.trees@.len() as i64,
    ] + spec_encode_trees(f.trees@)
}

/// The persisted forms of the trees from position `k` on.
spec fn spec_encode_rest(ts: Seq<Tree>, k: int) -> Seq<i64>
    decreases ts.len() - k,
{
    if k < 0 || k >= ts.len() {
        Seq::empty()
    } else {
        spec_encode_node(ts[k].root) + spec_encode_rest(ts, k + 1)
    }
}

/// The encoding of a tree sequence splits at any position.
proof fn lemma_encode_trees_split(ts: Seq<Tree>, k: int)
    requires
        0 <= k <= ts.len(),
    ensures
        spec_encode_trees(ts) == spec_encode_trees(ts.take(k)) + spec_encode_rest(ts, k),
    decreases ts.len() - k,
{
    if k == ts.len() {
        assert(ts.take(k) =~= ts);
        assert(spec_encode_trees(ts) + spec_encode_rest(ts, k) =~= spec_encode_trees(ts));
    } else {
        lemma_encode_trees_split(ts, k + 1);
        assert(ts.take(k + 1).drop_last() =~= ts.take(k));
        assert(ts.take(k + 1).last() == ts[k]);
        assert(spec_encode_trees(ts.take(k)) + (spec_encode_node(ts[k].root) + spec_encode_rest(
            ts,
            k + 1,
        )) =~= (spec_encode_trees(ts.take(k)) + spec_encode_node(ts[k].root)) + spec_encode_rest(
            ts,
            k + 1,
        ));
    }
}

/// Every node encoding takes at least two numbers.
proof fn lemma_encode_node_len(node: Node)
    ensures
        spec_encode_node(node).len() >= 2,
    decreases node,
{
    match node {
        Node::Ex { .. } => {
        },
        Node::In { left, right, .. } => {
            lemma_encode_node_len(*left);
            lemma_encode_node_len(*right);
        },
    }
}

/// The input starting at `pos` carries the encoding of `t`, and `t` is a
/// well-formed node for the given dimension, extension level and height
/// budget.
pub open spec fn decodes_to(
    buf: Seq<i64>,
    pos: int,
    budget: int,
    dim: int,
    ext: int,
    t: Node,
) -> bool {
    node_wf(t, dim) && node_ext_ok(t, ext + 1) && node_height(t) <= budget && pos >= 0 && pos
        + spec_encode_node(t).len() <= buf.len() && buf.subrange(
        pos,
        pos + spec_encode_node(t).len() as int,
    ) == spec_encode_node(t)
}

/// What carrying the encoding of a leaf at `pos` pins down.
proof fn lemma_decodes_ex(buf: Seq<i64>, pos: int, budget: int, dim: int, ext: int, num: usize)
    requires
        decodes_to(buf, pos, budget, dim, ext, Node::Ex { num_samples: num }),
    ensures
        pos + 2 <= buf.len(),
        buf[pos] == 0,
        buf[pos + 1] == num as i64,
{
    let e = spec_encode_node(Node::Ex { num_samples: num });
    assert(buf.subrange(pos, pos + 2)[0] == buf[pos]);
    assert(buf.subrange(pos, pos + 2)[1] == buf[pos + 1]);
    assert(e[0] == 0 && e[1] == num as i64);
}

/// What carrying the encoding of an internal node at `pos` pins down: the
/// tag, the two vectors, and that the children's encodings follow.
proof fn lemma_decodes_in(
    buf: Seq<i64>,
    pos: int,
    budget: int,
    dim: int,
    ext: int,
    left: Box<Node>,
    right: Box<Node>,
    n: Vec<i64>,
    p: Vec<i64>,
)
    requires
        decodes_to(buf, pos, budget, dim, ext, Node::In { left, right, n, p }),
    ensures
        buf[pos] == 1,
        pos + 1 + 2 * dim + 4 <= buf.len(),
        n@ == buf.subrange(pos + 1, pos + 1 + dim),
        p@ == buf.subrange(pos + 1 + dim, pos + 1 + 2 * dim),
        nonzero_count(buf.subrange(pos + 1, pos + 1 + dim)) == ext + 1,
        decodes_to(buf, pos + 1 + 2 * dim, budget - 1, dim, ext, *left),
        decodes_to(
            buf,
            pos + 1 + 2 * dim + spec_encode_node(*left).len(),
            budget - 1,
            dim,
            ext,
            *right,
        ),
        pos + spec_encode_node(Node::In { left, right, n, p }).len() == pos + 1 + 2 * dim
            + spec_encode_node(*left).len() + spec_encode_node(*right).len(),
{
    let t = Node::In { left, right, n, p };
    let e = spec_encode_node(t);
    let el = spec_encode_node(*left);
    let er = spec_encode_node(*right);
    lemma_encode_node_len(*left);
    lemma_encode_node_len(*right);
    assert(e.len() == 1 + 2 * dim + el.len() + er.len());
    assert(buf.subrange(pos, pos + e.len() as int)[0] == e[0]);
    assert(buf[pos] == 1);
    assert forall|q: int| 0 <= q < dim implies buf.subrange(pos + 1, pos + 1 + dim)[q] == n@[q] by {
        assert(buf.subrange(pos, pos + e.len() as int)[1 + q] == e[1 + q]);
    }
    assert(n@ =~= buf.subrange(pos + 1, pos + 1 + dim));
    assert forall|q: int|
        0 <= q < dim implies buf.subrange(pos + 1 + dim, pos + 1 + 2 * dim)[q] == p@[q] by {
        assert(buf.subrange(pos, pos + e.len() as int)[1 + dim + q] == e[1 + dim + q]);
    }
    assert(p@ =~= buf.subrange(pos + 1 + dim, pos + 1 + 2 * dim));
    assert forall|q: int|
        0 <= q < el.len() implies buf.subrange(
        pos + 1 + 2 * dim,
        pos + 1 + 2 * dim + el.len() as int,
    )[q] == el[q] by {
        assert(buf.subrange(pos, pos + e.len() as int)[1 + 2 * dim + q] == e[1 + 2 * dim + q]);
    }
    assert(el =~= buf.subrange(pos + 1 + 2 * dim, pos + 1 + 2 * dim + el.len() as int));
    assert forall|q: int|
        0 <= q < er.len() implies buf.subrange(
        pos + 1 + 2 * dim + el.len() as int,
        pos + 1 + 2 * dim + el.len() + er.len() as int,
    )[q] == er[q] by {
        assert(buf.subrange(pos, pos + e.len() as int)[1 + 2 * dim + el.len() + q] == e[1 + 2 * dim
            + el.len() + q]);
    }
    assert(er =~= buf.subrange(
        pos + 1 + 2 * dim + el.len() as int,
        pos + 1 + 2 * dim + el.len() + er.len() as int,
    ));
}

/// Writes one node after the current end of `out`.
fn encode_node(node: &Node, out: &mut Vec<i64>, Ghost(dim): Ghost<int>)
    requires
        node_wf(*node, dim),
    ensures
        final(out)@ == old(out)@ + spec_encode_node(*node),
    decreases *node,
{
    match node {
        Node::Ex { num_samples } => {
            out.push(0);
            out.push(*num_samples as i64);
            assert(out@ =~= old(out)@ + spec_encode_node(*node));
        },
        Node::In { left, right, n, p } => {
            let ghost mid0 = out@;
            out.push(1);
            let mut d: usize = 0;
            let dim_len = n.len();
            while d < dim_len
                invariant
                    d <= dim_len,
                    dim_len == n@.len(),
                    out@ == mid0 + seq![1i64] + n@.take(d as int),
                decreases dim_len - d,
            {
                proof {
                    assert((mid0 + seq![1i64] + n@.take(d as int)).push(n@[d as int]) =~= mid0
                        + seq![1i64] + n@.take(d as int + 1));
                }
                out.push(n[d]);
                d = d + 1;
            }
            proof {
                assert(n@.take(dim_len as int) =~= n@);
            }
            let ghost mid1 = out@;
            let mut d: usize = 0;
            let dim_len2 = p.len();
            while d < dim_len2
                invariant
                    d <= dim_len2,
                    dim_len2 == p@.len(),
                    out@ == mid1 + p@.take(d as int),
                decreases dim_len2 - d,
            {
                proof {
                    assert((mid1 + p@.take(d as int)).push(p@[d as int]) =~= mid1 + p@.take(
                        d as int + 1,
                    ));
                }
                out.push(p[d]);
                d = d + 1;
            }
            proof {
                assert(p@.take(dim_len2 as int) =~= p@);
            }
            encode_node(left, out, Ghost(dim));
            encode_node(right, out, Ghost(dim));
            assert(out@ =~= old(out)@ + spec_encode_node(*node));
        },
    }
}

impl Forest {
    /// Writes this forest to its persisted representation.
    pub fn encode(&self) -> (r: Vec<i64>)
        requires
            self.wf(),
        ensures
            r@ == spec_encode_forest(*self),
    {
        let mut out: Vec<i64> = Vec::new();
        out.push(self.dim as i64);
        out.push(self.extension_level as i64);
        out.push(self.avg_path_length_c as i64);
        out.push(self.trees.len() as i64);
        let ghost head = out@;
        proof {
            assert(head =~= seq![
                self.dim as i64,
                self.extension_level as i64,
                self.avg_path_length_c as i64,
                self.trees@.len() as i64,
            ]);
            assert(self.trees@.take(0) =~= Seq::<Tree>::empty());
            assert(head + spec_encode_trees(self.trees@.take(0)) =~= head);
        }
        let n_trees = self.trees.len();
        let mut k: usize = 0;
        while k < n_trees
            invariant
                k <= n_trees,
                n_trees == self.trees@.len(),
                self.wf(),
                head == seq![
                    self.dim as i64,
                    self.extension_level as i64,
                    self.avg_path_length_c as i64,
                    self.trees@.len() as i64,
                ],
                out@ == head + spec_encode_trees(self.trees@.take(k as int)),
            decreases n_trees - k,
        {
            proof {
                assert(self.trees@.take(k as int + 1).drop_last() =~= self.trees@.take(k as int));
                assert(self.trees@.take(k as int + 1).last() == self.trees@[k as int]);
            }
            encode_node(&self.trees[k].root, &mut out, Ghost(self.dim as int));
            proof {
                assert(out@ =~= head + spec_encode_trees(self.trees@.take(k as int + 1)));
            }
            k = k + 1;
        }
        proof {
            assert(self.trees@.take(n_trees as int) =~= self.trees@);
            assert(out@ =~= spec_encode_forest(*self));
        }
        out
    }

    /// Reads a forest back from its persisted representation. Every number
    /// read is checked, so whatever comes back is well formed; reading what
    /// [`Forest::encode`] wrote gives back an equivalent forest, which scores
    /// every point identically to the one encoded.
    pub fn decode(buf: &Vec<i64>) -> (r: Option<Forest>)
        ensures
            r matches Some(g) ==> g.wf(),
            forall|f: Forest|
                (#[trigger] spec_encode_forest(f) == buf@ && f.wf()) ==> (r matches Some(g)
                    && forest_equiv(g, f)),
    {
        if buf.len() < 4 {
            return None;
        }
        let d0 = buf[0];
        if d0 < 1 || d0 > DIM_CAP as i64 {
            return None;
        }
        let dim = d0 as usize;
        let e0 = buf[1];
        if e0 < 0 || e0 >= d0 {
            return None;
        }
        let ext = e0 as usize;
        let a0 = buf[2];
        if a0 < 0 || a0 > (2 * (SCALE * SCALE)) as i64 {
            return None;
        }
        let avg = a0 as u64;
        let t0 = buf[3];
        if t0 < 1 || t0 > ROW_CAP as i64 {
            return None;
        }
        let n_trees = t0 as usize;
        let mut trees: Vec<Tree> = Vec::new();
        let mut pos: usize = 4;
        let mut k: usize = 0;
        while k < n_trees
            invariant
                k <= n_trees,
                4 <= pos <= buf@.len(),
                trees@.len() == k,
                1 <= dim <= DIM_CAP,
                ext + 1 <= dim,
                n_trees <= ROW_CAP,
                buf@.len() >= 4,
                buf@[0] == dim as i64,
                buf@[1] == ext as i64,
                buf@[2] == avg as i64,
                buf@[3] == n_trees as i64,
                avg <= 2 * (SCALE * SCALE),
                1 <= n_trees,
                forall|q: int|
                    0 <= q < k ==> node_wf(#[trigger] trees@[q].root, dim as int) && node_ext_ok(
                        trees@[q].root,
                        ext as int + 1,
                    ) && node_height(trees@[q].root) <= DEPTH_CAP,
                forall|f: Forest|
                    (#[trigger] spec_encode_forest(f) == buf@ && f.wf() && f.dim == dim
                        && f.extension_level == ext && f.trees@.len() == n_trees) ==> pos == 4
                        + spec_encode_trees(f.trees@.take(k as int)).len() && forall|q: int|
                        0 <= q < k ==> node_equiv(#[trigger] trees@[q].root, f.trees@[q].root),
            decreases n_trees - k,
        {
            let step = decode_node(buf, pos, DEPTH_CAP, dim, ext);
            match step {
                None => {
                    proof {
                        assert forall|f: Forest|
                            !(#[trigger] spec_encode_forest(f) == buf@ && f.wf()) by {
                            if spec_encode_forest(f) == buf@ && f.wf() {
                                lemma_header_facts(buf@, f, dim as int, ext as int, n_trees as int);
                                lemma_tree_at(buf@, f, k as int, pos as int);
                            }
                        }
                    }
                    return None;
                },
                Some((node, npos)) => {
                    proof {
                        assert forall|f: Forest|
                            (#[trigger] spec_encode_forest(f) == buf@ && f.wf() && f.dim == dim
                                && f.extension_level == ext && f.trees@.len() == n_trees) implies (
                        npos == 4 + spec_encode_trees(f.trees@.take(k as int + 1)).len()
                            && node_equiv(node, f.trees@[k as int].root)) by {
                            lemma_header_facts(buf@, f, dim as int, ext as int, n_trees as int);
                            lemma_tree_at(buf@, f, k as int, pos as int);
                            assert(f.trees@.take(k as int + 1).drop_last() =~= f.trees@.take(
                                k as int,
                            ));
                            assert(f.trees@.take(k as int + 1).last() == f.trees@[k as int]);
                        }
                    }
                    trees.push(Tree { root: node });
                    pos = npos;
                    k = k + 1;
                },
            }
        }
        if pos != buf.len() {
            proof {
                assert forall|f: Forest| !(#[trigger] spec_encode_forest(f) == buf@ && f.wf()) by {
                    if spec_encode_forest(f) == buf@ && f.wf() {
                        lemma_header_facts(buf@, f, dim as int, ext as int, n_trees as int);
                        assert(f.trees@.take(n_trees as int) =~= f.trees@);
                    }
                }
            }
            return None;
        }
        let g = Forest { avg_path_length_c: avg, trees, dim, extension_level: ext };
        proof {
            assert forall|f: Forest|
                (#[trigger] spec_encode_forest(f) == buf@ && f.wf()) implies forest_equiv(g, f) by {
                lemma_header_facts(buf@, f, dim as int, ext as int, n_trees as int);
            }
        }
        Some(g)
    }
}

/// A forest whose encoding equals the input pins the header down.
proof fn lemma_header_facts(buf: Seq<i64>, f: Forest, dim: int, ext: int, n_trees: int)
    requires
        spec_encode_forest(f) == buf,
        f.wf(),
        buf.len() >= 4,
        buf[0] == dim,
        buf[1] == ext,
        buf[3] == n_trees,
    ensures
        f.dim == dim,
        f.extension_level == ext,
        f.trees@.len() == n_trees,
        f.avg_path_length_c == buf[2],
{
    assert(spec_encode_forest(f)[0] == f.dim as i64);
    assert(spec_encode_forest(f)[1] == f.extension_level as i64);
    assert(spec_encode_forest(f)[2] == f.avg_path_length_c as i64);
    assert(spec_encode_forest(f)[3] == f.trees@.len() as i64);
}

/// In a full forest encoding, tree `k` decodes at its position.
proof fn lemma_tree_at(buf: Seq<i64>, f: Forest, k: int, pos: int)
    requires
        spec_encode_forest(f) == buf,
        f.wf(),
        0 <= k < f.trees@.len(),
        pos == 4 + spec_encode_trees(f.trees@.take(k)).len(),
    ensures
        decodes_to(
            buf,
            pos,
            DEPTH_CAP as int,
            f.dim as int,
            f.extension_level as int,
            f.trees@[k].root,
        ),
        pos + spec_encode_node(f.trees@[k].root).len() == 4 + spec_encode_trees(
            f.trees@.take(k + 1),
        ).len(),
{
    let ts = f.trees@;
    let e = spec_encode_node(ts[k].root);
    lemma_encode_trees_split(ts, k);
    assert(spec_encode_rest(ts, k) == e + spec_encode_rest(ts, k + 1));
    assert forall|i: int| 0 <= i < e.len() implies buf[pos + i] == e[i] by {
        assert(buf[pos + i] == spec_encode_forest(f)[pos + i]);
    }
    assert(buf.subrange(pos, pos + e.len() as int) =~= e);
    lemma_encode_trees_split(ts, k + 1);
    assert(ts.take(k + 1).drop_last() =~= ts.take(k));
    assert(ts.take(k + 1).last() == ts[k]);
}

/// Reads one node starting at `pos`.
fn decode_node(buf: &Vec<i64>, pos: usize, budget: u64, dim: usize, ext: usize) -> (r: Option<
    (Node, usize),
>)
    requires
        pos <= buf@.len(),
        1 <= dim <= DIM_CAP,
        ext + 1 <= dim,
        budget <= DEPTH_CAP,
    ensures
        r matches Some(pr) ==> node_wf(pr.0, dim as int) && node_ext_ok(pr.0, ext as int + 1)
            && node_height(pr.0) <= budget && pos < pr.1 <= buf@.len(),
        forall|t: Node|
            #![trigger spec_encode_node(t)]
            decodes_to(buf@, pos as int, budget as int, dim as int, ext as int, t) ==> (r matches
            Some(pr) && node_equiv(pr.0, t) && pr.1 == pos + spec_encode_node(t).len()),
    decreases buf@.len() - pos,
{
    let len = buf.len();
    if pos >= len {
        proof {
            assert forall|t: Node| #![trigger spec_encode_node(t)]
                !decodes_to(buf@, pos as int, budget as int, dim as int, ext as int, t) by {
                if decodes_to(buf@, pos as int, budget as int, dim as int, ext as int, t) {
                    candidate_parts(buf@, pos as int, budget as int, dim as int, ext as int, t);
                }
            }
        }
        return None;
    }
    let tag = buf[pos];
    if tag == 0 {
        if pos + 1 >= len {
            proof {
                assert forall|t: Node| #![trigger spec_encode_node(t)]
                    !decodes_to(buf@, pos as int, budget as int, dim as int, ext as int, t) by {
                    if decodes_to(buf@, pos as int, budget as int, dim as int, ext as int, t) {
                        candidate_parts(buf@, pos as int, budget as int, dim as int, ext as int, t);
                    }
                }
            }
            return None;
        }
        let kv = buf[pos + 1];
        if kv < 0 || kv > ROW_CAP as i64 {
            proof {
                assert forall|t: Node| #![trigger spec_encode_node(t)]
                    !decodes_to(buf@, pos as int, budget as int, dim as int, ext as int, t) by {
                    if decodes_to(buf@, pos as int, budget as int, dim as int, ext as int, t) {
                        candidate_parts(buf@, pos as int, budget as int, dim as int, ext as int, t);
                    }
                }
            }
            return None;
        }
        let node = Node::Ex { num_samples: kv as usize };
        proof {
            assert forall|t: Node| #![trigger spec_encode_node(t)]
                decodes_to(
                    buf@,
                    pos as int,
                    budget as int,
                    dim as int,
                    ext as int,
                    t,
                ) implies (node_equiv(node, t) && pos + 2 == pos + spec_encode_node(t).len()) by {
                candidate_parts(buf@, pos as int, budget as int, dim as int, ext as int, t);
            }
        }
        return Some((node, pos + 2));
    }
    if tag != 1 {
        proof {
            assert forall|t: Node| #![trigger spec_encode_node(t)]
                !decodes_to(buf@, pos as int, budget as int, dim as int, ext as int, t) by {
                if decodes_to(buf@, pos as int, budget as int, dim as int, ext as int, t) {
                    candidate_parts(buf@, pos as int, budget as int, dim as int, ext as int, t);
                }
            }
        }
        return None;
    }
    if budget == 0 {
        proof {
            assert forall|t: Node| #![trigger spec_encode_node(t)]
                !decodes_to(buf@, pos as int, budget as int, dim as int, ext as int, t) by {
                if decodes_to(buf@, pos as int, budget as int, dim as int, ext as int, t) {
                    candidate_parts(buf@, pos as int, budget as int, dim as int, ext as int, t);
                }
            }
        }
        return None;
    }
    let rem = len - pos - 1;
    if rem < dim || rem - dim < dim {
        proof {
            assert forall|t: Node| #![trigger spec_encode_node(t)]
                !decodes_to(buf@, pos as int, budget as int, dim as int, ext as int, t) by {
                if decodes_to(buf@, pos as int, budget as int, dim as int, ext as int, t) {
                    candidate_parts(buf@, pos as int, budget as int, dim as int, ext as int, t);
                }
            }
        }
        return None;
    }
    // the normal vector
    let mut nv: Vec<i64> = Vec::new();
    let mut d: usize = 0;
    while d < dim
        invariant
            d <= dim,
            pos + 1 + 2 * dim <= len,
            len == buf@.len(),
            budget <= DEPTH_CAP,
            1 <= dim <= DIM_CAP,
            ext + 1 <= dim,
            buf@[pos as int] == 1,
            nv@.len() == d,
            forall|q: int| 0 <= q < d ==> #[trigger] nv@[q] == buf@[pos + 1 + q],
            forall|q: int|
                0 <= q < d ==> -(NORMAL_BOUND as int) <= #[trigger] nv@[q] <= NORMAL_BOUND as int,
        decreases dim - d,
    {
        let v = buf[pos + 1 + d];
        if v < -NORMAL_BOUND || v > NORMAL_BOUND {
            proof {
                assert forall|t: Node| #![trigger spec_encode_node(t)]
                    !decodes_to(buf@, pos as int, budget as int, dim as int, ext as int, t) by {
                    if decodes_to(buf@, pos as int, budget as int, dim as int, ext as int, t) {
                        candidate_parts(buf@, pos as int, budget as int, dim as int, ext as int, t);
                        assert(t is In);
                        assert(buf@.subrange(pos + 1, pos + 1 + dim as int)[d as int] == buf@[pos
                            + 1 + d]);
                        assert(node_n_view(t)[d as int] == buf@[pos as int + 1 + d as int]);
                    }
                }
            }
            return None;
        }
        nv.push(v);
        d = d + 1;
    }
    proof {
        assert(nv@ =~= buf@.subrange(pos as int + 1, pos as int + 1 + dim as int));
    }
    // the extension-level rule
    let mut cnt: usize = 0;
    let mut d: usize = 0;
    while d < dim
        invariant
            d <= dim,
            pos + 1 + 2 * dim <= len,
            len == buf@.len(),
            budget <= DEPTH_CAP,
            1 <= dim <= DIM_CAP,
            ext + 1 <= dim,
            buf@[pos as int] == 1,
            nv@ == buf@.subrange(pos as int + 1, pos as int + 1 + dim as int),
            nv@.len() == dim,
            cnt == nonzero_count(nv@.take(d as int)),
            cnt <= d,
        decreases dim - d,
    {
        proof {
            assert(nv@.take(d as int + 1).drop_last() =~= nv@.take(d as int));
        }
        if nv[d] != 0 {
            cnt = cnt + 1;
        }
        d = d + 1;
    }
    proof {
        assert(nv@.take(dim as int) =~= nv@);
    }
    if cnt != ext + 1 {
        proof {
            assert forall|t: Node| #![trigger spec_encode_node(t)]
                !decodes_to(buf@, pos as int, budget as int, dim as int, ext as int, t) by {
                if decodes_to(buf@, pos as int, budget as int, dim as int, ext as int, t) {
                    candidate_parts(buf@, pos as int, budget as int, dim as int, ext as int, t);
                }
            }
        }
        return None;
    }
    // the intercept point
    let mut pv: Vec<i64> = Vec::new();
    let mut d: usize = 0;
    while d < dim
        invariant
            d <= dim,
            pos + 1 + 2 * dim <= len,
            len == buf@.len(),
            budget <= DEPTH_CAP,
            1 <= dim <= DIM_CAP,
            ext + 1 <= dim,
            buf@[pos as int] == 1,
            nv@ == buf@.subrange(pos as int + 1, pos as int + 1 + dim as int),
            nv@.len() == dim,
            nonzero_count(nv@) == ext + 1,
            pv@.len() == d,
            forall|q: int| 0 <= q < d ==> #[trigger] pv@[q] == buf@[pos + 1 + dim + q],
            forall|q: int|
                0 <= q < d ==> -(COORD_BOUND as int) <= #[trigger] pv@[q] <= COORD_BOUND as int,
        decreases dim - d,
    {
        let v = buf[pos + 1 + dim + d];
        if v < -COORD_BOUND || v > COORD_BOUND {
            proof {
                assert forall|t: Node| #![trigger spec_encode_node(t)]
                    !decodes_to(buf@, pos as int, budget as int, dim as int, ext as int, t) by {
                    if decodes_to(buf@, pos as int, budget as int, dim as int, ext as int, t) {
                        candidate_parts(buf@, pos as int, budget as int, dim as int, ext as int, t);
                        assert(t is In);
                        assert(buf@.subrange(
                            pos + 1 + dim as int,
                            pos + 1 + 2 * dim as int,
                        )[d as int] == buf@[pos + 1 + dim + d]);
                        assert(node_p_view(t)[d as int] == buf@[pos as int + 1 + dim as int
                            + d as int]);
                    }
                }
            }
            return None;
        }
        pv.push(v);
        d = d + 1;
    }
    proof {
        assert(pv@ =~= buf@.subrange(
            pos as int + 1 + dim as int,
            pos as int + 1 + 2 * dim as int,
        ));
    }
    let child_pos = pos + 1 + dim + dim;
    let left_step = decode_node(buf, child_pos, budget - 1, dim, ext);
    let (lnode, lpos) = match left_step {
        None => {
            proof {
                assert forall|t: Node| #![trigger spec_encode_node(t)]
                    !decodes_to(buf@, pos as int, budget as int, dim as int, ext as int, t) by {
                    if decodes_to(buf@, pos as int, budget as int, dim as int, ext as int, t) {
                        candidate_parts(buf@, pos as int, budget as int, dim as int, ext as int, t);
                        assert(decodes_to(
                            buf@,
                            child_pos as int,
                            budget as int - 1,
                            dim as int,
                            ext as int,
                            *node_left(t),
                        ));
                    }
                }
            }
            return None;
        },
        Some(pr) => pr,
    };
    let right_step = decode_node(buf, lpos, budget - 1, dim, ext);
    let (rnode, rpos) = match right_step {
        None => {
            proof {
                assert forall|t: Node| #![trigger spec_encode_node(t)]
                    !decodes_to(buf@, pos as int, budget as int, dim as int, ext as int, t) by {
                    if decodes_to(buf@, pos as int, budget as int, dim as int, ext as int, t) {
                        candidate_parts(buf@, pos as int, budget as int, dim as int, ext as int, t);
                        assert(decodes_to(
                            buf@,
                            child_pos as int,
                            budget as int - 1,
                            dim as int,
                            ext as int,
                            *node_left(t),
                        ));
                        assert(lpos == child_pos + spec_encode_node(*node_left(t)).len());
                        assert(decodes_to(
                            buf@,
                            lpos as int,
                            budget as int - 1,
                            dim as int,
                            ext as int,
                            *node_right(t),
                        ));
                    }
                }
            }
            return None;
        },
        Some(pr) => pr,
    };
    let node = Node::In { left: Box::new(lnode), right: Box::new(rnode), n: nv, p: pv };
    proof {
        assert forall|t: Node| #![trigger spec_encode_node(t)]
            decodes_to(buf@, pos as int, budget as int, dim as int, ext as int, t) implies (
        node_equiv(node, t) && rpos == pos + spec_encode_node(t).len()) by {
            candidate_parts(buf@, pos as int, budget as int, dim as int, ext as int, t);
            assert(t is In);
            assert(decodes_to(
                buf@,
                child_pos as int,
                budget as int - 1,
                dim as int,
                ext as int,
                *node_left(t),
            ));
            assert(node_equiv(lnode, *node_left(t)));
            assert(lpos == child_pos + spec_encode_node(*node_left(t)).len());
            assert(decodes_to(
                buf@,
                lpos as int,
                budget as int - 1,
                dim as int,
                ext as int,
                *node_right(t),
            ));
            assert(node_equiv(rnode, *node_right(t)));
            assert(rpos == lpos + spec_encode_node(*node_right(t)).len());
        }
    }
    Some((node, rpos))
}

/// The left child of an internal node.
spec fn node_left(t: Node) -> Box<Node> {
    match t {
        Node::In { left, .. } => left,
        Node::Ex { num_samples } => Box::new(Node::Ex { num_samples }),
    }
}

/// The right child of an internal node.
spec fn node_right(t: Node) -> Box<Node> {
    match t {
        Node::In { right, .. } => right,
        Node::Ex { num_samples } => Box::new(Node::Ex { num_samples }),
    }
}

/// The normal vector of an internal node.
spec fn node_n_view(t: Node) -> Seq<i64> {
    match t {
        Node::In { n, .. } => n@,
        Node::Ex { .. } => Seq::empty(),
    }
}

/// The intercept point of an internal node.
spec fn node_p_view(t: Node) -> Seq<i64> {
    match t {
        Node::In { p, .. } => p@,
        Node::Ex { .. } => Seq::empty(),
    }
}

/// The leaf count of an external node.
spec fn node_num(t: Node) -> usize {
    match t {
        Node::Ex { num_samples } => num_samples,
        Node::In { .. } => 0,
    }
}

/// Unfolds what a candidate node pins down about the input, by its shape.
proof fn candidate_parts(buf: Seq<i64>, pos: int, budget: int, dim: int, ext: int, t: Node)
    requires
        decodes_to(buf, pos, budget, dim, ext, t),
    ensures
        t is Ex ==> pos + 2 <= buf.len() && buf[pos] == 0 && spec_encode_node(t).len() == 2
            && buf[pos + 1] == node_num(t) as i64 && node_num(t) <= ROW_CAP,
        t is In ==> buf[pos] == 1 && budget >= 1 && pos + 1 + 2 * dim + 4 <= buf.len()
            && node_n_view(t) == buf.subrange(pos + 1, pos + 1 + dim) && node_p_view(t)
            == buf.subrange(pos + 1 + dim, pos + 1 + 2 * dim) && nonzero_count(
            buf.subrange(pos + 1, pos + 1 + dim),
        ) == ext + 1 && decodes_to(buf, pos + 1 + 2 * dim, budget - 1, dim, ext, *node_left(t))
            && decodes_to(
            buf,
            pos + 1 + 2 * dim + spec_encode_node(*node_left(t)).len(),
            budget - 1,
            dim,
            ext,
            *node_right(t),
        ) && pos + spec_encode_node(t).len() == pos + 1 + 2 * dim + spec_encode_node(
            *node_left(t),
        ).len() + spec_encode_node(*node_right(t)).len(),
{
    match t {
        Node::Ex { num_samples } => {
            lemma_decodes_ex(buf, pos, budget, dim, ext, num_samples);
        },
        Node::In { left, right, n, p } => {
            lemma_decodes_in(buf, pos, budget, dim, ext, left, right, n, p);
        },
    }
}

} // verus!
