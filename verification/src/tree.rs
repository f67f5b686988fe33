//! A randomized binary partition tree over a subsample of the training data.
//!
//! Construction draws a random hyperplane at every internal node: an intercept
//! point uniform inside the bounding box of the points that reached the node,
//! and a normal vector with standard-normal coordinates, all but
//! `extension_level + 1` of which are then forced to zero. The points are
//! split by the side of the hyperplane they fall on, and the two sides are
//! built recursively until the depth limit is reached or at most one point
//! remains.

use vstd::prelude::*;

use crate::cfactor::spec_c_factor;
use crate::c_factor;
use crate::rng::rand_range_i64;
use crate::rng::sample_indices;
use crate::COORD_BOUND;
use crate::DEPTH_CAP;
use crate::DIM_CAP;
use crate::NORMAL_BOUND;
use crate::ROW_CAP;
use crate::SCALE;
use crate::SCALE_I;

verus! {

/// The side of a hyperplane a point falls on.
pub enum Direction {
    Left,
    Right,
}

/// One node of a tree: either a leaf holding the number of points that
/// reached it, or an internal node holding a hyperplane and two children.
pub enum Node {
    Ex { num_samples: usize },
    In { left: Box<Node>, right: Box<Node>, n: Vec<i64>, p: Vec<i64> },
}

/// A randomized binary partition tree.
pub struct Tree {
    pub root: Node,
}

/// The views of a sequence of rows.
pub open spec fn views_of(rows: Seq<Vec<i64>>) -> Seq<Seq<i64>> {
    Seq::new(rows.len(), |i: int| rows[i]@)
}

/// Every coordinate of `s` has magnitude at most `b`.
pub open spec fn coords_bounded(s: Seq<i64>, b: int) -> bool {
    forall|j: int| 0 <= j < s.len() ==> -b <= #[trigger] s[j] <= b
}

/// Every row has length `dim` and bounded coordinates.
pub open spec fn rows_ok(dv: Seq<Seq<i64>>, dim: int) -> bool {
    forall|i: int| 0 <= i < dv.len() ==> (#[trigger] dv[i]).len() == dim && coords_bounded(
        dv[i],
        COORD_BOUND as int,
    )
}

/// The dot product of the first `k` coordinates of `(s - p)` with `n`.
pub open spec fn spec_dot_prefix(s: Seq<i64>, n: Seq<i64>, p: Seq<i64>, k: int) -> int
    decreases k,
{
    if k <= 0 {
        0
    } else {
        spec_dot_prefix(s, n, p, k - 1) + (s[k - 1] - p[k - 1]) * n[k - 1]
    }
}

/// The direction test: a point goes left when `(s - p) . n <= 0`.
pub open spec fn spec_goes_left(s: Seq<i64>, n: Seq<i64>, p: Seq<i64>) -> bool {
    spec_dot_prefix(s, n, p, n.len() as int) <= 0
}

/// The indices of `idxs` whose rows fall on the left of the hyperplane.
pub open spec fn left_split(dv: Seq<Seq<i64>>, idxs: Seq<usize>, n: Seq<i64>, p: Seq<i64>) -> Seq<
    usize,
> {
    idxs.filter(|i: usize| spec_goes_left(dv[i as int], n, p))
}

/// The indices of `idxs` whose rows fall on the right of the hyperplane.
pub open spec fn right_split(dv: Seq<Seq<i64>>, idxs: Seq<usize>, n: Seq<i64>, p: Seq<i64>) -> Seq<
    usize,
> {
    idxs.filter(|i: usize| !spec_goes_left(dv[i as int], n, p))
}

/// Every coordinate of the intercept point `p` lies between some two values
/// that the rows picked by `idxs` take in that coordinate: the point was
/// drawn inside the bounding box of the rows.
pub open spec fn in_envelope(p: Seq<i64>, dv: Seq<Seq<i64>>, idxs: Seq<usize>) -> bool {
    forall|d: int|
        #![trigger p[d]]
        0 <= d < p.len() ==> ((exists|j: int|
            #![trigger idxs[j]]
            0 <= j < idxs.len() && dv[idxs[j] as int][d] <= p[d]) && (exists|j: int|
            #![trigger idxs[j]]
            0 <= j < idxs.len() && p[d] <= dv[idxs[j] as int][d]))
}

/// How many coordinates of `s` are non-zero.
pub open spec fn nonzero_count(s: Seq<i64>) -> nat
    decreases s.len(),
{
    if s.len() == 0 {
        0
    } else {
        nonzero_count(s.drop_last()) + if s.last() != 0 {
            1nat
        } else {
            0nat
        }
    }
}

/// A hyperplane normal vector is in range and has exactly `nz` non-zero
/// coordinates.
pub open spec fn normal_ok(nv: Seq<i64>, nz: int) -> bool {
    coords_bounded(nv, NORMAL_BOUND as int) && nonzero_count(nv) == nz
}

/// The tree that construction builds from the rows `dv` picked out by `idxs`,
/// with `budget` levels left to spend: a leaf records how many rows reached
/// it and appears only when the budget or the rows run out; an internal node
/// carries a well-formed hyperplane, and its children are built from the two
/// sides of the split that hyperplane makes — no row is lost or duplicated.
pub open spec fn shaped(
    node: Node,
    dv: Seq<Seq<i64>>,
    idxs: Seq<usize>,
    budget: nat,
    ext: int,
    dim: int,
) -> bool
    decreases node,
{
    match node {
        Node::Ex { num_samples } => num_samples == idxs.len() && (budget == 0 || idxs.len() <= 1),
        Node::In { left, right, n, p } => budget >= 1 && idxs.len() >= 2 && n@.len() == dim
            && p@.len() == dim && normal_ok(n@, ext + 1) && coords_bounded(p@, COORD_BOUND as int)
            && in_envelope(p@, dv, idxs) && shaped(
            *left,
            dv,
            left_split(dv, idxs, n@, p@),
            (budget - 1) as nat,
            ext,
            dim,
        ) && shaped(*right, dv, right_split(dv, idxs, n@, p@), (budget - 1) as nat, ext, dim),
    }
}

/// Structural well-formedness of a node against a fixed dimension: the data
/// needed to walk the tree safely with a query point of that dimension.
pub open spec fn node_wf(node: Node, dim: int) -> bool
    decreases node,
{
    match node {
        Node::Ex { num_samples } => num_samples <= ROW_CAP,
        Node::In { left, right, n, p } => n@.len() == dim && p@.len() == dim && coords_bounded(
            n@,
            NORMAL_BOUND as int,
        ) && coords_bounded(p@, COORD_BOUND as int) && node_wf(*left, dim) && node_wf(*right, dim),
    }
}

/// Every internal node's normal vector has exactly `nz` non-zero coordinates.
pub open spec fn node_ext_ok(node: Node, nz: int) -> bool
    decreases node,
{
    match node {
        Node::Ex { .. } => true,
        Node::In { left, right, n, .. } => nonzero_count(n@) == nz && node_ext_ok(*left, nz)
            && node_ext_ok(*right, nz),
    }
}

/// The height of a node: edges on the longest path to a leaf.
pub open spec fn node_height(node: Node) -> nat
    decreases node,
{
    match node {
        Node::Ex { .. } => 0,
        Node::In { left, right, .. } => 1 + if node_height(*left) >= node_height(*right) {
            node_height(*left)
        } else {
            node_height(*right)
        },
    }
}

/// The number of training points recorded at the leaves of a node.
pub open spec fn tree_size(node: Node) -> nat
    decreases node,
{
    match node {
        Node::Ex { num_samples } => num_samples as nat,
        Node::In { left, right, .. } => tree_size(*left) + tree_size(*right),
    }
}

/// The fixed-point path length a query point `vs` reaches in a node: one
/// whole unit per edge walked, plus the c-factor of the leaf it ends at.
pub open spec fn spec_path_length(node: Node, vs: Seq<i64>) -> int
    decreases node,
{
    match node {
        Node::Ex { num_samples } => spec_c_factor(num_samples as int),
        Node::In { left, right, n, p } => SCALE as int + if spec_goes_left(vs, n@, p@) {
            spec_path_length(*left, vs)
        } else {
            spec_path_length(*right, vs)
        },
    }
}

/// The product of two numbers is bounded by the product of their bounds.
proof fn lemma_abs_mul_le(a: int, b: int, ab: int, bb: int)
    by (nonlinear_arith)
    requires
        -ab <= a <= ab,
        -bb <= b <= bb,
    ensures
        -(ab * bb) <= a * b <= ab * bb,
{
}

/// Multiplying both sides of an inequality by a non-negative number.
pub(crate) proof fn lemma_mul_le(a: int, b: int, c: int)
    by (nonlinear_arith)
    requires
        a <= b,
        0 <= c,
    ensures
        a * c <= b * c,
{
}

/// One more multiplicand adds one more term.
pub(crate) proof fn lemma_mul_succ(d: int, t: int)
    by (nonlinear_arith)
    ensures
        (d + 1) * t == d * t + t,
{
}

/// One accumulation step of a dot product stays inside the running bound.
proof fn lemma_acc_step(acc: int, term: int, d: int, tb: int, cap: int)
    by (nonlinear_arith)
    requires
        -(d * tb) <= acc <= d * tb,
        -tb <= term <= tb,
        0 <= tb,
        d + 1 <= cap,
    ensures
        -((d + 1) * tb) <= acc + term <= (d + 1) * tb,
        -(cap * tb) <= acc + term <= cap * tb,
{
}

/// Splitting a sequence extended by one index extends the matching side.
proof fn lemma_left_split_push(dv: Seq<Seq<i64>>, s: Seq<usize>, x: usize, n: Seq<i64>, p: Seq<i64>)
    ensures
        left_split(dv, s.push(x), n, p) == if spec_goes_left(dv[x as int], n, p) {
            left_split(dv, s, n, p).push(x)
        } else {
            left_split(dv, s, n, p)
        },
{
    reveal(Seq::filter);
    assert(s.push(x).drop_last() =~= s);
}

/// Splitting a sequence extended by one index extends the matching side.
proof fn lemma_right_split_push(
    dv: Seq<Seq<i64>>,
    s: Seq<usize>,
    x: usize,
    n: Seq<i64>,
    p: Seq<i64>,
)
    ensures
        right_split(dv, s.push(x), n, p) == if !spec_goes_left(dv[x as int], n, p) {
            right_split(dv, s, n, p).push(x)
        } else {
            right_split(dv, s, n, p)
        },
{
    reveal(Seq::filter);
    assert(s.push(x).drop_last() =~= s);
}

/// The two sides of a split partition the indices: no index is lost or
/// duplicated.
pub proof fn lemma_split_sizes(dv: Seq<Seq<i64>>, idxs: Seq<usize>, n: Seq<i64>, p: Seq<i64>)
    ensures
        left_split(dv, idxs, n, p).len() + right_split(dv, idxs, n, p).len() == idxs.len(),
    decreases idxs.len(),
{
    if idxs.len() == 0 {
        reveal(Seq::filter);
    } else {
        let prefix = idxs.drop_last();
        lemma_split_sizes(dv, prefix, n, p);
        lemma_left_split_push(dv, prefix, idxs.last(), n, p);
        lemma_right_split_push(dv, prefix, idxs.last(), n, p);
        assert(prefix.push(idxs.last()) =~= idxs);
    }
}

/// What construction guarantees implies the structural facts a built tree is
/// used with: well-formedness, the depth bound, the extension-level rule on
/// every normal vector, and that the leaves account for every row exactly
/// once.
pub proof fn lemma_shaped_props(
    node: Node,
    dv: Seq<Seq<i64>>,
    idxs: Seq<usize>,
    budget: nat,
    ext: int,
    dim: int,
)
    requires
        shaped(node, dv, idxs, budget, ext, dim),
        idxs.len() <= ROW_CAP,
    ensures
        node_wf(node, dim),
        node_height(node) <= budget,
        node_ext_ok(node, ext + 1),
        tree_size(node) == idxs.len(),
    decreases node,
{
    match node {
        Node::Ex { .. } => {
        },
        Node::In { left, right, n, p } => {
            lemma_split_sizes(dv, idxs, n@, p@);
            Seq::lemma_filter_len(idxs, |i: usize| spec_goes_left(dv[i as int], n@, p@));
            Seq::lemma_filter_len(idxs, |i: usize| !spec_goes_left(dv[i as int], n@, p@));
            lemma_shaped_props(
                *left,
                dv,
                left_split(dv, idxs, n@, p@),
                (budget - 1) as nat,
                ext,
                dim,
            );
            lemma_shaped_props(
                *right,
                dv,
                right_split(dv, idxs, n@, p@),
                (budget - 1) as nat,
                ext,
                dim,
            );
        },
    }
}

/// Determines which side of the hyperplane `(n, p)` the point `sample` falls
/// on, by the sign of the dot product of `sample - p` with `n`.
pub fn determinate_direction(sample: &Vec<i64>, n: &Vec<i64>, p: &Vec<i64>) -> (r: Direction)
    requires
        n@.len() == sample@.len(),
        p@.len() == sample@.len(),
        sample@.len() <= DIM_CAP,
        coords_bounded(sample@, COORD_BOUND as int),
        coords_bounded(p@, COORD_BOUND as int),
        coords_bounded(n@, NORMAL_BOUND as int),
    ensures
        r is Left <==> spec_goes_left(sample@, n@, p@),
{
    let dim = sample.len();
    let mut acc: i128 = 0;
    let mut d: usize = 0;
    while d < dim
        invariant
            d <= dim,
            dim == sample@.len(),
            n@.len() == dim,
            p@.len() == dim,
            dim <= DIM_CAP,
            coords_bounded(sample@, COORD_BOUND as int),
            coords_bounded(p@, COORD_BOUND as int),
            coords_bounded(n@, NORMAL_BOUND as int),
            acc == spec_dot_prefix(sample@, n@, p@, d as int),
            -((d as int) * (2 * COORD_BOUND as int * NORMAL_BOUND as int)) <= acc <= (d as int) * (
            2 * COORD_BOUND as int * NORMAL_BOUND as int),
        decreases dim - d,
    {
        proof {
            let tb = 2 * COORD_BOUND as int * NORMAL_BOUND as int;
            lemma_abs_mul_le(
                sample@[d as int] - p@[d as int],
                n@[d as int] as int,
                2 * COORD_BOUND as int,
                NORMAL_BOUND as int,
            );
            lemma_acc_step(
                acc as int,
                (sample@[d as int] - p@[d as int]) * (n@[d as int] as int),
                d as int,
                tb,
                DIM_CAP as int,
            );
        }
        let diff: i128 = sample[d] as i128 - p[d] as i128;
        let term: i128 = diff * (n[d] as i128);
        acc = acc + term;
        d = d + 1;
    }
    if acc <= 0 {
        Direction::Left
    } else {
        Direction::Right
    }
}

/// Draws one fixed-point coordinate of a hyperplane normal vector: the sum of
/// twelve uniform draws, centered, approximates a standard normal. A draw of
/// exactly zero is moved to the smallest positive value so that the chosen
/// coordinates of the normal vector are never zero.
fn sample_normal_fp(rng: &mut rand::rngs::StdRng) -> (r: i64)
    ensures
        -NORMAL_BOUND <= r <= NORMAL_BOUND,
        r != 0,
{
    let mut acc: i64 = 0;
    let mut j: usize = 0;
    while j < 12
        invariant
            j <= 12,
            0 <= acc <= 65535 * j,
        decreases 12 - j,
    {
        let draw = rand_range_i64(rng, 0, SCALE_I - 1);
        acc = acc + draw;
        j = j + 1;
    }
    let v = acc - 6 * SCALE_I;
    if v == 0 {
        1
    } else {
        v
    }
}

/// Setting a non-zero coordinate to zero lowers the non-zero count by one.
proof fn lemma_nonzero_count_update_zero(s: Seq<i64>, i: int)
    requires
        0 <= i < s.len(),
        s[i] != 0,
    ensures
        nonzero_count(s.update(i, 0)) == nonzero_count(s) - 1,
    decreases s.len(),
{
    let t = s.update(i, 0);
    if i == s.len() - 1 {
        assert(t.drop_last() =~= s.drop_last());
    } else {
        assert(t.drop_last() =~= s.drop_last().update(i, 0));
        lemma_nonzero_count_update_zero(s.drop_last(), i);
    }
}

/// A sequence with no zero coordinate has full non-zero count.
proof fn lemma_nonzero_count_full(s: Seq<i64>)
    requires
        forall|j: int| 0 <= j < s.len() ==> #[trigger] s[j] != 0,
    ensures
        nonzero_count(s) == s.len(),
    decreases s.len(),
{
    if s.len() > 0 {
        lemma_nonzero_count_full(s.drop_last());
    }
}

/// Builds one node of a tree from the rows of `data` picked out by `idxs`.
fn make_tree(
    data: &Vec<Vec<i64>>,
    idxs: Vec<usize>,
    rng: &mut rand::rngs::StdRng,
    depth: usize,
    max_depth: usize,
    extension_level: usize,
    dim: usize,
) -> (node: Node)
    requires
        depth <= max_depth,
        max_depth as u64 <= DEPTH_CAP,
        1 <= dim,
        dim as u64 <= DIM_CAP,
        extension_level + 1 <= dim,
        rows_ok(views_of(data@), dim as int),
        idxs@.len() <= ROW_CAP,
        forall|j: int| 0 <= j < idxs@.len() ==> #[trigger] idxs@[j] < data@.len(),
    ensures
        shaped(
            node,
            views_of(data@),
            idxs@,
            (max_depth - depth) as nat,
            extension_level as int,
            dim as int,
        ),
    decreases max_depth - depth,
{
    let ghost dv = views_of(data@);
    let num = idxs.len();
    if depth >= max_depth || num <= 1 {
        return Node::Ex { num_samples: num };
    }
    // bounding box of the rows that reached this node
    let first_row: &Vec<i64> = &data[idxs[0]];
    proof {
        assert(idxs@[0] < data@.len());
        assert(first_row@ == dv[idxs@[0] as int]);
        assert(dv[idxs@[0] as int].len() == dim && coords_bounded(
            dv[idxs@[0] as int],
            COORD_BOUND as int,
        ));
    }
    let mut mins: Vec<i64> = Vec::new();
    let mut maxs: Vec<i64> = Vec::new();
    let mut d: usize = 0;
    while d < dim
        invariant
            d <= dim,
            mins@.len() == d,
            maxs@.len() == d,
            first_row@.len() == dim,
            coords_bounded(first_row@, COORD_BOUND as int),
            forall|e: int|
                0 <= e < d ==> #[trigger] mins@[e] == first_row@[e] && maxs@[e] == first_row@[e],
            forall|e: int|
                0 <= e < d ==> -(COORD_BOUND as int) <= #[trigger] mins@[e] <= maxs@[e]
                    <= COORD_BOUND as int,
        decreases dim - d,
    {
        mins.push(first_row[d]);
        maxs.push(first_row[d]);
        d = d + 1;
    }
    proof {
        assert forall|e: int|
            #![trigger mins@[e]]
            0 <= e < dim implies exists|jj: int|
            #![trigger idxs@[jj]]
            0 <= jj < num && dv[idxs@[jj] as int][e] == mins@[e] by {
            assert(0 <= 0 < num && dv[idxs@[0] as int][e] == mins@[e]);
        }
        assert forall|e: int|
            #![trigger maxs@[e]]
            0 <= e < dim implies exists|jj: int|
            #![trigger idxs@[jj]]
            0 <= jj < num && dv[idxs@[jj] as int][e] == maxs@[e] by {
            assert(mins@[e] == first_row@[e]);
            assert(0 <= 0 < num && dv[idxs@[0] as int][e] == maxs@[e]);
        }
    }
    let mut j: usize = 1;
    while j < num
        invariant
            1 <= j <= num,
            num == idxs@.len(),
            mins@.len() == dim,
            maxs@.len() == dim,
            rows_ok(dv, dim as int),
            dv == views_of(data@),
            forall|q: int| 0 <= q < idxs@.len() ==> #[trigger] idxs@[q] < data@.len(),
            forall|e: int|
                0 <= e < dim ==> -(COORD_BOUND as int) <= #[trigger] mins@[e] <= maxs@[e]
                    <= COORD_BOUND as int,
            forall|e: int|
                #![trigger mins@[e]]
                0 <= e < dim ==> exists|jj: int|
                    #![trigger idxs@[jj]]
                    0 <= jj < num && dv[idxs@[jj] as int][e] == mins@[e],
            forall|e: int|
                #![trigger maxs@[e]]
                0 <= e < dim ==> exists|jj: int|
                    #![trigger idxs@[jj]]
                    0 <= jj < num && dv[idxs@[jj] as int][e] == maxs@[e],
        decreases num - j,
    {
        let row: &Vec<i64> = &data[idxs[j]];
        assert(row@ == dv[idxs@[j as int] as int]);
        let mut e: usize = 0;
        while e < dim
            invariant
                e <= dim,
                1 <= j < num,
                num == idxs@.len(),
                mins@.len() == dim,
                maxs@.len() == dim,
                row@.len() == dim,
                row@ == dv[idxs@[j as int] as int],
                coords_bounded(row@, COORD_BOUND as int),
                forall|q: int|
                    0 <= q < dim ==> -(COORD_BOUND as int) <= #[trigger] mins@[q] <= maxs@[q]
                        <= COORD_BOUND as int,
                forall|q: int|
                    #![trigger mins@[q]]
                    0 <= q < dim ==> exists|jj: int|
                        #![trigger idxs@[jj]]
                        0 <= jj < num && dv[idxs@[jj] as int][q] == mins@[q],
                forall|q: int|
                    #![trigger maxs@[q]]
                    0 <= q < dim ==> exists|jj: int|
                        #![trigger idxs@[jj]]
                        0 <= jj < num && dv[idxs@[jj] as int][q] == maxs@[q],
            decreases dim - e,
        {
            let v = row[e];
            assert(-(COORD_BOUND as int) <= v <= COORD_BOUND as int);
            let ghost old_mins = mins@;
            let ghost old_maxs = maxs@;
            if v > maxs[e] {
                maxs.set(e, v);
            }
            if v < mins[e] {
                mins.set(e, v);
            }
            assert forall|q: int|
                0 <= q < dim implies -(COORD_BOUND as int) <= #[trigger] mins@[q] <= maxs@[q] <= (
            COORD_BOUND as int) by {
                assert(-(COORD_BOUND as int) <= old_mins[q] <= old_maxs[q] <= COORD_BOUND as int);
            }
            assert forall|q: int|
                #![trigger mins@[q]]
                0 <= q < dim implies exists|jj: int|
                #![trigger idxs@[jj]]
                0 <= jj < num && dv[idxs@[jj] as int][q] == mins@[q] by {
                if mins@[q] == old_mins[q] {
                    let w = choose|jj: int|
                        0 <= jj < num && dv[idxs@[jj] as int][q] == old_mins[q];
                    assert(dv[idxs@[w] as int][q] == mins@[q]);
                } else {
                    assert(dv[idxs@[j as int] as int][q] == mins@[q]);
                }
            }
            assert forall|q: int|
                #![trigger maxs@[q]]
                0 <= q < dim implies exists|jj: int|
                #![trigger idxs@[jj]]
                0 <= jj < num && dv[idxs@[jj] as int][q] == maxs@[q] by {
                if maxs@[q] == old_maxs[q] {
                    let w = choose|jj: int|
                        0 <= jj < num && dv[idxs@[jj] as int][q] == old_maxs[q];
                    assert(dv[idxs@[w] as int][q] == maxs@[q]);
                } else {
                    assert(dv[idxs@[j as int] as int][q] == maxs@[q]);
                }
            }
            e = e + 1;
        }
        j = j + 1;
    }
    // intercept point, uniform inside the bounding box
    let mut pvec: Vec<i64> = Vec::new();
    let mut d: usize = 0;
    while d < dim
        invariant
            d <= dim,
            pvec@.len() == d,
            mins@.len() == dim,
            maxs@.len() == dim,
            forall|e: int|
                0 <= e < dim ==> -(COORD_BOUND as int) <= #[trigger] mins@[e] <= maxs@[e]
                    <= COORD_BOUND as int,
            coords_bounded(pvec@, COORD_BOUND as int),
            forall|e: int| 0 <= e < d ==> mins@[e] <= #[trigger] pvec@[e] <= maxs@[e],
        decreases dim - d,
    {
        let lo = mins[d];
        let hi = maxs[d];
        let c = rand_range_i64(rng, lo, hi);
        pvec.push(c);
        d = d + 1;
    }
    proof {
        assert forall|e: int|
            #![trigger pvec@[e]]
            0 <= e < pvec@.len() implies ((exists|jj: int|
            #![trigger idxs@[jj]]
            0 <= jj < idxs@.len() && dv[idxs@[jj] as int][e] <= pvec@[e]) && (exists|jj: int|
            #![trigger idxs@[jj]]
            0 <= jj < idxs@.len() && pvec@[e] <= dv[idxs@[jj] as int][e])) by {
            let wmin = choose|jj: int| 0 <= jj < num && dv[idxs@[jj] as int][e] == mins@[e];
            assert(dv[idxs@[wmin] as int][e] <= pvec@[e]);
            let wmax = choose|jj: int| 0 <= jj < num && dv[idxs@[jj] as int][e] == maxs@[e];
            assert(pvec@[e] <= dv[idxs@[wmax] as int][e]);
        }
        assert(in_envelope(pvec@, dv, idxs@));
    }
    // normal vector with standard-normal coordinates
    let mut nvec: Vec<i64> = Vec::new();
    let mut d: usize = 0;
    while d < dim
        invariant
            d <= dim,
            nvec@.len() == d,
            coords_bounded(nvec@, NORMAL_BOUND as int),
            forall|e: int| 0 <= e < d ==> #[trigger] nvec@[e] != 0,
        decreases dim - d,
    {
        let c = sample_normal_fp(rng);
        nvec.push(c);
        d = d + 1;
    }
    proof {
        lemma_nonzero_count_full(nvec@);
    }
    // force all but extension_level + 1 coordinates to zero
    let zeros = sample_indices(rng, dim, dim - (extension_level + 1));
    let nz = zeros.len();
    let mut z: usize = 0;
    while z < nz
        invariant
            z <= nz,
            nz == zeros@.len(),
            nz == dim - (extension_level + 1),
            nvec@.len() == dim,
            coords_bounded(nvec@, NORMAL_BOUND as int),
            forall|q: int| 0 <= q < zeros@.len() ==> #[trigger] zeros@[q] < dim,
            forall|a: int, b: int| 0 <= a < b < zeros@.len() ==> zeros@[a] != zeros@[b],
            forall|e: int|
                0 <= e < dim ==> ((#[trigger] nvec@[e] == 0) <==> exists|q: int|
                    0 <= q < z && zeros@[q] == e),
            nonzero_count(nvec@) == dim - z,
        decreases nz - z,
    {
        let t = zeros[z];
        assert(nvec@[t as int] != 0) by {
            if nvec@[t as int] == 0 {
                let q = choose|q: int| 0 <= q < z && zeros@[q] == t as int;
                assert(zeros@[q] == zeros@[z as int]);
            }
        }
        proof {
            lemma_nonzero_count_update_zero(nvec@, t as int);
        }
        nvec.set(t, 0);
        z = z + 1;
    }
    assert(nonzero_count(nvec@) == extension_level + 1);
    // partition the rows by the direction test
    let mut left_idx: Vec<usize> = Vec::new();
    let mut right_idx: Vec<usize> = Vec::new();
    let mut j: usize = 0;
    while j < num
        invariant
            j <= num,
            num == idxs@.len(),
            idxs@.len() <= ROW_CAP,
            dv == views_of(data@),
            rows_ok(dv, dim as int),
            1 <= dim,
            dim as u64 <= DIM_CAP,
            nvec@.len() == dim,
            pvec@.len() == dim,
            coords_bounded(nvec@, NORMAL_BOUND as int),
            coords_bounded(pvec@, COORD_BOUND as int),
            forall|q: int| 0 <= q < idxs@.len() ==> #[trigger] idxs@[q] < data@.len(),
            left_idx@ == left_split(dv, idxs@.take(j as int), nvec@, pvec@),
            right_idx@ == right_split(dv, idxs@.take(j as int), nvec@, pvec@),
            left_idx@.len() + right_idx@.len() == j,
            forall|q: int| 0 <= q < left_idx@.len() ==> #[trigger] left_idx@[q] < data@.len(),
            forall|q: int| 0 <= q < right_idx@.len() ==> #[trigger] right_idx@[q] < data@.len(),
        decreases num - j,
    {
        let si = idxs[j];
        let row: &Vec<i64> = &data[si];
        assert(row@ == dv[si as int]);
        proof {
            lemma_left_split_push(dv, idxs@.take(j as int), idxs@[j as int], nvec@, pvec@);
            lemma_right_split_push(dv, idxs@.take(j as int), idxs@[j as int], nvec@, pvec@);
            assert(idxs@.take(j as int).push(idxs@[j as int]) =~= idxs@.take(j as int + 1));
        }
        match determinate_direction(row, &nvec, &pvec) {
            Direction::Left => left_idx.push(si),
            Direction::Right => right_idx.push(si),
        }
        j = j + 1;
    }
    proof {
        assert(idxs@.take(num as int) =~= idxs@);
    }
    let lnode = make_tree(data, left_idx, rng, depth + 1, max_depth, extension_level, dim);
    let rnode = make_tree(data, right_idx, rng, depth + 1, max_depth, extension_level, dim);
    let node = Node::In { left: Box::new(lnode), right: Box::new(rnode), n: nvec, p: pvec };
    assert(shaped(
        node,
        dv,
        idxs@,
        (max_depth - depth) as nat,
        extension_level as int,
        dim as int,
    ));
    node
}

impl Tree {
    /// Builds a tree from the given rows: every row takes part.
    pub fn new(
        samples: &Vec<Vec<i64>>,
        rng: &mut rand::rngs::StdRng,
        max_tree_depth: usize,
        extension_level: usize,
    ) -> (tree: Tree)
        requires
            1 <= samples@.len() <= ROW_CAP,
            max_tree_depth as u64 <= DEPTH_CAP,
            1 <= samples@[0]@.len(),
            samples@[0]@.len() as u64 <= DIM_CAP,
            extension_level + 1 <= samples@[0]@.len(),
            rows_ok(views_of(samples@), samples@[0]@.len() as int),
        ensures
            shaped(
                tree.root,
                views_of(samples@),
                all_indices(samples@.len() as nat),
                max_tree_depth as nat,
                extension_level as int,
                samples@[0]@.len() as int,
            ),
            node_wf(tree.root, samples@[0]@.len() as int),
            node_height(tree.root) <= max_tree_depth,
            node_ext_ok(tree.root, extension_level as int + 1),
            tree_size(tree.root) == samples@.len(),
    {
        let dim = samples[0].len();
        let len = samples.len();
        let mut idxs: Vec<usize> = Vec::new();
        let mut j: usize = 0;
        while j < len
            invariant
                j <= len,
                idxs@ == all_indices(j as nat),
            decreases len - j,
        {
            proof {
                assert(all_indices(j as nat).push(j) =~= all_indices(j as nat + 1));
            }
            idxs.push(j);
            j = j + 1;
        }
        let root = make_tree(samples, idxs, rng, 0, max_tree_depth, extension_level, dim);
        proof {
            lemma_shaped_props(
                root,
                views_of(samples@),
                all_indices(len as nat),
                max_tree_depth as nat,
                extension_level as int,
                dim as int,
            );
        }
        Tree { root }
    }

    /// The fixed-point path length the query point `values` travels in this
    /// tree: one whole unit per edge, plus the c-factor of the leaf reached.
    pub fn path_length(&self, values: &Vec<i64>) -> (r: u64)
        requires
            node_wf(self.root, values@.len() as int),
            node_height(self.root) <= DEPTH_CAP,
            values@.len() <= DIM_CAP,
            coords_bounded(values@, COORD_BOUND as int),
        ensures
            r == spec_path_length(self.root, values@),
            r <= node_height(self.root) * SCALE + 2 * (SCALE * SCALE),
    {
        path_length_recurse(&self.root, values)
    }
}

/// The sequence `0, 1, ..., len - 1`.
pub open spec fn all_indices(len: nat) -> Seq<usize> {
    Seq::new(len, |i: int| i as usize)
}

/// Walks a query point down a node and accumulates its path length.
fn path_length_recurse(node: &Node, values: &Vec<i64>) -> (r: u64)
    requires
        node_wf(*node, values@.len() as int),
        node_height(*node) <= DEPTH_CAP,
        values@.len() <= DIM_CAP,
        coords_bounded(values@, COORD_BOUND as int),
    ensures
        r == spec_path_length(*node, values@),
        r <= node_height(*node) * SCALE + 2 * (SCALE * SCALE),
    decreases *node,
{
    match node {
        Node::Ex { num_samples } => {
            let r = c_factor(*num_samples);
            proof {
                crate::cfactor::lemma_c_factor_range(*num_samples as int);
            }
            r
        },
        Node::In { left, right, n, p } => {
            let child: &Node = match determinate_direction(values, n, p) {
                Direction::Left => left,
                Direction::Right => right,
            };
            proof {
                assert(node_height(*child) < node_height(*node));
                assert(node_height(*child) * SCALE + SCALE <= node_height(*node) * SCALE)
                    by (nonlinear_arith)
                    requires
                        node_height(*child) < node_height(*node),
                ;
                assert(node_height(*node) * SCALE <= DEPTH_CAP * SCALE) by (nonlinear_arith)
                    requires
                        node_height(*node) <= DEPTH_CAP,
                ;
            }
            let sub = path_length_recurse(child, values);
            SCALE + sub
        },
    }
}

} // verus!
