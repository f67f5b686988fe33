//! The forest: an ensemble of independently built trees together with the
//! normalization constant, and the anomaly-score query against it.

use vstd::prelude::*;

use crate::c_factor;
use crate::cfactor::lemma_c_factor_range;
use crate::cfactor::lemma_ceil_log2_pow;
use crate::cfactor::lemma_pow2_62;
use crate::cfactor::spec_c_factor;
use crate::cfactor::spec_ceil_log2;
use crate::ceil_log2;
use crate::error::Error;
use crate::exp2::exp2_neg;
use crate::exp2::spec_exp2_neg;
use crate::rng::sample_indices;
use crate::tree::all_indices;
use crate::tree::coords_bounded;
use crate::tree::lemma_mul_le;
use crate::tree::lemma_mul_succ;
use crate::tree::lemma_shaped_props;
use crate::tree::node_ext_ok;
use crate::tree::node_height;
use crate::tree::node_wf;
use crate::tree::rows_ok;
use crate::tree::shaped;
use crate::tree::spec_path_length;
use crate::tree::tree_size;
use crate::tree::views_of;
use crate::tree::Tree;
use crate::COORD_BOUND;
use crate::DEPTH_CAP;
use crate::DIM_CAP;
use crate::ROW_CAP;
use crate::SCALE;

verus! {

/// The hyperparameters of forest construction.
pub struct ForestOptions {
    /// `n_trees` is the number of trees to be created.
    pub n_trees: usize,
    /// `sample_size` is the number of samples of the training data to be used
    /// in creation of each tree. Must not be larger than the training set.
    pub sample_size: usize,
    /// `max_tree_depth` is the maximum allowed tree depth; when absent it
    /// defaults to the ceiling of the base-two logarithm of `sample_size`.
    pub max_tree_depth: Option<usize>,
    /// `extension_level` is the degree of freedom in choosing the hyperplanes
    /// for dividing up data. Must be smaller than the dimension.
    pub extension_level: usize,
}

impl Default for ForestOptions {
    /// A small default ensemble with axis-aligned splits.
    fn default() -> (r: Self)
        ensures
            r.n_trees == 20,
            r.sample_size == 20,
            r.max_tree_depth is None,
            r.extension_level == 0,
    {
        Self { n_trees: 20, sample_size: 20, max_tree_depth: None, extension_level: 0 }
    }
}

/// A built forest: the normalization constant and the trees.
pub struct Forest {
    /// Multiplicative factor used in computing the anomaly scores: the
    /// c-factor of the per-tree sample size, in fixed point.
    pub avg_path_length_c: u64,
    /// The independently built trees.
    pub trees: Vec<Tree>,
    /// The dimension of every training and query point.
    pub dim: usize,
    /// The extension level every tree was built with.
    pub extension_level: usize,
}

/// The dimension of a training set: the length of its first row.
pub open spec fn data_dim(dv: Seq<Seq<i64>>) -> int {
    if dv.len() == 0 {
        0
    } else {
        dv[0].len() as int
    }
}

/// The training set is too small for the requested sample size, or carries
/// points of dimension zero.
pub open spec fn insufficient_data(dv: Seq<Seq<i64>>, sample_size: int) -> bool {
    dv.len() < sample_size || data_dim(dv) == 0
}

/// The requested extension level does not fit the dimension.
pub open spec fn extension_exceeds(dv: Seq<Seq<i64>>, extension_level: int) -> bool {
    extension_level > data_dim(dv) - 1
}

/// The depth limit construction resolves: the configured one, or the ceiling
/// logarithm of the sample size when none is configured.
pub open spec fn spec_resolved_depth(options: ForestOptions) -> int {
    match options.max_tree_depth {
        Some(d) => d as int,
        None => spec_ceil_log2(options.sample_size as int) as int,
    }
}

/// `sub` is a draw of `sample_size` distinct rows of `dv`.
pub open spec fn subsample_of(sub: Seq<Seq<i64>>, dv: Seq<Seq<i64>>, sample_size: int) -> bool {
    sub.len() == sample_size && exists|ix: Seq<usize>|
        ix.len() == sample_size && (forall|j: int| 0 <= j < ix.len() ==> #[trigger] ix[j]
            < dv.len()) && (forall|a: int, b: int| 0 <= a < b < ix.len() ==> ix[a] != ix[b]) && (
        forall|j: int| 0 <= j < ix.len() ==> sub[j] == dv[#[trigger] ix[j] as int])
}

/// The tree was built, within the given depth budget, from some draw of
/// `sample_size` distinct rows of `dv`.
pub open spec fn built_from(
    tree: Tree,
    dv: Seq<Seq<i64>>,
    sample_size: int,
    max_depth: int,
    ext: int,
    dim: int,
) -> bool {
    exists|sub: Seq<Seq<i64>>|
        #[trigger] subsample_of(sub, dv, sample_size) && shaped(
            tree.root,
            sub,
            all_indices(sample_size as nat),
            max_depth as nat,
            ext,
            dim,
        )
}

/// The sum of the path lengths of `vs` over the given trees.
pub open spec fn spec_sum_paths(ts: Seq<Tree>, vs: Seq<i64>) -> int
    decreases ts.len(),
{
    if ts.len() == 0 {
        0
    } else {
        spec_sum_paths(ts.drop_last(), vs) + spec_path_length(ts.last().root, vs)
    }
}

/// The anomaly score of `vs` against forest `f`, in fixed point: two to the
/// negative of the average path length divided by the normalization constant.
pub open spec fn spec_score(f: Forest, vs: Seq<i64>) -> int {
    let total = spec_sum_paths(f.trees@, vs);
    let eh = total / f.trees@.len() as int;
    let x = if f.avg_path_length_c == 0 {
        0
    } else {
        eh * SCALE as int / f.avg_path_length_c as int
    };
    spec_exp2_neg(x)
}

impl Forest {
    /// A forest is well formed when its dimension and extension level agree,
    /// and every tree is structurally sound for that dimension, within the
    /// depth cap, and obeys the extension-level rule at every internal node.
    pub open spec fn wf(self) -> bool {
        1 <= self.dim && self.dim <= DIM_CAP && self.extension_level + 1 <= self.dim && 1
            <= self.trees@.len() <= ROW_CAP && self.avg_path_length_c <= 2 * (SCALE * SCALE)
            && forall|k: int|
            0 <= k < self.trees@.len() ==> node_wf(#[trigger] self.trees@[k].root, self.dim as int)
                && node_height(self.trees@[k].root) <= DEPTH_CAP && node_ext_ok(
                self.trees@[k].root,
                self.extension_level as int + 1,
            )
    }

    /// Builds a new forest from the given training data.
    ///
    /// The two failure conditions are checked eagerly, before any randomness
    /// is consumed, and they alone decide success: a training set smaller
    /// than the sample size or of dimension zero is insufficient, and an
    /// extension level not below the dimension is rejected. On success the
    /// forest holds exactly `n_trees` trees, each built from a fresh draw of
    /// `sample_size` distinct rows, no taller than the resolved depth limit,
    /// and accounting for all `sample_size` rows at its leaves.
    pub fn from_slice(
        training_data: &Vec<Vec<i64>>,
        options: &ForestOptions,
        rng: &mut rand::rngs::StdRng,
    ) -> (r: Result<Forest, Error>)
        requires
            1 <= options.n_trees <= ROW_CAP,
            1 <= options.sample_size,
            match options.max_tree_depth {
                Some(d) => d <= DEPTH_CAP,
                None => true,
            },
            training_data@.len() <= ROW_CAP,
            data_dim(views_of(training_data@)) <= DIM_CAP,
            rows_ok(views_of(training_data@), data_dim(views_of(training_data@))),
        ensures
            (r is Err && r->Err_0 == Error::InsufficientTrainingData) <==> insufficient_data(
                views_of(training_data@),
                options.sample_size as int,
            ),
            (r is Err && r->Err_0 == Error::ExtensionLevelExceedsDimensions) <==> (
            !insufficient_data(views_of(training_data@), options.sample_size as int)
                && extension_exceeds(views_of(training_data@), options.extension_level as int)),
            r is Ok <==> (!insufficient_data(views_of(training_data@), options.sample_size as int)
                && !extension_exceeds(views_of(training_data@), options.extension_level as int)),
            r is Ok ==> {
                let f = r->Ok_0;
                &&& f.wf()
                &&& f.dim == data_dim(views_of(training_data@))
                &&& f.extension_level == options.extension_level
                &&& f.trees@.len() == options.n_trees
                &&& f.avg_path_length_c == spec_c_factor(options.sample_size as int)
                &&& forall|k: int|
                    0 <= k < f.trees@.len() ==> built_from(
                        #[trigger] f.trees@[k],
                        views_of(training_data@),
                        options.sample_size as int,
                        spec_resolved_depth(*options),
                        options.extension_level as int,
                        f.dim as int,
                    ) && node_height(f.trees@[k].root) <= spec_resolved_depth(*options)
                        && tree_size(f.trees@[k].root) == options.sample_size
            },
    {
        let ghost dv = views_of(training_data@);
        let n_rows = training_data.len();
        if n_rows < options.sample_size {
            return Err(Error::InsufficientTrainingData);
        }
        let dim = training_data[0].len();
        assert(dim == data_dim(dv));
        if dim == 0 {
            return Err(Error::InsufficientTrainingData);
        }
        if options.extension_level >= dim {
            return Err(Error::ExtensionLevelExceedsDimensions);
        }
        let max_depth = match options.max_tree_depth {
            Some(d) => d,
            None => {
                let d = ceil_log2(options.sample_size);
                proof {
                    lemma_pow2_62();
                    lemma_ceil_log2_pow(62, options.sample_size as int);
                }
                d
            },
        };
        assert(max_depth == spec_resolved_depth(*options) && max_depth <= DEPTH_CAP);
        let ss = options.sample_size;
        let mut trees: Vec<Tree> = Vec::new();
        let mut t: usize = 0;
        while t < options.n_trees
            invariant
                t <= options.n_trees,
                trees@.len() == t,
                1 <= ss <= n_rows,
                n_rows == training_data@.len() <= ROW_CAP,
                dv == views_of(training_data@),
                1 <= dim <= DIM_CAP,
                dim == data_dim(dv),
                rows_ok(dv, dim as int),
                options.extension_level + 1 <= dim,
                max_depth <= DEPTH_CAP,
                max_depth == spec_resolved_depth(*options),
                forall|k: int|
                    0 <= k < t ==> built_from(
                        #[trigger] trees@[k],
                        dv,
                        ss as int,
                        max_depth as int,
                        options.extension_level as int,
                        dim as int,
                    ) && node_wf(trees@[k].root, dim as int) && node_height(trees@[k].root)
                        <= max_depth && node_ext_ok(
                        trees@[k].root,
                        options.extension_level as int + 1,
                    ) && tree_size(trees@[k].root) == ss,
            decreases options.n_trees - t,
        {
            let ix = sample_indices(rng, n_rows, ss);
            let mut sub: Vec<Vec<i64>> = Vec::new();
            let mut j: usize = 0;
            while j < ss
                invariant
                    j <= ss,
                    ss <= n_rows,
                    n_rows == training_data@.len(),
                    dv == views_of(training_data@),
                    rows_ok(dv, dim as int),
                    ix@.len() == ss,
                    forall|q: int| 0 <= q < ix@.len() ==> #[trigger] ix@[q] < n_rows,
                    sub@.len() == j,
                    forall|q: int| 0 <= q < j ==> #[trigger] sub@[q]@ == dv[ix@[q] as int],
                decreases ss - j,
            {
                let row = copy_row(&training_data[ix[j]]);
                sub.push(row);
                j = j + 1;
            }
            let ghost sub_v = views_of(sub@);
            proof {
                assert forall|q: int| 0 <= q < ss implies #[trigger] sub_v[q] == dv[ix@[q] as int]
                    && sub_v[q].len() == dim && coords_bounded(sub_v[q], COORD_BOUND as int) by {
                    assert(sub@[q]@ == dv[ix@[q] as int]);
                }
                assert(sub_v[0].len() == dim);
                assert(rows_ok(sub_v, dim as int));
                assert(subsample_of(sub_v, dv, ss as int));
            }
            let tree = Tree::new(&sub, rng, max_depth, options.extension_level);
            proof {
                lemma_shaped_props(
                    tree.root,
                    sub_v,
                    all_indices(ss as nat),
                    max_depth as nat,
                    options.extension_level as int,
                    dim as int,
                );
                assert(built_from(
                    tree,
                    dv,
                    ss as int,
                    max_depth as int,
                    options.extension_level as int,
                    dim as int,
                ));
            }
            trees.push(tree);
            t = t + 1;
        }
        let avg = c_factor(ss);
        proof {
            lemma_c_factor_range(ss as int);
        }
        Ok(
            Forest {
                avg_path_length_c: avg,
                trees,
                dim,
                extension_level: options.extension_level,
            },
        )
    }

    /// Computes the anomaly score of a point against this forest, in fixed
    /// point: `SCALE` stands for 1. The result is a pure function of the
    /// forest and the point, so repeated calls return identical values.
    pub fn score(&self, values: &Vec<i64>) -> (r: u64)
        requires
            self.wf(),
            values@.len() == self.dim,
            coords_bounded(values@, COORD_BOUND as int),
        ensures
            r == spec_score(*self, values@),
            r <= SCALE,
    {
        let n_trees = self.trees.len();
        let mut total: u128 = 0;
        let mut k: usize = 0;
        while k < n_trees
            invariant
                k <= n_trees,
                n_trees == self.trees@.len(),
                self.wf(),
                values@.len() == self.dim,
                coords_bounded(values@, COORD_BOUND as int),
                total == spec_sum_paths(self.trees@.take(k as int), values@),
                total <= (k as int) * (DEPTH_CAP as int * SCALE as int + 2 * (SCALE as int
                    * SCALE as int)),
            decreases n_trees - k,
        {
            let ghost pm = DEPTH_CAP as int * SCALE as int + 2 * (SCALE as int * SCALE as int);
            let tree = &self.trees[k];
            let path = tree.path_length(values);
            proof {
                lemma_mul_le(node_height(tree.root) as int, DEPTH_CAP as int, SCALE as int);
                lemma_mul_succ(k as int, pm);
                lemma_mul_le(k as int + 1, ROW_CAP as int, pm);
                assert(self.trees@.take(k as int + 1).drop_last() =~= self.trees@.take(k as int));
                assert(self.trees@.take(k as int + 1).last() == self.trees@[k as int]);
            }
            total = total + path as u128;
            k = k + 1;
        }
        proof {
            assert(self.trees@.take(n_trees as int) =~= self.trees@);
            lemma_mul_le(
                n_trees as int,
                ROW_CAP as int,
                DEPTH_CAP as int * SCALE as int + 2 * (SCALE as int * SCALE as int),
            );
            lemma_div_bound(
                total as int,
                n_trees as int,
                DEPTH_CAP as int * SCALE as int + 2 * (SCALE as int * SCALE as int),
            );
        }
        let eh = (total / n_trees as u128) as u64;
        let avg = self.avg_path_length_c;
        if avg == 0 {
            return exp2_neg(0);
        }
        let x128: u128 = eh as u128 * SCALE as u128 / avg as u128;
        if x128 >= 64 * SCALE as u128 {
            proof {
                assert(x128 as int / SCALE as int >= 64) by (nonlinear_arith)
                    requires
                        x128 >= 64 * SCALE as int,
                        SCALE == 65536,
                ;
            }
            return 0;
        }
        exp2_neg(x128 as u64)
    }
}

/// An average over a count is no more than the largest summand bound.
proof fn lemma_div_bound(a: int, b: int, c: int)
    by (nonlinear_arith)
    requires
        0 <= a,
        1 <= b,
        a <= b * c,
    ensures
        a / b <= c,
{
}

/// With extension level zero, every hyperplane in the forest is axis aligned:
/// the normal vector of every internal node has exactly one non-zero
/// coordinate.
pub proof fn lemma_axis_aligned(f: Forest)
    requires
        f.wf(),
        f.extension_level == 0,
    ensures
        forall|k: int| 0 <= k < f.trees@.len() ==> node_ext_ok(#[trigger] f.trees@[k].root, 1),
{
}

/// Copies one row of training data.
fn copy_row(r: &Vec<i64>) -> (c: Vec<i64>)
    ensures
        c@ == r@,
{
    let mut c: Vec<i64> = Vec::new();
    let mut i: usize = 0;
    let len = r.len();
    while i < len
        invariant
            i <= len,
            len == r@.len(),
            c@ == r@.take(i as int),
        decreases len - i,
    {
        proof {
            assert(r@.take(i as int).push(r@[i as int]) =~= r@.take(i as int + 1));
        }
        c.push(r[i]);
        i = i + 1;
    }
    proof {
        assert(r@.take(len as int) =~= r@);
    }
    c
}

} // verus!
