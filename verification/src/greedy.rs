//! The greedy path engine: at every step it scores the line from the
//! current nail to every other nail against the residual image, picks
//! the best candidate at or above the improvement threshold (lowest
//! index on ties), commits that line's darkness, and repeats until the
//! requested number of lines is reached or improvement stalls.

use vstd::prelude::*;
use vstd::string::StringExecFns;
use rayon::iter::{IndexedParallelIterator, IntoParallelIterator, ParallelIterator};
use crate::cache::{BasicLinePixelCache, LinePixelCache};
use crate::error::StringArtError;
use crate::grid::MaskGrid;
use crate::raster::{coords_of, lemma_coords_roundtrip, lemma_rasterize_len};
use crate::state::StringArtState;
use crate::utils::{
    score_spec,
    apply_pixels,
    calculate_line_score_from_pixels,
    apply_line_darkness_from_pixels,
    Coord,
};

verus! {

/// The score of the candidate line from nail `c` to nail `j`: the
/// cached pixel list of the pair, scored against the residual cells
/// with the session's masks and penalty weight.
pub open spec fn cand_score(
    cache: BasicLinePixelCache,
    em: MaskGrid,
    pm: MaskGrid,
    penalty: int,
    size: int,
    cells: Seq<Seq<u8>>,
    c: int,
    j: int,
) -> int {
    score_spec(coords_of(cache.entry(c, j)), cells, size, size, em, pm, penalty)
}

/// The winning candidate among nails `k..n`: the lowest-index nail
/// achieving the maximal score at or above `min_score`, the current
/// nail excluded; `None` when no candidate reaches the threshold.
pub open spec fn best_from(
    cache: BasicLinePixelCache,
    em: MaskGrid,
    pm: MaskGrid,
    penalty: int,
    size: int,
    n: int,
    cells: Seq<Seq<u8>>,
    c: int,
    min_score: int,
    k: int,
) -> Option<(int, int)>
    decreases n - k,
{
    if k < 0 || k >= n {
        None
    } else {
        let rest = best_from(cache, em, pm, penalty, size, n, cells, c, min_score, k + 1);
        let sc = cand_score(cache, em, pm, penalty, size, cells, c, k);
        if k == c || sc < min_score {
            rest
        } else {
            match rest {
                Option::None => Option::Some((k, sc)),
                Option::Some((j2, s2)) => if sc >= s2 {
                    Option::Some((k, sc))
                } else {
                    Option::Some((j2, s2))
                },
            }
        }
    }
}

/// What the winner means: it is a real candidate at or above the
/// threshold, no candidate from `k` on scores higher, every earlier
/// candidate with the same score has a higher index than it, and when
/// nothing is returned no candidate reaches the threshold.
pub proof fn lemma_best_from_props(
    cache: BasicLinePixelCache,
    em: MaskGrid,
    pm: MaskGrid,
    penalty: int,
    size: int,
    n: int,
    cells: Seq<Seq<u8>>,
    c: int,
    min_score: int,
    k: int,
)
    requires
        k >= 0,
    ensures
        ({
            let r = best_from(cache, em, pm, penalty, size, n, cells, c, min_score, k);
            &&& (match r {
                Option::Some((j, sc)) => {
                    &&& k <= j < n
                    &&& j != c
                    &&& sc == cand_score(cache, em, pm, penalty, size, cells, c, j)
                    &&& sc >= min_score
                    &&& (forall|q: int|
                        k <= q < n && q != c && #[trigger] cand_score(
                            cache,
                            em,
                            pm,
                            penalty,
                            size,
                            cells,
                            c,
                            q,
                        ) >= min_score ==> cand_score(cache, em, pm, penalty, size, cells, c, q)
                            <= sc)
                    &&& (forall|q: int|
                        k <= q < j && q != c && #[trigger] cand_score(
                            cache,
                            em,
                            pm,
                            penalty,
                            size,
                            cells,
                            c,
                            q,
                        ) >= min_score ==> cand_score(cache, em, pm, penalty, size, cells, c, q)
                            < sc)
                },
                Option::None => forall|q: int|
                    k <= q < n && q != c ==> #[trigger] cand_score(
                        cache,
                        em,
                        pm,
                        penalty,
                        size,
                        cells,
                        c,
                        q,
                    ) < min_score,
            })
        }),
    decreases n - k,
{
    if k >= n {
    } else {
        lemma_best_from_props(cache, em, pm, penalty, size, n, cells, c, min_score, k + 1);
    }
}

/// The integer view of an optional `(nail, score)` pair.
pub open spec fn opt_view(r: Option<(usize, u64)>) -> Option<(int, int)> {
    match r {
        Option::None => Option::None,
        Option::Some((j, sc)) => Option::Some((j as int, sc as int)),
    }
}


/// Trait for string art path generators: implementations calculate a
/// thread path over a session state they own.
pub trait StringArtGenerator: Sized {
    /// The session the generator works on.
    spec fn session(&self) -> StringArtState;

    /// Generate the string path using the specific algorithm.
    fn generate_path(
        &mut self,
        num_lines: usize,
        line_darkness: u32,
        min_improvement_score: u64,
    ) -> (r: Result<Vec<usize>, StringArtError>)
        requires
            old(self).session().wf(),
            old(self).session().config.num_nails >= 1,
        ensures
            final(self).session().wf(),
            final(self).session().config == old(self).session().config,
            final(self).session().nail_coords == old(self).session().nail_coords,
            (num_lines == 0 || line_darkness == 0) ==> (r matches Err(
                StringArtError::InvalidParameter { .. },
            )) && final(self).session() == old(self).session(),
            (num_lines > 0 && line_darkness > 0) ==> ({
                let run = run_from(
                    old(self).session().line_pixel_cache,
                    old(self).session().eye_protection_mask,
                    old(self).session().negative_space_mask,
                    old(self).session().config.negative_space_penalty as int,
                    old(self).session().config.image_size as int,
                    old(self).session().config.num_nails as int,
                    old(self).session().residual_image.cells(),
                    seq![0int],
                    line_darkness as int,
                    min_improvement_score as int,
                    num_lines as nat,
                    0,
                );
                &&& final(self).session().residual_image.cells() == run.0
                &&& path_view(final(self).session().path@) == run.1
                &&& final(self).session().path@.len() >= 1
                &&& final(self).session().path@[0] == 0
                &&& (run.1.len() >= 2 <==> r is Ok)
                &&& (r matches Ok(p) ==> p@ == final(self).session().path@)
                &&& (run.1.len() < 2 ==> (r matches Err(
                    StringArtError::PathGenerationFailed { .. },
                )))
            }),
    ;
}

/// Greedy algorithm implementation for string art generation.
pub struct GreedyGenerator {
    pub state: StringArtState,
}

impl GreedyGenerator {
    /// Creates a new generator owning the given session state.
    pub fn new(state: StringArtState) -> (r: Self)
        ensures
            r.state == state,
    {
        Self { state }
    }

    /// The pixel list of every cached pair is short enough to score.
    pub(crate) proof fn lemma_entry_len(s: StringArtState, a: int, b: int)
        requires
            s.wf(),
            0 <= a < s.config.num_nails,
            0 <= b < s.config.num_nails,
            a != b,
        ensures
            s.line_pixel_cache.entry(a, b).len() <= 100000000,
            coords_of(s.line_pixel_cache.entry(a, b)).len() <= 100000000,
    {
        let lo = if a < b {
            a
        } else {
            b
        };
        let hi = if a < b {
            b
        } else {
            a
        };
        assert(s.line_pixel_cache.entry(lo, hi) == rasterize_spec_of(s, lo, hi));
        crate::cache::lemma_cache_get_symmetric(&s.line_pixel_cache, a, b);
        lemma_rasterize_len(s.nail_coords@[lo], s.nail_coords@[hi]);
    }

    /// Finds the best next nail to connect to, using parallel
    /// processing for performance: every candidate line is scored in a
    /// parallel fan-out, then the winner is selected sequentially.
    fn find_best_next_nail(&self, current_nail: usize, min_improvement_score: u64) -> (r: Option<
        (usize, u64),
    >)
        requires
            self.state.wf(),
            current_nail < self.state.config.num_nails,
        ensures
            opt_view(r) == best_from(
                self.state.line_pixel_cache,
                self.state.eye_protection_mask,
                self.state.negative_space_mask,
                self.state.config.negative_space_penalty as int,
                self.state.config.image_size as int,
                self.state.config.num_nails as int,
                self.state.residual_image.cells(),
                current_nail as int,
                min_improvement_score as int,
                0,
            ),
    {
        let n = self.state.config.num_nails;
        let scores = par_candidate_scores(&self.state, current_nail);
        let mut k: usize = n;
        let mut acc: Option<(usize, u64)> = None;
        while k > 0
            invariant
                self.state.wf(),
                current_nail < n,
                n == self.state.config.num_nails,
                k <= n,
                scores@.len() == n,
                forall|j: int|
                    0 <= j < n && j != current_nail ==> #[trigger] scores@[j] as int == cand_score(
                        self.state.line_pixel_cache,
                        self.state.eye_protection_mask,
                        self.state.negative_space_mask,
                        self.state.config.negative_space_penalty as int,
                        self.state.config.image_size as int,
                        self.state.residual_image.cells(),
                        current_nail as int,
                        j,
                    ),
                opt_view(acc) == best_from(
                    self.state.line_pixel_cache,
                    self.state.eye_protection_mask,
                    self.state.negative_space_mask,
                    self.state.config.negative_space_penalty as int,
                    self.state.config.image_size as int,
                    n as int,
                    self.state.residual_image.cells(),
                    current_nail as int,
                    min_improvement_score as int,
                    k as int,
                ),
            decreases k,
        {
            k = k - 1;
            if k != current_nail {
                let sc = scores[k];
                if sc >= min_improvement_score {
                    acc = match acc {
                        None => Some((k, sc)),
                        Some((j2, s2)) => if sc >= s2 {
                            Some((k, sc))
                        } else {
                            Some((j2, s2))
                        },
                    };
                }
            }
        }
        acc
    }
}

/// The score of one candidate line against the session's residual
/// image.
pub(crate) fn candidate_line_score(state: &StringArtState, current_nail: usize, next_nail: usize) -> (sc:
    u64)
    requires
        state.wf(),
        current_nail < state.config.num_nails,
        next_nail < state.config.num_nails,
        next_nail != current_nail,
    ensures
        sc as int == cand_score(
            state.line_pixel_cache,
            state.eye_protection_mask,
            state.negative_space_mask,
            state.config.negative_space_penalty as int,
            state.config.image_size as int,
            state.residual_image.cells(),
            current_nail as int,
            next_nail as int,
        ),
{
    let pixels = state.line_pixel_cache.get(current_nail, next_nail);
    proof {
        GreedyGenerator::lemma_entry_len(*state, current_nail as int, next_nail as int);
        lemma_coords_roundtrip(pixels@);
        assert(coords_of(state.line_pixel_cache.entry(current_nail as int, next_nail as int))
            == pixels@);
    }
    calculate_line_score_from_pixels(
        &state.residual_image,
        pixels,
        &state.eye_protection_mask,
        &state.negative_space_mask,
        state.config.negative_space_penalty,
    )
}

/// Relies on rayon's `collect_into_vec` on the indexed parallel
/// iterator over `0..n`: the collected vector holds exactly one result
/// per index, in index order, each computed by the given closure.
#[verifier::external_body]
fn par_candidate_scores(state: &StringArtState, current_nail: usize) -> (r: Vec<u64>)
    requires
        state.wf(),
        current_nail < state.config.num_nails,
    ensures
        r@.len() == state.config.num_nails,
        forall|j: int|
            0 <= j < r@.len() && j != current_nail ==> #[trigger] r@[j] as int == cand_score(
                state.line_pixel_cache,
                state.eye_protection_mask,
                state.negative_space_mask,
                state.config.negative_space_penalty as int,
                state.config.image_size as int,
                state.residual_image.cells(),
                current_nail as int,
                j,
            ),
{
    let mut scores: Vec<u64> = Vec::new();
    (0..state.config.num_nails)
        .into_par_iter()
        .map(
            |next_nail| if next_nail == current_nail {
                0
            } else {
                candidate_line_score(state, current_nail, next_nail)
            },
        )
        .collect_into_vec(&mut scores);
    scores
}

/// The rasterized segment between two nails of the session, in
/// canonical order.
pub open spec fn rasterize_spec_of(s: StringArtState, lo: int, hi: int) -> Seq<(int, int)> {
    crate::raster::rasterize_spec(s.nail_coords@[lo], s.nail_coords@[hi])
}


/// The integer view of a nail-index path.
pub open spec fn path_view(p: Seq<usize>) -> Seq<int> {
    p.map_values(|u: usize| u as int)
}

/// The whole greedy run from a given residual image and path: each
/// iteration either commits the winning line's darkness and appends the
/// winning nail, or counts a failure; the run stops when the requested
/// iterations are spent or three failures occur in a row.
pub open spec fn run_from(
    cache: BasicLinePixelCache,
    em: MaskGrid,
    pm: MaskGrid,
    penalty: int,
    size: int,
    n: int,
    cells: Seq<Seq<u8>>,
    path: Seq<int>,
    darkness: int,
    min_score: int,
    remaining: nat,
    failures: int,
) -> (Seq<Seq<u8>>, Seq<int>)
    decreases remaining,
{
    if remaining == 0 || failures >= 3 || path.len() == 0 {
        (cells, path)
    } else {
        let c = path[path.len() - 1];
        match best_from(cache, em, pm, penalty, size, n, cells, c, min_score, 0) {
            Option::None => run_from(
                cache,
                em,
                pm,
                penalty,
                size,
                n,
                cells,
                path,
                darkness,
                min_score,
                (remaining - 1) as nat,
                failures + 1,
            ),
            Option::Some((j, sc)) => run_from(
                cache,
                em,
                pm,
                penalty,
                size,
                n,
                apply_pixels(cells, coords_of(cache.entry(c, j)), darkness, size, size),
                path.push(j),
                darkness,
                min_score,
                (remaining - 1) as nat,
                0,
            ),
        }
    }
}

/// The greedy run preserves the path invariants: the given path stays
/// a prefix, the path still starts at nail 0, every entry is a valid
/// nail index, no two consecutive entries are equal, and at most one
/// nail is appended per remaining iteration.
pub proof fn lemma_run_path_props(
    cache: BasicLinePixelCache,
    em: MaskGrid,
    pm: MaskGrid,
    penalty: int,
    size: int,
    n: int,
    cells: Seq<Seq<u8>>,
    path: Seq<int>,
    darkness: int,
    min_score: int,
    remaining: nat,
    failures: int,
)
    requires
        path.len() >= 1,
        path[0] == 0,
        forall|i: int| 0 <= i < path.len() ==> 0 <= #[trigger] path[i] < n,
        forall|i: int| 0 <= i && i + 1 < path.len() ==> path[i + 1] != #[trigger] path[i],
    ensures
        ({
            let rp = run_from(
                cache,
                em,
                pm,
                penalty,
                size,
                n,
                cells,
                path,
                darkness,
                min_score,
                remaining,
                failures,
            ).1;
            &&& path.len() <= rp.len() <= path.len() + remaining
            &&& rp.subrange(0, path.len() as int) == path
            &&& rp[0] == 0
            &&& (forall|i: int| 0 <= i < rp.len() ==> 0 <= #[trigger] rp[i] < n)
            &&& (forall|i: int| 0 <= i && i + 1 < rp.len() ==> rp[i + 1] != #[trigger] rp[i])
        }),
    decreases remaining,
{
    if remaining == 0 || failures >= 3 {
        assert(run_from(
            cache,
            em,
            pm,
            penalty,
            size,
            n,
            cells,
            path,
            darkness,
            min_score,
            remaining,
            failures,
        ).1 == path);
        assert(path.subrange(0, path.len() as int) =~= path);
    } else {
        let c = path[path.len() - 1];
        match best_from(cache, em, pm, penalty, size, n, cells, c, min_score, 0) {
            Option::None => {
                lemma_run_path_props(
                    cache,
                    em,
                    pm,
                    penalty,
                    size,
                    n,
                    cells,
                    path,
                    darkness,
                    min_score,
                    (remaining - 1) as nat,
                    failures + 1,
                );
            },
            Option::Some((j, sc)) => {
                lemma_best_from_props(cache, em, pm, penalty, size, n, cells, c, min_score, 0);
                let cells2 = apply_pixels(
                    cells,
                    coords_of(cache.entry(c, j)),
                    darkness,
                    size,
                    size,
                );
                let path2 = path.push(j);
                lemma_run_path_props(
                    cache,
                    em,
                    pm,
                    penalty,
                    size,
                    n,
                    cells2,
                    path2,
                    darkness,
                    min_score,
                    (remaining - 1) as nat,
                    0,
                );
                let rp = run_from(
                    cache,
                    em,
                    pm,
                    penalty,
                    size,
                    n,
                    cells2,
                    path2,
                    darkness,
                    min_score,
                    (remaining - 1) as nat,
                    0,
                ).1;
                assert(path2.subrange(0, path2.len() as int) =~= path2);
                assert(rp.subrange(0, path2.len() as int) == path2);
                assert forall|i: int| 0 <= i < path.len() implies rp.subrange(
                    0,
                    path.len() as int,
                )[i] == path[i] by {
                    assert(rp[i] == path2[i]);
                }
                assert(rp.subrange(0, path.len() as int) =~= path);
            },
        }
    }
}

/// A fresh copy of a nail-index path.
fn copy_path(p: &Vec<usize>) -> (r: Vec<usize>)
    ensures
        r@ == p@,
{
    let mut r: Vec<usize> = Vec::new();
    let mut i: usize = 0;
    while i < p.len()
        invariant
            i <= p@.len(),
            r@ == p@.subrange(0, i as int),
        decreases p@.len() - i,
    {
        r.push(p[i]);
        proof {
            assert(r@ =~= p@.subrange(0, i + 1));
        }
        i = i + 1;
    }
    proof {
        assert(p@.subrange(0, p@.len() as int) =~= p@);
    }
    r
}

impl StringArtGenerator for GreedyGenerator {
    open spec fn session(&self) -> StringArtState {
        self.state
    }

    /// Run the greedy loop: validate the parameters, reset the path to
    /// nail 0, and iterate up to `num_lines` times, committing the
    /// winning line of each iteration and stalling after three
    /// consecutive iterations without an acceptable candidate. A run
    /// that never accepted a line reports a generation failure.
    fn generate_path(
        &mut self,
        num_lines: usize,
        line_darkness: u32,
        min_improvement_score: u64,
    ) -> (r: Result<Vec<usize>, StringArtError>)
        ensures
            final(self).state.target_image == old(self).state.target_image,
            final(self).state.eye_regions == old(self).state.eye_regions,
            final(self).state.eye_protection_mask == old(self).state.eye_protection_mask,
            final(self).state.negative_space_mask == old(self).state.negative_space_mask,
            final(self).state.line_pixel_cache == old(self).state.line_pixel_cache,
    {
        if num_lines == 0 || line_darkness == 0 {
            return Err(
                StringArtError::InvalidParameter {
                    message: String::from_str("num_lines and line_darkness must be positive"),
                },
            );
        }
        let ghost g_cache = self.state.line_pixel_cache;
        let ghost g_em = self.state.eye_protection_mask;
        let ghost g_pm = self.state.negative_space_mask;
        let ghost g_pen = self.state.config.negative_space_penalty as int;
        let ghost g_size = self.state.config.image_size as int;
        let ghost g_n = self.state.config.num_nails as int;
        let ghost g_cells0 = self.state.residual_image.cells();
        let ghost g_d = line_darkness as int;
        let ghost g_m = min_improvement_score as int;
        let mut start: Vec<usize> = Vec::new();
        start.push(0);
        self.state.path = start;
        proof {
            assert(path_view(self.state.path@) =~= seq![0int]);
        }
        let mut current_nail: usize = 0;
        let mut consecutive_failures: u32 = 0;
        let mut iteration: usize = 0;
        while iteration < num_lines && consecutive_failures < 3
            invariant
                self.state.wf(),
                self.state.config == old(self).state.config,
                self.state.target_image == old(self).state.target_image,
                self.state.nail_coords == old(self).state.nail_coords,
                self.state.eye_regions == old(self).state.eye_regions,
                self.state.eye_protection_mask == old(self).state.eye_protection_mask,
                self.state.negative_space_mask == old(self).state.negative_space_mask,
                self.state.line_pixel_cache == old(self).state.line_pixel_cache,
                g_cache == old(self).state.line_pixel_cache,
                g_em == old(self).state.eye_protection_mask,
                g_pm == old(self).state.negative_space_mask,
                g_pen == old(self).state.config.negative_space_penalty as int,
                g_size == old(self).state.config.image_size as int,
                g_n == old(self).state.config.num_nails as int,
                g_cells0 == old(self).state.residual_image.cells(),
                g_d == line_darkness as int,
                g_m == min_improvement_score as int,
                iteration <= num_lines,
                consecutive_failures <= 3,
                self.state.path@.len() >= 1,
                current_nail < self.state.config.num_nails,
                current_nail as int == path_view(self.state.path@)[self.state.path@.len() - 1],
                run_from(
                    g_cache,
                    g_em,
                    g_pm,
                    g_pen,
                    g_size,
                    g_n,
                    g_cells0,
                    seq![0int],
                    g_d,
                    g_m,
                    num_lines as nat,
                    0,
                ) == run_from(
                    g_cache,
                    g_em,
                    g_pm,
                    g_pen,
                    g_size,
                    g_n,
                    self.state.residual_image.cells(),
                    path_view(self.state.path@),
                    g_d,
                    g_m,
                    (num_lines - iteration) as nat,
                    consecutive_failures as int,
                ),
            decreases num_lines - iteration,
        {
            let ghost cells_before = self.state.residual_image.cells();
            let ghost pv_before = path_view(self.state.path@);
            match self.find_best_next_nail(current_nail, min_improvement_score) {
                Some((best_next_nail, _max_score)) => {
                    proof {
                        lemma_best_from_props(
                            g_cache,
                            g_em,
                            g_pm,
                            g_pen,
                            g_size,
                            g_n,
                            cells_before,
                            current_nail as int,
                            g_m,
                            0,
                        );
                    }
                    let pixels = self.state.line_pixel_cache.get(current_nail, best_next_nail);
                    proof {
                        lemma_coords_roundtrip(pixels@);
                    }
                    apply_line_darkness_from_pixels(
                        &mut self.state.residual_image,
                        pixels,
                        line_darkness,
                    );
                    current_nail = best_next_nail;
                    self.state.path.push(best_next_nail);
                    consecutive_failures = 0;
                    proof {
                        assert(path_view(self.state.path@) =~= pv_before.push(
                            best_next_nail as int,
                        ));
                        assert(run_from(
                            g_cache,
                            g_em,
                            g_pm,
                            g_pen,
                            g_size,
                            g_n,
                            cells_before,
                            pv_before,
                            g_d,
                            g_m,
                            (num_lines - iteration) as nat,
                            consecutive_failures as int,
                        ) == run_from(
                            g_cache,
                            g_em,
                            g_pm,
                            g_pen,
                            g_size,
                            g_n,
                            self.state.residual_image.cells(),
                            path_view(self.state.path@),
                            g_d,
                            g_m,
                            (num_lines - iteration - 1) as nat,
                            0,
                        ));
                    }
                },
                None => {
                    consecutive_failures = consecutive_failures + 1;
                },
            }
            iteration = iteration + 1;
        }
        proof {
            assert(run_from(
                g_cache,
                g_em,
                g_pm,
                g_pen,
                g_size,
                g_n,
                self.state.residual_image.cells(),
                path_view(self.state.path@),
                g_d,
                g_m,
                (num_lines - iteration) as nat,
                consecutive_failures as int,
            ) == (self.state.residual_image.cells(), path_view(self.state.path@)));
        }
        if self.state.path.len() <= 1 {
            return Err(
                StringArtError::PathGenerationFailed {
                    reason: String::from_str("no valid lines could be generated"),
                },
            );
        }
        let out = copy_path(&self.state.path);
        Ok(out)
    }

}

impl GreedyGenerator {
    /// The current path.
    pub fn get_path(&self) -> (r: &Vec<usize>)
        ensures
            r@ == self.state.path@,
    {
        &self.state.path
    }

    /// The nail coordinates.
    pub fn get_nail_coords(&self) -> (r: &Vec<Coord>)
        ensures
            r@ == self.state.nail_coords@,
    {
        &self.state.nail_coords
    }

    /// The residual image.
    pub fn get_residual_image(&self) -> (r: &crate::grid::PixelGrid)
        ensures
            r == &self.state.residual_image,
    {
        &self.state.residual_image
    }
}


impl GreedyGenerator {
    /// Reset the path to its canonical start at nail 0.
    pub fn begin_path(&mut self)
        requires
            old(self).state.wf(),
            old(self).state.config.num_nails >= 1,
        ensures
            final(self).state.wf(),
            final(self).state == (StringArtState { path: final(self).state.path, ..old(self).state }),
            path_view(final(self).state.path@) == seq![0int],
    {
        let mut start: Vec<usize> = Vec::new();
        start.push(0);
        self.state.path = start;
        proof {
            assert(path_view(self.state.path@) =~= seq![0int]);
        }
    }

    /// Run one greedy iteration: score every candidate line from the
    /// current nail, and either commit the winning line's darkness and
    /// append the winning nail, or report that no candidate reached the
    /// improvement threshold, leaving the state untouched.
    pub fn step(&mut self, line_darkness: u32, min_improvement_score: u64) -> (r: Option<
        (usize, u64),
    >)
        requires
            old(self).state.wf(),
            old(self).state.config.num_nails >= 1,
            old(self).state.path@.len() >= 1,
        ensures
            final(self).state.wf(),
            final(self).state.config == old(self).state.config,
            final(self).state.target_image == old(self).state.target_image,
            final(self).state.nail_coords == old(self).state.nail_coords,
            final(self).state.eye_regions == old(self).state.eye_regions,
            final(self).state.eye_protection_mask == old(self).state.eye_protection_mask,
            final(self).state.negative_space_mask == old(self).state.negative_space_mask,
            final(self).state.line_pixel_cache == old(self).state.line_pixel_cache,
            ({
                let c = old(self).state.path@[old(self).state.path@.len() - 1] as int;
                let best = best_from(
                    old(self).state.line_pixel_cache,
                    old(self).state.eye_protection_mask,
                    old(self).state.negative_space_mask,
                    old(self).state.config.negative_space_penalty as int,
                    old(self).state.config.image_size as int,
                    old(self).state.config.num_nails as int,
                    old(self).state.residual_image.cells(),
                    c,
                    min_improvement_score as int,
                    0,
                );
                match r {
                    Option::None => best is None && *final(self) == *old(self),
                    Option::Some((j, sc)) => {
                        &&& best == Option::Some((j as int, sc as int))
                        &&& final(self).state.path@ == old(self).state.path@.push(j)
                        &&& final(self).state.residual_image.cells() == apply_pixels(
                            old(self).state.residual_image.cells(),
                            coords_of(
                                old(self).state.line_pixel_cache.entry(c, j as int),
                            ),
                            line_darkness as int,
                            old(self).state.config.image_size as int,
                            old(self).state.config.image_size as int,
                        )
                    },
                }
            }),
    {
        let current_nail: usize = self.state.path[self.state.path.len() - 1];
        let ghost cells_before = self.state.residual_image.cells();
        match self.find_best_next_nail(current_nail, min_improvement_score) {
            Some((best_next_nail, max_score)) => {
                proof {
                    lemma_best_from_props(
                        self.state.line_pixel_cache,
                        self.state.eye_protection_mask,
                        self.state.negative_space_mask,
                        self.state.config.negative_space_penalty as int,
                        self.state.config.image_size as int,
                        self.state.config.num_nails as int,
                        cells_before,
                        current_nail as int,
                        min_improvement_score as int,
                        0,
                    );
                }
                let pixels = self.state.line_pixel_cache.get(current_nail, best_next_nail);
                proof {
                    lemma_coords_roundtrip(pixels@);
                }
                apply_line_darkness_from_pixels(
                    &mut self.state.residual_image,
                    pixels,
                    line_darkness,
                );
                self.state.path.push(best_next_nail);
                Some((best_next_nail, max_score))
            },
            None => None,
        }
    }
}

} // verus!
