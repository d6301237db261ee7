use vstd::prelude::*;
use crate::sand_graph::NodeIndex;

verus! {

/// Angle ticks in a full turn: half-degree steps, so that the angles of
/// the regular polygons that tile the plane are whole numbers.
pub const FULL_CIRCLE: usize = 720;

/// Interior angle, in ticks, of a regular polygon with `n` sides.
pub open spec fn alpha(n: int) -> int {
    (FULL_CIRCLE as int) / 2 - (FULL_CIRCLE as int) / n
}

/// Sum of the interior angles of the polygons of a tiling code.
pub open spec fn angle_sum(code: Seq<usize>) -> int
    decreases code.len(),
{
    if code.len() == 0 {
        0
    } else {
        angle_sum(code.drop_last()) + alpha(code.last() as int)
    }
}

/// Every polygon of the code has at least three sides.
pub open spec fn sides_ok(code: Seq<usize>) -> bool {
    forall|k: int| 0 <= k < code.len() ==> #[trigger] code[k] >= 3
}

/// The polygons of the code fill a full turn around a vertex.
pub open spec fn valid_code(code: Seq<usize>) -> bool {
    sides_ok(code) && angle_sum(code) == FULL_CIRCLE
}

/// Why a tiling cannot be built.
#[derive(Clone, Debug, PartialEq, Eq)]
pub enum TilingError {
    /// A polygon of the code has fewer than three sides, or the polygons do
    /// not fill a full turn; the offending code is given back.
    IncorrectTilingCode { tiling_code: Vec<usize> },
    /// The polygons around a vertex match no reading of the tiling code.
    ImpossibleVertex,
}

proof fn lemma_alpha_bounds(n: int)
    requires
        n >= 3,
    ensures
        120 <= alpha(n) <= 360,
{
    vstd::arithmetic::div_mod::lemma_div_is_ordered_by_denominator(720, 3, n);
    vstd::arithmetic::div_mod::lemma_div_pos_is_pos(720, n);
}

/// A valid code has at most six polygons.
proof fn lemma_valid_code_len(code: Seq<usize>)
    requires
        sides_ok(code),
    ensures
        angle_sum(code) >= 120 * code.len(),
    decreases code.len(),
{
    if code.len() > 0 {
        assert(sides_ok(code.drop_last())) by {
            assert forall|k: int| 0 <= k < code.drop_last().len() implies #[trigger] code.drop_last()[k] >= 3 by {
                assert(code.drop_last()[k] == code[k]);
            }
        }
        lemma_valid_code_len(code.drop_last());
        lemma_alpha_bounds(code.last() as int);
    }
}

/// Interior angle of a regular polygon with `n` sides.
pub fn interior_angle(n: usize) -> (r: usize)
    requires
        n >= 3,
    ensures
        r == alpha(n as int),
        120 <= r <= 360,
{
    proof {
        lemma_alpha_bounds(n as int);
    }
    FULL_CIRCLE / 2 - FULL_CIRCLE / n
}

/// Whether the tiling code is valid: every polygon has at least three sides
/// and their interior angles sum to a full turn.
pub fn is_valid_code(tiling_code: &Vec<usize>) -> (r: bool)
    ensures
        r == valid_code(tiling_code@),
{
    let mut sum: usize = 0;
    let mut k: usize = 0;
    while k < tiling_code.len()
        invariant
            k <= tiling_code@.len(),
            sides_ok(tiling_code@.take(k as int)),
            sum == angle_sum(tiling_code@.take(k as int)),
            sum <= FULL_CIRCLE,
        decreases tiling_code@.len() - k,
    {
        let n = tiling_code[k];
        if n < 3 {
            proof {
                assert(tiling_code@[k as int] < 3);
            }
            return false;
        }
        let a = interior_angle(n);
        proof {
            assert(tiling_code@.take(k as int + 1).drop_last() =~= tiling_code@.take(k as int));
            assert(sides_ok(tiling_code@.take(k as int + 1))) by {
                assert forall|j: int| 0 <= j < k + 1 implies #[trigger] tiling_code@.take(k as int + 1)[j] >= 3 by {
                    if j < k {
                        assert(tiling_code@.take(k as int)[j] == tiling_code@[j]);
                    }
                }
            }
        }
        sum = sum + a;
        k = k + 1;
        if sum > FULL_CIRCLE {
            proof {
                lemma_angle_sum_prefix_grows(tiling_code@, k as int);
            }
            return false;
        }
    }
    proof {
        assert(tiling_code@.take(k as int) =~= tiling_code@);
    }
    sum == FULL_CIRCLE
}

/// With no polygon of fewer than three sides among its later entries, a
/// code's angle sum is at least that of its prefix.
proof fn lemma_angle_sum_prefix_grows(code: Seq<usize>, k: int)
    requires
        0 <= k <= code.len(),
    ensures
        sides_ok(code) ==> angle_sum(code) >= angle_sum(code.take(k)),
        !sides_ok(code) ==> exists|j: int| 0 <= j < code.len() && #[trigger] code[j] < 3,
    decreases code.len(),
{
    if k == code.len() {
        assert(code.take(k) =~= code);
    } else {
        assert(code.drop_last().take(k) =~= code.take(k));
        lemma_angle_sum_prefix_grows(code.drop_last(), k);
        if sides_ok(code) {
            assert(sides_ok(code.drop_last())) by {
                assert forall|j: int| 0 <= j < code.drop_last().len() implies #[trigger] code.drop_last()[j] >= 3 by {
                    assert(code.drop_last()[j] == code[j]);
                }
            }
            lemma_alpha_bounds(code.last() as int);
        }
    }
}

/// One polygon at a tiling vertex: its side count, its index among the
/// tiling's polygons, and the angle at which it starts around the vertex.
#[derive(Clone, Copy, Debug, PartialEq, Eq, Structural)]
pub struct FigureVertexInfo {
    pub sides_count: usize,
    pub figure_idx: NodeIndex,
    pub angle: usize,
}

impl FigureVertexInfo {
    pub open spec fn wf(&self) -> bool {
        self.sides_count >= 3 && self.angle < FULL_CIRCLE
    }
}

/// The polygons met so far around one tiling vertex, in increasing angle.
#[derive(Debug)]
pub struct VertexFigures {
    pub figures: Vec<FigureVertexInfo>,
    check_for_new_figures: bool,
}

/// Every polygon is well formed and the angles do not decrease.
pub open spec fn figures_wf(figs: Seq<FigureVertexInfo>) -> bool {
    &&& forall|k: int| 0 <= k < figs.len() ==> (#[trigger] figs[k]).wf()
    &&& forall|a: int, b: int| 0 <= a <= b < figs.len() ==> #[trigger] figs[a].angle <= #[trigger] figs[b].angle
}

/// Sum of the interior angles of the polygons around a vertex.
pub open spec fn figures_angle_sum(figs: Seq<FigureVertexInfo>) -> int
    decreases figs.len(),
{
    if figs.len() == 0 {
        0
    } else {
        figures_angle_sum(figs.drop_last()) + alpha(figs.last().sides_count as int)
    }
}

/// Where a polygon starting at `angle` goes: before the first polygon that
/// starts later.
pub open spec fn insert_position(figs: Seq<FigureVertexInfo>, angle: usize, k: int) -> bool {
    &&& 0 <= k <= figs.len()
    &&& forall|j: int| 0 <= j < k ==> #[trigger] figs[j].angle <= angle
    &&& k < figs.len() ==> angle < figs[k].angle
}

/// Whether polygon `i` ends short of where the next one around the vertex
/// starts, leaving a gap still to be filled.
pub open spec fn gap_after(figs: Seq<FigureVertexInfo>, i: int) -> bool {
    (figs[i].angle + alpha(figs[i].sides_count as int)) % (FULL_CIRCLE as int)
        != figs[(i + 1) % (figs.len() as int)].angle as int % (FULL_CIRCLE as int)
}

/// `text` reads as the polygons from `i` on, each gap standing for one or
/// more further polygons.
pub open spec fn matches_from(figs: Seq<FigureVertexInfo>, i: int, text: Seq<usize>) -> bool
    decreases figs.len() - i, text.len() + 2,
{
    if i >= figs.len() || i < 0 {
        text.len() == 0
    } else {
        &&& text.len() > 0
        &&& text[0] == figs[i].sides_count
        &&& if gap_after(figs, i) {
            gap_from(figs, i, text, 1)
        } else {
            matches_from(figs, i + 1, text.skip(1))
        }
    }
}

/// After polygon `i` at the head of `text`, some gap of `k` or more
/// polygons is followed by a reading of the polygons after `i`.
pub open spec fn gap_from(figs: Seq<FigureVertexInfo>, i: int, text: Seq<usize>, k: int) -> bool
    decreases figs.len() - i, 1int + text.len() - k,
{
    if i >= figs.len() || i < 0 || k < 1 || 1 + k > text.len() {
        false
    } else {
        matches_from(figs, i + 1, text.skip(1 + k)) || gap_from(figs, i, text, k + 1)
    }
}

/// The `k`-th reading of a code: turned right by `k` places, and for `k`
/// from the code's length on, the reversed code turned by `k - len`.
pub open spec fn candidate(code: Seq<usize>, k: int) -> Seq<usize> {
    let n = code.len() as int;
    if k < n {
        Seq::new(n as nat, |t: int| code[(t - k + n) % n])
    } else {
        Seq::new(n as nat, |t: int| code[n - 1 - (t - (k - n) + n) % n])
    }
}

/// The first reading from `k` on that the polygons match, if any.
pub open spec fn first_match(figs: Seq<FigureVertexInfo>, code: Seq<usize>, k: int) -> Option<int>
    decreases 2 * code.len() - k,
{
    if k >= 2 * code.len() || k < 0 {
        None
    } else if matches_from(figs, 0, candidate(code, k)) {
        Some(k)
    } else {
        first_match(figs, code, k + 1)
    }
}

/// The polygons of reading `c` still missing around the vertex, as
/// (angle, sides) pairs, walking from `angle` with `j` polygons already met.
pub open spec fn missing_from(figs: Seq<FigureVertexInfo>, c: Seq<usize>, i: int, angle: int, j: int) -> Seq<(usize, usize)>
    decreases c.len() - i,
{
    if i >= c.len() || i < 0 {
        Seq::empty()
    } else if j < figs.len() && angle == figs[j].angle {
        missing_from(figs, c, i + 1, angle + alpha(c[i] as int), j + 1)
    } else {
        seq![(angle as usize, c[i])] + missing_from(figs, c, i + 1, angle + alpha(c[i] as int), j)
    }
}

/// What completing the vertex asks for: `None` when no reading of the code
/// matches; no polygon when two matching readings disagree; else the
/// missing polygons of the first matching reading, in angular order.
pub open spec fn completion(figs: Seq<FigureVertexInfo>, code: Seq<usize>) -> Option<Seq<(usize, usize)>> {
    match first_match(figs, code, 0) {
        None => None,
        Some(k) => if exists|k2: int| 0 <= k2 < 2 * code.len() && matches_from(figs, 0, #[trigger] candidate(code, k2))
            && candidate(code, k2) != candidate(code, k) {
            Some(Seq::empty())
        } else {
            Some(missing_from(figs, candidate(code, k), 0, figs[0].angle as int, 0))
        },
    }
}

/// Whether polygon `i` leaves a gap before the next one around the vertex.
fn gap_after_exec(figs: &Vec<FigureVertexInfo>, i: usize) -> (r: bool)
    requires
        figures_wf(figs@),
        i < figs@.len() < usize::MAX,
    ensures
        r == gap_after(figs@, i as int),
{
    assert(figs@[i as int].wf());
    let next = (i + 1) % figs.len();
    assert(figs@[next as int].wf());
    (figs[i].angle + interior_angle(figs[i].sides_count)) % FULL_CIRCLE != figs[next].angle % FULL_CIRCLE
}

/// Whether `text` from `start` on reads as the polygons from `i` on.
fn matches_at(figs: &Vec<FigureVertexInfo>, i: usize, text: &Vec<usize>, start: usize) -> (r: bool)
    requires
        figures_wf(figs@),
        i <= figs@.len() < usize::MAX,
        start <= text@.len() < usize::MAX,
    ensures
        r == matches_from(figs@, i as int, text@.skip(start as int)),
    decreases figs@.len() - i,
{
    let ghost rest = text@.skip(start as int);
    if i >= figs.len() {
        return start == text.len();
    }
    if start >= text.len() {
        return false;
    }
    assert(rest.len() == text@.len() - start);
    assert(rest[0] == text@[start as int]);

    if text[start] != figs[i].sides_count {
        return false;
    }
    if gap_after_exec(figs, i) {
        let mut k: usize = text.len() - start;
        let mut found = false;
        proof {
            assert(!gap_from(figs@, i as int, rest, k as int));
        }
        while k > 1
            invariant
                figures_wf(figs@),
                i < figs@.len() < usize::MAX,
                start < text@.len() < usize::MAX,
                rest == text@.skip(start as int),
                rest.len() == text@.len() - start,
                1 <= k <= rest.len(),
                found == gap_from(figs@, i as int, rest, k as int),
            decreases k,
        {
            k = k - 1;
            let here = matches_at(figs, i + 1, text, start + 1 + k);
            proof {
                assert(rest.skip(1 + k) =~= text@.skip(start + 1 + k));
            }
            found = here || found;
        }
        found
    } else {
        let r = matches_at(figs, i + 1, text, start + 1);
        proof {
            assert(rest.skip(1) =~= text@.skip(start + 1));
        }
        r
    }
}

/// Every entry of a reading of the code is an entry of the code.
proof fn lemma_candidate_entries(code: Seq<usize>, k: int, t: int)
    requires
        code.len() > 0,
        0 <= k < 2 * code.len(),
        0 <= t < code.len(),
    ensures
        exists|m: int| 0 <= m < code.len() && #[trigger] code[m] == candidate(code, k)[t],
{
    let n = code.len() as int;
    if k < n {
        vstd::arithmetic::div_mod::lemma_mod_bound(t - k + n, n);
        let m = (t - k + n) % n;
        assert(code[m] == candidate(code, k)[t]);
    } else {
        vstd::arithmetic::div_mod::lemma_mod_bound(t - (k - n) + n, n);
        let m = n - 1 - (t - (k - n) + n) % n;
        assert(code[m] == candidate(code, k)[t]);
    }
}

/// The `k`-th reading of the code.
fn build_candidate(code: &Vec<usize>, k: usize) -> (r: Vec<usize>)
    requires
        0 < code@.len() <= 6,
        k < 2 * code@.len(),
    ensures
        r@ == candidate(code@, k as int),
{
    let n = code.len();
    let mut r: Vec<usize> = Vec::new();
    let mut t: usize = 0;
    while t < n
        invariant
            n == code@.len(),
            0 < n <= 6,
            k < 2 * n,
            t <= n,
            r@ =~= candidate(code@, k as int).take(t as int),
        decreases n - t,
    {
        let idx: usize = if k < n { (t + n - k) % n } else { n - 1 - (t + n - (k - n)) % n };
        proof {
            vstd::arithmetic::div_mod::lemma_mod_bound(t + n - k, n as int);
            vstd::arithmetic::div_mod::lemma_mod_bound(t + n - (k - n), n as int);
        }
        r.push(code[idx]);
        t = t + 1;
    }
    r
}

/// Whether two sequences are equal.
fn same_seq(a: &Vec<usize>, b: &Vec<usize>) -> (r: bool)
    ensures
        r == (a@ == b@),
{
    if a.len() != b.len() {
        return false;
    }
    let mut t: usize = 0;
    while t < a.len()
        invariant
            a@.len() == b@.len(),
            t <= a@.len(),
            forall|j: int| 0 <= j < t ==> a@[j] == b@[j],
        decreases a@.len() - t,
    {
        if a[t] != b[t] {
            return false;
        }
        t = t + 1;
    }
    proof {
        assert(a@ =~= b@);
    }
    true
}

/// `first_match` from `k` finds the first matching reading at or after `k`.
proof fn lemma_first_match(figs: Seq<FigureVertexInfo>, code: Seq<usize>, k: int, f: Option<int>)
    requires
        0 <= k <= 2 * code.len(),
        f is None ==> forall|k2: int| k <= k2 < 2 * code.len() ==> !#[trigger] matches_from(figs, 0, candidate(code, k2)),
        f is Some ==> {
            &&& k <= f->0 < 2 * code.len()
            &&& matches_from(figs, 0, candidate(code, f->0))
            &&& forall|k2: int| k <= k2 < f->0 ==> !#[trigger] matches_from(figs, 0, candidate(code, k2))
        },
    ensures
        first_match(figs, code, k) == f,
    decreases 2 * code.len() - k,
{
    if k < 2 * code.len() {
        if f is Some && f->0 == k {
        } else {
            lemma_first_match(figs, code, k + 1, f);
        }
    }
}

impl VertexFigures {
    pub closed spec fn checking(&self) -> bool {
        self.check_for_new_figures
    }

    /// The polygons met so far, in increasing angle.
    pub closed spec fn figs(&self) -> Seq<FigureVertexInfo> {
        self.figures@
    }

    pub open spec fn wf(&self) -> bool {
        figures_wf(self.figs()) && self.figs().len() < usize::MAX
    }

    /// No polygon yet.
    pub fn new() -> (r: Self)
        ensures
            r.wf(),
            r.figs().len() == 0,
            r.checking(),
    {
        VertexFigures { figures: Vec::new(), check_for_new_figures: true }
    }

    /// How many polygons meet at the vertex so far.
    pub fn figures_count(&self) -> (r: usize)
        ensures
            r == self.figs().len(),
    {
        self.figures.len()
    }

    /// The `i`-th polygon around the vertex, in angle order.
    pub fn figure(&self, i: usize) -> (r: FigureVertexInfo)
        requires
            i < self.figs().len(),
        ensures
            r == self.figs()[i as int],
    {
        self.figures[i]
    }

    /// Whether the polygons fill the full turn around the vertex.
    pub fn is_complete(&self) -> (r: bool)
        requires
            self.wf(),
        ensures
            r == (figures_angle_sum(self.figs()) == FULL_CIRCLE),
    {
        let mut angles_sum: usize = 0;
        let mut k: usize = 0;
        while k < self.figures.len()
            invariant
                self.wf(),
                k <= self.figures@.len(),
                angles_sum == figures_angle_sum(self.figures@.take(k as int)),
                angles_sum <= 360 * k,
            decreases self.figures@.len() - k,
        {
            assert(self.figures@[k as int].wf());
            let a = interior_angle(self.figures[k].sides_count);
            proof {
                assert(self.figures@.take(k as int + 1).drop_last() =~= self.figures@.take(k as int));
            }
            if angles_sum > FULL_CIRCLE {
                proof {
                    lemma_figures_angle_sum_grows(self.figures@, k as int);
                }
                return false;
            }
            angles_sum = angles_sum + a;
            k = k + 1;
        }
        proof {
            assert(self.figures@.take(k as int) =~= self.figures@);
        }
        angles_sum == FULL_CIRCLE
    }

    /// Adds a polygon before the first one that starts at a greater angle,
    /// so that the angles stay in order; completion is to be checked again.
    pub fn add(&mut self, figure: FigureVertexInfo)
        requires
            old(self).wf(),
            old(self).figs().len() + 1 < usize::MAX,
            figure.wf(),
        ensures
            final(self).wf(),
            final(self).checking(),
            exists|k: int| #[trigger] insert_position(old(self).figs(), figure.angle, k)
                && final(self).figs() == old(self).figs().insert(k, figure),
    {
        self.check_for_new_figures = true;
        let mut i: usize = 0;
        while i < self.figures.len() && self.figures[i].angle <= figure.angle
            invariant
                i <= self.figures@.len(),
                self.figures == old(self).figures,
                forall|j: int| 0 <= j < i ==> #[trigger] self.figures@[j].angle <= figure.angle,
            decreases self.figures@.len() - i,
        {
            i = i + 1;
        }
        let ghost figs = self.figures@;
        self.figures.insert(i, figure);
        proof {
            assert(insert_position(figs, figure.angle, i as int));
            let n = self.figures@;
            assert forall|k: int| 0 <= k < n.len() implies (#[trigger] n[k]).wf() by {
                if k < i { assert(n[k] == figs[k]); } else if k > i { assert(n[k] == figs[k - 1]); }
            }
            assert forall|a: int, b: int| 0 <= a <= b < n.len() implies #[trigger] n[a].angle <= #[trigger] n[b].angle by {
                if a < i { assert(n[a] == figs[a]); } else if a > i { assert(n[a] == figs[a - 1]); }
                if b < i { assert(n[b] == figs[b]); } else if b > i { assert(n[b] == figs[b - 1]); }
                if a == i && b > i {
                    assert(figs[i as int].angle <= figs[b - 1].angle);
                }
            }
        }
    }

    /// The polygons still to place around this vertex so that it reads as
    /// the tiling code, as (angle, sides) pairs in angular order; see
    /// `completion`. Nothing is asked when the vertex already holds as many
    /// polygons as the code, or when nothing was added since the last call.
    /// No reading of the code fitting the polygons is an error.
    pub fn new_figures(&mut self, tiling_code: &Vec<usize>) -> (r: Result<Vec<(usize, usize)>, TilingError>)
        requires
            old(self).wf(),
            valid_code(tiling_code@),
        ensures
            final(self).figs() == old(self).figs(),
            final(self).wf(),
            old(self).figs().len() == tiling_code@.len() || !old(self).checking() ==> {
                &&& final(self).checking() == old(self).checking()
                &&& r is Ok && r->Ok_0@.len() == 0
            },
            !(old(self).figs().len() == tiling_code@.len() || !old(self).checking()) ==> {
                &&& !final(self).checking()
                &&& match r {
                    Ok(v) => completion(old(self).figs(), tiling_code@) == Some(v@),
                    Err(e) => completion(old(self).figs(), tiling_code@) is None && e == TilingError::ImpossibleVertex,
                }
            },
    {
        if self.figures.len() == tiling_code.len() || !self.check_for_new_figures {
            let empty: Vec<(usize, usize)> = Vec::new();
            assert(empty@.len() == 0);
            return Ok(empty);
        }
        self.check_for_new_figures = false;
        proof {
            lemma_valid_code_len(tiling_code@);
        }
        let ghost figs = self.figures@;
        let ghost code = tiling_code@;
        let n = tiling_code.len();
        let mut first: Option<usize> = None;
        let mut first_cand: Vec<usize> = Vec::new();
        let mut k: usize = 0;
        while k < 2 * n
            invariant
                figs == self.figures@,
                self.figures@ == old(self).figures@,
                !self.check_for_new_figures,
                old(self).check_for_new_figures,
                old(self).figures@.len() != tiling_code@.len(),
                figures_wf(figs),
                code == tiling_code@,
                n == code.len(),
                0 < n <= 6,
                figs.len() < usize::MAX,
                k <= 2 * n,
                first is None ==> forall|k2: int| 0 <= k2 < k ==> !#[trigger] matches_from(figs, 0, candidate(code, k2)),
                first is Some ==> {
                    &&& first->0 < k
                    &&& matches_from(figs, 0, candidate(code, first->0 as int))
                    &&& first_cand@ == candidate(code, first->0 as int)
                    &&& forall|k2: int| 0 <= k2 < first->0 ==> !#[trigger] matches_from(figs, 0, candidate(code, k2))
                    &&& forall|k2: int| 0 <= k2 < k && matches_from(figs, 0, #[trigger] candidate(code, k2))
                        ==> candidate(code, k2) == candidate(code, first->0 as int)
                },
            decreases 2 * n - k,
        {
            let cand = build_candidate(tiling_code, k);
            if matches_at(&self.figures, 0, &cand, 0) {
                proof {
                    assert(cand@.skip(0) =~= cand@);
                }
                match first {
                    None => {
                        first = Some(k);
                        first_cand = cand;
                    },
                    Some(f) => {
                        if !same_seq(&cand, &first_cand) {
                            proof {
                                lemma_first_match(figs, code, 0, Some(f as int));
                                assert(matches_from(figs, 0, candidate(code, k as int))
                                    && candidate(code, k as int) != candidate(code, f as int));
                            }
                            let empty: Vec<(usize, usize)> = Vec::new();
                            assert(empty@ =~= Seq::<(usize, usize)>::empty());
                            return Ok(empty);
                        }
                    },
                }
            } else {
                proof {
                    assert(cand@.skip(0) =~= cand@);
                }
            }
            k = k + 1;
        }
        match first {
            None => {
                proof {
                    lemma_first_match(figs, code, 0, None);
                }
                Err(TilingError::ImpossibleVertex)
            },
            Some(f) => {
                proof {
                    lemma_first_match(figs, code, 0, Some(f as int));
                    assert(figs.len() > 0) by {
                        if figs.len() == 0 {
                            assert(candidate(code, f as int).len() == 0);
                        }
                    }
                }
                let missing = missing_figures(&self.figures, &first_cand, tiling_code, f);
                Ok(missing)
            },
        }
    }
}

/// The polygons of reading `c` not yet around the vertex, walking around
/// from the first polygon's angle.
fn missing_figures(figs: &Vec<FigureVertexInfo>, c: &Vec<usize>, code: &Vec<usize>, f: usize) -> (r: Vec<(usize, usize)>)
    requires
        figures_wf(figs@),
        figs@.len() > 0,
        valid_code(code@),
        0 < code@.len() <= 6,
        f < 2 * code@.len(),
        c@ == candidate(code@, f as int),
    ensures
        r@ == missing_from(figs@, c@, 0, figs@[0].angle as int, 0),
{
    assert(figs@[0].wf());
    let ghost a0 = figs@[0].angle as int;
    let mut result: Vec<(usize, usize)> = Vec::new();
    let mut angle: usize = figs[0].angle;
    let mut j: usize = 0;
    let mut i: usize = 0;
    while i < c.len()
        invariant
            figures_wf(figs@),
            c@ == candidate(code@, f as int),
            valid_code(code@),
            0 < code@.len() <= 6,
            f < 2 * code@.len(),
            c@.len() == code@.len(),
            i <= c@.len(),
            angle <= a0 + 360 * i,
            a0 < FULL_CIRCLE,
            result@ + missing_from(figs@, c@, i as int, angle as int, j as int) == missing_from(figs@, c@, 0, a0, 0),
        decreases c@.len() - i,
    {
        proof {
            lemma_candidate_entries(code@, f as int, i as int);
        }
        let a = interior_angle(c[i]);
        let ghost before = result@;
        if j < figs.len() && angle == figs[j].angle {
            j = j + 1;
        } else {
            result.push((angle, c[i]));
            proof {
                assert(result@ + missing_from(figs@, c@, i + 1, angle + a, j as int)
                    =~= before + missing_from(figs@, c@, i as int, angle as int, j as int));
            }
        }
        angle = angle + a;
        i = i + 1;
    }
    proof {
        assert(result@ + Seq::<(usize, usize)>::empty() =~= result@);
    }
    result
}

proof fn lemma_figures_angle_sum_grows(figs: Seq<FigureVertexInfo>, k: int)
    requires
        0 <= k <= figs.len(),
        forall|j: int| 0 <= j < figs.len() ==> (#[trigger] figs[j]).wf(),
    ensures
        figures_angle_sum(figs) >= figures_angle_sum(figs.take(k)),
    decreases figs.len(),
{
    if k == figs.len() {
        assert(figs.take(k) =~= figs);
    } else {
        assert(figs.drop_last().take(k) =~= figs.take(k));
        assert forall|j: int| 0 <= j < figs.drop_last().len() implies (#[trigger] figs.drop_last()[j]).wf() by {
            assert(figs.drop_last()[j] == figs[j]);
        }
        lemma_figures_angle_sum_grows(figs.drop_last(), k);
        assert(figs[figs.len() - 1].wf());
        lemma_alpha_bounds(figs.last().sides_count as int);
    }
}

} // verus!
