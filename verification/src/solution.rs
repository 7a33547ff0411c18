//! Solver answers: the placement list parsed from solver output, the
//! pairwise overlap validator, and the evaluator that computes the
//! bounding box and fill metrics.

use vstd::prelude::*;
use crate::geometry::{
    Rectangle, Point, Placement, Rotation, rect_area, extent_w, extent_h, placement_wf,
    spec_overlaps, pairwise_disjoint, lemma_same_anchor_overlaps, lemma_rect_area_fits_u64,
};
use crate::problem::{
    Problem, ProblemModel, Variant, spec_parse_problem, protocol_lines, sum_areas,
    parse_problem_chars, split_protocol_lines,
};
use crate::codec::{
    tokens, parse_u32_tok, spec_find, spec_trim, chars_of, tokenize, parse_u32_vec, find_sub,
    trim, subvec, char_vec_eq_str, string_from_chars,
};
use crate::error::PacktError;

verus! {

/// A solver's answer to a problem: the policies and placement list read
/// from its output, and, once attached, the problem it answers.
#[derive(Clone, Debug)]
pub struct Solution {
    pub variant: Variant,
    pub allow_rotation: bool,
    pub source: Option<Problem>,
    pub placements: Vec<Placement>,
}

/// The mathematical view of a solution.
#[verifier::ext_equal]
pub struct SolutionModel {
    pub variant: Variant,
    pub allow_rotation: bool,
    pub source: Option<ProblemModel>,
    pub placements: Seq<Placement>,
}

impl View for Solution {
    type V = SolutionModel;

    open spec fn view(&self) -> SolutionModel {
        SolutionModel {
            variant: self.variant,
            allow_rotation: self.allow_rotation,
            source: match self.source {
                Some(p) => Some(p@),
                None => None,
            },
            placements: self.placements@,
        }
    }
}

impl PartialEq for Solution {
    fn eq(&self, other: &Solution) -> (r: bool) {
        if self.variant != other.variant || self.allow_rotation != other.allow_rotation {
            return false;
        }
        let same_source = match (&self.source, &other.source) {
            (Some(a), Some(b)) => a == b,
            (None, None) => true,
            _ => false,
        };
        if !same_source {
            return false;
        }
        if self.placements.len() != other.placements.len() {
            return false;
        }
        let mut i: usize = 0;
        while i < self.placements.len()
            invariant
                i <= self.placements@.len(),
                self.placements@.len() == other.placements@.len(),
                forall|j: int| 0 <= j < i ==> self.placements@[j] == other.placements@[j],
            decreases self.placements@.len() - i,
        {
            if self.placements[i] != other.placements[i] {
                return false;
            }
            i = i + 1;
        }
        proof {
            assert(self.placements@ =~= other.placements@);
        }
        true
    }
}

impl vstd::std_specs::cmp::PartialEqSpecImpl for Solution {
    open spec fn obeys_eq_spec() -> bool {
        true
    }

    open spec fn eq_spec(&self, other: &Solution) -> bool {
        self@ == other@
    }
}

/// A rectangle placed at a parsed position, when the placement is
/// representable: the rotated extents are positive and the box,
/// including the cell past its top-right corner, fits the coordinate
/// type.
pub open spec fn spec_make_placement(r: Rectangle, rot: Rotation, x: int, y: int) -> Option<
    Placement,
> {
    if 0 <= x && 0 <= y && extent_w(r, rot) >= 1 && extent_h(r, rot) >= 1 && x + extent_w(
        r,
        rot,
    ) <= u32::MAX && y + extent_h(r, rot) <= u32::MAX {
        Some(
            Placement {
                rectangle: r,
                rotation: rot,
                bottom_left: Point { x: x as u32, y: y as u32 },
                top_right: Point {
                    x: (x + extent_w(r, rot) - 1) as u32,
                    y: (y + extent_h(r, rot) - 1) as u32,
                },
            },
        )
    } else {
        None
    }
}

/// Reads one placement line for a rectangle: two numeric tokens when
/// rotation is disallowed, a rotation token and two numbers when it is
/// allowed.
pub open spec fn spec_parse_placement_line(l: Seq<char>, r: Rectangle, allow_rotation: bool)
    -> Option<Placement> {
    let ts = tokens(l);
    if !allow_rotation && ts.len() == 2 && parse_u32_tok(ts[0]) is Some && parse_u32_tok(
        ts[1],
    ) is Some {
        spec_make_placement(
            r,
            Rotation::Normal,
            parse_u32_tok(ts[0]).unwrap(),
            parse_u32_tok(ts[1]).unwrap(),
        )
    } else if allow_rotation && ts.len() == 3 && (ts[0] == "yes"@ || ts[0] == "no"@)
        && parse_u32_tok(ts[1]) is Some && parse_u32_tok(ts[2]) is Some {
        spec_make_placement(
            r,
            if ts[0] == "yes"@ {
                Rotation::Rotated
            } else {
                Rotation::Normal
            },
            parse_u32_tok(ts[1]).unwrap(),
            parse_u32_tok(ts[2]).unwrap(),
        )
    } else {
        None
    }
}

/// Reads the first `rs.len()` placement lines, one per rectangle, in
/// order; lines beyond the rectangle count are never read.
pub open spec fn spec_parse_placement_seq(
    ls: Seq<Seq<char>>,
    rs: Seq<Rectangle>,
    allow_rotation: bool,
) -> Option<Seq<Placement>>
    decreases rs.len(),
{
    if rs.len() == 0 {
        Some(Seq::empty())
    } else {
        match (
            spec_parse_placement_seq(ls, rs.drop_last(), allow_rotation),
            spec_parse_placement_line(ls[rs.len() - 1], rs.last(), allow_rotation),
        ) {
            (Some(ps), Some(p)) => Some(ps.push(p)),
            _ => None,
        }
    }
}

/// Reads the placement block against a problem's rectangles: exactly
/// one line per rectangle. Any count mismatch, lines missing or lines
/// left over, fails the parse.
pub open spec fn spec_parse_placements(
    ls: Seq<Seq<char>>,
    rs: Seq<Rectangle>,
    allow_rotation: bool,
) -> Option<Seq<Placement>> {
    if ls.len() != rs.len() {
        None
    } else {
        spec_parse_placement_seq(ls, rs, allow_rotation)
    }
}

/// Reads a whole solution text: the problem part before the literal
/// separator, then one placement line per rectangle between the first
/// separator and the next occurrence or the end. A parsed solution has
/// no problem attached yet.
pub open spec fn spec_parse_solution(s: Seq<char>) -> Option<SolutionModel> {
    let sep = "placement of rectangles"@;
    match spec_find(s, sep) {
        None => None,
        Some(i) => {
            let part1 = spec_trim(s.take(i));
            let rest = s.skip(i + sep.len());
            let part2 = spec_trim(
                match spec_find(rest, sep) {
                    Some(j) => rest.take(j),
                    None => rest,
                },
            );
            match spec_parse_problem(part1) {
                None => None,
                Some(pm) => match spec_parse_placements(
                    protocol_lines(part2),
                    pm.rectangles,
                    pm.allow_rotation,
                ) {
                    Some(ps) => Some(
                        SolutionModel {
                            variant: pm.variant,
                            allow_rotation: pm.allow_rotation,
                            source: None,
                            placements: ps,
                        },
                    ),
                    None => None,
                },
            }
        },
    }
}

/// Every placement a parse accepts is well-formed and leaves room for
/// the exclusive corner.
pub open spec fn placements_bounded(ps: Seq<Placement>) -> bool {
    forall|k: int|
        0 <= k < ps.len() ==> placement_wf(#[trigger] ps[k]) && ps[k].top_right.x < u32::MAX
            && ps[k].top_right.y < u32::MAX
}

/// A placement the parser built is well-formed and bounded.
proof fn lemma_make_placement_bounded(r: Rectangle, rot: Rotation, x: int, y: int)
    requires
        spec_make_placement(r, rot, x, y) is Some,
    ensures
        placement_wf(spec_make_placement(r, rot, x, y).unwrap()),
        spec_make_placement(r, rot, x, y).unwrap().top_right.x < u32::MAX,
        spec_make_placement(r, rot, x, y).unwrap().top_right.y < u32::MAX,
{
}

/// Every placement list a parse accepts is bounded.
proof fn lemma_parsed_placements_bounded(
    ls: Seq<Seq<char>>,
    rs: Seq<Rectangle>,
    allow_rotation: bool,
)
    requires
        spec_parse_placement_seq(ls, rs, allow_rotation) is Some,
    ensures
        placements_bounded(spec_parse_placement_seq(ls, rs, allow_rotation).unwrap()),
        spec_parse_placement_seq(ls, rs, allow_rotation).unwrap().len() == rs.len(),
    decreases rs.len(),
{
    if rs.len() > 0 {
        lemma_parsed_placements_bounded(ls, rs.drop_last(), allow_rotation);
        let line = spec_parse_placement_line(ls[rs.len() - 1], rs.last(), allow_rotation);
        let ts = tokens(ls[rs.len() - 1]);
        if !allow_rotation {
            lemma_make_placement_bounded(
                rs.last(),
                Rotation::Normal,
                parse_u32_tok(ts[0]).unwrap(),
                parse_u32_tok(ts[1]).unwrap(),
            );
        } else {
            lemma_make_placement_bounded(
                rs.last(),
                if ts[0] == "yes"@ {
                    Rotation::Rotated
                } else {
                    Rotation::Normal
                },
                parse_u32_tok(ts[1]).unwrap(),
                parse_u32_tok(ts[2]).unwrap(),
            );
        }
    }
}

/// A parse failure at one placement line fails the whole list.
proof fn lemma_placement_lines_fail(
    ls: Seq<Seq<char>>,
    rs: Seq<Rectangle>,
    allow_rotation: bool,
    k: int,
)
    requires
        0 <= k < rs.len(),
        spec_parse_placement_line(ls[k], rs[k], allow_rotation) is None,
    ensures
        spec_parse_placement_seq(ls, rs, allow_rotation) is None,
    decreases rs.len(),
{
    if k < rs.len() - 1 {
        assert(rs.drop_last()[k] == rs[k]);
        lemma_placement_lines_fail(ls, rs.drop_last(), allow_rotation, k);
    }
}

/// Builds a placement from parsed values, as `spec_make_placement`
/// describes it.
fn make_placement(r: Rectangle, rot: Rotation, x: u32, y: u32) -> (p: Option<Placement>)
    ensures
        p == spec_make_placement(r, rot, x as int, y as int),
{
    let (w, h): (u32, u32) = match rot {
        Rotation::Normal => (r.width, r.height),
        Rotation::Rotated => (r.height, r.width),
    };
    proof {
        assert(w == extent_w(r, rot));
        assert(h == extent_h(r, rot));
    }
    if w == 0 || h == 0 {
        return None;
    }
    if x as u64 + w as u64 > u32::MAX as u64 || y as u64 + h as u64 > u32::MAX as u64 {
        return None;
    }
    let p = Placement::new(r, rot, Point::new(x, y));
    proof {
        assert(p == spec_make_placement(r, rot, x as int, y as int).unwrap());
    }
    Some(p)
}

/// Reads one placement line, as `spec_parse_placement_line` describes
/// it.
fn parse_placement_line(l: &Vec<char>, r: Rectangle, allow_rotation: bool) -> (p: Option<
    Placement,
>)
    ensures
        p == spec_parse_placement_line(l@, r, allow_rotation),
{
    let ts = tokenize(l);
    if !allow_rotation {
        if ts.len() != 2 {
            return None;
        }
        let x = match parse_u32_vec(&ts[0]) {
            Some(x) => x,
            None => {
                return None;
            },
        };
        let y = match parse_u32_vec(&ts[1]) {
            Some(y) => y,
            None => {
                return None;
            },
        };
        make_placement(r, Rotation::Normal, x, y)
    } else {
        if ts.len() != 3 {
            return None;
        }
        let rot = if char_vec_eq_str(&ts[0], "yes") {
            Rotation::Rotated
        } else if char_vec_eq_str(&ts[0], "no") {
            Rotation::Normal
        } else {
            return None;
        };
        let x = match parse_u32_vec(&ts[1]) {
            Some(x) => x,
            None => {
                return None;
            },
        };
        let y = match parse_u32_vec(&ts[2]) {
            Some(y) => y,
            None => {
                return None;
            },
        };
        make_placement(r, rot, x, y)
    }
}

impl Solution {
    /// Reads a solution from solver output. Returns the parsed solution
    /// exactly when `spec_parse_solution` accepts the text, and a format
    /// error otherwise — in particular when the number of placement
    /// lines differs from the rectangle count in either direction. An
    /// accepted solution has bounded placements, one per rectangle, and
    /// no problem attached yet.
    #[verifier::rlimit(60)]
    pub fn parse(s: &str) -> (r: Result<Solution, PacktError>)
        ensures
            match r {
                Ok(sol) => spec_parse_solution(s@) == Some(sol@) && sol.source is None
                    && placements_bounded(sol.placements@),
                Err(e) => spec_parse_solution(s@) is None && e is FormatError,
            },
    {
        let cs = chars_of(s);
        let sep = chars_of("placement of rectangles");
        let i = match find_sub(&cs, &sep) {
            Some(i) => i,
            None => {
                return Err(PacktError::FormatError(string_from_chars(&cs)));
            },
        };
        proof {
            crate::codec::lemma_spec_find(cs@, sep@);
            assert(crate::codec::match_at(cs@, sep@, i as int));
            assert(i + sep@.len() <= cs@.len());
        }
        let head = subvec(&cs, 0, i);
        let part1 = trim(&head);
        let clen = cs.len();
        proof {
            assert(i + sep@.len() <= clen);
        }
        let rest = subvec(&cs, i + sep.len(), clen);
        let tail = match find_sub(&rest, &sep) {
            Some(j) => {
                proof {
                    crate::codec::lemma_spec_find(rest@, sep@);
                    assert(crate::codec::match_at(rest@, sep@, j as int));
                }
                subvec(&rest, 0, j)
            },
            None => rest,
        };
        let part2 = trim(&tail);
        proof {
            assert(head@ == cs@.take(i as int));
            assert(rest@ == cs@.skip(i + sep@.len()));
        }
        let problem = match parse_problem_chars(&part1) {
            Ok(p) => p,
            Err(_) => {
                return Err(PacktError::FormatError(string_from_chars(&part1)));
            },
        };
        let lines = split_protocol_lines(&part2);
        let ghost pls = protocol_lines(part2@);
        let n = problem.rectangles.len();
        if lines.len() != n {
            return Err(PacktError::FormatError(string_from_chars(&part2)));
        }
        let mut placements: Vec<Placement> = Vec::new();
        let mut k: usize = 0;
        proof {
            assert(problem.rectangles@.take(0) =~= Seq::<Rectangle>::empty());
        }
        while k < n
            invariant
                k <= n,
                n == problem.rectangles@.len(),
                n <= lines@.len(),
                lines@.len() == pls.len(),
                forall|j: int| 0 <= j < pls.len() ==> (#[trigger] lines@[j])@ == pls[j],
                placements@.len() == k,
                spec_parse_placement_seq(
                    pls,
                    problem.rectangles@.take(k as int),
                    problem.allow_rotation,
                ) == Some(placements@),
            decreases n - k,
        {
            let ghost rsk = problem.rectangles@.take(k + 1);
            match parse_placement_line(&lines[k], problem.rectangles[k], problem.allow_rotation) {
                Some(p) => {
                    let ghost prev = placements@;
                    placements.push(p);
                    proof {
                        assert(rsk.drop_last() =~= problem.rectangles@.take(k as int));
                        assert(rsk.last() == problem.rectangles@[k as int]);
                        assert(placements@ =~= prev.push(p));
                    }
                    k = k + 1;
                },
                None => {
                    proof {
                        assert(problem.rectangles@[k as int] == problem.rectangles@.take(
                            n as int,
                        )[k as int]);
                        assert(problem.rectangles@.take(n as int) =~= problem.rectangles@);
                        lemma_placement_lines_fail(
                            pls,
                            problem.rectangles@,
                            problem.allow_rotation,
                            k as int,
                        );
                    }
                    return Err(PacktError::FormatError(string_from_chars(&lines[k])));
                },
            }
        }
        proof {
            assert(problem.rectangles@.take(n as int) =~= problem.rectangles@);
            lemma_parsed_placements_bounded(pls, problem.rectangles@, problem.allow_rotation);
        }
        Ok(
            Solution {
                variant: problem.variant,
                allow_rotation: problem.allow_rotation,
                source: None,
                placements,
            },
        )
    }
}

/// No two placements, taken in index order, overlap.
pub open spec fn spec_valid(ps: Seq<Placement>) -> bool {
    forall|i: int, j: int|
        0 <= i < j < ps.len() ==> !spec_overlaps(#[trigger] ps[i], #[trigger] ps[j])
}

/// A pairwise-disjoint placement list is reported valid: in particular,
/// the generator's known decomposition always passes the validator.
pub proof fn lemma_disjoint_valid(ps: Seq<Placement>)
    requires
        pairwise_disjoint(ps),
    ensures
        spec_valid(ps),
{
}

/// Two well-formed placements anchored at the same cell make any
/// solution that contains them both invalid.
pub proof fn lemma_identical_anchor_invalid(ps: Seq<Placement>, i: int, j: int)
    requires
        0 <= i < j < ps.len(),
        placement_wf(ps[i]),
        placement_wf(ps[j]),
        ps[i].bottom_left == ps[j].bottom_left,
    ensures
        !spec_valid(ps),
{
    lemma_same_anchor_overlaps(ps[i], ps[j]);
}

/// The largest occupied column, folded from zero.
pub open spec fn max_tr_x(ps: Seq<Placement>) -> int
    decreases ps.len(),
{
    if ps.len() == 0 {
        0
    } else {
        let m = max_tr_x(ps.drop_last());
        if ps.last().top_right.x > m {
            ps.last().top_right.x as int
        } else {
            m
        }
    }
}

/// The largest occupied row, folded from zero.
pub open spec fn max_tr_y(ps: Seq<Placement>) -> int
    decreases ps.len(),
{
    if ps.len() == 0 {
        0
    } else {
        let m = max_tr_y(ps.drop_last());
        if ps.last().top_right.y > m {
            ps.last().top_right.y as int
        } else {
            m
        }
    }
}

/// The container a solution occupies: one past the largest occupied
/// cell on each axis, with a fixed height taking the container's place
/// when the policy fixes one, and an error when the placements exceed
/// that height.
pub open spec fn spec_container(ps: Seq<Placement>, v: Variant) -> Result<Rectangle, PacktError> {
    let w = max_tr_x(ps) + 1;
    let h = max_tr_y(ps) + 1;
    match v {
        Variant::Fixed(k) => if h > k {
            Err(PacktError::BoundsExceededError { top: h as u32, bound: k })
        } else {
            Ok(Rectangle { width: w as u32, height: k })
        },
        Variant::Free => Ok(Rectangle { width: w as u32, height: h as u32 }),
    }
}

/// The area metrics of a judged solution. `empty_area` is the container
/// area not covered by the problem's rectangles; the evaluator reports
/// an invariant violation instead of returning a value that would make
/// it negative, so the stored difference is never negative.
#[derive(Clone, Copy, Debug, PartialEq, Eq, Structural)]
pub struct Evaluation {
    pub container: Rectangle,
    pub min_area: u64,
    pub empty_area: u64,
    pub duration_ms: u64,
}

impl Solution {
    /// Whether no two placements overlap: the quadratic pairwise scan.
    pub fn is_valid(&self) -> (b: bool)
        ensures
            b == spec_valid(self.placements@),
    {
        let n = self.placements.len();
        let mut i: usize = 0;
        while i < n
            invariant
                i <= n,
                n == self.placements@.len(),
                forall|a: int, b: int|
                    0 <= a < b < n && a < i ==> !spec_overlaps(
                        #[trigger] self.placements@[a],
                        #[trigger] self.placements@[b],
                    ),
            decreases n - i,
        {
            let mut j: usize = i + 1;
            while j < n
                invariant
                    i < j <= n,
                    i < n,
                    n == self.placements@.len(),
                    forall|b: int| i < b < j ==> !spec_overlaps(
                        self.placements@[i as int],
                        #[trigger] self.placements@[b],
                    ),
                decreases n - j,
            {
                if self.placements[i].overlaps(&self.placements[j]) {
                    return false;
                }
                j = j + 1;
            }
            i = i + 1;
        }
        true
    }

    /// The bounding container of the placements, as `spec_container`
    /// describes it against the attached problem's height policy.
    pub fn container(&self) -> (r: Result<Rectangle, PacktError>)
        requires
            self.source is Some,
            placements_bounded(self.placements@),
        ensures
            r == spec_container(self.placements@, self@.source.unwrap().variant),
    {
        let n = self.placements.len();
        let mut mx: u32 = 0;
        let mut my: u32 = 0;
        let mut i: usize = 0;
        proof {
            assert(self.placements@.take(0) =~= Seq::<Placement>::empty());
        }
        while i < n
            invariant
                i <= n,
                n == self.placements@.len(),
                placements_bounded(self.placements@),
                mx == max_tr_x(self.placements@.take(i as int)),
                my == max_tr_y(self.placements@.take(i as int)),
                mx < u32::MAX,
                my < u32::MAX,
            decreases n - i,
        {
            let p = self.placements[i];
            proof {
                assert(self.placements@.take(i + 1).drop_last() =~= self.placements@.take(
                    i as int,
                ));
                assert(self.placements@.take(i + 1).last() == self.placements@[i as int]);
            }
            if p.top_right.x > mx {
                mx = p.top_right.x;
            }
            if p.top_right.y > my {
                my = p.top_right.y;
            }
            i = i + 1;
        }
        proof {
            assert(self.placements@.take(n as int) =~= self.placements@);
        }
        let w = mx + 1;
        let h = my + 1;
        match &self.source {
            Some(p) => match p.variant {
                Variant::Fixed(k) => if h > k {
                    Err(PacktError::BoundsExceededError { top: h, bound: k })
                } else {
                    Ok(Rectangle::new(w, k))
                },
                Variant::Free => Ok(Rectangle::new(w, h)),
            },
            None => {
                proof {
                    assert(false);
                }
                Err(PacktError::InvariantViolation)
            },
        }
    }

    /// Attaches the problem the solution answers; the evaluator reads
    /// the height policy and the rectangle list from it.
    pub fn source(&mut self, p: Problem)
        ensures
            final(self).source == Some(p),
            final(self).variant == old(self).variant,
            final(self).allow_rotation == old(self).allow_rotation,
            final(self).placements == old(self).placements,
    {
        self.source = Some(p);
    }

    /// Judges the solution against its attached problem: an overlap
    /// fails it, a fixed height it exceeds fails it, and a rectangle
    /// area total beyond the container area — a filling rate above one,
    /// which a correct validator can never let through — fails loudly
    /// rather than being returned. A returned evaluation therefore has
    /// `min_area` at most the container area: its filling rate is at
    /// most one.
    #[verifier::rlimit(30)]
    pub fn evaluate(&self, duration_ms: u64) -> (r: Result<Evaluation, PacktError>)
        requires
            self.source is Some,
            placements_bounded(self.placements@),
        ensures
            (r == Err::<Evaluation, PacktError>(PacktError::OverlapError)) <==> !spec_valid(
                self.placements@,
            ),
            spec_valid(self.placements@) ==> match spec_container(
                self.placements@,
                self@.source.unwrap().variant,
            ) {
                Err(e) => r == Err::<Evaluation, PacktError>(e),
                Ok(c) => {
                    let need = sum_areas(self@.source.unwrap().rectangles);
                    if need > rect_area(c) {
                        r == Err::<Evaluation, PacktError>(PacktError::InvariantViolation)
                    } else {
                        r == Ok::<Evaluation, PacktError>(
                            Evaluation {
                                container: c,
                                min_area: need as u64,
                                empty_area: (rect_area(c) - need) as u64,
                                duration_ms: duration_ms,
                            },
                        )
                    }
                },
            },
            r matches Ok(e) ==> e.min_area <= rect_area(e.container),
    {
        if !self.is_valid() {
            return Err(PacktError::OverlapError);
        }
        let container = match self.container() {
            Ok(c) => c,
            Err(e) => {
                return Err(e);
            },
        };
        let rects = match &self.source {
            Some(p) => &p.rectangles,
            None => {
                proof {
                    assert(false);
                }
                return Err(PacktError::InvariantViolation);
            },
        };
        let n = rects.len();
        let mut sum: u128 = 0;
        let mut i: usize = 0;
        proof {
            assert(rects@.take(0) =~= Seq::<Rectangle>::empty());
        }
        while i < n
            invariant
                i <= n,
                n == rects@.len(),
                sum == sum_areas(rects@.take(i as int)),
                sum <= i as int * 0xFFFF_FFFE_0000_0001,
            decreases n - i,
        {
            let a = rects[i].area();
            proof {
                lemma_rect_area_fits_u64(rects@[i as int]);
                assert(rects@.take(i + 1).drop_last() =~= rects@.take(i as int));
                assert(rects@.take(i + 1).last() == rects@[i as int]);
                assert(u32::MAX * u32::MAX == 0xFFFF_FFFE_0000_0001) by (nonlinear_arith);
                assert(sum + a <= (i + 1) as int * 0xFFFF_FFFE_0000_0001) by (nonlinear_arith)
                    requires
                        sum <= i as int * 0xFFFF_FFFE_0000_0001,
                        a <= 0xFFFF_FFFE_0000_0001,
                        i >= 0,
                ;
                assert((i + 1) as int * 0xFFFF_FFFE_0000_0001 < u128::MAX) by (nonlinear_arith)
                    requires 0 <= i + 1 <= 0x1_0000_0000_0000_0000,
                ;
            }
            sum = sum + a as u128;
            i = i + 1;
        }
        proof {
            assert(rects@.take(n as int) =~= rects@);
        }
        let ca = container.area();
        if sum > ca as u128 {
            return Err(PacktError::InvariantViolation);
        }
        let min_area = sum as u64;
        let empty_area = ca - min_area;
        Ok(Evaluation { container, min_area, empty_area, duration_ms })
    }
}

} // verus!
