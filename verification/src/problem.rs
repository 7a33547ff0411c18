//! Packing problems: the container-height policy, the problem model, the
//! line-oriented text codec, and the generator that produces a problem
//! with a known perfect packing by recursive guillotine cuts.

use vstd::prelude::*;
use crate::geometry::{
    Rectangle, Point, Placement, Rotation, rect_area, placement_wf, spec_overlaps, within,
    in_box, pairwise_disjoint, lemma_within_disjoint, lemma_rect_area_fits_u64,
};
use crate::rng::{rand_range_u32, rand_range_u64, rand_index, rand_bool};
use crate::codec::{
    is_space, is_digit, tokens, split_char, dec_chars, parse_u32_tok,
    lemma_dec_chars_val, lemma_tokens_split, lemma_tokens_word, lemma_split_char_step,
    lemma_split_char_whole, lemma_split_char_append, lemma_split_char_len,
    chars_of, split_char_exec, tokenize, parse_u32_vec, char_vec_eq_str, string_from_chars,
    append_u32,
};
use crate::error::PacktError;

verus! {

/// The container-height policy of a problem: unconstrained, or bounded by
/// a fixed height.
#[derive(Clone, Copy, Debug, PartialEq, Eq, Structural)]
pub enum Variant {
    Free,
    Fixed(u32),
}

/// A packing problem: the height policy, whether solutions may rotate
/// rectangles, and the ordered rectangle list. `source` is the bounding
/// rectangle the generator decomposed, present only on generated
/// problems; a parsed problem never carries one.
#[derive(Debug)]
pub struct Problem {
    pub variant: Variant,
    pub allow_rotation: bool,
    pub rectangles: Vec<Rectangle>,
    pub source: Option<Rectangle>,
}

impl Clone for Problem {
    /// A clone carries the same model.
    fn clone(&self) -> (r: Problem)
        ensures
            r@ == self@,
    {
        let mut rects: Vec<Rectangle> = Vec::new();
        let mut i: usize = 0;
        while i < self.rectangles.len()
            invariant
                i <= self.rectangles@.len(),
                rects@ =~= self.rectangles@.take(i as int),
            decreases self.rectangles@.len() - i,
        {
            rects.push(self.rectangles[i]);
            proof {
                assert(rects@ =~= self.rectangles@.take(i + 1));
            }
            i = i + 1;
        }
        proof {
            assert(self.rectangles@.take(self.rectangles@.len() as int) =~= self.rectangles@);
        }
        let r = Problem {
            variant: self.variant,
            allow_rotation: self.allow_rotation,
            rectangles: rects,
            source: self.source,
        };
        proof {
            assert(r@ =~= self@);
        }
        r
    }
}

/// The mathematical view of a problem.
#[verifier::ext_equal]
pub struct ProblemModel {
    pub variant: Variant,
    pub allow_rotation: bool,
    pub rectangles: Seq<Rectangle>,
    pub source: Option<Rectangle>,
}

impl View for Problem {
    type V = ProblemModel;

    open spec fn view(&self) -> ProblemModel {
        ProblemModel {
            variant: self.variant,
            allow_rotation: self.allow_rotation,
            rectangles: self.rectangles@,
            source: self.source,
        }
    }
}

impl PartialEq for Problem {
    fn eq(&self, other: &Problem) -> (r: bool) {
        if self.variant != other.variant || self.allow_rotation != other.allow_rotation {
            return false;
        }
        let same_source = match (&self.source, &other.source) {
            (Some(a), Some(b)) => a == b,
            (None, None) => true,
            _ => false,
        };
        if !same_source {
            return false;
        }
        if self.rectangles.len() != other.rectangles.len() {
            return false;
        }
        let mut i: usize = 0;
        while i < self.rectangles.len()
            invariant
                i <= self.rectangles@.len(),
                self.rectangles@.len() == other.rectangles@.len(),
                self.variant == other.variant,
                self.allow_rotation == other.allow_rotation,
                self.source == other.source,
                forall|j: int| 0 <= j < i ==> self.rectangles@[j] == other.rectangles@[j],
            decreases self.rectangles@.len() - i,
        {
            if self.rectangles[i] != other.rectangles[i] {
                return false;
            }
            i = i + 1;
        }
        proof {
            assert(self.rectangles@ =~= other.rectangles@);
        }
        true
    }
}

impl vstd::std_specs::cmp::PartialEqSpecImpl for Problem {
    open spec fn obeys_eq_spec() -> bool {
        true
    }

    open spec fn eq_spec(&self, other: &Problem) -> bool {
        self@ == other@
    }
}

/// The short text of a height policy: `free`, or `fixed` and the bound.
pub open spec fn variant_chars(v: Variant) -> Seq<char> {
    match v {
        Variant::Free => "free"@,
        Variant::Fixed(h) => "fixed "@ + dec_chars(h as int),
    }
}

impl Variant {
    /// The short text of the policy, as `variant_chars` describes it.
    pub fn to_text(&self) -> (r: String)
        ensures
            r@ == variant_chars(*self),
    {
        let mut out = String::new();
        match self {
            Variant::Free => {
                out.append("free");
            },
            Variant::Fixed(h) => {
                out.append("fixed ");
                append_u32(&mut out, *h);
            },
        }
        out
    }
}

/// The first protocol line: the container-height policy.
pub open spec fn line1_chars(v: Variant) -> Seq<char> {
    match v {
        Variant::Free => "container height: free"@,
        Variant::Fixed(h) => "container height: fixed "@ + dec_chars(h as int),
    }
}

/// The second protocol line: the rotation policy.
pub open spec fn line2_chars(allow_rotation: bool) -> Seq<char> {
    if allow_rotation {
        "rotations allowed: yes"@
    } else {
        "rotations allowed: no"@
    }
}

/// The third protocol line: the rectangle count.
pub open spec fn line3_chars(n: int) -> Seq<char> {
    "number of rectangles: "@ + dec_chars(n)
}

/// One rectangle line: width, a space, height.
pub open spec fn rect_line_chars(r: Rectangle) -> Seq<char> {
    dec_chars(r.width as int) + seq![' '] + dec_chars(r.height as int)
}

/// The rectangle lines, each preceded by a newline.
pub open spec fn rect_block_chars(rs: Seq<Rectangle>) -> Seq<char>
    decreases rs.len(),
{
    if rs.len() == 0 {
        Seq::empty()
    } else {
        rect_block_chars(rs.drop_last()) + seq!['\n'] + rect_line_chars(rs.last())
    }
}

/// The three header lines.
pub open spec fn config_chars(m: ProblemModel) -> Seq<char> {
    line1_chars(m.variant) + seq!['\n'] + line2_chars(m.allow_rotation) + seq!['\n']
        + line3_chars(m.rectangles.len() as int)
}

/// The serialized problem: header lines, then one line per rectangle.
pub open spec fn format_chars(m: ProblemModel) -> Seq<char> {
    config_chars(m) + rect_block_chars(m.rectangles)
}

/// The digest shown for a problem: the header, the generator's bounding
/// box when one is present, then the rectangle lines.
pub open spec fn digest_chars(m: ProblemModel) -> Seq<char> {
    let with_source = match m.source {
        Some(s) => config_chars(m) + seq!['\n'] + "bounding box: "@
            + dec_chars(s.width as int) + seq![' '] + dec_chars(s.height as int),
        None => config_chars(m),
    };
    with_source + rect_block_chars(m.rectangles)
}

impl Problem {
    /// The three header lines of the serialized form.
    pub fn config_str(&self) -> (r: String)
        ensures
            r@ == config_chars(self@),
    {
        let mut out = String::new();
        match self.variant {
            Variant::Free => {
                out.append("container height: free");
            },
            Variant::Fixed(h) => {
                out.append("container height: fixed ");
                append_u32(&mut out, h);
            },
        }
        out.append("\n");
        proof {
            reveal_strlit("\n");
            assert("\n"@ =~= seq!['\n']);
        }
        if self.allow_rotation {
            out.append("rotations allowed: yes");
        } else {
            out.append("rotations allowed: no");
        }
        out.append("\n");
        out.append("number of rectangles: ");
        let n = self.rectangles.len();
        append_usize(&mut out, n);
        out
    }

    /// The full serialized form of the problem: what the solver reads.
    pub fn to_text(&self) -> (r: String)
        ensures
            r@ == format_chars(self@),
    {
        let mut out = self.config_str();
        append_rect_lines(&mut out, &self.rectangles);
        out
    }

    /// The digest shown in user interfaces: the serialized form, with the
    /// generator's bounding box between the header and the rectangles
    /// when the problem carries one.
    pub fn digest(&self) -> (r: String)
        ensures
            r@ == digest_chars(self@),
    {
        let mut out = self.config_str();
        if let Some(s) = &self.source {
            out.append("\n");
            proof {
                reveal_strlit("\n");
                assert("\n"@ =~= seq!['\n']);
            }
            out.append("bounding box: ");
            append_u32(&mut out, s.width);
            out.append(" ");
            proof {
                reveal_strlit(" ");
                assert(" "@ =~= seq![' ']);
            }
            append_u32(&mut out, s.height);
        }
        append_rect_lines(&mut out, &self.rectangles);
        out
    }
}

/// Reads the container-height line by its whitespace-separated tokens.
pub open spec fn spec_parse_variant_line(l: Seq<char>) -> Option<Variant> {
    let ts = tokens(l);
    if ts.len() == 3 && ts[0] == "container"@ && ts[1] == "height:"@ && ts[2] == "free"@ {
        Some(Variant::Free)
    } else if ts.len() == 4 && ts[0] == "container"@ && ts[1] == "height:"@
        && ts[2] == "fixed"@ && parse_u32_tok(ts[3]) is Some {
        Some(Variant::Fixed(parse_u32_tok(ts[3]).unwrap() as u32))
    } else {
        None
    }
}

/// Reads the rotation line; it must match one of its two forms exactly.
pub open spec fn spec_parse_rot_line(l: Seq<char>) -> Option<bool> {
    if l == "rotations allowed: yes"@ {
        Some(true)
    } else if l == "rotations allowed: no"@ {
        Some(false)
    } else {
        None
    }
}

/// Reads one rectangle line: exactly two numeric tokens.
pub open spec fn spec_parse_rect_line(l: Seq<char>) -> Option<Rectangle> {
    let ts = tokens(l);
    if ts.len() == 2 && parse_u32_tok(ts[0]) is Some && parse_u32_tok(ts[1]) is Some {
        Some(Rectangle {
            width: parse_u32_tok(ts[0]).unwrap() as u32,
            height: parse_u32_tok(ts[1]).unwrap() as u32,
        })
    } else {
        None
    }
}

/// Reads the rectangle lines in order; any malformed line fails the
/// whole parse.
pub open spec fn spec_parse_rect_lines(ls: Seq<Seq<char>>) -> Option<Seq<Rectangle>>
    decreases ls.len(),
{
    if ls.len() == 0 {
        Some(Seq::empty())
    } else {
        match (spec_parse_rect_lines(ls.drop_last()), spec_parse_rect_line(ls.last())) {
            (Some(rs), Some(r)) => Some(rs.push(r)),
            _ => None,
        }
    }
}

/// The lines of a protocol text: pieces between newlines, with one
/// trailing empty line ignored, as a line-based reader sees them.
pub open spec fn protocol_lines(s: Seq<char>) -> Seq<Seq<char>> {
    let ls = split_char(s, '\n');
    if ls.len() > 0 && ls.last().len() == 0 {
        ls.drop_last()
    } else {
        ls
    }
}

/// Reads a whole problem: the variant line, the rotation line, a count
/// line that is present but never interpreted, then one line per
/// rectangle. A parsed problem carries no source rectangle.
pub open spec fn spec_parse_problem(s: Seq<char>) -> Option<ProblemModel> {
    let ls = protocol_lines(s);
    if ls.len() < 2 {
        None
    } else {
        match (spec_parse_variant_line(ls[0]), spec_parse_rot_line(ls[1])) {
            (Some(v), Some(rot)) => {
                let rl = if ls.len() < 3 { Seq::empty() } else { ls.skip(3) };
                match spec_parse_rect_lines(rl) {
                    Some(rs) => Some(
                        ProblemModel {
                            variant: v,
                            allow_rotation: rot,
                            rectangles: rs,
                            source: None,
                        },
                    ),
                    None => None,
                }
            },
            _ => None,
        }
    }
}

/// Reads the container-height line, as `spec_parse_variant_line`
/// describes it.
fn parse_variant_line(l: &Vec<char>) -> (r: Option<Variant>)
    ensures
        r == spec_parse_variant_line(l@),
{
    let ts = tokenize(l);
    if ts.len() == 3 {
        if char_vec_eq_str(&ts[0], "container") && char_vec_eq_str(&ts[1], "height:")
            && char_vec_eq_str(&ts[2], "free") {
            Some(Variant::Free)
        } else {
            None
        }
    } else if ts.len() == 4 {
        if char_vec_eq_str(&ts[0], "container") && char_vec_eq_str(&ts[1], "height:")
            && char_vec_eq_str(&ts[2], "fixed") {
            match parse_u32_vec(&ts[3]) {
                Some(h) => Some(Variant::Fixed(h)),
                None => None,
            }
        } else {
            None
        }
    } else {
        None
    }
}

/// Reads one rectangle line, as `spec_parse_rect_line` describes it.
fn parse_rect_line(l: &Vec<char>) -> (r: Option<Rectangle>)
    ensures
        r == spec_parse_rect_line(l@),
{
    let ts = tokenize(l);
    if ts.len() != 2 {
        return None;
    }
    let w = match parse_u32_vec(&ts[0]) {
        Some(w) => w,
        None => {
            return None;
        },
    };
    let h = match parse_u32_vec(&ts[1]) {
        Some(h) => h,
        None => {
            return None;
        },
    };
    Some(Rectangle::new(w, h))
}

/// A parse failure at one rectangle line fails the whole list.
proof fn lemma_rect_lines_fail(ls: Seq<Seq<char>>, k: int)
    requires
        0 <= k < ls.len(),
        spec_parse_rect_line(ls[k]) is None,
    ensures
        spec_parse_rect_lines(ls) is None,
    decreases ls.len(),
{
    if k < ls.len() - 1 {
        assert(ls.drop_last()[k] == ls[k]);
        lemma_rect_lines_fail(ls.drop_last(), k);
    }
}

/// The protocol lines of a text, as `protocol_lines` describes them.
pub(crate) fn split_protocol_lines(v: &Vec<char>) -> (r: Vec<Vec<char>>)
    ensures
        r@.len() == protocol_lines(v@).len(),
        forall|i: int| 0 <= i < r@.len() ==> (#[trigger] r@[i])@ == protocol_lines(v@)[i],
{
    let mut lines = split_char_exec(v, '\n');
    proof {
        lemma_split_char_len(v@, '\n');
    }
    let n = lines.len();
    if n > 0 && lines[n - 1].len() == 0 {
        proof {
            assert(lines@[n - 1]@ == split_char(v@, '\n').last());
        }
        lines.pop();
    }
    lines
}

impl Problem {
    /// Reads a problem from its serialized form. Returns the parsed
    /// problem exactly when `spec_parse_problem` accepts the text, and a
    /// format error otherwise.
    pub fn parse(s: &str) -> (r: Result<Problem, PacktError>)
        ensures
            match r {
                Ok(p) => spec_parse_problem(s@) == Some(p@),
                Err(e) => spec_parse_problem(s@) is None && e is FormatError,
            },
    {
        let cs = chars_of(s);
        parse_problem_chars(&cs)
    }
}

/// Reads a problem from a character vector, as `spec_parse_problem`
/// describes it.
pub(crate) fn parse_problem_chars(cs: &Vec<char>) -> (r: Result<Problem, PacktError>)
    ensures
        match r {
            Ok(p) => spec_parse_problem(cs@) == Some(p@),
            Err(e) => spec_parse_problem(cs@) is None && e is FormatError,
        },
{
    {
        let lines = split_protocol_lines(cs);
        let ghost ls = protocol_lines(cs@);
        if lines.len() < 2 {
            return Err(PacktError::FormatError(string_from_chars(&cs)));
        }
        let variant = match parse_variant_line(&lines[0]) {
            Some(v) => v,
            None => {
                return Err(PacktError::FormatError(string_from_chars(&lines[0])));
            },
        };
        let allow_rotation = if char_vec_eq_str(&lines[1], "rotations allowed: yes") {
            true
        } else if char_vec_eq_str(&lines[1], "rotations allowed: no") {
            false
        } else {
            return Err(PacktError::FormatError(string_from_chars(&lines[1])));
        };
        let ghost rl: Seq<Seq<char>> = if ls.len() < 3 { Seq::empty() } else { ls.skip(3) };
        let total = lines.len();
        let nrect = if total > 3 { total - 3 } else { 0 };
        proof {
            assert(rl.len() == nrect);
            assert(rl.take(0) =~= Seq::<Seq<char>>::empty());
        }
        let mut rects: Vec<Rectangle> = Vec::new();
        let mut k: usize = 0;
        while k < nrect
            invariant
                k <= nrect,
                total == lines@.len(),
                total == ls.len(),
                nrect == rl.len(),
                nrect > 0 ==> total >= 3,
                forall|j: int| 0 <= j < ls.len() ==> (#[trigger] lines@[j])@ == ls[j],
                forall|j: int| 0 <= j < rl.len() ==> #[trigger] rl[j] == ls[3 + j],
                rects@.len() == k,
                spec_parse_rect_lines(rl.take(k as int)) == Some(rects@),
            decreases nrect - k,
        {
            match parse_rect_line(&lines[3 + k]) {
                Some(r) => {
                    let ghost prev = rects@;
                    rects.push(r);
                    proof {
                        assert(rl.take(k + 1).drop_last() =~= rl.take(k as int));
                        assert(rl.take(k + 1).last() == rl[k as int]);
                        assert(rl[k as int] == lines@[3 + k]@);
                        assert(rects@ =~= prev.push(r));
                    }
                    k = k + 1;
                },
                None => {
                    proof {
                        assert(rl[k as int] == lines@[3 + k]@);
                        lemma_rect_lines_fail(rl, k as int);
                    }
                    return Err(PacktError::FormatError(string_from_chars(&lines[3 + k])));
                },
            }
        }
        proof {
            assert(rl.take(rl.len() as int) =~= rl);
        }
        Ok(Problem { variant, allow_rotation, rectangles: rects, source: None })
    }
}

/// The serialized rectangle lines, one per rectangle.
pub open spec fn rect_lines_of(rs: Seq<Rectangle>) -> Seq<Seq<char>> {
    Seq::new(rs.len(), |i: int| rect_line_chars(rs[i]))
}

/// A digit string holds no whitespace.
proof fn lemma_digits_no_space(s: Seq<char>)
    requires
        forall|i: int| 0 <= i < s.len() ==> is_digit(#[trigger] s[i]),
    ensures
        forall|i: int| 0 <= i < s.len() ==> !is_space(#[trigger] s[i]),
{
}

/// A serialized rectangle line tokenizes into its two numbers, parses
/// back to the rectangle, and holds no newline.
proof fn lemma_rect_line_facts(r: Rectangle)
    ensures
        spec_parse_rect_line(rect_line_chars(r)) == Some(r),
        forall|i: int| 0 <= i < rect_line_chars(r).len()
            ==> #[trigger] rect_line_chars(r)[i] != '\n',
        rect_line_chars(r).len() >= 1,
{
    let dw = dec_chars(r.width as int);
    let dh = dec_chars(r.height as int);
    let l = rect_line_chars(r);
    lemma_dec_chars_val(r.width as int);
    lemma_dec_chars_val(r.height as int);
    lemma_digits_no_space(dw);
    lemma_digits_no_space(dh);
    lemma_tokens_split(dw, ' ', dh);
    lemma_tokens_word(dw);
    lemma_tokens_word(dh);
    assert(tokens(l) =~= seq![dw, dh]);
    assert(parse_u32_tok(dw) == Some(r.width as int)) by {
        assert(is_digit(dw[0]));
        assert(dw[0] != '+');
    }
    assert(parse_u32_tok(dh) == Some(r.height as int)) by {
        assert(is_digit(dh[0]));
        assert(dh[0] != '+');
    }
    assert(spec_parse_rect_line(l) == Some(Rectangle { width: r.width, height: r.height }));
    assert(Rectangle { width: r.width, height: r.height } == r);
    assert forall|i: int| 0 <= i < l.len() implies #[trigger] l[i] != '\n' by {
        if i < dw.len() {
            assert(l[i] == dw[i]);
        } else if i == dw.len() {
            assert(l[i] == ' ');
        } else {
            assert(l[i] == dh[i - dw.len() - 1]);
        }
    }
}

/// The container-height line parses back to its variant and holds no
/// newline.
proof fn lemma_line1_facts(v: Variant)
    ensures
        spec_parse_variant_line(line1_chars(v)) == Some(v),
        forall|i: int| 0 <= i < line1_chars(v).len() ==> #[trigger] line1_chars(v)[i] != '\n',
        line1_chars(v).len() >= 1,
{
    reveal_strlit("container height: free");
    reveal_strlit("container height: fixed ");
    reveal_strlit("container");
    reveal_strlit("height:");
    reveal_strlit("free");
    reveal_strlit("fixed");
    assert forall|i: int| 0 <= i < "container"@.len() implies !is_space("container"@[i]) by {}
    assert forall|i: int| 0 <= i < "height:"@.len() implies !is_space("height:"@[i]) by {}
    match v {
        Variant::Free => {
            let l = "container height: free"@;
            assert(l =~= "container"@ + seq![' '] + ("height:"@ + seq![' '] + "free"@));
            lemma_tokens_split("container"@, ' ', "height:"@ + seq![' '] + "free"@);
            lemma_tokens_split("height:"@, ' ', "free"@);
            assert forall|i: int| 0 <= i < "free"@.len() implies !is_space("free"@[i]) by {}
            lemma_tokens_word("container"@);
            lemma_tokens_word("height:"@);
            lemma_tokens_word("free"@);
            assert(tokens(l) =~= seq!["container"@, "height:"@, "free"@]);
            assert forall|i: int| 0 <= i < l.len() implies #[trigger] l[i] != '\n' by {}
        },
        Variant::Fixed(h) => {
            let d = dec_chars(h as int);
            lemma_dec_chars_val(h as int);
            lemma_digits_no_space(d);
            let l = "container height: fixed "@ + d;
            assert(l =~= "container"@ + seq![' '] + ("height:"@ + seq![' '] + ("fixed"@
                + seq![' '] + d)));
            lemma_tokens_split("container"@, ' ', "height:"@ + seq![' '] + ("fixed"@
                + seq![' '] + d));
            lemma_tokens_split("height:"@, ' ', "fixed"@ + seq![' '] + d);
            lemma_tokens_split("fixed"@, ' ', d);
            assert forall|i: int| 0 <= i < "fixed"@.len() implies !is_space("fixed"@[i]) by {}
            lemma_tokens_word("container"@);
            lemma_tokens_word("height:"@);
            lemma_tokens_word("fixed"@);
            lemma_tokens_word(d);
            assert(tokens(l) =~= seq!["container"@, "height:"@, "fixed"@, d]);
            assert(parse_u32_tok(d) == Some(h as int)) by {
                assert(is_digit(d[0]));
                assert(d[0] != '+');
            }
            assert(spec_parse_variant_line(l) == Some(Variant::Fixed(h)));
            assert forall|i: int| 0 <= i < l.len() implies #[trigger] l[i] != '\n' by {
                if i >= "container height: fixed "@.len() {
                    let j = i - "container height: fixed "@.len();
                    assert(l[i] == d[j]);
                    assert(is_digit(d[j]));
                }
            }
        },
    }
}

/// The rotation line parses back to its flag and holds no newline.
proof fn lemma_line2_facts(b: bool)
    ensures
        spec_parse_rot_line(line2_chars(b)) == Some(b),
        forall|i: int| 0 <= i < line2_chars(b).len() ==> #[trigger] line2_chars(b)[i] != '\n',
        line2_chars(b).len() >= 1,
{
    reveal_strlit("rotations allowed: yes");
    reveal_strlit("rotations allowed: no");
    let l = line2_chars(b);
    assert("rotations allowed: yes"@.len() == 22);
    assert("rotations allowed: no"@.len() == 21);
    assert forall|i: int| 0 <= i < l.len() implies #[trigger] l[i] != '\n' by {}
}

/// The count line is nonempty and holds no newline.
proof fn lemma_line3_facts(n: int)
    requires
        n >= 0,
    ensures
        forall|i: int| 0 <= i < line3_chars(n).len() ==> #[trigger] line3_chars(n)[i] != '\n',
        line3_chars(n).len() >= 1,
{
    reveal_strlit("number of rectangles: ");
    let d = dec_chars(n);
    lemma_dec_chars_val(n);
    lemma_digits_no_space(d);
    let l = line3_chars(n);
    assert forall|i: int| 0 <= i < l.len() implies #[trigger] l[i] != '\n' by {
        if i >= "number of rectangles: "@.len() {
            let j = i - "number of rectangles: "@.len();
            assert(l[i] == d[j]);
            assert(is_digit(d[j]));
        }
    }
}

/// Splitting a newline-free line followed by a rectangle block yields
/// that line and then the rectangle lines.
proof fn lemma_split_tail(x: Seq<char>, rs: Seq<Rectangle>)
    requires
        forall|i: int| 0 <= i < x.len() ==> #[trigger] x[i] != '\n',
    ensures
        split_char(x + rect_block_chars(rs), '\n') =~= seq![x] + rect_lines_of(rs),
    decreases rs.len(),
{
    if rs.len() == 0 {
        assert(x + rect_block_chars(rs) =~= x);
        lemma_split_char_whole(x, '\n');
        assert(rect_lines_of(rs) =~= Seq::<Seq<char>>::empty());
    } else {
        lemma_split_tail(x, rs.drop_last());
        lemma_rect_line_facts(rs.last());
        let head = x + rect_block_chars(rs.drop_last());
        let line = rect_line_chars(rs.last());
        assert(x + rect_block_chars(rs) =~= head + seq!['\n'] + line);
        lemma_split_char_append(head, '\n', line);
        lemma_split_char_whole(line, '\n');
        assert(split_char(x + rect_block_chars(rs), '\n') =~= (seq![x] + rect_lines_of(
            rs.drop_last(),
        )) + seq![line]);
        assert((seq![x] + rect_lines_of(rs.drop_last())) + seq![line] =~= seq![x]
            + rect_lines_of(rs));
    }
}

/// The serialized rectangle lines parse back to the rectangles.
proof fn lemma_parse_rect_lines_of(rs: Seq<Rectangle>)
    ensures
        spec_parse_rect_lines(rect_lines_of(rs)) == Some(rs),
    decreases rs.len(),
{
    if rs.len() == 0 {
        assert(rect_lines_of(rs) =~= Seq::<Seq<char>>::empty());
        assert(rs =~= Seq::<Rectangle>::empty());
    } else {
        lemma_parse_rect_lines_of(rs.drop_last());
        lemma_rect_line_facts(rs.last());
        let ls = rect_lines_of(rs);
        assert(ls.drop_last() =~= rect_lines_of(rs.drop_last()));
        assert(ls.last() == rect_line_chars(rs.last()));
        assert(rs.drop_last().push(rs.last()) =~= rs);
    }
}

/// Round trip: parsing the serialized form of any problem that carries
/// no source rectangle yields that problem back. Generated problems
/// carry a source rectangle, which serialization does not record, so a
/// reparsed generated problem differs from the original exactly in that
/// field.
pub proof fn lemma_problem_round_trip(m: ProblemModel)
    requires
        m.source is None,
    ensures
        spec_parse_problem(format_chars(m)) == Some(m),
{
    let l1 = line1_chars(m.variant);
    let l2 = line2_chars(m.allow_rotation);
    let l3 = line3_chars(m.rectangles.len() as int);
    let block = rect_block_chars(m.rectangles);
    let f = format_chars(m);
    lemma_line1_facts(m.variant);
    lemma_line2_facts(m.allow_rotation);
    lemma_line3_facts(m.rectangles.len() as int);
    lemma_split_tail(l3, m.rectangles);
    assert(f =~= l1 + seq!['\n'] + (l2 + seq!['\n'] + (l3 + block)));
    lemma_split_char_step(l1, '\n', l2 + seq!['\n'] + (l3 + block));
    lemma_split_char_step(l2, '\n', l3 + block);
    let ls0 = split_char(f, '\n');
    assert(ls0 =~= seq![l1, l2] + (seq![l3] + rect_lines_of(m.rectangles)));
    assert(ls0.len() == 3 + m.rectangles.len());
    if m.rectangles.len() == 0 {
        assert(ls0.last() == l3);
    } else {
        assert(ls0.last() == rect_line_chars(m.rectangles.last()));
        lemma_rect_line_facts(m.rectangles.last());
    }
    assert(ls0.last().len() >= 1);
    let ls = protocol_lines(f);
    assert(ls == ls0);
    assert(ls[0] == l1);
    assert(ls[1] == l2);
    assert(ls.skip(3) =~= rect_lines_of(m.rectangles));
    lemma_parse_rect_lines_of(m.rectangles);
    assert(spec_parse_problem(f) == Some(
        ProblemModel {
            variant: m.variant,
            allow_rotation: m.allow_rotation,
            rectangles: m.rectangles,
            source: None,
        },
    ));
    assert(ProblemModel {
        variant: m.variant,
        allow_rotation: m.allow_rotation,
        rectangles: m.rectangles,
        source: None,
    } =~= m);
}

/// Appends the decimal rendering of a machine-word value.
pub fn append_usize(out: &mut String, n: usize)
    ensures
        final(out)@ == old(out)@ + dec_chars(n as int),
{
    crate::codec::append_u64(out, n as u64);
}

/// The total area of a rectangle list.
pub open spec fn sum_areas(rs: Seq<Rectangle>) -> int
    decreases rs.len(),
{
    if rs.len() == 0 {
        0
    } else {
        sum_areas(rs.drop_last()) + rect_area(rs.last())
    }
}

/// The total area of the rectangles of a placement list.
pub open spec fn sum_place_areas(ps: Seq<Placement>) -> int
    decreases ps.len(),
{
    if ps.len() == 0 {
        0
    } else {
        sum_place_areas(ps.drop_last()) + rect_area(ps.last().rectangle)
    }
}

/// Replacing one placement changes the total area by the difference of
/// the two rectangles.
proof fn lemma_sum_place_update(ps: Seq<Placement>, i: int, p: Placement)
    requires
        0 <= i < ps.len(),
    ensures
        sum_place_areas(ps.update(i, p)) == sum_place_areas(ps) - rect_area(ps[i].rectangle)
            + rect_area(p.rectangle),
    decreases ps.len(),
{
    if i == ps.len() - 1 {
        assert(ps.update(i, p).drop_last() =~= ps.drop_last());
        assert(ps.update(i, p).last() == p);
    } else {
        lemma_sum_place_update(ps.drop_last(), i, p);
        assert(ps.update(i, p).drop_last() =~= ps.drop_last().update(i, p));
        assert(ps.update(i, p).last() == ps.last());
    }
}

/// All invariants of the working set survive replacing one piece by two
/// disjoint pieces that lie within it.
proof fn lemma_split_step(ps: Seq<Placement>, i: int, a: Placement, b: Placement, w: int, h: int)
    requires
        0 <= i < ps.len(),
        pairwise_disjoint(ps),
        forall|k: int| 0 <= k < ps.len() ==> in_box(#[trigger] ps[k], w, h),
        within(a, ps[i]),
        within(b, ps[i]),
        !spec_overlaps(a, b),
        rect_area(a.rectangle) + rect_area(b.rectangle) == rect_area(ps[i].rectangle),
    ensures
        pairwise_disjoint(ps.update(i, a).push(b)),
        forall|k: int| 0 <= k < ps.len() + 1 ==> in_box(#[trigger] ps.update(i, a).push(b)[k], w, h),
        sum_place_areas(ps.update(i, a).push(b)) == sum_place_areas(ps),
{
    let parent = ps[i];
    let new = ps.update(i, a).push(b);
    lemma_sum_place_update(ps, i, a);
    assert(new.drop_last() =~= ps.update(i, a));
    assert(new.last() == b);
    assert forall|k1: int, k2: int|
        0 <= k1 < new.len() && 0 <= k2 < new.len() && k1 != k2 implies !spec_overlaps(
        #[trigger] new[k1],
        #[trigger] new[k2],
    ) by {
        let n = ps.len() as int;
        if k1 == i && k2 == n {
            assert(new[k1] == a && new[k2] == b);
        } else if k1 == n && k2 == i {
            assert(new[k1] == b && new[k2] == a);
        } else if k1 == i || k1 == n {
            let c = if k1 == i { a } else { b };
            assert(new[k1] == c);
            assert(new[k2] == ps[k2]);
            assert(!spec_overlaps(parent, ps[k2]));
            lemma_within_disjoint(c, ps[k2], parent, ps[k2]);
        } else if k2 == i || k2 == n {
            let c = if k2 == i { a } else { b };
            assert(new[k2] == c);
            assert(new[k1] == ps[k1]);
            assert(!spec_overlaps(ps[k1], parent));
            lemma_within_disjoint(ps[k1], c, ps[k1], parent);
        } else {
            assert(new[k1] == ps[k1] && new[k2] == ps[k2]);
        }
    }
    assert forall|k: int| 0 <= k < new.len() implies in_box(#[trigger] new[k], w, h) by {
        if k == i {
            assert(new[k] == a);
            assert(in_box(parent, w, h));
        } else if k == ps.len() {
            assert(new[k] == b);
            assert(in_box(parent, w, h));
        } else {
            assert(new[k] == ps[k]);
        }
    }
}

/// The total area of a placement list is bounded by its length times a
/// bound on the area of each piece.
proof fn lemma_sum_place_bounded(ps: Seq<Placement>, bound: int)
    requires
        forall|k: int| 0 <= k < ps.len() ==> rect_area((#[trigger] ps[k]).rectangle) <= bound,
    ensures
        sum_place_areas(ps) <= bound * ps.len(),
    decreases ps.len(),
{
    if ps.len() > 0 {
        lemma_sum_place_bounded(ps.drop_last(), bound);
        assert(bound * (ps.len() - 1) + bound == bound * ps.len()) by (nonlinear_arith);
    } else {
        assert(bound * 0 == 0) by (nonlinear_arith);
    }
}

/// While the working set is smaller than the piece count, some piece can
/// still be cut: were every piece a unit square, the areas could not sum
/// to the source area.
proof fn lemma_splittable_exists(ps: Seq<Placement>, n: int, area: int)
    requires
        forall|k: int| 0 <= k < ps.len()
            ==> (#[trigger] ps[k]).rectangle.width >= 1 && ps[k].rectangle.height >= 1,
        sum_place_areas(ps) == area,
        ps.len() < n <= area,
    ensures
        exists|k: int|
            0 <= k < ps.len() && ((#[trigger] ps[k]).rectangle.width > 1
                || ps[k].rectangle.height > 1),
{
    if forall|k: int|
        0 <= k < ps.len() ==> !((#[trigger] ps[k]).rectangle.width > 1
            || ps[k].rectangle.height > 1) {
        assert forall|k: int| 0 <= k < ps.len() implies rect_area(
            (#[trigger] ps[k]).rectangle,
        ) <= 1 by {
            assert(ps[k].rectangle.width == 1 && ps[k].rectangle.height == 1);
        }
        lemma_sum_place_bounded(ps, 1);
        assert(1 * ps.len() == ps.len()) by (nonlinear_arith);
        assert(false);
    }
}

/// The first piece that can still be cut.
fn find_splittable(work: &Vec<Placement>) -> (idx: usize)
    requires
        exists|k: int|
            0 <= k < work@.len() && ((#[trigger] work@[k]).rectangle.width > 1
                || work@[k].rectangle.height > 1),
    ensures
        idx < work@.len(),
        work@[idx as int].rectangle.width > 1 || work@[idx as int].rectangle.height > 1,
{
    let mut j: usize = 0;
    while j < work.len()
        invariant
            j <= work@.len(),
            exists|k: int|
                0 <= k < work@.len() && ((#[trigger] work@[k]).rectangle.width > 1
                    || work@[k].rectangle.height > 1),
            forall|k: int| 0 <= k < j
                ==> !((#[trigger] work@[k]).rectangle.width > 1
                    || work@[k].rectangle.height > 1),
        decreases work@.len() - j,
    {
        if work[j].rectangle.width > 1 || work[j].rectangle.height > 1 {
            return j;
        }
        j = j + 1;
    }
    proof {
        assert(false);
    }
    0
}

/// Recursively cuts a source rectangle into `n` placed pieces by random
/// guillotine cuts: the generator's known decomposition. Every piece is
/// well-formed and unrotated, the pieces are pairwise disjoint, they lie
/// inside the source box, and their areas sum exactly to the source
/// area; no piece is degenerate.
pub fn decompose(r: Rectangle, n: usize) -> (ps: Vec<Placement>)
    requires
        1 <= n <= rect_area(r),
    ensures
        ps@.len() == n,
        forall|k: int| 0 <= k < n ==> placement_wf(#[trigger] ps@[k]),
        forall|k: int| 0 <= k < n ==> (#[trigger] ps@[k]).rotation == Rotation::Normal,
        forall|k: int| 0 <= k < n
            ==> (#[trigger] ps@[k]).rectangle.width >= 1 && ps@[k].rectangle.height >= 1,
        forall|k: int| 0 <= k < n ==> in_box(#[trigger] ps@[k], r.width as int, r.height as int),
        pairwise_disjoint(ps@),
        sum_place_areas(ps@) == rect_area(r),
{
    proof {
        assert(r.width >= 1 && r.height >= 1) by (nonlinear_arith)
            requires r.width * r.height >= 1,
        ;
    }
    let first = Placement::new(r, Rotation::Normal, Point::new(0, 0));
    let mut work: Vec<Placement> = Vec::new();
    work.push(first);
    proof {
        assert(work@.drop_last() =~= Seq::<Placement>::empty());
        assert(sum_place_areas(Seq::<Placement>::empty()) == 0);
        assert(work@.last() == first);
        assert(sum_place_areas(work@) == rect_area(first.rectangle));
    }
    while work.len() < n
        invariant
            1 <= work@.len() <= n,
            n <= rect_area(r),
            forall|k: int| 0 <= k < work@.len() ==> placement_wf(#[trigger] work@[k]),
            forall|k: int| 0 <= k < work@.len()
                ==> (#[trigger] work@[k]).rotation == Rotation::Normal,
            forall|k: int| 0 <= k < work@.len()
                ==> in_box(#[trigger] work@[k], r.width as int, r.height as int),
            pairwise_disjoint(work@),
            sum_place_areas(work@) == rect_area(r),
        decreases n - work@.len(),
    {
        proof {
            assert forall|k: int| 0 <= k < work@.len() implies
                (#[trigger] work@[k]).rectangle.width >= 1
                    && work@[k].rectangle.height >= 1 by {
                assert(placement_wf(work@[k]));
            }
            lemma_splittable_exists(work@, n as int, rect_area(r));
        }
        let i = rand_index(work.len());
        let idx: usize;
        if work[i].rectangle.width > 1 || work[i].rectangle.height > 1 {
            idx = i;
        } else {
            idx = find_splittable(&work);
        }
        let p = work[idx];
        let w = p.rectangle.width;
        let h = p.rectangle.height;
        proof {
            assert(placement_wf(p));
            assert(w >= 1 && h >= 1);
        }
        {
            let vertical: bool;
            if h == 1 {
                vertical = true;
            } else if w == 1 {
                vertical = false;
            } else {
                vertical = rand_range_u64(0, w as u64 + h as u64) < w as u64;
            }
            let ghost prev = work@;
            if vertical {
                let cut = rand_range_u32(1, w);
                let left = Placement::new(
                    Rectangle::new(cut, h),
                    Rotation::Normal,
                    p.bottom_left,
                );
                let right = Placement::new(
                    Rectangle::new(w - cut, h),
                    Rotation::Normal,
                    Point::new(p.bottom_left.x + cut, p.bottom_left.y),
                );
                proof {
                    assert(rect_area(left.rectangle) + rect_area(right.rectangle)
                        == rect_area(p.rectangle)) by (nonlinear_arith)
                        requires
                            left.rectangle.width == cut,
                            left.rectangle.height == h,
                            right.rectangle.width == w - cut,
                            right.rectangle.height == h,
                            p.rectangle.width == w,
                            p.rectangle.height == h,
                            0 < cut < w,
                    ;
                    lemma_split_step(prev, idx as int, left, right, r.width as int, r.height as int);
                }
                work.set(idx, left);
                work.push(right);
                proof {
                    assert(work@ =~= prev.update(idx as int, left).push(right));
                }
            } else {
                let cut = rand_range_u32(1, h);
                let bottom = Placement::new(
                    Rectangle::new(w, cut),
                    Rotation::Normal,
                    p.bottom_left,
                );
                let top = Placement::new(
                    Rectangle::new(w, h - cut),
                    Rotation::Normal,
                    Point::new(p.bottom_left.x, p.bottom_left.y + cut),
                );
                proof {
                    assert(rect_area(bottom.rectangle) + rect_area(top.rectangle)
                        == rect_area(p.rectangle)) by (nonlinear_arith)
                        requires
                            bottom.rectangle.width == w,
                            bottom.rectangle.height == cut,
                            top.rectangle.width == w,
                            top.rectangle.height == h - cut,
                            p.rectangle.width == w,
                            p.rectangle.height == h,
                            0 < cut < h,
                    ;
                    lemma_split_step(prev, idx as int, bottom, top, r.width as int, r.height as int);
                }
                work.set(idx, bottom);
                work.push(top);
                proof {
                    assert(work@ =~= prev.update(idx as int, bottom).push(top));
                }
            }
        }
    }
    work
}

/// The average rectangle area used to size a container for a requested
/// piece count.
pub const AVG_RECTANGLE_AREA: u64 = 50;

/// The largest piece count for which a container can be sized: the
/// product with the average area must fit the side type.
pub const MAX_GENERATED_COUNT: usize = 85899345;

/// A perfect packing of a source rectangle by exactly the listed
/// rectangles: one well-formed, unrotated placement per rectangle, in
/// order, pairwise disjoint, inside the source box, with areas that
/// cover the source exactly — zero overlap and zero gap.
pub open spec fn perfect_decomposition(ps: Seq<Placement>, r: Rectangle, rs: Seq<Rectangle>)
    -> bool {
    &&& ps.len() == rs.len()
    &&& forall|k: int| 0 <= k < ps.len() ==> {
        &&& (#[trigger] ps[k]).rectangle == rs[k]
        &&& placement_wf(ps[k])
        &&& ps[k].rotation == Rotation::Normal
        &&& in_box(ps[k], r.width as int, r.height as int)
    }
    &&& pairwise_disjoint(ps)
    &&& sum_place_areas(ps) == rect_area(r)
}

/// The unit square placed on the `i`-th cell of a grid of the given
/// width, counted row by row.
pub open spec fn unit_cell(width: int, i: int) -> Placement {
    Placement {
        rectangle: Rectangle { width: 1u32, height: 1u32 },
        rotation: Rotation::Normal,
        bottom_left: Point { x: (i % width) as u32, y: (i / width) as u32 },
        top_right: Point { x: (i % width) as u32, y: (i / width) as u32 },
    }
}

/// A list of unit-square placements covers area equal to its length.
proof fn lemma_sum_unit_places(ps: Seq<Placement>)
    requires
        forall|k: int|
            0 <= k < ps.len() ==> (#[trigger] ps[k]).rectangle == (Rectangle {
                width: 1u32,
                height: 1u32,
            }),
    ensures
        sum_place_areas(ps) == ps.len(),
    decreases ps.len(),
{
    if ps.len() > 0 {
        lemma_sum_unit_places(ps.drop_last());
    }
}

/// The row-by-row unit grid is a perfect decomposition of a rectangle
/// into unit squares, one per grid cell.
proof fn lemma_unit_grid_decomposition(r: Rectangle, rs: Seq<Rectangle>)
    requires
        r.width >= 1,
        r.height >= 1,
        rs.len() == rect_area(r),
        forall|k: int|
            0 <= k < rs.len() ==> #[trigger] rs[k] == (Rectangle { width: 1u32, height: 1u32 }),
    ensures
        exists|ps: Seq<Placement>| perfect_decomposition(ps, r, rs),
{
    let w = r.width as int;
    let h = r.height as int;
    let n = rs.len() as int;
    let ps = Seq::new(rs.len(), |i: int| unit_cell(w, i));
    assert forall|i: int| 0 <= i < n implies {
        &&& 0 <= i % w < w
        &&& 0 <= i / w < h
        &&& (#[trigger] ps[i]).bottom_left.x == i % w
        &&& ps[i].bottom_left.y == i / w
    } by {
        vstd::arithmetic::div_mod::lemma_mod_bound(i, w);
        vstd::arithmetic::div_mod::lemma_div_pos_is_pos(i, w);
        vstd::arithmetic::div_mod::lemma_multiply_divide_lt(i, w, h);
        assert(i < w * h);
    }
    assert forall|i: int, j: int|
        0 <= i < n && 0 <= j < n && i != j implies !spec_overlaps(
        #[trigger] ps[i],
        #[trigger] ps[j],
    ) by {
        if spec_overlaps(ps[i], ps[j]) {
            assert(i % w == j % w && i / w == j / w);
            vstd::arithmetic::div_mod::lemma_fundamental_div_mod(i, w);
            vstd::arithmetic::div_mod::lemma_fundamental_div_mod(j, w);
            assert(i == j);
        }
    }
    lemma_sum_unit_places(ps);
    assert(perfect_decomposition(ps, r, rs));
}

impl Problem {
    /// Produces a problem of exactly `n` rectangles that, placed along
    /// the generator's own cuts, tile the source rectangle perfectly:
    /// zero overlap, zero gap, no degenerate rectangle, and the source
    /// rectangle kept for known-perfect-packing validation. When `n`
    /// equals the source area the decomposition short-circuits to `n`
    /// unit squares.
    pub fn generate_from(r: Rectangle, n: usize, v: Variant, allow_rotation: bool) -> (p: Problem)
        requires
            1 <= n <= rect_area(r),
        ensures
            p.variant == v,
            p.allow_rotation == allow_rotation,
            p.rectangles@.len() == n,
            forall|k: int| 0 <= k < n
                ==> (#[trigger] p.rectangles@[k]).width >= 1 && p.rectangles@[k].height >= 1,
            sum_areas(p.rectangles@) == rect_area(r),
            p.source == Some(r),
            n == rect_area(r) ==> forall|k: int|
                0 <= k < n ==> #[trigger] p.rectangles@[k] == (Rectangle {
                    width: 1u32,
                    height: 1u32,
                }),
            exists|ps: Seq<Placement>| perfect_decomposition(ps, r, p.rectangles@),
    {
        let area = r.area();
        if n as u64 == area {
            let mut rects: Vec<Rectangle> = Vec::new();
            let mut i: usize = 0;
            while i < n
                invariant
                    i <= n,
                    rects@.len() == i,
                    forall|k: int| 0 <= k < i
                        ==> #[trigger] rects@[k] == (Rectangle { width: 1u32, height: 1u32 }),
                    sum_areas(rects@) == i,
                decreases n - i,
            {
                let ghost prev = rects@;
                rects.push(Rectangle::new(1, 1));
                proof {
                    assert(rects@.drop_last() =~= prev);
                    assert(rects@.last() == Rectangle { width: 1u32, height: 1u32 });
                }
                i = i + 1;
            }
            proof {
                assert(r.width >= 1 && r.height >= 1) by (nonlinear_arith)
                    requires r.width * r.height >= 1,
                ;
                lemma_unit_grid_decomposition(r, rects@);
            }
            Problem { variant: v, allow_rotation, rectangles: rects, source: Some(r) }
        } else {
            let ps = decompose(r, n);
            let mut rects: Vec<Rectangle> = Vec::new();
            let mut i: usize = 0;
            proof {
                assert(ps@.take(0) =~= Seq::<Placement>::empty());
            }
            while i < n
                invariant
                    i <= n,
                    n == ps@.len(),
                    rects@.len() == i,
                    forall|k: int| 0 <= k < ps@.len()
                        ==> (#[trigger] ps@[k]).rectangle.width >= 1
                            && ps@[k].rectangle.height >= 1,
                    forall|k: int| 0 <= k < i ==> #[trigger] rects@[k] == ps@[k].rectangle,
                    sum_areas(rects@) == sum_place_areas(ps@.take(i as int)),
                decreases n - i,
            {
                let ghost prev = rects@;
                rects.push(ps[i].rectangle);
                proof {
                    assert(rects@.drop_last() =~= prev);
                    assert(ps@.take(i + 1).drop_last() =~= ps@.take(i as int));
                    assert(ps@.take(i + 1).last() == ps@[i as int]);
                }
                i = i + 1;
            }
            proof {
                assert(ps@.take(n as int) =~= ps@);
                assert(perfect_decomposition(ps@, r, rects@));
            }
            Problem { variant: v, allow_rotation, rectangles: rects, source: Some(r) }
        }
    }
}

/// A rectangle of the given area: the sides are a divisor pair of the
/// area, drawn with a bias toward roughly square shapes.
pub fn gen_with_area(area: u64) -> (r: Rectangle)
    requires
        1 <= area <= u32::MAX,
    ensures
        rect_area(r) == area,
        r.width >= 1,
        r.height >= 1,
{
    let mut divisors: Vec<u32> = Vec::new();
    let mut i: u64 = 1;
    loop
        invariant
            1 <= i <= 0x10000,
            1 <= area <= u32::MAX,
            divisors@.len() < i,
            i >= 2 ==> divisors@.len() >= 1,
            forall|k: int| 0 <= k < divisors@.len()
                ==> 1 <= #[trigger] divisors@[k] && divisors@[k] as u64 <= area
                    && area % (divisors@[k] as u64) == 0,
        decreases area + 1 - i,
    {
        proof {
            assert(i * i <= 0x10000 * 0x10000) by (nonlinear_arith)
                requires i <= 0x10000,
            ;
        }
        if !(i * i <= area) {
            break;
        }
        proof {
            assert(i < 0x10000) by (nonlinear_arith)
                requires i * i <= area, area <= u32::MAX, i >= 1,
            ;
            assert(i <= area) by (nonlinear_arith)
                requires i * i <= area, i >= 1,
            ;
        }
        if area % i == 0 {
            let ghost prev = divisors@;
            divisors.push(i as u32);
            proof {
                assert(divisors@ =~= prev.push(i as u32));
                assert(divisors@[prev.len() as int] == i as u32);
            }
        }
        i = i + 1;
    }
    proof {
        assert(i >= 2);
    }
    let len = divisors.len();
    let len32 = len as u32;
    let s = rand_range_u32(0, len32) as u64 + rand_range_u32(0, len32) as u64
        + rand_range_u32(0, len32) as u64 + rand_range_u32(0, len32) as u64;
    proof {
        assert(s / 4 < len as u64) by (nonlinear_arith)
            requires s <= 4 * (len as u64) - 4, len >= 1,
        ;
    }
    let k = (s / 4) as usize;
    let d32 = divisors[k];
    let d = d32 as u64;
    let q = area / d;
    proof {
        vstd::arithmetic::div_mod::lemma_fundamental_div_mod(area as int, d as int);
        assert(d * q == area);
        assert(q <= area) by (nonlinear_arith)
            requires d >= 1, area >= 0, q == area as int / d as int,
        ;
        assert(q >= 1) by (nonlinear_arith)
            requires 1 <= d <= area, q == area as int / d as int,
        ;
    }
    if rand_bool() {
        let r = Rectangle::new(d32, q as u32);
        proof {
            assert(rect_area(r) == d * q) by (nonlinear_arith)
                requires r.width == d, r.height == q, rect_area(r) == r.width * r.height,
            ;
        }
        r
    } else {
        let r = Rectangle::new(q as u32, d32);
        proof {
            assert(rect_area(r) == d * q) by (nonlinear_arith)
                requires r.width == q, r.height == d, rect_area(r) == r.width * r.height,
            ;
        }
        r
    }
}

/// Builds problems from optional settings; every setting left absent is
/// chosen at random when a problem is generated.
pub struct Generator {
    pub container: Option<Rectangle>,
    pub rectangles: Option<usize>,
    pub variant: Option<Variant>,
    pub allow_rotation: Option<bool>,
}

impl Generator {
    /// Settings the generator can act on: a chosen container is not
    /// degenerate, and a piece count without a container is one the
    /// average-area sizing can serve.
    pub open spec fn wf(&self) -> bool {
        &&& match self.container {
            Some(c) => c.width >= 1 && c.height >= 1,
            None => true,
        }
        &&& match self.rectangles {
            Some(k) => 1 <= k && (self.container is None ==> k <= MAX_GENERATED_COUNT),
            None => true,
        }
    }

    /// Settings that leave every choice to chance.
    pub fn new() -> (g: Generator)
        ensures
            g.container is None,
            g.rectangles is None,
            g.variant is None,
            g.allow_rotation is None,
            g.wf(),
    {
        Generator { container: None, rectangles: None, variant: None, allow_rotation: None }
    }

    /// Requests a piece count; a count beyond the area of a chosen
    /// container is lowered to that area. Without a container the count
    /// is capped only by what the average-area sizing can serve.
    pub fn rectangles(&mut self, n: usize)
        requires
            old(self).wf(),
            1 <= n,
            old(self).container is None ==> n <= MAX_GENERATED_COUNT,
        ensures
            final(self).wf(),
            final(self).container == old(self).container,
            final(self).variant == old(self).variant,
            final(self).allow_rotation == old(self).allow_rotation,
            final(self).rectangles matches Some(k) && 1 <= k <= n,
            match old(self).container {
                Some(c) => final(self).rectangles == Some(
                    if n as int <= rect_area(c) { n as int } else { rect_area(c) } as usize,
                ),
                None => final(self).rectangles == Some(n),
            },
    {
        let capped: usize = match &self.container {
            Some(c) => {
                let a = c.area();
                if n as u64 > a {
                    proof {
                        lemma_rect_area_fits_u64(*c);
                        assert(rect_area(*c) >= 1) by (nonlinear_arith)
                            requires c.width >= 1, c.height >= 1,
                        ;
                    }
                    a as usize
                } else {
                    n
                }
            },
            None => n,
        };
        self.rectangles = Some(capped);
    }

    /// Requests a rotation policy.
    pub fn allow_rotation(&mut self, b: bool)
        requires
            old(self).wf(),
        ensures
            final(self).wf(),
            *final(self) == (Generator { allow_rotation: Some(b), ..*old(self) }),
    {
        self.allow_rotation = Some(b);
    }

    /// Requests a container-height policy. A fixed height is replaced by
    /// the generated container's height when the problem is built.
    pub fn variant(&mut self, v: Variant)
        requires
            old(self).wf(),
        ensures
            final(self).wf(),
            *final(self) == (Generator { variant: Some(v), ..*old(self) }),
    {
        self.variant = Some(v);
    }

    /// Chooses the container rectangle to decompose.
    pub fn container(&mut self, r: Rectangle)
        requires
            old(self).wf(),
            r.width >= 1,
            r.height >= 1,
        ensures
            final(self).wf(),
            *final(self) == (Generator { container: Some(r), ..*old(self) }),
    {
        self.container = Some(r);
    }

    /// Builds a problem: any absent setting is drawn at random, the
    /// piece count is lowered to the container area when it exceeds it,
    /// and a requested fixed height becomes the container's height.
    pub fn generate(&self) -> (p: Problem)
        requires
            self.wf(),
        ensures
            p.rectangles@.len() >= 1,
            forall|k: int| 0 <= k < p.rectangles@.len()
                ==> (#[trigger] p.rectangles@[k]).width >= 1 && p.rectangles@[k].height >= 1,
            self.allow_rotation matches Some(b) ==> p.allow_rotation == b,
            self.variant matches Some(Variant::Free) ==> p.variant is Free,
            self.variant matches Some(Variant::Fixed(_)) ==> p.variant is Fixed,
            match (self.container, self.variant) {
                (Some(c), Some(Variant::Fixed(_))) => p.variant == Variant::Fixed(c.height),
                _ => true,
            },
            self.container matches Some(c) ==> sum_areas(p.rectangles@) == rect_area(c),
            match (self.container, self.rectangles) {
                (Some(c), Some(k)) => p.rectangles@.len()
                    == if k as int <= rect_area(c) { k as int } else { rect_area(c) },
                (None, Some(k)) => p.rectangles@.len() == k,
                _ => true,
            },
            self.container is None ==> sum_areas(p.rectangles@) == AVG_RECTANGLE_AREA
                * p.rectangles@.len(),
    {
        let n0: usize = match self.rectangles {
            Some(k) => k,
            None => match rand_index(5) {
                0 => 3,
                1 => 5,
                2 => 10,
                3 => 25,
                _ => 5000,
            },
        };
        let r: Rectangle = match &self.container {
            Some(c) => *c,
            None => gen_with_area(n0 as u64 * AVG_RECTANGLE_AREA),
        };
        let area = r.area();
        proof {
            lemma_rect_area_fits_u64(r);
            assert(rect_area(r) >= 1) by (nonlinear_arith)
                requires r.width >= 1, r.height >= 1,
            ;
        }
        proof {
            if self.container is None {
                assert(n0 as int <= AVG_RECTANGLE_AREA * n0 as int) by (nonlinear_arith)
                    requires n0 >= 1,
                ;
            }
        }
        let n: usize = if n0 as u64 > area {
            area as usize
        } else {
            n0
        };
        let variant = match self.variant {
            Some(Variant::Fixed(_)) => Variant::Fixed(r.height),
            Some(Variant::Free) => Variant::Free,
            None => if rand_bool() {
                Variant::Free
            } else {
                Variant::Fixed(r.height)
            },
        };
        let allow_rotation = match self.allow_rotation {
            Some(b) => b,
            None => rand_bool(),
        };
        Problem::generate_from(r, n, variant, allow_rotation)
    }
}

impl Default for Generator {
    /// Settings that leave every choice to chance.
    fn default() -> (g: Generator)
        ensures
            g.container is None,
            g.rectangles is None,
            g.variant is None,
            g.allow_rotation is None,
            g.wf(),
    {
        Generator { container: None, rectangles: None, variant: None, allow_rotation: None }
    }
}

impl Problem {
    /// A generator with every setting left to chance.
    pub fn generator() -> (g: Generator)
        ensures
            g.container is None,
            g.rectangles is None,
            g.variant is None,
            g.allow_rotation is None,
            g.wf(),
    {
        Generator::new()
    }
}

/// Appends one line per rectangle, each preceded by a newline.
fn append_rect_lines(out: &mut String, rs: &Vec<Rectangle>)
    ensures
        final(out)@ == old(out)@ + rect_block_chars(rs@),
{
    let mut i: usize = 0;
    while i < rs.len()
        invariant
            i <= rs@.len(),
            out@ == old(out)@ + rect_block_chars(rs@.take(i as int)),
        decreases rs@.len() - i,
    {
        out.append("\n");
        proof {
            reveal_strlit("\n");
            assert("\n"@ =~= seq!['\n']);
        }
        append_u32(out, rs[i].width);
        out.append(" ");
        proof {
            reveal_strlit(" ");
            assert(" "@ =~= seq![' ']);
        }
        append_u32(out, rs[i].height);
        proof {
            assert(rs@.take(i + 1).drop_last() =~= rs@.take(i as int));
            assert(rs@.take(i + 1).last() == rs@[i as int]);
            assert(out@ =~= old(out)@ + rect_block_chars(rs@.take(i + 1)));
        }
        i = i + 1;
    }
    proof {
        assert(rs@.take(rs@.len() as int) =~= rs@);
    }
}

} // verus!
