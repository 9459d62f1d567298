//! The outline of a glyph as the `d` attribute of an SVG `path` element.

use vstd::prelude::*;
use crate::glyph::{Glyph, GlyphView, Point, PointView};
use crate::util::views_of;

verus! {

/// The two control points of the curve that leaves a point.
pub struct Controls {
    /// The control point on the side of the point that the curve leaves.
    pub leaving: (i16, i16),
    /// The control point on the side of the point that the curve arrives at.
    pub arriving: (i16, i16),
}

/// The character of a decimal digit.
pub open spec fn digit(d: int) -> char {
    if d == 0 {
        '0'
    } else if d == 1 {
        '1'
    } else if d == 2 {
        '2'
    } else if d == 3 {
        '3'
    } else if d == 4 {
        '4'
    } else if d == 5 {
        '5'
    } else if d == 6 {
        '6'
    } else if d == 7 {
        '7'
    } else if d == 8 {
        '8'
    } else {
        '9'
    }
}

/// A coordinate as text: its sign, then five digits.
pub open spec fn number_text(v: i16) -> Seq<char> {
    let size: int = if v < 0 {
        -v
    } else {
        v as int
    };
    seq![
        if v < 0 {
            '-'
        } else {
            '+'
        },
        digit(size / 10000),
        digit(size / 1000 % 10),
        digit(size / 100 % 10),
        digit(size / 10 % 10),
        digit(size % 10),
    ]
}

/// A pair of coordinates as text: the two numbers, which their signs keep
/// apart.
pub open spec fn pair_text(pair: (i16, i16)) -> Seq<char> {
    number_text(pair.0) + number_text(pair.1)
}

/// The distance of the second control point: the curviness with its sign
/// changed. The one value without a negative stays as it is.
pub open spec fn flipped(curviness: i16) -> i16 {
    if curviness == i16::MIN {
        curviness
    } else {
        (-curviness) as i16
    }
}

/// The point after the one at `i`, round the outline.
pub open spec fn next_point(points: Seq<PointView>, i: int) -> PointView {
    if i + 1 < points.len() {
        points[i + 1]
    } else {
        points[0]
    }
}

/// Whether `controls` holds, for each point, control points that `reach`
/// may give: the first along the point's own tangent by its curviness, the
/// second along the tangent of the next point by that point's flipped
/// curviness.
pub open spec fn is_reached<F: Fn(i16, i16, u32, i16) -> (i16, i16)>(
    points: Seq<PointView>,
    controls: Seq<Controls>,
    reach: F,
) -> bool {
    &&& controls.len() == points.len()
    &&& forall|i: int|
        0 <= i < points.len() ==> {
            let here = points[i];
            let there = next_point(points, i);
            &&& call_ensures(
                reach,
                (here.x, here.y, here.radians, here.curviness),
                (#[trigger] controls[i]).leaving,
            )
            &&& call_ensures(
                reach,
                (there.x, there.y, there.radians, flipped(there.curviness)),
                controls[i].arriving,
            )
        }
}

/// The first `k` curves of an outline: for each a `C`, the two control
/// points, and the point that the curve arrives at.
pub open spec fn curves_text(points: Seq<PointView>, controls: Seq<Controls>, k: int) -> Seq<char>
    decreases k,
{
    if k <= 0 {
        Seq::empty()
    } else {
        let there = next_point(points, k - 1);
        curves_text(points, controls, k - 1) + seq!['C'] + pair_text(controls[k - 1].leaving)
            + pair_text(controls[k - 1].arriving) + pair_text((there.x, there.y))
    }
}

/// A closed outline: `M` and the first point, a curve from each point to the
/// next and from the last to the first, then `Z`. An outline without points
/// is no text at all.
pub open spec fn outline_text(points: Seq<PointView>, controls: Seq<Controls>) -> Seq<char> {
    if points.len() == 0 {
        Seq::empty()
    } else {
        seq!['M'] + pair_text((points[0].x, points[0].y)) + curves_text(
            points,
            controls,
            points.len() as int,
        ) + seq!['Z']
    }
}

/// The first `k` outlines of a glyph, one after the other.
pub open spec fn outlines_text(
    paths: Seq<Seq<PointView>>,
    controls: Seq<Seq<Controls>>,
    k: int,
) -> Seq<char>
    decreases k,
{
    if k <= 0 {
        Seq::empty()
    } else {
        outlines_text(paths, controls, k - 1) + outline_text(paths[k - 1], controls[k - 1])
    }
}

/// Whether `text` draws `glyph` with control points that `reach` may give.
pub open spec fn is_path_d<F: Fn(i16, i16, u32, i16) -> (i16, i16)>(
    glyph: GlyphView,
    reach: F,
    text: Seq<char>,
) -> bool {
    exists|controls: Seq<Seq<Controls>>|
        {
            &&& controls.len() == glyph.paths.len()
            &&& forall|i: int|
                0 <= i < glyph.paths.len() ==> is_reached(
                    glyph.paths[i],
                    #[trigger] controls[i],
                    reach,
                )
            &&& text == #[trigger] outlines_text(glyph.paths, controls, glyph.paths.len() as int)
        }
}

/// The curves that are written do not depend on control points that come
/// later.
pub proof fn lemma_curves_text_push(
    points: Seq<PointView>,
    controls: Seq<Controls>,
    more: Controls,
    k: int,
)
    requires
        k <= controls.len(),
    ensures
        curves_text(points, controls.push(more), k) == curves_text(points, controls, k),
    decreases k,
{
    if k > 0 {
        lemma_curves_text_push(points, controls, more, k - 1);
        assert(controls.push(more)[k - 1] == controls[k - 1]);
    }
}

/// The outlines that are written do not depend on control points that come
/// later.
pub proof fn lemma_outlines_text_push(
    paths: Seq<Seq<PointView>>,
    controls: Seq<Seq<Controls>>,
    more: Seq<Controls>,
    k: int,
)
    requires
        k <= controls.len(),
    ensures
        outlines_text(paths, controls.push(more), k) == outlines_text(paths, controls, k),
    decreases k,
{
    if k > 0 {
        lemma_outlines_text_push(paths, controls, more, k - 1);
        assert(controls.push(more)[k - 1] == controls[k - 1]);
    }
}

/// The text of one decimal digit.
fn digit_text(d: i32) -> (text: &'static str)
    requires
        0 <= d <= 9,
    ensures
        text@ == seq![digit(d as int)],
{
    proof {
        reveal_strlit("0");
        reveal_strlit("1");
        reveal_strlit("2");
        reveal_strlit("3");
        reveal_strlit("4");
        reveal_strlit("5");
        reveal_strlit("6");
        reveal_strlit("7");
        reveal_strlit("8");
        reveal_strlit("9");
    }
    let text = if d == 0 {
        "0"
    } else if d == 1 {
        "1"
    } else if d == 2 {
        "2"
    } else if d == 3 {
        "3"
    } else if d == 4 {
        "4"
    } else if d == 5 {
        "5"
    } else if d == 6 {
        "6"
    } else if d == 7 {
        "7"
    } else if d == 8 {
        "8"
    } else {
        "9"
    };
    assert(text@ =~= seq![digit(d as int)]);
    text
}

/// Appends a coordinate: its sign, then five digits.
fn push_number(text: &mut String, v: i16)
    ensures
        final(text)@ == old(text)@ + number_text(v),
{
    proof {
        reveal_strlit("-");
        reveal_strlit("+");
    }
    let wide: i32 = v as i32;
    let size: i32 = if wide < 0 {
        -wide
    } else {
        wide
    };
    if wide < 0 {
        text.append("-");
    } else {
        text.append("+");
    }
    text.append(digit_text(size / 10000));
    text.append(digit_text(size / 1000 % 10));
    text.append(digit_text(size / 100 % 10));
    text.append(digit_text(size / 10 % 10));
    text.append(digit_text(size % 10));
    assert(text@ =~= old(text)@ + number_text(v));
}

/// Appends a pair of coordinates.
fn push_coordinates(text: &mut String, pair: (i16, i16))
    ensures
        final(text)@ == old(text)@ + pair_text(pair),
{
    push_number(text, pair.0);
    push_number(text, pair.1);
    assert(text@ =~= old(text)@ + pair_text(pair));
}

/// Appends one outline.
fn points_to_commands<F: Fn(i16, i16, u32, i16) -> (i16, i16)>(
    text: &mut String,
    points: &Vec<Point>,
    reach: &F,
) -> (controls: Ghost<Seq<Controls>>)
    requires
        forall|x: i16, y: i16, radians: u32, distance: i16|
            call_requires(*reach, (x, y, radians, distance)),
    ensures
        is_reached(views_of(points@), controls@, *reach),
        final(text)@ == old(text)@ + outline_text(views_of(points@), controls@),
{
    let ghost plain = views_of(points@);
    let ghost mut controls: Seq<Controls> = Seq::empty();
    let n = points.len();
    if n == 0 {
        assert(text@ =~= old(text)@ + outline_text(plain, controls));
        return Ghost(controls);
    }
    proof {
        reveal_strlit("M");
        reveal_strlit("C");
        reveal_strlit("Z");
    }
    text.append("M");
    push_coordinates(text, (points[0].position[0], points[0].position[1]));
    let ghost start = text@;
    let mut i: usize = 0;
    while i < n
        invariant
            forall|x: i16, y: i16, radians: u32, distance: i16|
                call_requires(*reach, (x, y, radians, distance)),
            n == points@.len(),
            plain == views_of(points@),
            i <= n,
            controls.len() == i,
            "C"@ == seq!['C'],
            forall|k: int|
                0 <= k < i ==> {
                    let here = plain[k];
                    let there = next_point(plain, k);
                    &&& call_ensures(
                        *reach,
                        (here.x, here.y, here.radians, here.curviness),
                        (#[trigger] controls[k]).leaving,
                    )
                    &&& call_ensures(
                        *reach,
                        (there.x, there.y, there.radians, flipped(there.curviness)),
                        controls[k].arriving,
                    )
                },
            text@ == start + curves_text(plain, controls, i as int),
        decreases n - i,
    {
        let here = &points[i];
        let there = if i + 1 < n {
            &points[i + 1]
        } else {
            &points[0]
        };
        let back: i16 = if there.curviness == i16::MIN {
            there.curviness
        } else {
            -there.curviness
        };
        let leaving = reach(here.position[0], here.position[1], here.radians, here.curviness);
        let arriving = reach(there.position[0], there.position[1], there.radians, back);
        let ghost before = text@;
        text.append("C");
        push_coordinates(text, leaving);
        push_coordinates(text, arriving);
        push_coordinates(text, (there.position[0], there.position[1]));
        proof {
            let added = Controls { leaving, arriving };
            lemma_curves_text_push(plain, controls, added, i as int);
            controls = controls.push(added);
            assert(there@ == next_point(plain, i as int));
            assert(text@ =~= start + curves_text(plain, controls, i as int + 1));
        }
        i += 1;
    }
    text.append("Z");
    assert(text@ =~= old(text)@ + outline_text(plain, controls));
    Ghost(controls)
}

impl Glyph {
    /// The outline of the glyph as the `d` attribute of an SVG `path`
    /// element: each path as one closed run of cubic curves.
    ///
    /// `reach` is given a position, an angle and a distance, and returns
    /// the point at that distance from the position in the direction of the
    /// angle. The curve from a point to the next has its first control point
    /// along the tangent of the point it leaves, by that point's curviness,
    /// and its second along the tangent of the point it arrives at, by that
    /// point's curviness with the sign changed, so that it arrives from the
    /// other side.
    pub fn to_svg_path_d<F: Fn(i16, i16, u32, i16) -> (i16, i16)>(&self, reach: &F) -> (text:
        String)
        requires
            forall|x: i16, y: i16, radians: u32, distance: i16|
                call_requires(*reach, (x, y, radians, distance)),
        ensures
            is_path_d(self@, *reach, text@),
    {
        let mut text = String::new();
        let paths = self.paths();
        let ghost plain = self@.paths;
        let ghost mut controls: Seq<Seq<Controls>> = Seq::empty();
        let mut i: usize = 0;
        while i < paths.len()
            invariant
                forall|x: i16, y: i16, radians: u32, distance: i16|
                    call_requires(*reach, (x, y, radians, distance)),
                plain == self@.paths,
                views_of(paths@) == plain,
                i <= paths@.len(),
                controls.len() == i,
                forall|k: int| 0 <= k < i ==> is_reached(plain[k], #[trigger] controls[k], *reach),
                text@ == outlines_text(plain, controls, i as int),
            decreases paths@.len() - i,
        {
            let points = paths[i].points();
            let Ghost(added) = points_to_commands(&mut text, points, reach);
            proof {
                assert(views_of(paths@)[i as int] == paths@[i as int]@);
                assert(views_of(points@) =~= plain[i as int]);
                lemma_outlines_text_push(plain, controls, added, i as int);
                controls = controls.push(added);
            }
            i += 1;
        }
        proof {
            assert(text@ == outlines_text(plain, controls, plain.len() as int));
        }
        text
    }
}

} // verus!
