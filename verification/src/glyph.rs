//! Glyphs: one character drawn as closed paths of curve points.

use vstd::prelude::*;
use crate::bytes::{
    be_u16, be_u32, get_i16, get_u16, get_u32, lemma_i16_round_trip, lemma_u16_round_trip,
    lemma_u32_round_trip, pattern_of, put_i16, put_u16, put_u32, signed_of, u16_at, u32_at,
};
use crate::util::{char_at, char_map, char_wire, char_write, views_of, CodecError, DekuRW};

verus! {

/// One point of a path.
#[derive(Clone, Copy, Debug)]
pub struct Point {
    /// The coordinates as `[x, y]`, from 0 at the top left to 32767.
    pub position: [i16; 2],
    /// The tangent angle in radians, as the bit pattern of an IEEE 754
    /// single-precision number. Zero points to the right, and the angle
    /// turns clockwise as it grows. In the curve that leaves this point it
    /// gives the direction to the first control point; in the curve that
    /// arrives, the direction from the second one.
    pub radians: u32,
    /// How far the control points lie from this point along the tangent.
    pub curviness: i16,
}

/// A point as a plain value.
pub struct PointView {
    pub x: i16,
    pub y: i16,
    pub radians: u32,
    pub curviness: i16,
}

/// A closed outline: its points in drawing order.
#[derive(Debug)]
pub struct Path {
    count: u16,
    points: Vec<Point>,
}

/// The outlines of one character.
#[derive(Debug)]
pub struct Glyph {
    /// The character that the glyph draws. No operation changes it.
    pub char: char,
    paths: Vec<Path>,
}

/// A glyph as a plain value.
pub struct GlyphView {
    pub char: char,
    pub paths: Seq<Seq<PointView>>,
}

impl View for Point {
    type V = PointView;

    open spec fn view(&self) -> PointView {
        PointView {
            x: self.position[0],
            y: self.position[1],
            radians: self.radians,
            curviness: self.curviness,
        }
    }
}

impl View for Path {
    type V = Seq<PointView>;

    closed spec fn view(&self) -> Seq<PointView> {
        Seq::new(self.points@.len(), |i: int| self.points@[i]@)
    }
}

impl View for Glyph {
    type V = GlyphView;

    closed spec fn view(&self) -> GlyphView {
        GlyphView { char: self.char, paths: Seq::new(self.paths@.len(), |i: int| self.paths@[i]@) }
    }
}

/// The ten bytes of a point: x, y, the angle's pattern, the curviness.
pub open spec fn point_wire(p: PointView) -> Seq<u8> {
    be_u16(pattern_of(p.x)) + be_u16(pattern_of(p.y)) + be_u32(p.radians) + be_u16(
        pattern_of(p.curviness),
    )
}

/// The point that ten bytes of `s` spell, starting at `at`.
pub open spec fn point_at(s: Seq<u8>, at: int) -> PointView {
    PointView {
        x: signed_of(u16_at(s, at)),
        y: signed_of(u16_at(s, at + 2)),
        radians: u32_at(s, at + 4),
        curviness: signed_of(u16_at(s, at + 8)),
    }
}

/// The points of a path, one after the other.
pub open spec fn points_wire(points: Seq<PointView>) -> Seq<u8>
    decreases points.len(),
{
    if points.len() == 0 {
        Seq::empty()
    } else {
        points_wire(points.drop_last()) + point_wire(points.last())
    }
}

/// The `n` points that stand in `s` from `at` on.
pub open spec fn points_at(s: Seq<u8>, at: int, n: nat) -> Seq<PointView> {
    Seq::new(n, |i: int| point_at(s, at + 10 * i))
}

/// A path: the number of its points in two bytes, then the points.
pub open spec fn path_wire(points: Seq<PointView>) -> Seq<u8> {
    be_u16(points.len() as u16) + points_wire(points)
}

/// Whether a whole path stands in `s` at `at`.
pub open spec fn path_fits_at(s: Seq<u8>, at: int) -> bool {
    at + 2 <= s.len() && at + 2 + 10 * u16_at(s, at) <= s.len()
}

/// The paths of a glyph, one after the other.
pub open spec fn paths_wire(paths: Seq<Seq<PointView>>) -> Seq<u8>
    decreases paths.len(),
{
    if paths.len() == 0 {
        Seq::empty()
    } else {
        path_wire(paths.first()) + paths_wire(paths.drop_first())
    }
}

/// The paths that fill `s` from `at` to its end.
pub open spec fn paths_at(s: Seq<u8>, at: int) -> Result<Seq<Seq<PointView>>, CodecError>
    decreases s.len() - at,
{
    if at < 0 || at >= s.len() {
        Ok(Seq::empty())
    } else if !path_fits_at(s, at) {
        Err(CodecError::Incomplete)
    } else {
        let n = u16_at(s, at);
        match paths_at(s, at + 2 + 10 * n) {
            Ok(rest) => Ok(seq![points_at(s, at + 2, n as nat)] + rest),
            Err(e) => Err(e),
        }
    }
}

/// What a reader holds once `done` is read and `rest` is what follows.
pub open spec fn after_paths(
    done: Seq<Seq<PointView>>,
    rest: Result<Seq<Seq<PointView>>, CodecError>,
) -> Result<Seq<Seq<PointView>>, CodecError> {
    match rest {
        Ok(more) => Ok(done + more),
        Err(e) => Err(e),
    }
}

/// A glyph: its character, then its paths to the end of the record.
pub open spec fn glyph_wire(glyph: GlyphView) -> Seq<u8> {
    char_wire(glyph.char) + paths_wire(glyph.paths)
}

/// The glyph that fills `s`.
pub open spec fn glyph_of(s: Seq<u8>) -> Result<GlyphView, CodecError> {
    if s.len() < 4 {
        Err(CodecError::Incomplete)
    } else {
        match char_at(s, 0) {
            Err(e) => Err(e),
            Ok(c) => match paths_at(s, 4) {
                Err(e) => Err(e),
                Ok(paths) => Ok(GlyphView { char: c, paths }),
            },
        }
    }
}

/// Whether each path is short enough for its count to be written.
pub open spec fn paths_fit(paths: Seq<Seq<PointView>>) -> bool {
    forall|i: int| 0 <= i < paths.len() ==> (#[trigger] paths[i]).len() <= 0xffff
}

/// A path of `n` points takes ten bytes for each.
pub proof fn lemma_points_wire_len(points: Seq<PointView>)
    ensures
        points_wire(points).len() == 10 * points.len(),
    decreases points.len(),
{
    if points.len() > 0 {
        lemma_points_wire_len(points.drop_last());
    }
}

/// Where ten bytes of `s` are those of `p`, they spell `p`.
pub proof fn lemma_point_round_trip(s: Seq<u8>, at: int, p: PointView)
    requires
        0 <= at,
        at + 10 <= s.len(),
        s.subrange(at, at + 10) == point_wire(p),
    ensures
        point_at(s, at) == p,
{
    let w = point_wire(p);
    assert(s.subrange(at, at + 2) =~= w.subrange(0, 2));
    assert(s.subrange(at + 2, at + 4) =~= w.subrange(2, 4));
    assert(s.subrange(at + 4, at + 8) =~= w.subrange(4, 8));
    assert(s.subrange(at + 8, at + 10) =~= w.subrange(8, 10));
    assert(w.subrange(0, 2) =~= be_u16(pattern_of(p.x)));
    assert(w.subrange(2, 4) =~= be_u16(pattern_of(p.y)));
    assert(w.subrange(4, 8) =~= be_u32(p.radians));
    assert(w.subrange(8, 10) =~= be_u16(pattern_of(p.curviness)));
    lemma_i16_round_trip(s, at, p.x);
    lemma_i16_round_trip(s, at + 2, p.y);
    lemma_u32_round_trip(s, at + 4, p.radians);
    lemma_i16_round_trip(s, at + 8, p.curviness);
}

/// Where a stretch of `s` is the wire form of some points, it spells them.
pub proof fn lemma_points_round_trip(s: Seq<u8>, at: int, points: Seq<PointView>)
    requires
        0 <= at,
        at + 10 * points.len() <= s.len(),
        s.subrange(at, at + 10 * points.len()) == points_wire(points),
    ensures
        points_at(s, at, points.len()) == points,
    decreases points.len(),
{
    let n = points.len() as int;
    if n > 0 {
        let head = points.drop_last();
        lemma_points_wire_len(head);
        let w = points_wire(points);
        assert(s.subrange(at, at + 10 * (n - 1)) =~= w.subrange(0, 10 * (n - 1)));
        assert(w.subrange(0, 10 * (n - 1)) =~= points_wire(head));
        lemma_points_round_trip(s, at, head);
        let last_at = at + 10 * (n - 1);
        assert(s.subrange(last_at, last_at + 10) =~= w.subrange(10 * (n - 1), 10 * n));
        assert(w.subrange(10 * (n - 1), 10 * n) =~= point_wire(points.last()));
        lemma_point_round_trip(s, last_at, points.last());
        assert forall|i: int| 0 <= i < n implies points_at(s, at, n as nat)[i] == points[i] by {
            if i < n - 1 {
                assert(points_at(s, at, (n - 1) as nat)[i] == head[i]);
            }
        }
    }
    assert(points_at(s, at, points.len()) =~= points);
}

/// Writing one more path appends its wire form.
pub proof fn lemma_paths_wire_push(paths: Seq<Seq<PointView>>, path: Seq<PointView>)
    ensures
        paths_wire(paths.push(path)) == paths_wire(paths) + path_wire(path),
    decreases paths.len(),
{
    let more = paths.push(path);
    if paths.len() == 0 {
        assert(more.drop_first() =~= Seq::<Seq<PointView>>::empty());
        assert(paths_wire(more.drop_first()) =~= Seq::<u8>::empty());
        assert(paths_wire(more) =~= path_wire(path));
        assert(paths_wire(paths) + path_wire(path) =~= path_wire(path));
    } else {
        assert(more.drop_first() =~= paths.drop_first().push(path));
        lemma_paths_wire_push(paths.drop_first(), path);
        assert(paths_wire(more) =~= paths_wire(paths) + path_wire(path));
    }
}

/// Where the end of `s` is the wire form of some paths, it spells them.
pub proof fn lemma_paths_round_trip(s: Seq<u8>, at: int, paths: Seq<Seq<PointView>>)
    requires
        0 <= at <= s.len(),
        paths_fit(paths),
        s.subrange(at, s.len() as int) == paths_wire(paths),
    ensures
        paths_at(s, at) == Ok::<Seq<Seq<PointView>>, CodecError>(paths),
    decreases paths.len(),
{
    if paths.len() == 0 {
        assert(s.subrange(at, s.len() as int).len() == 0);
        assert(paths_at(s, at).unwrap() =~= paths);
    } else {
        let first = paths.first();
        let rest = paths.drop_first();
        let n = first.len() as int;
        let w = paths_wire(paths);
        lemma_points_wire_len(first);
        assert(paths[0].len() <= 0xffff);
        assert(w.len() >= 2 + 10 * n);
        assert(s.subrange(at, at + 2) =~= w.subrange(0, 2));
        assert(w.subrange(0, 2) =~= be_u16(n as u16));
        lemma_u16_round_trip(s, at, n as u16);
        assert(s.subrange(at + 2, at + 2 + 10 * n) =~= w.subrange(2, 2 + 10 * n));
        assert(w.subrange(2, 2 + 10 * n) =~= points_wire(first));
        lemma_points_round_trip(s, at + 2, first);
        let next = at + 2 + 10 * n;
        assert(s.subrange(next, s.len() as int) =~= w.subrange(2 + 10 * n, w.len() as int));
        assert(w.subrange(2 + 10 * n, w.len() as int) =~= paths_wire(rest));
        assert forall|i: int| 0 <= i < rest.len() implies (#[trigger] rest[i]).len() <= 0xffff by {
            assert(rest[i] == paths[i + 1]);
        }
        lemma_paths_round_trip(s, next, rest);
        assert(seq![first] + rest =~= paths);
    }
}

/// Reading the wire form of a glyph gives the glyph again.
pub proof fn lemma_glyph_round_trip(glyph: GlyphView)
    requires
        paths_fit(glyph.paths),
    ensures
        glyph_of(glyph_wire(glyph)) == Ok::<GlyphView, CodecError>(glyph),
{
    let s = glyph_wire(glyph);
    assert(s.subrange(0, 4) =~= be_u32(glyph.char as u32));
    lemma_u32_round_trip(s, 0, glyph.char as u32);
    assert(s.subrange(4, s.len() as int) =~= paths_wire(glyph.paths));
    lemma_paths_round_trip(s, 4, glyph.paths);
}

impl Point {
    /// Appends the wire form of the point to `out`.
    fn write(&self, out: &mut Vec<u8>)
        ensures
            final(out)@ == old(out)@ + point_wire(self@),
    {
        put_i16(out, self.position[0]);
        put_i16(out, self.position[1]);
        put_u32(out, self.radians);
        put_i16(out, self.curviness);
        assert(out@ =~= old(out)@ + point_wire(self@));
    }

    /// Reads the point that stands at `at`.
    fn read_at(bytes: &[u8], at: usize) -> (point: Point)
        requires
            at + 10 <= bytes@.len(),
        ensures
            point@ == point_at(bytes@, at as int),
    {
        let len = bytes.len();
        assert(at + 10 <= len);
        let x = get_i16(bytes, at);
        let y = get_i16(bytes, at + 2);
        let radians = get_u32(bytes, at + 4);
        let curviness = get_i16(bytes, at + 8);
        Point { position: [x, y], radians, curviness }
    }
}

impl Path {
    #[verifier::type_invariant]
    spec fn counted(&self) -> bool {
        self.count as int == self.points@.len()
    }

    /// Appends the wire form of the path to `out`.
    fn write(&self, out: &mut Vec<u8>)
        ensures
            final(out)@ == old(out)@ + path_wire(self@),
            self@.len() <= 0xffff,
    {
        proof {
            use_type_invariant(self);
        }
        put_u16(out, self.count);
        let mut i: usize = 0;
        while i < self.points.len()
            invariant
                i <= self.points@.len(),
                self.count as int == self.points@.len(),
                out@ == old(out)@ + be_u16(self.count) + points_wire(self@.take(i as int)),
            decreases self.points@.len() - i,
        {
            self.points[i].write(out);
            proof {
                let done = self@.take(i as int);
                let more = self@.take(i as int + 1);
                assert(more.drop_last() =~= done);
                assert(more.last() == self.points@[i as int]@);
                assert(out@ =~= old(out)@ + be_u16(self.count) + points_wire(more));
            }
            i += 1;
        }
        proof {
            assert(self@.take(i as int) =~= self@);
            assert(out@ =~= old(out)@ + path_wire(self@));
        }
    }

    /// Reads the path that stands at `at`, and says where it ends.
    fn read_at(bytes: &[u8], at: usize) -> (r: Option<(Path, usize)>)
        requires
            at <= bytes@.len(),
        ensures
            match r {
                Some((path, next)) => {
                    &&& path_fits_at(bytes@, at as int)
                    &&& next == at + 2 + 10 * u16_at(bytes@, at as int)
                    &&& path@ == points_at(bytes@, at + 2, u16_at(bytes@, at as int) as nat)
                },
                None => !path_fits_at(bytes@, at as int),
            },
    {
        if bytes.len() - at < 2 {
            return None;
        }
        let count: u16 = get_u16(bytes, at);
        let start: usize = at + 2;
        if (bytes.len() - start) / 10 < count as usize {
            return None;
        }
        let mut points: Vec<Point> = Vec::new();
        let mut i: usize = 0;
        while i < count as usize
            invariant
                i <= count,
                start + 10 * count <= bytes@.len(),
                points@.len() == i,
                forall|k: int|
                    0 <= k < i ==> (#[trigger] points@[k])@ == point_at(bytes@, start + 10 * k),
            decreases count - i,
        {
            assert(start + 10 * i + 10 <= start + 10 * count) by (nonlinear_arith)
                requires
                    i < count,
            ;
            let len = bytes.len();
            points.push(Point::read_at(bytes, start + 10 * i));
            i += 1;
        }
        let path = Path { count, points };
        assert(path@ =~= points_at(bytes@, start as int, count as nat));
        Some((path, start + 10 * count as usize))
    }
}

impl DekuRW for Glyph {
    open spec fn wire(value: GlyphView) -> Seq<u8> {
        glyph_wire(value)
    }

    open spec fn parse(bytes: Seq<u8>) -> Result<GlyphView, CodecError> {
        glyph_of(bytes)
    }

    open spec fn fits(value: GlyphView) -> bool {
        paths_fit(value.paths)
    }

    proof fn lemma_round_trip(value: GlyphView) {
        lemma_glyph_round_trip(value);
    }

    fn to_bytes(&self) -> (out: Vec<u8>) {
        let mut out: Vec<u8> = Vec::new();
        char_write(&mut out, &self.char);
        let mut i: usize = 0;
        while i < self.paths.len()
            invariant
                i <= self.paths@.len(),
                out@ == char_wire(self.char) + paths_wire(self@.paths.take(i as int)),
                paths_fit(self@.paths.take(i as int)),
            decreases self.paths@.len() - i,
        {
            self.paths[i].write(&mut out);
            proof {
                let done = self@.paths.take(i as int);
                let more = self@.paths.take(i as int + 1);
                assert(more =~= done.push(self.paths@[i as int]@));
                lemma_paths_wire_push(done, self.paths@[i as int]@);
                assert(out@ =~= char_wire(self.char) + paths_wire(more));
            }
            i += 1;
        }
        proof {
            assert(self@.paths.take(i as int) =~= self@.paths);
        }
        out
    }

    fn read(bytes: &[u8]) -> (r: Result<Self, CodecError>) {
        if bytes.len() < 4 {
            return Err(CodecError::Incomplete);
        }
        let char = match char_map(get_u32(bytes, 0)) {
            Ok(c) => c,
            Err(e) => {
                return Err(e);
            },
        };
        let mut paths: Vec<Path> = Vec::new();
        let mut at: usize = 4;
        while at < bytes.len()
            invariant
                4 <= at <= bytes@.len(),
                char_at(bytes@, 0) == Ok::<char, CodecError>(char),
                paths_at(bytes@, 4) == after_paths(
                    Seq::new(paths@.len(), |i: int| paths@[i]@),
                    paths_at(bytes@, at as int),
                ),
            decreases bytes@.len() - at,
        {
            let ghost before = Seq::new(paths@.len(), |i: int| paths@[i]@);
            match Path::read_at(bytes, at) {
                None => {
                    assert(paths_at(bytes@, at as int) is Err);
                    assert(glyph_of(bytes@) == Err::<GlyphView, CodecError>(
                        CodecError::Incomplete,
                    ));
                    return Err(CodecError::Incomplete);
                },
                Some((path, next)) => {
                    paths.push(path);
                    proof {
                        let now = Seq::new(paths@.len(), |i: int| paths@[i]@);
                        assert(now =~= before.push(path@));
                        match paths_at(bytes@, next as int) {
                            Ok(rest) => {
                                assert(before + (seq![path@] + rest) =~= now + rest);
                            },
                            Err(_) => {},
                        }
                    }
                    at = next;
                },
            }
        }
        let glyph = Glyph { char, paths };
        proof {
            let all = Seq::new(paths@.len(), |i: int| paths@[i]@);
            assert(all + Seq::<Seq<PointView>>::empty() =~= all);
            assert(glyph@.paths =~= all);
        }
        Ok(glyph)
    }
}

/// `fastrand::i16` on the range from `low` to `high`, both included: some
/// number of the range.
#[verifier::external_body]
fn random_between(low: i16, high: i16) -> (r: i16)
    requires
        low <= high,
    ensures
        low <= r <= high,
{
    fastrand::i16(low..=high)
}

/// `fastrand::shuffle`: the same glyphs in some order.
#[verifier::external_body]
fn shuffle(glyphs: &mut Vec<Glyph>)
    ensures
        views_of(final(glyphs)@).to_multiset() == views_of(old(glyphs)@).to_multiset(),
{
    fastrand::shuffle(glyphs)
}

/// How far a draw may lie from zero. A coordinate moves by the cube of the
/// draw, so most steps are small and a few are large.
pub const STEP: i16 = 10;

/// Where `value` lands when the draw is `draw`: moved by the cube of the
/// draw, and kept between zero and the largest coordinate.
pub open spec fn nudged(value: i16, draw: int) -> i16 {
    let moved = value + draw * draw * draw;
    if moved < 0 {
        0i16
    } else if moved > i16::MAX {
        i16::MAX
    } else {
        moved as i16
    }
}

/// Whether some draw takes `before` to `after`.
pub open spec fn is_nudge(before: i16, after: i16) -> bool {
    exists|draw: int| -STEP <= draw <= STEP && after == #[trigger] nudged(before, draw)
}

/// Whether `after` may come of mutating `before`, where `turn` perturbs the
/// angle.
pub open spec fn is_point_variant<F: Fn(u32) -> u32>(
    before: PointView,
    after: PointView,
    turn: F,
) -> bool {
    &&& is_nudge(before.x, after.x)
    &&& is_nudge(before.y, after.y)
    &&& is_nudge(before.curviness, after.curviness)
    &&& call_ensures(turn, (before.radians,), after.radians)
}

/// Whether `after` may come of mutating each point of `before`.
pub open spec fn is_path_variant<F: Fn(u32) -> u32>(
    before: Seq<PointView>,
    after: Seq<PointView>,
    turn: F,
) -> bool {
    &&& after.len() == before.len()
    &&& forall|i: int|
        0 <= i < before.len() ==> is_point_variant(before[i], #[trigger] after[i], turn)
}

/// Whether `after` may come of mutating `before`: the same character, and
/// path by path the same number of points, each a variant of the one at its
/// place.
pub open spec fn is_variant<F: Fn(u32) -> u32>(
    before: GlyphView,
    after: GlyphView,
    turn: F,
) -> bool {
    &&& after.char == before.char
    &&& after.paths.len() == before.paths.len()
    &&& forall|i: int|
        0 <= i < before.paths.len() ==> is_path_variant(
            before.paths[i],
            #[trigger] after.paths[i],
            turn,
        )
}

/// Whether `after` is `before` with the point at `point_id` replaced by what
/// `f` may make of it.
pub open spec fn is_update<F: Fn(Point) -> Point>(
    before: Seq<PointView>,
    after: Seq<PointView>,
    point_id: int,
    f: F,
) -> bool {
    exists|old_point: Point, new_point: Point|
        {
            &&& old_point@ == before[point_id]
            &&& #[trigger] call_ensures(f, (old_point,), new_point)
            &&& after == before.update(point_id, new_point@)
        }
}

/// Moves `value` by the cube of a random draw.
fn nudge(value: i16) -> (r: i16)
    ensures
        is_nudge(value, r),
{
    let draw: i16 = random_between(-STEP, STEP);
    let wide: i32 = draw as i32;
    assert(-100 <= wide * wide <= 100 && -1000 <= wide * wide * wide <= 1000)
        by (nonlinear_arith)
        requires
            -STEP <= wide <= STEP,
    ;
    let moved: i32 = value as i32 + wide * wide * wide;
    let r: i16 = if moved < 0 {
        0
    } else if moved > 32767 {
        32767
    } else {
        moved as i16
    };
    assert(r == nudged(value, draw as int));
    r
}

impl Point {
    /// What `new` makes.
    pub open spec fn new_view() -> PointView {
        PointView { x: 0, y: 0, radians: 0, curviness: 4096 }
    }

    /// A point at the top left, with the tangent to the right.
    pub fn new() -> (point: Point)
        ensures
            point@ == Point::new_view(),
    {
        Point { position: [0, 0], radians: 0, curviness: 4096 }
    }

    /// Perturbs the position, the angle and the curviness, each on its own.
    /// The angle is handed to `turn`, which returns the perturbed one.
    pub fn mutate<F: Fn(u32) -> u32>(&mut self, turn: &F)
        requires
            forall|angle: u32| call_requires(*turn, (angle,)),
        ensures
            is_point_variant(old(self)@, final(self)@, *turn),
    {
        let x = nudge(self.position[0]);
        let y = nudge(self.position[1]);
        let radians = turn(self.radians);
        let curviness = nudge(self.curviness);
        *self = Point { position: [x, y], radians, curviness };
    }
}

impl Path {
    /// The outline that a new glyph starts with: three points round the
    /// middle of the square.
    pub fn new() -> (path: Path)
        ensures
            path@ == starting_path(),
    {
        let mut points: Vec<Point> = Vec::new();
        points.push(Point { position: [16384, 8192], radians: 0, curviness: 4096 });
        points.push(Point { position: [24576, 16384], radians: QUARTER_TURN, curviness: 4096 });
        points.push(
            Point { position: [8192, 16384], radians: THREE_QUARTER_TURN, curviness: 4096 },
        );
        let path = Path { count: 3, points };
        assert(path@ =~= starting_path());
        path
    }

    /// The points of the path.
    pub fn points(&self) -> (points: &Vec<Point>)
        ensures
            points@.len() == self@.len(),
            forall|i: int| 0 <= i < points@.len() ==> (#[trigger] points@[i])@ == self@[i],
            self@.len() <= 0xffff,
    {
        proof {
            use_type_invariant(self);
        }
        &self.points
    }

    /// Mutates each point of the path.
    pub fn mutate<F: Fn(u32) -> u32>(&mut self, turn: &F)
        requires
            forall|angle: u32| call_requires(*turn, (angle,)),
        ensures
            is_path_variant(old(self)@, final(self)@, *turn),
    {
        proof {
            use_type_invariant(&*self);
        }
        let mut points: Vec<Point> = Vec::new();
        let mut i: usize = 0;
        while i < self.points.len()
            invariant
                forall|angle: u32| call_requires(*turn, (angle,)),
                self == old(self),
                i <= self.points@.len(),
                points@.len() == i,
                forall|k: int|
                    0 <= k < i ==> is_point_variant(
                        self.points@[k]@,
                        #[trigger] points@[k]@,
                        *turn,
                    ),
            decreases self.points@.len() - i,
        {
            let mut point = self.points[i];
            point.mutate(turn);
            points.push(point);
            i += 1;
        }
        *self = Path { count: self.count, points };
    }

    /// Applies `f` to the point at `point_id`, if there is one.
    pub fn update_point<F: Fn(Point) -> Point>(&mut self, point_id: usize, f: F)
        requires
            forall|point: Point| call_requires(f, (point,)),
        ensures
            point_id >= old(self)@.len() ==> final(self)@ == old(self)@,
            point_id < old(self)@.len() ==> is_update(old(self)@, final(self)@, point_id as int, f),
    {
        proof {
            use_type_invariant(&*self);
        }
        if point_id < self.points.len() {
            let before = self.points[point_id];
            let after = f(before);
            let mut points: Vec<Point> = Vec::new();
            let mut i: usize = 0;
            while i < self.points.len()
                invariant
                    self == old(self),
                    point_id < self.points@.len(),
                    i <= self.points@.len(),
                    points@.len() == i,
                    forall|k: int|
                        0 <= k < i ==> #[trigger] points@[k] == (if k == point_id {
                            after
                        } else {
                            self.points@[k]
                        }),
                decreases self.points@.len() - i,
            {
                if i == point_id {
                    points.push(after);
                } else {
                    points.push(self.points[i]);
                }
                i += 1;
            }
            *self = Path { count: self.count, points };
            assert(self@ =~= old(self)@.update(point_id as int, after@));
        }
    }

    /// A copy of the path with one more point, the new one of `Point::new`,
    /// or `None` where the path is full.
    fn with_point(&self) -> (longer: Option<Path>)
        ensures
            match longer {
                Some(path) => self@.len() < 0xffff && path@ == self@.push(Point::new_view()),
                None => self@.len() == 0xffff,
            },
    {
        proof {
            use_type_invariant(self);
        }
        if self.count == u16::MAX {
            return None;
        }
        let mut points: Vec<Point> = Vec::new();
        let mut i: usize = 0;
        while i < self.points.len()
            invariant
                i <= self.points@.len(),
                points@.len() == i,
                forall|k: int| 0 <= k < i ==> #[trigger] points@[k] == self.points@[k],
            decreases self.points@.len() - i,
        {
            points.push(self.points[i]);
            i += 1;
        }
        points.push(Point::new());
        let path = Path { count: self.count + 1, points };
        assert(path@ =~= self@.push(Point::new_view()));
        Some(path)
    }
}

impl Clone for Path {
    fn clone(&self) -> (copy: Path)
        ensures
            copy@ == self@,
    {
        proof {
            use_type_invariant(self);
        }
        let mut points: Vec<Point> = Vec::new();
        let mut i: usize = 0;
        while i < self.points.len()
            invariant
                i <= self.points@.len(),
                points@.len() == i,
                forall|k: int| 0 <= k < i ==> #[trigger] points@[k] == self.points@[k],
            decreases self.points@.len() - i,
        {
            points.push(self.points[i]);
            i += 1;
        }
        let copy = Path { count: self.count, points };
        assert(copy@ =~= self@);
        copy
    }
}

impl PartialEq for Point {
    fn eq(&self, other: &Point) -> (r: bool) {
        self.position[0] == other.position[0] && self.position[1] == other.position[1]
            && self.radians == other.radians && self.curviness == other.curviness
    }
}

impl vstd::std_specs::cmp::PartialEqSpecImpl for Point {
    open spec fn obeys_eq_spec() -> bool {
        true
    }

    open spec fn eq_spec(&self, other: &Point) -> bool {
        self@ == other@
    }
}

impl Eq for Point {

}

impl PartialEq for Path {
    fn eq(&self, other: &Path) -> (r: bool) {
        if self.points.len() != other.points.len() {
            return false;
        }
        let mut i: usize = 0;
        while i < self.points.len()
            invariant
                i <= self.points@.len(),
                self.points@.len() == other.points@.len(),
                forall|k: int| 0 <= k < i ==> self.points@[k]@ == other.points@[k]@,
            decreases self.points@.len() - i,
        {
            if !(self.points[i] == other.points[i]) {
                assert(self@[i as int] != other@[i as int]);
                return false;
            }
            i += 1;
        }
        assert(self@ =~= other@);
        true
    }
}

impl vstd::std_specs::cmp::PartialEqSpecImpl for Path {
    open spec fn obeys_eq_spec() -> bool {
        true
    }

    open spec fn eq_spec(&self, other: &Path) -> bool {
        self@ == other@
    }
}

impl Eq for Path {

}

impl PartialEq for Glyph {
    fn eq(&self, other: &Glyph) -> (r: bool) {
        if self.char != other.char || self.paths.len() != other.paths.len() {
            assert(self@.char != other@.char || self@.paths.len() != other@.paths.len());
            return false;
        }
        let mut i: usize = 0;
        while i < self.paths.len()
            invariant
                i <= self.paths@.len(),
                self.char == other.char,
                self.paths@.len() == other.paths@.len(),
                forall|k: int| 0 <= k < i ==> self.paths@[k]@ == other.paths@[k]@,
            decreases self.paths@.len() - i,
        {
            if !(self.paths[i] == other.paths[i]) {
                assert(self@.paths[i as int] != other@.paths[i as int]);
                return false;
            }
            i += 1;
        }
        assert(self@.paths =~= other@.paths);
        true
    }
}

impl vstd::std_specs::cmp::PartialEqSpecImpl for Glyph {
    open spec fn obeys_eq_spec() -> bool {
        true
    }

    open spec fn eq_spec(&self, other: &Glyph) -> bool {
        self@ == other@
    }
}

impl Eq for Glyph {

}

/// Whether `after` holds a variant of each glyph of `before`, in some
/// order.
pub open spec fn is_shuffled_variants<F: Fn(u32) -> u32>(
    before: Seq<GlyphView>,
    after: Seq<GlyphView>,
    turn: F,
) -> bool {
    exists|made: Seq<GlyphView>|
        {
            &&& made.len() == before.len()
            &&& forall|i: int|
                0 <= i < before.len() ==> is_variant(before[i], #[trigger] made[i], turn)
            &&& #[trigger] made.to_multiset() == after.to_multiset()
        }
}

/// Each shuffled variant is a variant of one of the glyphs.
pub proof fn lemma_shuffled_variant_of<F: Fn(u32) -> u32>(
    before: Seq<GlyphView>,
    after: Seq<GlyphView>,
    turn: F,
    i: int,
) -> (j: int)
    requires
        is_shuffled_variants(before, after, turn),
        0 <= i < after.len(),
    ensures
        0 <= j < before.len(),
        is_variant(before[j], after[i], turn),
        after.len() == before.len(),
{
    let made = choose|made: Seq<GlyphView>|
        {
            &&& made.len() == before.len()
            &&& forall|k: int|
                0 <= k < before.len() ==> is_variant(before[k], #[trigger] made[k], turn)
            &&& #[trigger] made.to_multiset() == after.to_multiset()
        };
    made.to_multiset_ensures();
    after.to_multiset_ensures();
    assert(after.contains(after[i]));
    assert(after.to_multiset().count(after[i]) > 0);
    assert(made.to_multiset().count(after[i]) > 0);
    assert(made.contains(after[i]));
    let j = choose|j: int| 0 <= j < made.len() && made[j] == after[i];
    j
}

impl Clone for Glyph {
    fn clone(&self) -> (copy: Glyph)
        ensures
            copy@ == self@,
    {
        let mut paths: Vec<Path> = Vec::new();
        let mut i: usize = 0;
        while i < self.paths.len()
            invariant
                i <= self.paths@.len(),
                paths@.len() == i,
                forall|k: int| 0 <= k < i ==> (#[trigger] paths@[k])@ == self.paths@[k]@,
            decreases self.paths@.len() - i,
        {
            paths.push(self.paths[i].clone());
            i += 1;
        }
        let copy = Glyph { char: self.char, paths };
        assert(copy@.paths =~= self@.paths);
        copy
    }
}

impl Glyph {
    /// The glyph that a character starts with: the starting path alone.
    pub fn new(char: char) -> (glyph: Glyph)
        ensures
            glyph@ == (GlyphView { char, paths: seq![starting_path()] }),
    {
        let mut paths: Vec<Path> = Vec::new();
        paths.push(Path::new());
        let glyph = Glyph { char, paths };
        assert(glyph@.paths =~= seq![starting_path()]);
        glyph
    }

    /// The character that the glyph draws.
    pub fn char(&self) -> (char: char)
        ensures
            char == self@.char,
    {
        self.char
    }

    /// The paths of the glyph.
    pub fn paths(&self) -> (paths: &[Path])
        ensures
            views_of(paths@) == self@.paths,
    {
        let paths = self.paths.as_slice();
        assert(views_of(paths@) =~= self@.paths);
        paths
    }

    /// Mutates each point of each path. The character stays.
    pub fn mutate<F: Fn(u32) -> u32>(&mut self, turn: &F)
        requires
            forall|angle: u32| call_requires(*turn, (angle,)),
        ensures
            is_variant(old(self)@, final(self)@, *turn),
    {
        let mut i: usize = 0;
        while i < self.paths.len()
            invariant
                forall|angle: u32| call_requires(*turn, (angle,)),
                self.char == old(self).char,
                self.paths@.len() == old(self).paths@.len(),
                i <= self.paths@.len(),
                forall|k: int|
                    0 <= k < i ==> is_path_variant(
                        old(self).paths@[k]@,
                        #[trigger] self.paths@[k]@,
                        *turn,
                    ),
                forall|k: int|
                    i <= k < self.paths@.len() ==> self.paths@[k] == old(self).paths@[k],
            decreases self.paths@.len() - i,
        {
            let mut path = self.paths[i].clone();
            path.mutate(turn);
            self.paths.set(i, path);
            i += 1;
        }
        assert forall|k: int| 0 <= k < old(self)@.paths.len() implies is_path_variant(
            old(self)@.paths[k],
            #[trigger] self@.paths[k],
            *turn,
        ) by {
            assert(is_path_variant(old(self).paths@[k]@, self.paths@[k]@, *turn));
        }
    }

    /// Adds the starting path as a new path.
    pub fn add_path(&mut self)
        ensures
            final(self)@ == (GlyphView {
                char: old(self)@.char,
                paths: old(self)@.paths.push(starting_path()),
            }),
    {
        self.paths.push(Path::new());
        assert(self@.paths =~= old(self)@.paths.push(starting_path()));
    }

    /// Adds a new point to the end of the path at `path_id`. Nothing
    /// happens where there is no such path or the path is full.
    pub fn add_point(&mut self, path_id: usize)
        ensures
            final(self)@ == with_new_point(old(self)@, path_id as int),
    {
        if path_id < self.paths.len() {
            match self.paths[path_id].with_point() {
                Some(path) => {
                    self.paths.set(path_id, path);
                    assert(self@.paths =~= with_new_point(old(self)@, path_id as int).paths);
                },
                None => {},
            }
        }
    }

    /// Applies `f` to the point at `point_id` of the path at `path_id`, if
    /// there is one.
    pub fn update_point<F: Fn(Point) -> Point>(&mut self, path_id: usize, point_id: usize, f: F)
        requires
            forall|point: Point| call_requires(f, (point,)),
        ensures
            final(self)@.char == old(self)@.char,
            final(self)@.paths.len() == old(self)@.paths.len(),
            forall|k: int|
                0 <= k < old(self)@.paths.len() && k != path_id ==> final(self)@.paths[k] == old(
                    self,
                )@.paths[k],
            path_id < old(self)@.paths.len() && point_id >= old(self)@.paths[path_id as int].len()
                ==> final(self)@ == old(self)@,
            path_id < old(self)@.paths.len() && point_id < old(self)@.paths[path_id as int].len()
                ==> is_update(
                old(self)@.paths[path_id as int],
                final(self)@.paths[path_id as int],
                point_id as int,
                f,
            ),
    {
        if path_id < self.paths.len() {
            let mut path = self.paths[path_id].clone();
            path.update_point(point_id, f);
            self.paths.set(path_id, path);
            proof {
                if point_id >= old(self)@.paths[path_id as int].len() {
                    assert(self@.paths =~= old(self)@.paths);
                }
            }
        }
    }

    /// A variant of each glyph, in random order, so that the order of the
    /// tests does not follow the order of the characters.
    pub fn generate_variants<F: Fn(u32) -> u32>(old_glyphs: &Vec<Glyph>, turn: &F) -> (variants:
        Vec<Glyph>)
        requires
            forall|angle: u32| call_requires(*turn, (angle,)),
        ensures
            is_shuffled_variants(views_of(old_glyphs@), views_of(variants@), *turn),
            variants@.len() == old_glyphs@.len(),
    {
        let mut variants: Vec<Glyph> = Vec::new();
        let mut i: usize = 0;
        while i < old_glyphs.len()
            invariant
                forall|angle: u32| call_requires(*turn, (angle,)),
                i <= old_glyphs@.len(),
                variants@.len() == i,
                forall|k: int|
                    0 <= k < i ==> is_variant(old_glyphs@[k]@, #[trigger] variants@[k]@, *turn),
            decreases old_glyphs@.len() - i,
        {
            let mut glyph = old_glyphs[i].clone();
            glyph.mutate(turn);
            variants.push(glyph);
            i += 1;
        }
        let ghost made = views_of(variants@);
        shuffle(&mut variants);
        proof {
            made.to_multiset_ensures();
            views_of(variants@).to_multiset_ensures();
        }
        variants
    }
}

/// The glyph with one more point, the one of `Point::new`, at the end of the
/// path at `path_id`; the glyph itself where there is no such path or the
/// path is full.
pub open spec fn with_new_point(glyph: GlyphView, path_id: int) -> GlyphView {
    if 0 <= path_id < glyph.paths.len() && glyph.paths[path_id].len() < 0xffff {
        GlyphView {
            char: glyph.char,
            paths: glyph.paths.update(path_id, glyph.paths[path_id].push(Point::new_view())),
        }
    } else {
        glyph
    }
}

/// The angle of 90 degrees in radians, as a bit pattern.
pub const QUARTER_TURN: u32 = 0x3FC9_0FDB;

/// The angle of 270 degrees in radians, as a bit pattern.
pub const THREE_QUARTER_TURN: u32 = 0x4096_CBE4;

/// The outline that a new glyph starts with: a point at the top with its
/// tangent to the right, one at the right with its tangent down, one at the
/// left with its tangent up.
pub open spec fn starting_path() -> Seq<PointView> {
    seq![
        PointView { x: 16384, y: 8192, radians: 0, curviness: 4096 },
        PointView { x: 24576, y: 16384, radians: QUARTER_TURN, curviness: 4096 },
        PointView { x: 8192, y: 16384, radians: THREE_QUARTER_TURN, curviness: 4096 },
    ]
}

} // verus!
