//! Fonts, their chain of versions, and the score of each character.

use vstd::prelude::*;
use crate::bytes::{
    be_u32, be_u64, get_u32, get_u64, lemma_be_u64_injective, lemma_u32_round_trip,
    lemma_u64_round_trip, put_u64, u64_at,
};
use crate::database::{is_prefix_scan, key_before, starts_with};
use crate::glyph::Glyph;
use crate::id::Id;
use crate::user::User;
use crate::util::{char_at, char_map, char_wire, char_write, CodecError, DekuRW};

verus! {

/// A font under evolution.
pub struct Font {
    /// The version that the font started with. It never changes.
    pub first_version: Id<Version>,
    /// The generation that is being tested.
    pub current_version: Id<Version>,
    /// The glyphs that still await a test, in the order they will be shown.
    pub candidates: Vec<Id<Glyph>>,
}

/// A font as a plain value.
pub struct FontView {
    pub first_version: u64,
    pub current_version: u64,
    pub candidates: Seq<u64>,
}

/// One generation of a font. Its glyphs are the records keyed by it.
///
/// The identifier of the next version is kept as its number: a version
/// cannot hold a value whose type names the version itself.
#[derive(Clone, Copy)]
pub struct Version {
    next_version: u64,
}

/// A version as a plain value.
pub struct VersionView {
    pub next_version: u64,
}

impl Version {
    /// The version that is followed by `next_version`.
    pub fn new(next_version: Id<Version>) -> (version: Version)
        ensures
            version@.next_version == next_version@,
    {
        Version { next_version: next_version.get_inner() }
    }

    /// The identifier set aside for the generation after this one, which may
    /// not exist yet.
    pub fn next_version(&self) -> (next: Id<Version>)
        ensures
            next@ == self@.next_version,
    {
        Id::new(self.next_version)
    }
}

/// Names one character of one version.
#[derive(Clone, Copy)]
pub struct VersionGlyphKey {
    pub font_version: Id<Version>,
    pub char: char,
}

/// A version glyph key as a plain value.
pub struct VersionGlyphKeyView {
    pub font_version: u64,
    pub char: char,
}

/// The glyph that a version holds for a character, and the best time so far.
#[derive(Clone, Copy)]
pub struct VersionGlyph {
    pub glyph: Id<Glyph>,
    /// `None` until the glyph has been tested in this version.
    pub score: Option<Score>,
}

/// A version glyph as a plain value.
pub struct VersionGlyphView {
    pub glyph: u64,
    pub score: Option<ScoreView>,
}

/// The best completion time of a glyph, and who reached it.
#[derive(Clone, Copy)]
pub struct Score {
    /// The time in seconds, as the bit pattern of an IEEE 754
    /// double-precision number. Lower is better.
    pub time: u64,
    pub user: Id<User>,
}

/// A score as a plain value.
pub struct ScoreView {
    pub time: u64,
    pub user: u64,
}

impl View for Font {
    type V = FontView;

    open spec fn view(&self) -> FontView {
        FontView {
            first_version: self.first_version@,
            current_version: self.current_version@,
            candidates: Seq::new(self.candidates@.len(), |i: int| self.candidates@[i]@),
        }
    }
}

impl View for Version {
    type V = VersionView;

    closed spec fn view(&self) -> VersionView {
        VersionView { next_version: self.next_version }
    }
}

impl View for VersionGlyphKey {
    type V = VersionGlyphKeyView;

    open spec fn view(&self) -> VersionGlyphKeyView {
        VersionGlyphKeyView { font_version: self.font_version@, char: self.char }
    }
}

impl View for Score {
    type V = ScoreView;

    open spec fn view(&self) -> ScoreView {
        ScoreView { time: self.time, user: self.user@ }
    }
}

impl View for VersionGlyph {
    type V = VersionGlyphView;

    open spec fn view(&self) -> VersionGlyphView {
        VersionGlyphView {
            glyph: self.glyph@,
            score: match self.score {
                Some(score) => Some(score@),
                None => None,
            },
        }
    }
}

/// Identifiers one after the other, eight bytes each.
pub open spec fn ids_wire(ids: Seq<u64>) -> Seq<u8>
    decreases ids.len(),
{
    if ids.len() == 0 {
        Seq::empty()
    } else {
        ids_wire(ids.drop_last()) + be_u64(ids.last())
    }
}

/// The `n` identifiers that stand in `s` from `at` on.
pub open spec fn ids_at(s: Seq<u8>, at: int, n: nat) -> Seq<u64> {
    Seq::new(n, |i: int| u64_at(s, at + 8 * i))
}

/// A font: first version, current version, then the candidates to the end
/// of the record.
pub open spec fn font_wire(font: FontView) -> Seq<u8> {
    be_u64(font.first_version) + be_u64(font.current_version) + ids_wire(font.candidates)
}

/// The font that fills `s`.
pub open spec fn font_of(s: Seq<u8>) -> Result<FontView, CodecError> {
    if s.len() < 16 || (s.len() - 16) % 8 != 0 {
        Err(CodecError::Incomplete)
    } else {
        Ok(
            FontView {
                first_version: u64_at(s, 0),
                current_version: u64_at(s, 8),
                candidates: ids_at(s, 16, ((s.len() - 16) / 8) as nat),
            },
        )
    }
}

/// A version: the identifier of the next one.
pub open spec fn version_wire(version: VersionView) -> Seq<u8> {
    be_u64(version.next_version)
}

/// The version at the front of `s`.
pub open spec fn version_of(s: Seq<u8>) -> Result<VersionView, CodecError> {
    if s.len() < 8 {
        Err(CodecError::Incomplete)
    } else {
        Ok(VersionView { next_version: u64_at(s, 0) })
    }
}

/// A key: the version, then the character's code point. Keys of one version
/// share their first eight bytes and follow each other by code point.
pub open spec fn key_wire(key: VersionGlyphKeyView) -> Seq<u8> {
    be_u64(key.font_version) + char_wire(key.char)
}

/// The key at the front of `s`.
pub open spec fn key_of(s: Seq<u8>) -> Result<VersionGlyphKeyView, CodecError> {
    if s.len() < 12 {
        Err(CodecError::Incomplete)
    } else {
        match char_at(s, 8) {
            Ok(c) => Ok(VersionGlyphKeyView { font_version: u64_at(s, 0), char: c }),
            Err(e) => Err(e),
        }
    }
}

/// A score: the time's bit pattern, then the user.
pub open spec fn score_wire(score: ScoreView) -> Seq<u8> {
    be_u64(score.time) + be_u64(score.user)
}

/// A version glyph: the glyph, then the score if there is one. The record
/// ends after the glyph exactly when there is none.
pub open spec fn version_glyph_wire(entry: VersionGlyphView) -> Seq<u8> {
    match entry.score {
        Some(score) => be_u64(entry.glyph) + score_wire(score),
        None => be_u64(entry.glyph),
    }
}

/// The version glyph at the front of `s`.
pub open spec fn version_glyph_of(s: Seq<u8>) -> Result<VersionGlyphView, CodecError> {
    if s.len() < 8 {
        Err(CodecError::Incomplete)
    } else if s.len() == 8 {
        Ok(VersionGlyphView { glyph: u64_at(s, 0), score: None })
    } else if s.len() < 24 {
        Err(CodecError::Incomplete)
    } else {
        Ok(
            VersionGlyphView {
                glyph: u64_at(s, 0),
                score: Some(ScoreView { time: u64_at(s, 8), user: u64_at(s, 16) }),
            },
        )
    }
}

/// Whether a time is not a number.
pub open spec fn is_nan(time: u64) -> bool {
    time % 0x8000_0000_0000_0000 > 0x7ff0_0000_0000_0000
}

/// Where a time that is a number stands among all of them: times compare as
/// these do.
pub open spec fn rank(time: u64) -> int {
    if time >= 0x8000_0000_0000_0000 {
        -(time % 0x8000_0000_0000_0000)
    } else {
        time as int
    }
}

/// Whether `new_time` is greater than `time`, as IEEE 754 compares two
/// double-precision numbers by their bit patterns: never where one of them
/// is not a number, and with the two zeros equal.
pub open spec fn slower(new_time: u64, time: u64) -> bool {
    !is_nan(new_time) && !is_nan(time) && rank(new_time) > rank(time)
}

/// Whether a score stays when `new_time` comes in: only where it has a time
/// and the new one is strictly slower.
pub open spec fn keeps(score: Option<ScoreView>, new_time: u64) -> bool {
    score matches Some(best) && slower(new_time, best.time)
}

/// The score that is stored once `new_time` has come in from `user`.
pub open spec fn retained(score: Option<ScoreView>, new_time: u64, user: u64) -> ScoreView {
    if keeps(score, new_time) {
        score->0
    } else {
        ScoreView { time: new_time, user }
    }
}

/// Whether `new_time` is strictly slower than `time`.
pub fn is_slower(new_time: u64, time: u64) -> (r: bool)
    ensures
        r == slower(new_time, time),
{
    let half: u64 = 0x8000_0000_0000_0000;
    let new_size: u64 = new_time % half;
    let size: u64 = time % half;
    if new_size > 0x7ff0_0000_0000_0000 || size > 0x7ff0_0000_0000_0000 {
        return false;
    }
    let new_minus: bool = new_time >= half;
    let minus: bool = time >= half;
    if new_minus {
        minus && new_size < size
    } else if minus {
        new_size > 0 || size > 0
    } else {
        new_size > size
    }
}

/// Of two times that are numbers, the faster one is retained, whichever
/// came first; a tie goes to the new one.
pub proof fn lemma_best_time_retained(score: ScoreView, new_time: u64, user: u64)
    requires
        !is_nan(score.time),
        !is_nan(new_time),
    ensures
        rank(retained(Some(score), new_time, user).time) == if rank(new_time) < rank(
            score.time,
        ) {
            rank(new_time)
        } else {
            rank(score.time)
        },
        rank(new_time) <= rank(score.time) ==> retained(Some(score), new_time, user) == (
        ScoreView { time: new_time, user }),
        rank(new_time) > rank(score.time) ==> retained(Some(score), new_time, user) == score,
{
}

/// The first time of a glyph is stored as it is.
pub proof fn lemma_first_time_retained(new_time: u64, user: u64)
    ensures
        retained(None, new_time, user) == (ScoreView { time: new_time, user }),
{
}

/// The keys of a version are those that begin with the version.
pub proof fn lemma_key_prefix(key: VersionGlyphKeyView, version: u64)
    ensures
        starts_with(key_wire(key), be_u64(version)) <==> key.font_version == version,
{
    let wire = key_wire(key);
    assert(wire.subrange(0, 8) =~= be_u64(key.font_version));
    if wire.subrange(0, 8) == be_u64(version) {
        lemma_be_u64_injective(key.font_version, version);
    }
}

/// A common beginning does not change the order of two keys.
pub proof fn lemma_key_before_after_prefix(prefix: Seq<u8>, a: Seq<u8>, b: Seq<u8>)
    ensures
        key_before(prefix + a, prefix + b) == key_before(a, b),
    decreases prefix.len(),
{
    if prefix.len() == 0 {
        assert(prefix + a =~= a);
        assert(prefix + b =~= b);
    } else {
        let rest = prefix.drop_first();
        assert((prefix + a).drop_first() =~= rest + a);
        assert((prefix + b).drop_first() =~= rest + b);
        assert((prefix + a)[0] == (prefix + b)[0]);
        lemma_key_before_after_prefix(rest, a, b);
    }
}

/// Four big-endian bytes follow each other as their numbers do.
pub proof fn lemma_be_u32_order(x: u32, y: u32)
    ensures
        key_before(be_u32(x), be_u32(y)) <==> x < y,
{
    let a = be_u32(x);
    let b = be_u32(y);
    reveal_with_fuel(key_before, 5);
    assert(a.drop_first() =~= seq![a[1], a[2], a[3]]);
    assert(b.drop_first() =~= seq![b[1], b[2], b[3]]);
    assert(a.drop_first().drop_first() =~= seq![a[2], a[3]]);
    assert(b.drop_first().drop_first() =~= seq![b[2], b[3]]);
    assert(a.drop_first().drop_first().drop_first() =~= seq![a[3]]);
    assert(b.drop_first().drop_first().drop_first() =~= seq![b[3]]);
    assert(a.drop_first().drop_first().drop_first().drop_first() =~= Seq::<u8>::empty());
    assert(b.drop_first().drop_first().drop_first().drop_first() =~= Seq::<u8>::empty());
    let a0 = ((x >> 24) & 0xff) as u8;
    let a1 = ((x >> 16) & 0xff) as u8;
    let a2 = ((x >> 8) & 0xff) as u8;
    let a3 = (x & 0xff) as u8;
    let b0 = ((y >> 24) & 0xff) as u8;
    let b1 = ((y >> 16) & 0xff) as u8;
    let b2 = ((y >> 8) & 0xff) as u8;
    let b3 = (y & 0xff) as u8;
    assert((x < y) <==> (a0 < b0 || (a0 == b0 && (a1 < b1 || (a1 == b1 && (a2 < b2 || (a2 == b2
        && a3 < b3))))))) by (bit_vector)
        requires
            a0 == ((x >> 24) & 0xff) as u8,
            a1 == ((x >> 16) & 0xff) as u8,
            a2 == ((x >> 8) & 0xff) as u8,
            a3 == (x & 0xff) as u8,
            b0 == ((y >> 24) & 0xff) as u8,
            b1 == ((y >> 16) & 0xff) as u8,
            b2 == ((y >> 8) & 0xff) as u8,
            b3 == (y & 0xff) as u8,
    ;
}

/// The keys of one version follow each other by character.
pub proof fn lemma_key_order(a: VersionGlyphKeyView, b: VersionGlyphKeyView)
    requires
        a.font_version == b.font_version,
    ensures
        key_before(key_wire(a), key_wire(b)) <==> (a.char as u32) < (b.char as u32),
{
    lemma_key_before_after_prefix(be_u64(a.font_version), char_wire(a.char), char_wire(b.char));
    lemma_be_u32_order(a.char as u32, b.char as u32);
}

/// A scan by a version yields the entries of that version, each once, by
/// character, and none of another version.
pub proof fn lemma_version_scan_by_character(
    entries: Map<Seq<u8>, Seq<u8>>,
    version: u64,
    raw: Seq<(Seq<u8>, Seq<u8>)>,
    keys: Seq<VersionGlyphKeyView>,
)
    requires
        is_prefix_scan(entries, be_u64(version), raw),
        keys.len() == raw.len(),
        forall|i: int| 0 <= i < raw.len() ==> (#[trigger] raw[i]).0 == key_wire(keys[i]),
    ensures
        forall|i: int| 0 <= i < keys.len() ==> (#[trigger] keys[i]).font_version == version,
        forall|i: int, j: int|
            0 <= i < j < keys.len() ==> ((#[trigger] keys[i]).char as u32) < (
            (#[trigger] keys[j]).char as u32),
        forall|i: int|
            0 <= i < keys.len() ==> entries.contains_key(key_wire(#[trigger] keys[i]))
                && entries[key_wire(keys[i])] == raw[i].1,
        forall|key: VersionGlyphKeyView|
            key.font_version == version && entries.contains_key(#[trigger] key_wire(key))
                ==> exists|i: int| 0 <= i < keys.len() && #[trigger] keys[i] == key,
{
    reveal(is_prefix_scan);
    assert forall|i: int| 0 <= i < keys.len() implies (#[trigger] keys[i]).font_version
        == version && entries.contains_key(key_wire(keys[i])) && entries[key_wire(keys[i])]
        == raw[i].1 by {
        assert(raw[i].0 == key_wire(keys[i]));
        lemma_key_prefix(keys[i], version);
    }
    assert forall|i: int, j: int| 0 <= i < j < keys.len() implies ((#[trigger] keys[i]).char as u32)
        < ((#[trigger] keys[j]).char as u32) by {
        assert(raw[i].0 == key_wire(keys[i]));
        assert(raw[j].0 == key_wire(keys[j]));
        assert(key_before(raw[i].0, raw[j].0));
        lemma_key_prefix(keys[i], version);
        lemma_key_prefix(keys[j], version);
        lemma_key_order(keys[i], keys[j]);
    }
    assert forall|key: VersionGlyphKeyView|
        key.font_version == version && entries.contains_key(
            #[trigger] key_wire(key),
        ) implies exists|i: int| 0 <= i < keys.len() && #[trigger] keys[i] == key by {
        lemma_key_prefix(key, version);
        let i = choose|i: int| 0 <= i < raw.len() && #[trigger] raw[i].0 == key_wire(key);
        assert(raw[i].0 == key_wire(keys[i]));
        lemma_key_round_trip(key);
        lemma_key_round_trip(keys[i]);
        assert(keys[i] == key);
    }
}

/// `n` identifiers take eight bytes each.
pub proof fn lemma_ids_wire_len(ids: Seq<u64>)
    ensures
        ids_wire(ids).len() == 8 * ids.len(),
    decreases ids.len(),
{
    if ids.len() > 0 {
        lemma_ids_wire_len(ids.drop_last());
    }
}

/// Where a stretch of `s` is the wire form of some identifiers, it spells
/// them.
pub proof fn lemma_ids_round_trip(s: Seq<u8>, at: int, ids: Seq<u64>)
    requires
        0 <= at,
        at + 8 * ids.len() <= s.len(),
        s.subrange(at, at + 8 * ids.len()) == ids_wire(ids),
    ensures
        ids_at(s, at, ids.len()) == ids,
    decreases ids.len(),
{
    let n = ids.len() as int;
    if n > 0 {
        let head = ids.drop_last();
        lemma_ids_wire_len(head);
        let w = ids_wire(ids);
        assert(s.subrange(at, at + 8 * (n - 1)) =~= w.subrange(0, 8 * (n - 1)));
        assert(w.subrange(0, 8 * (n - 1)) =~= ids_wire(head));
        lemma_ids_round_trip(s, at, head);
        let last_at = at + 8 * (n - 1);
        assert(s.subrange(last_at, last_at + 8) =~= w.subrange(8 * (n - 1), 8 * n));
        assert(w.subrange(8 * (n - 1), 8 * n) =~= be_u64(ids.last()));
        lemma_u64_round_trip(s, last_at, ids.last());
        assert forall|i: int| 0 <= i < n implies ids_at(s, at, n as nat)[i] == ids[i] by {
            if i < n - 1 {
                assert(ids_at(s, at, (n - 1) as nat)[i] == head[i]);
            }
        }
    }
    assert(ids_at(s, at, ids.len()) =~= ids);
}

/// Reading the wire form of a font gives the font again.
pub proof fn lemma_font_round_trip(font: FontView)
    ensures
        font_of(font_wire(font)) == Ok::<FontView, CodecError>(font),
{
    let s = font_wire(font);
    let n = font.candidates.len() as int;
    lemma_ids_wire_len(font.candidates);
    assert(s.len() == 16 + 8 * n);
    assert(s.subrange(0, 8) =~= be_u64(font.first_version));
    assert(s.subrange(8, 16) =~= be_u64(font.current_version));
    assert(s.subrange(16, 16 + 8 * n) =~= ids_wire(font.candidates));
    lemma_u64_round_trip(s, 0, font.first_version);
    lemma_u64_round_trip(s, 8, font.current_version);
    lemma_ids_round_trip(s, 16, font.candidates);
    assert((s.len() - 16) / 8 == n);
}

/// Reading the wire form of a version gives the version again.
pub proof fn lemma_version_round_trip(version: VersionView)
    ensures
        version_of(version_wire(version)) == Ok::<VersionView, CodecError>(version),
{
    let s = version_wire(version);
    assert(s.subrange(0, 8) =~= s);
    lemma_u64_round_trip(s, 0, version.next_version);
}

/// Reading the wire form of a key gives the key again.
pub proof fn lemma_key_round_trip(key: VersionGlyphKeyView)
    ensures
        key_of(key_wire(key)) == Ok::<VersionGlyphKeyView, CodecError>(key),
{
    let s = key_wire(key);
    assert(s.subrange(0, 8) =~= be_u64(key.font_version));
    assert(s.subrange(8, 12) =~= char_wire(key.char));
    lemma_u64_round_trip(s, 0, key.font_version);
    lemma_u32_round_trip(s, 8, key.char as u32);
}

/// Reading the wire form of a version glyph gives it again, with its score
/// or without.
pub proof fn lemma_version_glyph_round_trip(entry: VersionGlyphView)
    ensures
        version_glyph_of(version_glyph_wire(entry)) == Ok::<VersionGlyphView, CodecError>(entry),
{
    let s = version_glyph_wire(entry);
    assert(s.subrange(0, 8) =~= be_u64(entry.glyph));
    lemma_u64_round_trip(s, 0, entry.glyph);
    match entry.score {
        Some(score) => {
            assert(s.subrange(8, 16) =~= be_u64(score.time));
            assert(s.subrange(16, 24) =~= be_u64(score.user));
            lemma_u64_round_trip(s, 8, score.time);
            lemma_u64_round_trip(s, 16, score.user);
        },
        None => {},
    }
}

impl DekuRW for Font {
    open spec fn wire(value: FontView) -> Seq<u8> {
        font_wire(value)
    }

    open spec fn parse(bytes: Seq<u8>) -> Result<FontView, CodecError> {
        font_of(bytes)
    }

    open spec fn fits(value: FontView) -> bool {
        true
    }

    proof fn lemma_round_trip(value: FontView) {
        lemma_font_round_trip(value);
    }

    fn to_bytes(&self) -> (out: Vec<u8>) {
        let mut out: Vec<u8> = Vec::new();
        put_u64(&mut out, self.first_version.get_inner());
        put_u64(&mut out, self.current_version.get_inner());
        let mut i: usize = 0;
        while i < self.candidates.len()
            invariant
                i <= self.candidates@.len(),
                out@ == be_u64(self@.first_version) + be_u64(self@.current_version) + ids_wire(
                    self@.candidates.take(i as int),
                ),
            decreases self.candidates@.len() - i,
        {
            put_u64(&mut out, self.candidates[i].get_inner());
            proof {
                let done = self@.candidates.take(i as int);
                let more = self@.candidates.take(i as int + 1);
                assert(more.drop_last() =~= done);
                assert(more.last() == self.candidates@[i as int]@);
                assert(out@ =~= be_u64(self@.first_version) + be_u64(self@.current_version)
                    + ids_wire(more));
            }
            i += 1;
        }
        proof {
            assert(self@.candidates.take(i as int) =~= self@.candidates);
        }
        out
    }

    fn read(bytes: &[u8]) -> (r: Result<Self, CodecError>) {
        if bytes.len() < 16 || (bytes.len() - 16) % 8 != 0 {
            return Err(CodecError::Incomplete);
        }
        let first_version = Id::new(get_u64(bytes, 0));
        let current_version = Id::new(get_u64(bytes, 8));
        let n: usize = (bytes.len() - 16) / 8;
        let mut candidates: Vec<Id<Glyph>> = Vec::new();
        let mut i: usize = 0;
        while i < n
            invariant
                i <= n,
                16 + 8 * n <= bytes@.len(),
                candidates@.len() == i,
                forall|k: int|
                    0 <= k < i ==> (#[trigger] candidates@[k])@ == u64_at(bytes@, 16 + 8 * k),
            decreases n - i,
        {
            let len = bytes.len();
            assert(16 + 8 * i + 8 <= len);
            candidates.push(Id::new(get_u64(bytes, 16 + 8 * i)));
            i += 1;
        }
        let font = Font { first_version, current_version, candidates };
        assert(font@.candidates =~= ids_at(bytes@, 16, n as nat));
        Ok(font)
    }
}

impl DekuRW for Version {
    open spec fn wire(value: VersionView) -> Seq<u8> {
        version_wire(value)
    }

    open spec fn parse(bytes: Seq<u8>) -> Result<VersionView, CodecError> {
        version_of(bytes)
    }

    open spec fn fits(value: VersionView) -> bool {
        true
    }

    proof fn lemma_round_trip(value: VersionView) {
        lemma_version_round_trip(value);
    }

    fn to_bytes(&self) -> (out: Vec<u8>) {
        let mut out: Vec<u8> = Vec::new();
        put_u64(&mut out, self.next_version);
        assert(out@ =~= version_wire(self@));
        out
    }

    fn read(bytes: &[u8]) -> (r: Result<Self, CodecError>) {
        if bytes.len() < 8 {
            Err(CodecError::Incomplete)
        } else {
            Ok(Version { next_version: get_u64(bytes, 0) })
        }
    }
}

impl DekuRW for VersionGlyphKey {
    open spec fn wire(value: VersionGlyphKeyView) -> Seq<u8> {
        key_wire(value)
    }

    open spec fn parse(bytes: Seq<u8>) -> Result<VersionGlyphKeyView, CodecError> {
        key_of(bytes)
    }

    open spec fn fits(value: VersionGlyphKeyView) -> bool {
        true
    }

    proof fn lemma_round_trip(value: VersionGlyphKeyView) {
        lemma_key_round_trip(value);
    }

    fn to_bytes(&self) -> (out: Vec<u8>) {
        let mut out: Vec<u8> = Vec::new();
        put_u64(&mut out, self.font_version.get_inner());
        char_write(&mut out, &self.char);
        assert(out@ =~= key_wire(self@));
        out
    }

    fn read(bytes: &[u8]) -> (r: Result<Self, CodecError>) {
        if bytes.len() < 12 {
            return Err(CodecError::Incomplete);
        }
        let font_version = Id::new(get_u64(bytes, 0));
        match char_map(get_u32(bytes, 8)) {
            Ok(char) => Ok(VersionGlyphKey { font_version, char }),
            Err(e) => Err(e),
        }
    }
}

impl DekuRW for VersionGlyph {
    open spec fn wire(value: VersionGlyphView) -> Seq<u8> {
        version_glyph_wire(value)
    }

    open spec fn parse(bytes: Seq<u8>) -> Result<VersionGlyphView, CodecError> {
        version_glyph_of(bytes)
    }

    open spec fn fits(value: VersionGlyphView) -> bool {
        true
    }

    proof fn lemma_round_trip(value: VersionGlyphView) {
        lemma_version_glyph_round_trip(value);
    }

    fn to_bytes(&self) -> (out: Vec<u8>) {
        let mut out: Vec<u8> = Vec::new();
        put_u64(&mut out, self.glyph.get_inner());
        match self.score {
            Some(score) => {
                put_u64(&mut out, score.time);
                put_u64(&mut out, score.user.get_inner());
            },
            None => {},
        }
        assert(out@ =~= version_glyph_wire(self@));
        out
    }

    fn read(bytes: &[u8]) -> (r: Result<Self, CodecError>) {
        if bytes.len() < 8 {
            return Err(CodecError::Incomplete);
        }
        let glyph = Id::new(get_u64(bytes, 0));
        if bytes.len() == 8 {
            return Ok(VersionGlyph { glyph, score: None });
        }
        if bytes.len() < 24 {
            return Err(CodecError::Incomplete);
        }
        let score = Score { time: get_u64(bytes, 8), user: Id::new(get_u64(bytes, 16)) };
        Ok(VersionGlyph { glyph, score: Some(score) })
    }
}

} // verus!
