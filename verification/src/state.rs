//! The coordinator: adds fonts, hands out tests, records times and moves a
//! font to its next generation.

use vstd::prelude::*;
use crate::active_test::{active_test_wire, ActiveTest, ActiveTestView};
use crate::bytes::{be_u64, lemma_be_u64_injective};
use crate::database::{
    all_newer, ascending, distinct, distinct_keys, entry_at, ids_of, is_prefix_scan,
    is_unreadable_failure, lemma_ascending_distinct, lemma_ids_chain, lemma_one_id,
    lemma_put_each_found, lemma_put_each_front, lookup, misreads, newer, put_each, reads_as,
    scan_misreads, wires_of, Database, Tree,
};
use crate::error::{missing, unreadable, Error, ErrorKind, ErrorView};
use crate::font::{
    font_wire, is_slower, keeps, key_of, key_wire, version_glyph_of, version_glyph_wire,
    version_wire, Font, FontView, Score, ScoreView, Version, VersionGlyph, VersionGlyphKey,
    VersionGlyphKeyView, VersionGlyphView, VersionView,
};
use crate::glyph::{is_shuffled_variants, Glyph, GlyphView};
use crate::id::Id;
use crate::user::User;
use crate::util::{views_of, CodecError, DekuRW};

verus! {

/// The store and the tables of the engine. Each table is the one handle of
/// its table.
pub struct State {
    /// The store, which gives out the identifiers.
    pub db: Database,
    /// The test of each user.
    pub active_tests: Tree<ActiveTest, Id<User>>,
    /// What each version holds for each character.
    pub font_version_glyphs: Tree<VersionGlyph, VersionGlyphKey>,
    /// The versions, which name each other.
    pub font_versions: Tree<Version>,
    /// The fonts.
    pub fonts: Tree<Font>,
    /// The glyphs of the versions and the candidates.
    pub glyphs: Tree<Glyph>,
}

/// What the tables hold, in wire form, and the identifiers that the store
/// has given out.
pub struct StateView {
    pub active_tests: Map<Seq<u8>, Seq<u8>>,
    pub scores: Map<Seq<u8>, Seq<u8>>,
    pub versions: Map<Seq<u8>, Seq<u8>>,
    pub fonts: Map<Seq<u8>, Seq<u8>>,
    pub glyphs: Map<Seq<u8>, Seq<u8>>,
    pub issued: Set<u64>,
}

/// What the tables of the engine are called in the store.
pub struct TableNames {
    pub active_tests: Seq<u8>,
    pub scores: Seq<u8>,
    pub versions: Seq<u8>,
    pub fonts: Seq<u8>,
    pub glyphs: Seq<u8>,
}

/// The names under which the engine keeps its tables.
pub open spec fn table_names() -> TableNames {
    TableNames {
        active_tests: vstd::utf8::encode_utf8("test_sessions"@),
        scores: vstd::utf8::encode_utf8("scores"@),
        versions: vstd::utf8::encode_utf8("font_versions"@),
        fonts: vstd::utf8::encode_utf8("fonts"@),
        glyphs: vstd::utf8::encode_utf8("glyphs"@),
    }
}

impl View for State {
    type V = StateView;

    closed spec fn view(&self) -> StateView {
        StateView {
            active_tests: self.active_tests.entries(),
            scores: self.font_version_glyphs.entries(),
            versions: self.font_versions.entries(),
            fonts: self.fonts.entries(),
            glyphs: self.glyphs.entries(),
            issued: self.db.issued(),
        }
    }
}

impl StateView {
    /// The test that `user` is taking.
    pub open spec fn test_of(self, user: u64) -> Option<Result<ActiveTestView, CodecError>> {
        lookup::<ActiveTest>(self.active_tests, be_u64(user))
    }

    /// The font stored under `id`.
    pub open spec fn font(self, id: u64) -> Option<Result<FontView, CodecError>> {
        lookup::<Font>(self.fonts, be_u64(id))
    }

    /// The version stored under `id`.
    pub open spec fn version(self, id: u64) -> Option<Result<VersionView, CodecError>> {
        lookup::<Version>(self.versions, be_u64(id))
    }

    /// The glyph stored under `id`.
    pub open spec fn glyph(self, id: u64) -> Option<Result<GlyphView, CodecError>> {
        lookup::<Glyph>(self.glyphs, be_u64(id))
    }

    /// What a version holds for a character.
    pub open spec fn version_glyph(self, key: VersionGlyphKeyView) -> Option<
        Result<VersionGlyphView, CodecError>,
    > {
        lookup::<VersionGlyph>(self.scores, key_wire(key))
    }

    /// The character of the glyph stored under `id`, as a reference to the
    /// glyph expects it: a missing glyph is a failure.
    pub open spec fn glyph_char(self, id: u64) -> Result<char, ErrorView> {
        match self.glyph(id) {
            None => Err(missing(glyph_label())),
            Some(Err(c)) => Err(unreadable(c)),
            Some(Ok(glyph)) => Ok(glyph.char),
        }
    }

    /// The glyph that `user` is being shown: none where the user has no
    /// test. The glyph of a test has to be there.
    pub open spec fn test_glyph(self, user: u64) -> Result<Option<GlyphView>, ErrorView> {
        match self.test_of(user) {
            None => Ok(None),
            Some(Err(c)) => Err(unreadable(c)),
            Some(Ok(test)) => match self.glyph(test.glyph) {
                None => Err(missing(glyph_label())),
                Some(Err(c)) => Err(unreadable(c)),
                Some(Ok(glyph)) => Ok(Some(glyph)),
            },
        }
    }

    /// The state without the test of `user`.
    pub open spec fn without_test(self, user: u64) -> StateView {
        StateView { active_tests: self.active_tests.remove(be_u64(user)), ..self }
    }

    /// The state with `entry` stored under `key`.
    pub open spec fn with_version_glyph(
        self,
        key: VersionGlyphKeyView,
        entry: VersionGlyphView,
    ) -> StateView {
        StateView { scores: self.scores.insert(key_wire(key), version_glyph_wire(entry)), ..self }
    }

    /// The state with `test` as the test of `user`.
    pub open spec fn with_test(self, user: u64, test: ActiveTestView) -> StateView {
        StateView {
            active_tests: self.active_tests.insert(be_u64(user), active_test_wire(test)),
            ..self
        }
    }
}

/// Whether two states hold the same fonts, versions and glyphs, and have
/// given out the same identifiers.
pub open spec fn same_fonts(before: StateView, after: StateView) -> bool {
    &&& after.fonts == before.fonts
    &&& after.versions == before.versions
    &&& after.glyphs == before.glyphs
    &&& after.issued == before.issued
}

/// What the score of an entry is, where the entry is there.
pub open spec fn score_of(entry: Option<Result<VersionGlyphView, CodecError>>) -> Option<
    ScoreView,
> {
    match entry {
        Some(Ok(found)) => found.score,
        _ => None,
    }
}

/// What fonts are called in the message for a missing one.
pub open spec fn font_label() -> Seq<char> {
    "font_gen::font::Font"@
}

/// What versions are called in the message for a missing one.
pub open spec fn version_label() -> Seq<char> {
    "font_gen::font::Version"@
}

/// What glyphs are called in the message for a missing one.
pub open spec fn glyph_label() -> Seq<char> {
    "font_gen::glyph::Glyph"@
}

/// What a reference to a record fails with: a `NotFound` failure that names
/// the record's type where the record is not there, a `Codec` failure where
/// it is no record of its type.
pub open spec fn failure_of<V>(found: Option<Result<V, CodecError>>, label: Seq<char>) -> Option<
    ErrorView,
> {
    match found {
        None => Some(missing(label)),
        Some(Err(c)) => Some(unreadable(c)),
        Some(Ok(_)) => None,
    }
}

/// What `submit_time` leaves and returns, where the store does not fail.
///
/// Without a test of the user nothing happens. Else the test is taken out,
/// and the time is stored for the tested glyph's character in the font's
/// current version, unless the score there is strictly faster.
pub open spec fn submitted(state: StateView, user: u64, new_time: u64) -> (
    StateView,
    Result<(), ErrorView>,
) {
    match state.test_of(user) {
        None => (state, Ok(())),
        Some(Err(c)) => (state.without_test(user), Err(unreadable(c))),
        Some(Ok(test)) => {
            let taken = state.without_test(user);
            match state.font(test.font) {
                None => (taken, Err(missing(font_label()))),
                Some(Err(c)) => (taken, Err(unreadable(c))),
                Some(Ok(font)) => match state.glyph_char(test.glyph) {
                    Err(e) => (taken, Err(e)),
                    Ok(char) => {
                        let key = VersionGlyphKeyView { font_version: font.current_version, char };
                        match state.version_glyph(key) {
                            Some(Err(c)) => (taken, Err(unreadable(c))),
                            found => if keeps(score_of(found), new_time) {
                                (taken, Ok(()))
                            } else {
                                (
                                    taken.with_version_glyph(
                                        key,
                                        VersionGlyphView {
                                            glyph: test.glyph,
                                            score: Some(ScoreView { time: new_time, user }),
                                        },
                                    ),
                                    Ok(()),
                                )
                            },
                        }
                    },
                },
            }
        },
    }
}

/// Whether `after` is what `submit_time` leaves where the store has failed
/// on the way: `before` as it was, `before` without the user's test, or
/// what the whole of it leaves.
pub open spec fn submit_stopped(
    before: StateView,
    after: StateView,
    user: u64,
    new_time: u64,
) -> bool {
    ||| after == before
    ||| after == before.without_test(user)
    ||| after == submitted(before, user, new_time).0
}

/// What storing `entries` under `version` leaves and returns, where the
/// store does not fail: each entry goes under the character of its glyph,
/// from the first on, and a glyph that is not there ends it.
pub open spec fn put_entries(state: StateView, version: u64, entries: Seq<VersionGlyphView>) -> (
    StateView,
    Result<(), ErrorView>,
)
    decreases entries.len(),
{
    if entries.len() == 0 {
        (state, Ok(()))
    } else {
        match state.glyph_char(entries.first().glyph) {
            Err(e) => (state, Err(e)),
            Ok(char) => put_entries(
                state.with_version_glyph(
                    VersionGlyphKeyView { font_version: version, char },
                    entries.first(),
                ),
                version,
                entries.drop_first(),
            ),
        }
    }
}

/// What adding the version `id` with `entries` leaves and returns, where the
/// store does not fail and sets `next` aside for the version after it.
pub open spec fn version_added(
    state: StateView,
    id: u64,
    next: u64,
    entries: Seq<VersionGlyphView>,
) -> (StateView, Result<(), ErrorView>) {
    put_entries(
        StateView {
            versions: state.versions.insert(
                be_u64(id),
                version_wire(VersionView { next_version: next }),
            ),
            issued: state.issued.insert(next),
            ..state
        },
        id,
        entries,
    )
}

/// Whether adding the version `id` with `entries` leaves `after` and fails
/// with `e`, whichever identifier was set aside for the next version.
pub open spec fn version_fails(
    before: StateView,
    after: StateView,
    id: u64,
    entries: Seq<VersionGlyphView>,
    e: ErrorView,
) -> bool {
    exists|next: u64|
        newer(before.issued, next) && #[trigger] version_added(
            before,
            id,
            next,
            entries,
        ) == (after, Err::<(), ErrorView>(e))
}

/// The keys of a version for some characters.
pub open spec fn version_keys(version: u64, chars: Seq<char>) -> Seq<Seq<u8>> {
    Seq::new(
        chars.len(),
        |i: int| key_wire(VersionGlyphKeyView { font_version: version, char: chars[i] }),
    )
}

/// The characters of some glyphs.
pub open spec fn chars_of(glyphs: Seq<GlyphView>) -> Seq<char> {
    Seq::new(glyphs.len(), |i: int| glyphs[i].char)
}

/// Entries without a score for some glyphs.
pub open spec fn fresh_entries(ids: Seq<u64>) -> Seq<VersionGlyphView> {
    Seq::new(ids.len(), |i: int| VersionGlyphView { glyph: ids[i], score: None })
}

/// Whether each of `glyphs` can be stored.
pub open spec fn all_fit(glyphs: Seq<GlyphView>) -> bool {
    forall|i: int| 0 <= i < glyphs.len() ==> Glyph::fits(#[trigger] glyphs[i])
}

/// The identifiers that a new font takes, in the order in which the store
/// gives them out: the first version, the glyphs, the version after the
/// first, the candidates, the font.
pub open spec fn font_ids(
    font: u64,
    version: u64,
    next: u64,
    ids: Seq<u64>,
    candidates: Seq<u64>,
) -> Seq<u64> {
    seq![version] + ids + seq![next] + candidates + seq![font]
}

/// Whether `after` is `before` with a new font for `glyphs` under `font`:
/// a first version with the glyphs, unscored; a variant of each glyph as a
/// candidate; identifiers that rise in the order in which they were taken,
/// from above all that the store had given out before.
pub open spec fn font_added_with<F: Fn(u32) -> u32>(
    before: StateView,
    after: StateView,
    glyphs: Seq<GlyphView>,
    font: u64,
    turn: F,
    version: u64,
    next: u64,
    ids: Seq<u64>,
    variants: Seq<GlyphView>,
    candidates: Seq<u64>,
) -> bool {
    &&& ascending(font_ids(font, version, next, ids, candidates))
    &&& all_newer(before.issued, font_ids(font, version, next, ids, candidates))
    &&& ids.len() == glyphs.len()
    &&& candidates.len() == glyphs.len()
    &&& is_shuffled_variants(glyphs, variants, turn)
    &&& variants.len() == glyphs.len()
    &&& all_fit(glyphs)
    &&& all_fit(variants)
    &&& after == StateView {
        active_tests: before.active_tests,
        scores: put_each(
            before.scores,
            version_keys(version, chars_of(glyphs)),
            wires_of::<VersionGlyph>(fresh_entries(ids)),
        ),
        versions: before.versions.insert(
            be_u64(version),
            version_wire(VersionView { next_version: next }),
        ),
        fonts: before.fonts.insert(
            be_u64(font),
            font_wire(
                FontView { first_version: version, current_version: version, candidates },
            ),
        ),
        glyphs: put_each(
            put_each(before.glyphs, wires_of::<Id<Glyph>>(ids), wires_of::<Glyph>(glyphs)),
            wires_of::<Id<Glyph>>(candidates),
            wires_of::<Glyph>(variants),
        ),
        issued: before.issued.union(font_ids(font, version, next, ids, candidates).to_set()),
    }
}

/// Whether `after` is `before` with a new font for `glyphs` under `font`.
pub open spec fn font_added<F: Fn(u32) -> u32>(
    before: StateView,
    after: StateView,
    glyphs: Seq<GlyphView>,
    font: u64,
    turn: F,
) -> bool {
    exists|
        version: u64,
        next: u64,
        ids: Seq<u64>,
        variants: Seq<GlyphView>,
        candidates: Seq<u64>,
    | #[trigger]
        font_added_with(before, after, glyphs, font, turn, version, next, ids, variants, candidates)
}

/// Whether `raw` is what the version `version` holds, by character, with
/// `entries` as its values.
pub open spec fn is_version_scan(
    state: StateView,
    version: u64,
    raw: Seq<(Seq<u8>, Seq<u8>)>,
    entries: Seq<VersionGlyphView>,
) -> bool {
    &&& is_prefix_scan(state.scores, be_u64(version), raw)
    &&& entries.len() == raw.len()
    &&& forall|i: int|
        0 <= i < raw.len() ==> {
            &&& key_of(raw[i].0) is Ok
            &&& version_glyph_of(#[trigger] raw[i].1) == Ok::<VersionGlyphView, CodecError>(
                entries[i],
            )
        }
}

/// Whether `entries` are what the version `version` holds, by character.
pub open spec fn holds_entries(
    state: StateView,
    version: u64,
    entries: Seq<VersionGlyphView>,
) -> bool {
    exists|raw: Seq<(Seq<u8>, Seq<u8>)>| #[trigger] is_version_scan(state, version, raw, entries)
}

/// Whether `glyphs` are the glyphs of `entries`, each stored and readable.
pub open spec fn are_entry_glyphs(
    state: StateView,
    entries: Seq<VersionGlyphView>,
    glyphs: Seq<GlyphView>,
) -> bool {
    &&& glyphs.len() == entries.len()
    &&& forall|i: int|
        0 <= i < entries.len() ==> state.glyph((#[trigger] entries[i]).glyph) == Some(
            Ok::<GlyphView, CodecError>(glyphs[i]),
        )
}

/// Whether `after` is `before` once the font `font_id`, whose record is
/// `font`, has gone to its next generation with `candidates`.
///
/// `raw` is what the current version holds, by character, and `entries` are
/// its values. They are stored again under the version that the current one
/// names as its next, glyph and score as they are, each under the character
/// of its glyph. A variant of each glyph, in random order, is stored under a
/// fresh identifier and becomes a candidate.
pub open spec fn generation_advanced_with<F: Fn(u32) -> u32>(
    before: StateView,
    after: StateView,
    font_id: u64,
    font: FontView,
    turn: F,
    candidates: Seq<u64>,
    raw: Seq<(Seq<u8>, Seq<u8>)>,
    entries: Seq<VersionGlyphView>,
    version: VersionView,
    next: u64,
    glyphs: Seq<GlyphView>,
    variants: Seq<GlyphView>,
) -> bool {
    &&& is_version_scan(before, font.current_version, raw, entries)
    &&& before.version(font.current_version) == Some(Ok::<VersionView, CodecError>(version))
    &&& ascending(seq![next] + candidates)
    &&& all_newer(before.issued, seq![next] + candidates)
    &&& are_entry_glyphs(before, entries, glyphs)
    &&& is_shuffled_variants(glyphs, variants, turn)
    &&& variants.len() == glyphs.len()
    &&& all_fit(variants)
    &&& candidates.len() == glyphs.len()
    &&& after == StateView {
        active_tests: before.active_tests,
        scores: put_each(
            before.scores,
            version_keys(version.next_version, chars_of(glyphs)),
            wires_of::<VersionGlyph>(entries),
        ),
        versions: before.versions.insert(
            be_u64(version.next_version),
            version_wire(VersionView { next_version: next }),
        ),
        fonts: before.fonts.insert(
            be_u64(font_id),
            font_wire(
                FontView {
                    first_version: font.first_version,
                    current_version: version.next_version,
                    candidates,
                },
            ),
        ),
        glyphs: put_each(
            before.glyphs,
            wires_of::<Id<Glyph>>(candidates),
            wires_of::<Glyph>(variants),
        ),
        issued: before.issued.union((seq![next] + candidates).to_set()),
    }
}

/// Whether `after` is `before` once the font `font_id`, whose record is
/// `font`, has gone to its next generation with `candidates`.
pub open spec fn generation_advanced<F: Fn(u32) -> u32>(
    before: StateView,
    after: StateView,
    font_id: u64,
    font: FontView,
    turn: F,
    candidates: Seq<u64>,
) -> bool {
    exists|
        raw: Seq<(Seq<u8>, Seq<u8>)>,
        entries: Seq<VersionGlyphView>,
        version: VersionView,
        next: u64,
        glyphs: Seq<GlyphView>,
        variants: Seq<GlyphView>,
    | #[trigger]
        generation_advanced_with(
            before,
            after,
            font_id,
            font,
            turn,
            candidates,
            raw,
            entries,
            version,
            next,
            glyphs,
            variants,
        )
}

/// The state once `user` has been given the first of `candidates` of the
/// font `font_id` as a test; the state itself where there is no candidate.
pub open spec fn assigned(
    state: StateView,
    font_id: u64,
    user: u64,
    candidates: Seq<u64>,
) -> StateView {
    if candidates.len() > 0 {
        state.with_test(user, ActiveTestView { font: font_id, glyph: candidates[0] })
    } else {
        state
    }
}

/// Whether `after` is `before` once `user` has been given the next test of
/// the font `font_id`: the first candidate, which stays in the queue; where
/// the queue is empty, the first candidate of the next generation.
pub open spec fn test_assigned<F: Fn(u32) -> u32>(
    before: StateView,
    after: StateView,
    font_id: u64,
    user: u64,
    turn: F,
) -> bool {
    before.font(font_id) matches Some(Ok(font)) && if font.candidates.len() > 0 {
        after == assigned(before, font_id, user, font.candidates)
    } else {
        exists|mid: StateView, candidates: Seq<u64>|
            {
                &&& #[trigger] generation_advanced(before, mid, font_id, font, turn, candidates)
                &&& after == assigned(mid, font_id, user, candidates)
            }
    }
}

/// Whether the glyph of some entry fails with `e`.
pub open spec fn entry_glyph_fails(
    state: StateView,
    entries: Seq<VersionGlyphView>,
    e: ErrorView,
) -> bool {
    exists|i: int|
        0 <= i < entries.len() && failure_of(
            state.glyph((#[trigger] entries[i]).glyph),
            glyph_label(),
        ) == Some(e)
}

/// Whether the version `version` holds an entry that is no entry.
pub open spec fn version_misreads(state: StateView, version: u64) -> bool {
    scan_misreads::<VersionGlyphKey, VersionGlyph>(state.scores, be_u64(version))
}

/// What the way to the next generation may fail with besides a failure of
/// the store, and why: an entry of the current version is no entry; the
/// current version is not there or no version; the glyph of an entry is not
/// there or no glyph.
pub open spec fn advance_fails(state: StateView, font: FontView, e: ErrorView) -> bool {
    ||| is_unreadable_failure(e) && version_misreads(state, font.current_version)
    ||| failure_of(state.version(font.current_version), version_label()) == Some(e)
    ||| exists|entries: Seq<VersionGlyphView>|
        #[trigger] holds_entries(state, font.current_version, entries) && entry_glyph_fails(
            state,
            entries,
            e,
        )
}

/// Whether `after` is what `add_next_test` leaves where the store has
/// failed on the way. Short of a next generation the test is given or
/// nothing is written. On the way to a next generation, what was written
/// until then stays, which is not said here.
pub open spec fn assignment_stopped(
    before: StateView,
    after: StateView,
    font_id: u64,
    user: u64,
) -> bool {
    match before.font(font_id) {
        Some(Ok(font)) => font.candidates.len() == 0 || after == before || after == assigned(
            before,
            font_id,
            user,
            font.candidates,
        ),
        _ => after == before,
    }
}

/// What `add_next_test` may fail with besides a failure of the store, and
/// when: the `NotFound` failure that names the font without the font, a
/// `Codec` failure where its record is no font, in both cases with nothing
/// written; with the font, only on the way to the next generation, which a
/// font with a candidate does not take.
pub open spec fn assignment_fails(
    before: StateView,
    after: StateView,
    font_id: u64,
    e: ErrorView,
) -> bool {
    match before.font(font_id) {
        None => e == missing(font_label()) && after == before,
        Some(Err(c)) => e == unreadable(c) && after == before,
        Some(Ok(font)) => font.candidates.len() == 0 && advance_fails(before, font, e),
    }
}

/// Where the glyph of each entry is there, the entries are all stored, each
/// under the character of its glyph.
pub proof fn lemma_put_entries_stored(
    state: StateView,
    version: u64,
    entries: Seq<VersionGlyphView>,
    chars: Seq<char>,
)
    requires
        chars.len() == entries.len(),
        forall|i: int|
            0 <= i < entries.len() ==> state.glyph_char((#[trigger] entries[i]).glyph) == Ok::<
                char,
                ErrorView,
            >(chars[i]),
    ensures
        put_entries(state, version, entries) == (
            StateView {
                scores: put_each(
                    state.scores,
                    version_keys(version, chars),
                    wires_of::<VersionGlyph>(entries),
                ),
                ..state
            },
            Ok::<(), ErrorView>(()),
        ),
    decreases entries.len(),
{
    let keys = version_keys(version, chars);
    let values = wires_of::<VersionGlyph>(entries);
    if entries.len() == 0 {
        assert(put_each(state.scores, keys, values) == state.scores);
        assert(state == StateView { scores: state.scores, ..state });
    } else {
        let first = entries.first();
        assert(state.glyph_char(entries[0].glyph) == Ok::<char, ErrorView>(chars[0]));
        let key = VersionGlyphKeyView { font_version: version, char: chars[0] };
        let next = state.with_version_glyph(key, first);
        let rest = entries.drop_first();
        let rest_chars = chars.drop_first();
        assert forall|i: int| 0 <= i < rest.len() implies next.glyph_char(
            (#[trigger] rest[i]).glyph,
        ) == Ok::<char, ErrorView>(rest_chars[i]) by {
            assert(rest[i] == entries[i + 1]);
        }
        lemma_put_entries_stored(next, version, rest, rest_chars);
        lemma_put_each_front(state.scores, keys, values);
        assert(keys.drop_first() =~= version_keys(version, rest_chars));
        assert(values.drop_first() =~= wires_of::<VersionGlyph>(rest));
        assert(keys.first() == key_wire(key));
        assert(values.first() == version_glyph_wire(first));
    }
}

/// Storing entries of a version touches no other table.
pub proof fn lemma_put_entries_keeps(
    state: StateView,
    version: u64,
    entries: Seq<VersionGlyphView>,
)
    ensures
        put_entries(state, version, entries).0 == (StateView {
            scores: put_entries(state, version, entries).0.scores,
            ..state
        }),
    decreases entries.len(),
{
    if entries.len() > 0 {
        match state.glyph_char(entries.first().glyph) {
            Err(_) => {},
            Ok(char) => {
                let next = state.with_version_glyph(
                    VersionGlyphKeyView { font_version: version, char },
                    entries.first(),
                );
                lemma_put_entries_keeps(next, version, entries.drop_first());
            },
        }
    }
}

/// Where storing entries fails, the glyph of one of them does.
pub proof fn lemma_put_entries_fails(
    state: StateView,
    version: u64,
    entries: Seq<VersionGlyphView>,
    e: ErrorView,
)
    requires
        put_entries(state, version, entries).1 == Err::<(), ErrorView>(e),
    ensures
        entry_glyph_fails(state, entries, e),
    decreases entries.len(),
{
    if entries.len() > 0 {
        match state.glyph_char(entries.first().glyph) {
            Err(_) => {
                assert(failure_of(state.glyph(entries[0].glyph), glyph_label()) == Some(e));
            },
            Ok(char) => {
                let next = state.with_version_glyph(
                    VersionGlyphKeyView { font_version: version, char },
                    entries.first(),
                );
                let rest = entries.drop_first();
                lemma_put_entries_fails(next, version, rest, e);
                let i = choose|i: int|
                    0 <= i < rest.len() && failure_of(
                        next.glyph((#[trigger] rest[i]).glyph),
                        glyph_label(),
                    ) == Some(e);
                assert(rest[i] == entries[i + 1]);
            },
        }
    }
}

/// Different identifiers have different keys.
pub proof fn lemma_id_keys_distinct(ids: Seq<u64>)
    requires
        distinct(ids),
    ensures
        distinct_keys(wires_of::<Id<Glyph>>(ids)),
{
    let keys = wires_of::<Id<Glyph>>(ids);
    assert forall|i: int, j: int| 0 <= i < j < keys.len() implies keys[i] != keys[j] by {
        if keys[i] == keys[j] {
            lemma_be_u64_injective(ids[i], ids[j]);
        }
    }
}

/// Glyphs that were stored under distinct identifiers are found there.
pub proof fn lemma_stored_glyphs_found(
    state: StateView,
    before: Map<Seq<u8>, Seq<u8>>,
    ids: Seq<u64>,
    glyphs: Seq<GlyphView>,
)
    requires
        ids.len() == glyphs.len(),
        distinct(ids),
        forall|i: int| 0 <= i < glyphs.len() ==> Glyph::fits(#[trigger] glyphs[i]),
        state.glyphs == put_each(before, wires_of::<Id<Glyph>>(ids), wires_of::<Glyph>(glyphs)),
    ensures
        forall|i: int|
            0 <= i < ids.len() ==> state.glyph(#[trigger] ids[i]) == Some(
                Ok::<GlyphView, CodecError>(glyphs[i]),
            ),
{
    let keys = wires_of::<Id<Glyph>>(ids);
    let values = wires_of::<Glyph>(glyphs);
    lemma_id_keys_distinct(ids);
    lemma_put_each_found(before, keys, values);
    assert forall|i: int| 0 <= i < ids.len() implies state.glyph(#[trigger] ids[i]) == Some(
        Ok::<GlyphView, CodecError>(glyphs[i]),
    ) by {
        assert(keys[i] == be_u64(ids[i]));
        assert(entry_at(state.glyphs, keys[i]) == Some(values[i]));
        Glyph::lemma_round_trip(glyphs[i]);
    }
}

/// The values of what a scan has read are the entries of the version.
pub proof fn lemma_version_scan(
    state: StateView,
    version: u64,
    raw: Seq<(Seq<u8>, Seq<u8>)>,
    found: Seq<(VersionGlyphKey, VersionGlyph)>,
    entries: Seq<VersionGlyphView>,
)
    requires
        is_prefix_scan(state.scores, be_u64(version), raw),
        reads_as::<VersionGlyphKey, VersionGlyph>(raw, found),
        entries.len() == found.len(),
        forall|k: int| 0 <= k < found.len() ==> #[trigger] entries[k] == found[k].1@,
    ensures
        is_version_scan(state, version, raw, entries),
{
    assert forall|i: int| 0 <= i < raw.len() implies {
        &&& key_of(raw[i].0) is Ok
        &&& version_glyph_of(#[trigger] raw[i].1) == Ok::<VersionGlyphView, CodecError>(
            entries[i],
        )
    } by {
        assert(VersionGlyphKey::parse(raw[i].0) == Ok::<VersionGlyphKeyView, CodecError>(
            found[i].0@,
        ));
        assert(VersionGlyph::parse(raw[i].1) == Ok::<VersionGlyphView, CodecError>(found[i].1@));
        assert(entries[i] == found[i].1@);
    }
}

/// The values of some entries, without their keys.
fn values_of(found: &Vec<(VersionGlyphKey, VersionGlyph)>) -> (entries: Vec<VersionGlyph>)
    ensures
        entries@.len() == found@.len(),
        forall|k: int| 0 <= k < found@.len() ==> #[trigger] views_of(entries@)[k] == found@[k].1@,
{
    let mut entries: Vec<VersionGlyph> = Vec::new();
    let mut i: usize = 0;
    while i < found.len()
        invariant
            i <= found@.len(),
            entries@.len() == i,
            forall|k: int| 0 <= k < i ==> (#[trigger] entries@[k])@ == found@[k].1@,
        decreases found@.len() - i,
    {
        entries.push(found[i].1);
        i += 1;
    }
    entries
}

impl State {
    /// What the tables are called in the store.
    pub closed spec fn tables(&self) -> TableNames {
        TableNames {
            active_tests: self.active_tests.name(),
            scores: self.font_version_glyphs.name(),
            versions: self.font_versions.name(),
            fonts: self.fonts.name(),
            glyphs: self.glyphs.name(),
        }
    }

    /// Opens the store in its directory, and its tables.
    pub fn new() -> (r: Result<State, Error>)
        ensures
            match r {
                Ok(state) => {
                    &&& state.tables() == table_names()
                    &&& state.db.path() == "DullBananasFontGenData"@
                    &&& state.db.saves_space()
                    &&& !state.db.is_temporary()
                },
                Err(e) => e@.kind == ErrorKind::Store,
            },
    {
        let db = Database::open()?;
        State::with_database(db)
    }

    /// Opens the tables of `db`, each under its name, and keeps the store.
    /// The tables of a store are opened once.
    pub fn with_database(db: Database) -> (r: Result<State, Error>)
        ensures
            match r {
                Ok(state) => {
                    &&& state.tables() == table_names()
                    &&& state.db.same_store(&db)
                    &&& state@.issued == db.issued()
                },
                Err(e) => e@.kind == ErrorKind::Store,
            },
    {
        let mut db = db;
        let active_tests = db.tree("test_sessions".as_bytes())?;
        let font_version_glyphs = db.tree("scores".as_bytes())?;
        let font_versions = db.tree("font_versions".as_bytes())?;
        let fonts = db.tree("fonts".as_bytes())?;
        let glyphs = db.tree("glyphs".as_bytes())?;
        Ok(State { db, active_tests, font_version_glyphs, font_versions, fonts, glyphs })
    }

    /// The glyph that `user_id` is being shown, or `None` where the user has
    /// no test. The glyph of a test has to be there: without it the failure
    /// is `NotFound`. Nothing is written.
    pub fn get_test_glyph(&self, user_id: Id<User>) -> (r: Result<Option<Glyph>, Error>)
        ensures
            match r {
                Ok(Some(glyph)) => self@.test_glyph(user_id@) == Ok::<
                    Option<GlyphView>,
                    ErrorView,
                >(Some(glyph@)),
                Ok(None) => self@.test_glyph(user_id@) == Ok::<Option<GlyphView>, ErrorView>(None),
                Err(e) => e@.kind == ErrorKind::Store || self@.test_glyph(user_id@) == Err::<
                    Option<GlyphView>,
                    ErrorView,
                >(e@),
            },
    {
        match self.active_tests.get(user_id)? {
            Some(test) => {
                let found = self.glyphs.get(test.glyph)?;
                let glyph = Error::expect_db_item(found, "font_gen::glyph::Glyph")?;
                Ok(Some(glyph))
            },
            None => Ok(None),
        }
    }

    /// The character of the glyph stored under `glyph_id`.
    fn get_glyph_char(&self, glyph_id: Id<Glyph>) -> (r: Result<char, Error>)
        ensures
            match r {
                Ok(char) => self@.glyph_char(glyph_id@) == Ok::<char, ErrorView>(char),
                Err(e) => e@.kind == ErrorKind::Store || self@.glyph_char(glyph_id@) == Err::<
                    char,
                    ErrorView,
                >(e@),
            },
    {
        let found = self.glyphs.get(glyph_id)?;
        let glyph = Error::expect_db_item(found, "font_gen::glyph::Glyph")?;
        Ok(glyph.char())
    }

    /// Stores the version `id` with a fresh identifier for the one after
    /// it, and `version_glyphs` as its glyphs.
    fn add_font_version(&mut self, id: Id<Version>, version_glyphs: &Vec<VersionGlyph>) -> (r:
        Result<Version, Error>)
        ensures
            match r {
                Ok(version) => {
                    &&& newer(old(self)@.issued, version@.next_version)
                    &&& version_added(
                        old(self)@,
                        id@,
                        version@.next_version,
                        views_of(version_glyphs@),
                    ) == (final(self)@, Ok::<(), ErrorView>(()))
                },
                Err(e) => e@.kind == ErrorKind::Store || version_fails(
                    old(self)@,
                    final(self)@,
                    id@,
                    views_of(version_glyphs@),
                    e@,
                ),
            },
            final(self)@.active_tests == old(self)@.active_tests,
            final(self)@.fonts == old(self)@.fonts,
            final(self)@.glyphs == old(self)@.glyphs,
            final(self).tables() == old(self).tables(),
            final(self).db.same_store(&old(self).db),
    {
        let version = Version::new(Id::generate(&mut self.db)?);
        self.font_versions.insert_with_key(id, &version)?;
        let ghost entries = views_of(version_glyphs@);
        let ghost next = version@.next_version;
        proof {
            assert(entries.skip(0) =~= entries);
            assert(version@ == VersionView { next_version: next });
            assert(self@ == StateView {
                versions: old(self)@.versions.insert(be_u64(id@), version_wire(version@)),
                issued: old(self)@.issued.insert(next),
                ..old(self)@
            });
        }
        let mut i: usize = 0;
        while i < version_glyphs.len()
            invariant
                i <= version_glyphs@.len(),
                entries == views_of(version_glyphs@),
                next == version@.next_version,
                newer(old(self)@.issued, next),
                version_added(old(self)@, id@, next, entries) == put_entries(
                    self@,
                    id@,
                    entries.skip(i as int),
                ),
                self@.active_tests == old(self)@.active_tests,
                self@.fonts == old(self)@.fonts,
                self@.glyphs == old(self)@.glyphs,
                self.tables() == old(self).tables(),
                self.db.same_store(&old(self).db),
            decreases version_glyphs@.len() - i,
        {
            let version_glyph = &version_glyphs[i];
            proof {
                assert(entries.skip(i as int).first() == version_glyph@);
                assert(entries.skip(i as int).drop_first() =~= entries.skip(i as int + 1));
            }
            let char = match self.get_glyph_char(version_glyph.glyph) {
                Ok(char) => char,
                Err(e) => {
                    return Err(e);
                },
            };
            self.font_version_glyphs.insert_with_key(
                VersionGlyphKey { font_version: id, char },
                version_glyph,
            )?;
            i += 1;
        }
        Ok(version)
    }

    /// Adds a font that starts from `glyphs`, and returns its identifier.
    ///
    /// The glyphs become the first version, without scores. A variant of
    /// each, in random order, becomes a candidate; `turn` perturbs the angle
    /// of each point. Only a failure of the store makes this fail, and what
    /// was stored before the failure stays.
    #[verifier::rlimit(60)]
    pub fn add_font<F: Fn(u32) -> u32>(&mut self, glyphs: Vec<Glyph>, turn: &F) -> (r: Result<
        Id<Font>,
        Error,
    >)
        requires
            forall|angle: u32| call_requires(*turn, (angle,)),
        ensures
            match r {
                Ok(font) => font_added(old(self)@, final(self)@, views_of(glyphs@), font@, *turn),
                Err(e) => e@.kind == ErrorKind::Store,
            },
            final(self)@.active_tests == old(self)@.active_tests,
            final(self).tables() == old(self).tables(),
            final(self).db.same_store(&old(self).db),
    {
        let first_version_id = Id::generate(&mut self.db)?;
        let ghost issued_one = self@.issued;
        let ids = self.glyphs.insert_each(&mut self.db, &glyphs)?;
        let mut version_glyphs: Vec<VersionGlyph> = Vec::new();
        let mut i: usize = 0;
        while i < ids.len()
            invariant
                i <= ids@.len(),
                version_glyphs@.len() == i,
                forall|k: int|
                    0 <= k < i ==> (#[trigger] version_glyphs@[k])@ == (VersionGlyphView {
                        glyph: ids@[k]@,
                        score: None,
                    }),
            decreases ids@.len() - i,
        {
            version_glyphs.push(VersionGlyph { glyph: ids[i], score: None });
            i += 1;
        }
        let ghost start = self@;
        let ghost id_numbers = ids_of(ids@);
        let ghost plain = views_of(glyphs@);
        let ghost entries = views_of(version_glyphs@);
        proof {
            assert(entries =~= fresh_entries(id_numbers));
            lemma_ascending_distinct(id_numbers);
            lemma_stored_glyphs_found(start, old(self)@.glyphs, id_numbers, plain);
            assert forall|k: int| 0 <= k < entries.len() implies start.glyph_char(
                (#[trigger] entries[k]).glyph,
            ) == Ok::<char, ErrorView>(chars_of(plain)[k]) by {
                assert(start.glyph(id_numbers[k]) == Some(Ok::<GlyphView, CodecError>(plain[k])));
            }
            assert forall|next: u64|
                (#[trigger] version_added(start, first_version_id@, next, entries)).1 is Ok by {
                let seeded = StateView {
                    versions: start.versions.insert(
                        be_u64(first_version_id@),
                        version_wire(VersionView { next_version: next }),
                    ),
                    issued: start.issued.insert(next),
                    ..start
                };
                lemma_put_entries_stored(seeded, first_version_id@, entries, chars_of(plain));
            }
        }
        let version = match self.add_font_version(first_version_id, &version_glyphs) {
            Ok(version) => version,
            Err(e) => {
                return Err(e);
            },
        };
        let ghost next = version@.next_version;
        let ghost issued_three = self@.issued;
        proof {
            let seeded = StateView {
                versions: start.versions.insert(
                    be_u64(first_version_id@),
                    version_wire(VersionView { next_version: next }),
                ),
                issued: start.issued.insert(next),
                ..start
            };
            lemma_put_entries_stored(seeded, first_version_id@, entries, chars_of(plain));
        }
        let variants = Glyph::generate_variants(&glyphs, turn);
        let candidates = self.glyphs.insert_each(&mut self.db, &variants)?;
        let ghost issued_four = self@.issued;
        let font = Font {
            first_version: first_version_id,
            current_version: first_version_id,
            candidates,
        };
        let font_id = self.fonts.insert(&mut self.db, &font)?;
        proof {
            let candidate_numbers = ids_of(font.candidates@);
            let before = old(self)@.issued;
            let a = seq![first_version_id@];
            let b = a + id_numbers;
            let c = b + seq![next];
            let d = c + candidate_numbers;
            lemma_one_id(before, first_version_id@);
            lemma_ids_chain(before, a, id_numbers);
            lemma_one_id(issued_one.union(id_numbers.to_set()), next);
            lemma_ids_chain(before, b, seq![next]);
            lemma_ids_chain(before, c, candidate_numbers);
            lemma_one_id(issued_four, font_id@);
            lemma_ids_chain(before, d, seq![font_id@]);
            assert(font@.candidates =~= candidate_numbers);
            assert(d + seq![font_id@] =~= font_ids(
                font_id@,
                first_version_id@,
                next,
                id_numbers,
                candidate_numbers,
            ));
            assert(font_added_with(
                old(self)@,
                self@,
                plain,
                font_id@,
                *turn,
                first_version_id@,
                next,
                id_numbers,
                views_of(variants@),
                candidate_numbers,
            ));
        }
        Ok(font_id)
    }

    /// What the version `version` holds, by character.
    fn version_glyphs(&self, version: Id<Version>) -> (r: Result<Vec<VersionGlyph>, Error>)
        ensures
            match r {
                Ok(entries) => holds_entries(self@, version@, views_of(entries@)),
                Err(e) => e@.kind == ErrorKind::Store || (is_unreadable_failure(e@)
                    && version_misreads(self@, version@)),
            },
    {
        match self.font_version_glyphs.scan_prefix(version) {
            Err(e) => {
                proof {
                    if e@.kind != ErrorKind::Store {
                        let raw = choose|raw: Seq<(Seq<u8>, Seq<u8>)>|
                            #[trigger] is_prefix_scan(
                                self.font_version_glyphs.entries(),
                                Id::<Version>::wire(version@),
                                raw,
                            ) && misreads::<VersionGlyphKey, VersionGlyph>(raw);
                        assert(is_prefix_scan(self@.scores, be_u64(version@), raw));
                    }
                }
                Err(e)
            },
            Ok(found) => {
                let entries = values_of(&found);
                proof {
                    let raw = choose|raw: Seq<(Seq<u8>, Seq<u8>)>|
                        #[trigger] is_prefix_scan(
                            self.font_version_glyphs.entries(),
                            Id::<Version>::wire(version@),
                            raw,
                        ) && reads_as::<VersionGlyphKey, VersionGlyph>(raw, found@);
                    lemma_version_scan(self@, version@, raw, found@, views_of(entries@));
                }
                Ok(entries)
            },
        }
    }

    /// The glyphs of `entries`, each of which has to be there.
    fn entry_glyphs(&self, entries: &Vec<VersionGlyph>) -> (r: Result<Vec<Glyph>, Error>)
        ensures
            match r {
                Ok(glyphs) => are_entry_glyphs(self@, views_of(entries@), views_of(glyphs@)),
                Err(e) => e@.kind == ErrorKind::Store || entry_glyph_fails(
                    self@,
                    views_of(entries@),
                    e@,
                ),
            },
    {
        let mut glyphs: Vec<Glyph> = Vec::new();
        let mut i: usize = 0;
        while i < entries.len()
            invariant
                i <= entries@.len(),
                glyphs@.len() == i,
                forall|k: int|
                    0 <= k < i ==> self@.glyph((#[trigger] entries@[k])@.glyph) == Some(
                        Ok::<GlyphView, CodecError>(glyphs@[k]@),
                    ),
            decreases entries@.len() - i,
        {
            proof {
                assert(views_of(entries@)[i as int] == entries@[i as int]@);
            }
            let found = match self.glyphs.get(entries[i].glyph) {
                Ok(found) => found,
                Err(e) => {
                    return Err(e);
                },
            };
            let glyph = match Error::expect_db_item(found, "font_gen::glyph::Glyph") {
                Ok(glyph) => glyph,
                Err(e) => {
                    return Err(e);
                },
            };
            glyphs.push(glyph);
            i += 1;
        }
        proof {
            let plain = views_of(entries@);
            assert forall|k: int| 0 <= k < plain.len() implies self@.glyph(
                (#[trigger] plain[k]).glyph,
            ) == Some(Ok::<GlyphView, CodecError>(views_of(glyphs@)[k])) by {
                assert(plain[k] == entries@[k]@);
            }
        }
        Ok(glyphs)
    }

    /// Takes the font `font_id`, whose record is `font`, to its next
    /// generation, and returns its new record.
    #[verifier::rlimit(60)]
    fn advance<F: Fn(u32) -> u32>(&mut self, font_id: Id<Font>, font: Font, turn: &F) -> (r: Result<
        Font,
        Error,
    >)
        requires
            forall|angle: u32| call_requires(*turn, (angle,)),
        ensures
            match r {
                Ok(next_font) => generation_advanced(
                    old(self)@,
                    final(self)@,
                    font_id@,
                    font@,
                    *turn,
                    next_font@.candidates,
                ),
                Err(e) => e@.kind == ErrorKind::Store || advance_fails(old(self)@, font@, e@),
            },
            final(self)@.active_tests == old(self)@.active_tests,
            final(self).tables() == old(self).tables(),
            final(self).db.same_store(&old(self).db),
    {
        let version_glyphs = self.version_glyphs(font.current_version)?;
        let ghost entries = views_of(version_glyphs@);
        let ghost raw = choose|raw: Seq<(Seq<u8>, Seq<u8>)>| #[trigger]
            is_version_scan(old(self)@, font.current_version@, raw, entries);
        let current = Error::expect_db_item(
            self.font_versions.get(font.current_version)?,
            "font_gen::font::Version",
        )?;
        let id = current.next_version();
        let version = match self.add_font_version(id, &version_glyphs) {
            Ok(version) => version,
            Err(e) => {
                proof {
                    if e@.kind != ErrorKind::Store {
                        let next = choose|next: u64|
                            newer(old(self)@.issued, next) && #[trigger] version_added(
                                old(self)@,
                                id@,
                                next,
                                entries,
                            ) == (self@, Err::<(), ErrorView>(e@));
                        let seeded = StateView {
                            versions: old(self)@.versions.insert(
                                be_u64(id@),
                                version_wire(VersionView { next_version: next }),
                            ),
                            issued: old(self)@.issued.insert(next),
                            ..old(self)@
                        };
                        lemma_put_entries_fails(seeded, id@, entries, e@);
                        let i = choose|i: int|
                            0 <= i < entries.len() && failure_of(
                                seeded.glyph((#[trigger] entries[i]).glyph),
                                glyph_label(),
                            ) == Some(e@);
                        assert(failure_of(old(self)@.glyph(entries[i].glyph), glyph_label())
                            == Some(e@));
                        assert(entry_glyph_fails(old(self)@, entries, e@));
                        assert(holds_entries(old(self)@, font@.current_version, entries));
                    }
                }
                return Err(e);
            },
        };
        let ghost next = version@.next_version;
        let ghost seeded = StateView {
            versions: old(self)@.versions.insert(
                be_u64(id@),
                version_wire(VersionView { next_version: next }),
            ),
            issued: old(self)@.issued.insert(next),
            ..old(self)@
        };
        proof {
            lemma_put_entries_keeps(seeded, id@, entries);
        }
        let glyphs = match self.entry_glyphs(&version_glyphs) {
            Ok(glyphs) => glyphs,
            Err(e) => {
                proof {
                    if e@.kind != ErrorKind::Store {
                        let i = choose|i: int|
                            0 <= i < entries.len() && failure_of(
                                self@.glyph((#[trigger] entries[i]).glyph),
                                glyph_label(),
                            ) == Some(e@);
                        assert(failure_of(old(self)@.glyph(entries[i].glyph), glyph_label())
                            == Some(e@));
                        assert(entry_glyph_fails(old(self)@, entries, e@));
                        assert(holds_entries(old(self)@, font@.current_version, entries));
                    }
                }
                return Err(e);
            },
        };
        let ghost plain = views_of(glyphs@);
        proof {
            assert forall|k: int| 0 <= k < entries.len() implies seeded.glyph_char(
                (#[trigger] entries[k]).glyph,
            ) == Ok::<char, ErrorView>(chars_of(plain)[k]) by {
                assert(self@.glyph(entries[k].glyph) == Some(
                    Ok::<GlyphView, CodecError>(plain[k]),
                ));
            }
            lemma_put_entries_stored(seeded, id@, entries, chars_of(plain));
            assert(are_entry_glyphs(old(self)@, entries, plain));
        }
        let variants = Glyph::generate_variants(&glyphs, turn);
        let candidates = self.glyphs.insert_each(&mut self.db, &variants)?;
        let next_font = Font { first_version: font.first_version, current_version: id, candidates };
        self.fonts.insert_with_key(font_id, &next_font)?;
        proof {
            let candidate_numbers = ids_of(next_font.candidates@);
            assert(next_font@.candidates =~= candidate_numbers);
            lemma_one_id(old(self)@.issued, next);
            lemma_ids_chain(old(self)@.issued, seq![next], candidate_numbers);
            assert(generation_advanced_with(
                old(self)@,
                self@,
                font_id@,
                font@,
                *turn,
                next_font@.candidates,
                raw,
                entries,
                current@,
                next,
                plain,
                views_of(variants@),
            ));
        }
        Ok(next_font)
    }

    /// Gives `user_id` the next test of the font `font_id`.
    ///
    /// The test shows the first candidate of the font, which stays in the
    /// queue: the same candidate is shown until the font has gone to its
    /// next generation. A font without candidates goes there first. The
    /// entries of its current version are stored again, glyph and score as
    /// they are, under the version that was set aside as the next one, and a
    /// variant of each glyph becomes a candidate; `turn` perturbs the angle
    /// of each point. The user's earlier test, if any, is replaced. What was
    /// stored before a failure stays.
    pub fn add_next_test<F: Fn(u32) -> u32>(
        &mut self,
        font_id: Id<Font>,
        user_id: Id<User>,
        turn: &F,
    ) -> (r: Result<(), Error>)
        requires
            forall|angle: u32| call_requires(*turn, (angle,)),
        ensures
            match r {
                Ok(()) => test_assigned(old(self)@, final(self)@, font_id@, user_id@, *turn),
                Err(e) => (e@.kind == ErrorKind::Store && assignment_stopped(
                    old(self)@,
                    final(self)@,
                    font_id@,
                    user_id@,
                )) || assignment_fails(old(self)@, final(self)@, font_id@, e@),
            },
            final(self).tables() == old(self).tables(),
            final(self).db.same_store(&old(self).db),
    {
        let found = self.fonts.get(font_id)?;
        let stored = Error::expect_db_item(found, "font_gen::font::Font")?;
        let ghost stored_font = stored@;
        let font = if stored.candidates.len() == 0 {
            self.advance(font_id, stored, turn)?
        } else {
            stored
        };
        let ghost mid = self@;
        if font.candidates.len() > 0 {
            let glyph_id = font.candidates[0];
            self.active_tests.insert_with_key(
                user_id,
                &ActiveTest { font: font_id, glyph: glyph_id },
            )?;
        }
        proof {
            assert(self@ == assigned(mid, font_id@, user_id@, font@.candidates));
            if stored_font.candidates.len() == 0 {
                assert(generation_advanced(
                    old(self)@,
                    mid,
                    font_id@,
                    stored_font,
                    *turn,
                    font@.candidates,
                ));
            }
        }
        Ok(())
    }

    /// Records the time that `user_id` took for the glyph of their test.
    ///
    /// A user without a test has nothing recorded, which is no failure. The
    /// test ends here. The time is stored for the glyph's character in the
    /// font's current version unless a strictly faster one is stored there:
    /// a tie goes to the new time. `new_time` is the bit pattern of an
    /// IEEE 754 double-precision number of seconds.
    ///
    /// Where the store fails, what was done until then stays: nothing, the
    /// end of the test, or all of it.
    pub fn submit_time(&mut self, user_id: Id<User>, new_time: u64) -> (r: Result<(), Error>)
        ensures
            match r {
                Ok(()) => submitted(old(self)@, user_id@, new_time) == (
                    final(self)@,
                    Ok::<(), ErrorView>(()),
                ),
                Err(e) => (e@.kind == ErrorKind::Store && submit_stopped(
                    old(self)@,
                    final(self)@,
                    user_id@,
                    new_time,
                )) || submitted(old(self)@, user_id@, new_time) == (
                    final(self)@,
                    Err::<(), ErrorView>(e@),
                ),
            },
            same_fonts(old(self)@, final(self)@),
            final(self).tables() == old(self).tables(),
            final(self).db.same_store(&old(self).db),
    {
        let test = match self.active_tests.remove(user_id)? {
            Some(removed_value) => removed_value,
            None => {
                return Ok(());
            },
        };
        let font = Error::expect_db_item(self.fonts.get(test.font)?, "font_gen::font::Font")?;
        let version_glyph_key = VersionGlyphKey {
            font_version: font.current_version,
            char: self.get_glyph_char(test.glyph)?,
        };
        let slower = match self.font_version_glyphs.get(version_glyph_key)? {
            Some(VersionGlyph { score: Some(score), .. }) => is_slower(new_time, score.time),
            _ => false,
        };
        if !slower {
            self.font_version_glyphs.insert_with_key(
                version_glyph_key,
                &VersionGlyph {
                    glyph: test.glyph,
                    score: Some(Score { time: new_time, user: user_id }),
                },
            )?;
        }
        Ok(())
    }
}

} // verus!
