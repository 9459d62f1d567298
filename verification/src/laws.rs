//! What holds of the coordinator's operations, one after the other.
//!
//! The contracts of the operations say what each does to whatever the store
//! holds. The laws here say what that comes to in a store that is in order,
//! as `in_order` has it, and that each operation leaves such a store in
//! order: a new identifier stands for nothing yet, every font has its
//! current version, and a next generation holds exactly what the one before
//! it held, character by character.

use vstd::prelude::*;
use crate::active_test::{lemma_active_test_round_trip, ActiveTestView};
use crate::bytes::{be_u64, lemma_be_u64_injective};
use crate::database::{
    all_newer, ascending, distinct, entry_at, lemma_put_each_found, lookup, newer, put_each,
    wires_of,
};
use crate::error::{missing, unreadable, ErrorView};
use crate::database::{is_prefix_scan, key_before};
use crate::font::{
    lemma_key_order, lemma_key_prefix, version_glyph_of,
    font_wire, keeps, key_wire, lemma_font_round_trip, lemma_key_round_trip,
    lemma_version_glyph_round_trip, lemma_version_round_trip, retained, version_wire, Font,
    FontView, ScoreView, Version, VersionGlyph, VersionGlyphKeyView, VersionGlyphView,
    VersionView,
};
use crate::glyph::{lemma_shuffled_variant_of, Glyph, GlyphView};
use crate::id::Id;
use crate::state::{
    assigned, chars_of, font_added, font_ids, generation_advanced, glyph_label, font_added_with, fresh_entries, generation_advanced_with,
    lemma_id_keys_distinct, score_of, submitted, test_assigned, version_keys, StateView,
};
use crate::util::{CodecError, DekuRW};

verus! {

/// Whether `key` is the key of an identifier in `issued`.
pub open spec fn is_issued_key(issued: Set<u64>, key: Seq<u8>) -> bool {
    exists|id: u64| issued.contains(id) && key == #[trigger] be_u64(id)
}

/// Whether every key of `table` is the key of an identifier in `issued`.
pub open spec fn keys_issued(issued: Set<u64>, table: Map<Seq<u8>, Seq<u8>>) -> bool {
    forall|key: Seq<u8>| #[trigger] table.contains_key(key) ==> is_issued_key(issued, key)
}

/// Whether the version under `id`, where there is one, names as its next an
/// identifier that the store has given out, other than its own.
pub open spec fn next_issued(state: StateView, id: u64) -> bool {
    state.version(id) matches Some(Ok(version)) ==> state.issued.contains(version.next_version)
        && version.next_version != id
}

/// Whether the font under `id`, where there is one, names as its current
/// version an identifier that the store has given out.
pub open spec fn current_issued(state: StateView, id: u64) -> bool {
    state.font(id) matches Some(Ok(font)) ==> state.issued.contains(font.current_version)
}

/// Whether the store has given out what the tables hold: every key of the
/// versions, the fonts and the glyphs, the next version that each version
/// names, and the current version that each font names.
///
/// Nothing is known of a store when it is opened, so this is no more than
/// a way a store can be. A store that only the engine has written to is
/// so; the laws below say that the engine keeps it so, and what follows.
pub open spec fn well_kept(state: StateView) -> bool {
    &&& keys_issued(state.issued, state.versions)
    &&& keys_issued(state.issued, state.fonts)
    &&& keys_issued(state.issued, state.glyphs)
    &&& forall|id: u64| #[trigger] next_issued(state, id)
    &&& forall|id: u64| #[trigger] current_issued(state, id)
}

/// A key whose identifier is above all that were given out is no key of a
/// table whose keys were given out.
pub proof fn lemma_newer_is_no_key(issued: Set<u64>, table: Map<Seq<u8>, Seq<u8>>, id: u64)
    requires
        keys_issued(issued, table),
        newer(issued, id),
    ensures
        !table.contains_key(be_u64(id)),
{
    if table.contains_key(be_u64(id)) {
        let other = choose|other: u64| issued.contains(other) && be_u64(id) == #[trigger] be_u64(
            other,
        );
        lemma_be_u64_injective(id, other);
    }
}

/// No record stands under an identifier that is yet to be given out.
///
/// In a store that is well kept, an identifier above all that were given
/// out is the key of no version, no font and no glyph. So it is with the
/// identifier that `Id::generate` or an insertion returns, before anything
/// is stored under it.
pub proof fn lemma_new_id_is_free(state: StateView, id: u64)
    requires
        well_kept(state),
        newer(state.issued, id),
    ensures
        state.version(id) is None,
        state.font(id) is None,
        state.glyph(id) is None,
{
    lemma_newer_is_no_key(state.issued, state.versions, id);
    lemma_newer_is_no_key(state.issued, state.fonts, id);
    lemma_newer_is_no_key(state.issued, state.glyphs, id);
}

/// Storing under identifiers that have been given out keeps the keys given
/// out.
pub proof fn lemma_put_each_keys_issued(
    issued: Set<u64>,
    after: Set<u64>,
    table: Map<Seq<u8>, Seq<u8>>,
    ids: Seq<u64>,
    values: Seq<Seq<u8>>,
)
    requires
        keys_issued(issued, table),
        issued.subset_of(after),
        ids.to_set().subset_of(after),
        ids.len() == values.len(),
    ensures
        keys_issued(after, put_each(table, wires_of::<Id<Glyph>>(ids), values)),
    decreases ids.len(),
{
    let keys = wires_of::<Id<Glyph>>(ids);
    let stored = put_each(table, keys, values);
    if ids.len() == 0 {
        assert forall|key: Seq<u8>| #[trigger] stored.contains_key(key) implies is_issued_key(
            after,
            key,
        ) by {
            assert(is_issued_key(issued, key));
            let id = choose|id: u64| issued.contains(id) && key == #[trigger] be_u64(id);
            assert(after.contains(id));
        }
    } else {
        let head = ids.drop_last();
        assert forall|id: u64| head.to_set().contains(id) implies after.contains(id) by {
            let k = choose|k: int| 0 <= k < head.len() && head[k] == id;
            assert(ids[k] == id);
            assert(ids.to_set().contains(id));
        }
        lemma_put_each_keys_issued(issued, after, table, head, values.drop_last());
        assert(keys.drop_last() =~= wires_of::<Id<Glyph>>(head));
        assert(keys.last() == be_u64(ids.last()));
        assert(ids.to_set().contains(ids.last()));
        assert forall|key: Seq<u8>| #[trigger] stored.contains_key(key) implies is_issued_key(
            after,
            key,
        ) by {
            if key == keys.last() {
                assert(after.contains(ids.last()));
            }
        }
    }
}

/// Storing under an identifier that has been given out keeps the keys given
/// out.
pub proof fn lemma_insert_keys_issued(
    issued: Set<u64>,
    after: Set<u64>,
    table: Map<Seq<u8>, Seq<u8>>,
    id: u64,
    value: Seq<u8>,
)
    requires
        keys_issued(issued, table),
        issued.subset_of(after),
        after.contains(id),
    ensures
        keys_issued(after, table.insert(be_u64(id), value)),
{
    let stored = table.insert(be_u64(id), value);
    assert forall|key: Seq<u8>| #[trigger] stored.contains_key(key) implies is_issued_key(
        after,
        key,
    ) by {
        if key != be_u64(id) {
            assert(is_issued_key(issued, key));
            let other = choose|other: u64| issued.contains(other) && key == #[trigger] be_u64(
                other,
            );
            assert(after.contains(other));
        }
    }
}

/// The identifier under a key that has been given out has been given out.
pub proof fn lemma_key_is_issued(issued: Set<u64>, table: Map<Seq<u8>, Seq<u8>>, id: u64)
    requires
        keys_issued(issued, table),
        table.contains_key(be_u64(id)),
    ensures
        issued.contains(id),
{
    let other = choose|other: u64| issued.contains(other) && be_u64(id) == #[trigger] be_u64(other);
    lemma_be_u64_injective(id, other);
}

/// A new font keeps the store well kept, and the identifier that it sets
/// aside for the version after the first is the key of no version yet.
#[verifier::rlimit(60)]
pub proof fn lemma_added_keeps_well<F: Fn(u32) -> u32>(
    before: StateView,
    after: StateView,
    glyphs: Seq<GlyphView>,
    font: u64,
    turn: F,
    version: u64,
    next: u64,
    ids: Seq<u64>,
    variants: Seq<GlyphView>,
    candidates: Seq<u64>,
)
    requires
        font_added_with(before, after, glyphs, font, turn, version, next, ids, variants, candidates),
        well_kept(before),
    ensures
        well_kept(after),
        after.version(next) is None,
        before.version(version) is None,
        before.font(font) is None,
        next != version,
        forall|id: u64| id != font ==> after.font(id) == before.font(id),
        forall|id: u64| id != version ==> after.version(id) == before.version(id),
{
    let all = font_ids(font, version, next, ids, candidates);
    let n = ids.len() as int;
    let m = candidates.len() as int;
    lemma_font_ids_apart(font, version, next, ids, candidates);
    assert(all[0] == version && all[n + 1] == next && all[n + m + 2] == font);
    assert(all.to_set().contains(all[0]) && all.to_set().contains(all[n + 1])
        && all.to_set().contains(all[n + m + 2]));
    assert forall|id: u64| ids.to_set().contains(id) implies after.issued.contains(id) by {
        let k = choose|k: int| 0 <= k < ids.len() && ids[k] == id;
        assert(all[k + 1] == id);
        assert(all.to_set().contains(id));
    }
    assert forall|id: u64| candidates.to_set().contains(id) implies after.issued.contains(id) by {
        let k = choose|k: int| 0 <= k < candidates.len() && candidates[k] == id;
        assert(all[n + 2 + k] == id);
        assert(all.to_set().contains(id));
    }
    assert(newer(before.issued, all[0]) && newer(before.issued, all[n + 1]) && newer(
        before.issued,
        all[n + m + 2],
    ));
    lemma_new_id_is_free(before, version);
    lemma_new_id_is_free(before, next);
    lemma_new_id_is_free(before, font);
    let record = VersionView { next_version: next };
    let font_record = FontView { first_version: version, current_version: version, candidates };
    lemma_version_round_trip(record);
    lemma_font_round_trip(font_record);
    lemma_insert_keys_issued(
        before.issued,
        after.issued,
        before.versions,
        version,
        version_wire(record),
    );
    lemma_insert_keys_issued(before.issued, after.issued, before.fonts, font, font_wire(font_record));
    let first = put_each(before.glyphs, wires_of::<Id<Glyph>>(ids), wires_of::<Glyph>(glyphs));
    lemma_put_each_keys_issued(
        before.issued,
        after.issued,
        before.glyphs,
        ids,
        wires_of::<Glyph>(glyphs),
    );
    lemma_put_each_keys_issued(
        after.issued,
        after.issued,
        first,
        candidates,
        wires_of::<Glyph>(variants),
    );
    assert forall|id: u64| id != version implies after.version(id) == before.version(id) by {
        if be_u64(id) == be_u64(version) {
            lemma_be_u64_injective(id, version);
        }
    }
    assert forall|id: u64| id != font implies after.font(id) == before.font(id) by {
        if be_u64(id) == be_u64(font) {
            lemma_be_u64_injective(id, font);
        }
    }
    assert forall|id: u64| #[trigger] next_issued(after, id) by {
        if id != version {
            assert(next_issued(before, id));
        }
    }
    assert forall|id: u64| #[trigger] current_issued(after, id) by {
        if id != font {
            assert(current_issued(before, id));
        }
    }
}

/// A next generation keeps the store well kept. The identifier that it
/// sets aside for the version after the new one is the key of no version
/// yet, and differs from the new version and from the one before, whose
/// record stays.
#[verifier::rlimit(60)]
pub proof fn lemma_advanced_keeps_well<F: Fn(u32) -> u32>(
    before: StateView,
    after: StateView,
    font_id: u64,
    font: FontView,
    turn: F,
    candidates: Seq<u64>,
    raw: Seq<(Seq<u8>, Seq<u8>)>,
    entries: Seq<VersionGlyphView>,
    version: VersionView,
    next: u64,
    glyphs: Seq<GlyphView>,
    variants: Seq<GlyphView>,
)
    requires
        generation_advanced_with(
            before,
            after,
            font_id,
            font,
            turn,
            candidates,
            raw,
            entries,
            version,
            next,
            glyphs,
            variants,
        ),
        before.font(font_id) == Some(Ok::<FontView, CodecError>(font)),
        well_kept(before),
    ensures
        well_kept(after),
        after.version(next) is None,
        next != version.next_version,
        next != font.current_version,
        version.next_version != font.current_version,
        after.version(font.current_version) == before.version(font.current_version),
        forall|id: u64| id != font_id ==> after.font(id) == before.font(id),
        forall|id: u64| id != version.next_version ==> after.version(id) == before.version(id),
{
    let taken = seq![next] + candidates;
    let fresh = version.next_version;
    assert(taken[0] == next);
    assert(taken.to_set().contains(taken[0]));
    assert(newer(before.issued, taken[0]));
    assert forall|id: u64| candidates.to_set().contains(id) implies after.issued.contains(id) by {
        let k = choose|k: int| 0 <= k < candidates.len() && candidates[k] == id;
        assert(taken[k + 1] == id);
        assert(taken.to_set().contains(id));
    }
    lemma_new_id_is_free(before, next);
    assert(next_issued(before, font.current_version));
    assert(current_issued(before, font_id));
    assert(before.issued.contains(fresh) && before.issued.contains(font.current_version));
    lemma_key_is_issued(before.issued, before.fonts, font_id);
    let record = VersionView { next_version: next };
    let font_record = FontView {
        first_version: font.first_version,
        current_version: fresh,
        candidates,
    };
    lemma_version_round_trip(record);
    lemma_font_round_trip(font_record);
    lemma_insert_keys_issued(before.issued, after.issued, before.versions, fresh, version_wire(record));
    lemma_insert_keys_issued(
        before.issued,
        after.issued,
        before.fonts,
        font_id,
        font_wire(font_record),
    );
    lemma_put_each_keys_issued(
        before.issued,
        after.issued,
        before.glyphs,
        candidates,
        wires_of::<Glyph>(variants),
    );
    assert forall|id: u64| id != fresh implies after.version(id) == before.version(id) by {
        if be_u64(id) == be_u64(fresh) {
            lemma_be_u64_injective(id, fresh);
        }
    }
    assert forall|id: u64| id != font_id implies after.font(id) == before.font(id) by {
        if be_u64(id) == be_u64(font_id) {
            lemma_be_u64_injective(id, font_id);
        }
    }
    assert forall|id: u64| #[trigger] next_issued(after, id) by {
        if id != fresh {
            assert(next_issued(before, id));
        }
    }
    assert forall|id: u64| #[trigger] current_issued(after, id) by {
        if id != font_id {
            assert(current_issued(before, id));
        }
    }
}

/// A test and a time keep the store well kept.
pub proof fn lemma_tests_keep_well(
    state: StateView,
    font_id: u64,
    user: u64,
    candidates: Seq<u64>,
    new_time: u64,
)
    requires
        well_kept(state),
    ensures
        well_kept(assigned(state, font_id, user, candidates)),
        well_kept(submitted(state, user, new_time).0),
{
    let shown = assigned(state, font_id, user, candidates);
    assert forall|id: u64| #[trigger] next_issued(shown, id) by {
        assert(next_issued(state, id));
    }
    assert forall|id: u64| #[trigger] current_issued(shown, id) by {
        assert(current_issued(state, id));
    }
    let timed = submitted(state, user, new_time).0;
    assert(timed.fonts == state.fonts && timed.versions == state.versions && timed.glyphs
        == state.glyphs && timed.issued == state.issued);
    assert forall|id: u64| #[trigger] next_issued(timed, id) by {
        assert(next_issued(state, id));
    }
    assert forall|id: u64| #[trigger] current_issued(timed, id) by {
        assert(current_issued(state, id));
    }
}

/// Whether the version holds something for the character of `key`, and the
/// glyph that it holds is stored and draws that character.
pub open spec fn entry_matches(state: StateView, key: VersionGlyphKeyView) -> bool {
    match state.version_glyph(key) {
        Some(Ok(entry)) => match state.glyph(entry.glyph) {
            Some(Ok(glyph)) => glyph.char == key.char,
            _ => false,
        },
        _ => false,
    }
}

/// Whether `bytes` is the key of an entry that matches.
pub open spec fn is_matching_key(state: StateView, bytes: Seq<u8>) -> bool {
    exists|key: VersionGlyphKeyView| bytes == #[trigger] key_wire(key) && entry_matches(state, key)
}

/// Whether every version holds, under each character, a stored glyph that
/// draws the character, and nothing under any other key.
///
/// Like `well_kept`, this is a way a store can be, which the engine keeps.
pub open spec fn scores_match(state: StateView) -> bool {
    forall|bytes: Seq<u8>| #[trigger] state.scores.contains_key(bytes) ==> is_matching_key(
        state,
        bytes,
    )
}

/// Whether the version `version` holds nothing yet.
pub open spec fn holds_nothing(state: StateView, version: u64) -> bool {
    forall|key: VersionGlyphKeyView|
        key.font_version == version ==> (#[trigger] state.version_glyph(key)) is None
}

/// What is found after storing was there before or is one of what was
/// stored.
pub proof fn lemma_put_each_origin(
    table: Map<Seq<u8>, Seq<u8>>,
    keys: Seq<Seq<u8>>,
    values: Seq<Seq<u8>>,
    key: Seq<u8>,
)
    requires
        keys.len() == values.len(),
    ensures
        entry_at(put_each(table, keys, values), key) == entry_at(table, key) || exists|i: int|
            0 <= i < keys.len() && #[trigger] keys[i] == key && entry_at(
                put_each(table, keys, values),
                key,
            ) == Some(values[i]),
    decreases keys.len(),
{
    if keys.len() > 0 {
        let n = keys.len() - 1;
        lemma_put_each_origin(table, keys.drop_last(), values.drop_last(), key);
        let head = put_each(table, keys.drop_last(), values.drop_last());
        if key == keys.last() {
            assert(keys[n] == key && values[n] == values.last());
        } else if entry_at(head, key) != entry_at(table, key) {
            let i = choose|i: int|
                0 <= i < keys.drop_last().len() && #[trigger] keys.drop_last()[i] == key
                    && entry_at(head, key) == Some(values.drop_last()[i]);
            assert(keys[i] == key && values[i] == values.drop_last()[i]);
        }
    }
}

/// Glyphs that are stored stay as they are when others are stored under
/// new identifiers.
pub proof fn lemma_old_glyph_stays(
    issued: Set<u64>,
    table: Map<Seq<u8>, Seq<u8>>,
    ids: Seq<u64>,
    values: Seq<Seq<u8>>,
    id: u64,
)
    requires
        keys_issued(issued, table),
        all_newer(issued, ids),
        ascending(ids),
        ids.len() == values.len(),
        table.contains_key(be_u64(id)),
    ensures
        entry_at(put_each(table, wires_of::<Id<Glyph>>(ids), values), be_u64(id)) == entry_at(
            table,
            be_u64(id),
        ),
{
    let keys = wires_of::<Id<Glyph>>(ids);
    lemma_put_each_origin(table, keys, values, be_u64(id));
    assert forall|k: int| 0 <= k < keys.len() implies #[trigger] keys[k] != be_u64(id) by {
        assert(keys[k] == be_u64(ids[k]));
        assert(newer(issued, ids[k]));
        lemma_newer_is_no_key(issued, table, ids[k]);
    }
}

/// A time keeps the entries matching.
pub proof fn lemma_submitted_keeps_match(state: StateView, user: u64, new_time: u64)
    requires
        scores_match(state),
    ensures
        scores_match(submitted(state, user, new_time).0),
{
    let after = submitted(state, user, new_time).0;
    assert(after.glyphs == state.glyphs);
    assert forall|bytes: Seq<u8>| #[trigger] after.scores.contains_key(bytes) implies is_matching_key(
        after,
        bytes,
    ) by {
        if state.scores.contains_key(bytes) && after.scores[bytes] == state.scores[bytes] {
            assert(is_matching_key(state, bytes));
            let key = choose|key: VersionGlyphKeyView|
                bytes == #[trigger] key_wire(key) && entry_matches(state, key);
            assert(after.version_glyph(key) == state.version_glyph(key));
            assert(entry_matches(after, key));
        } else {
            match state.test_of(user) {
                Some(Ok(test)) => match state.font(test.font) {
                    Some(Ok(font)) => match state.glyph_char(test.glyph) {
                        Ok(char) => {
                            let key = VersionGlyphKeyView {
                                font_version: font.current_version,
                                char,
                            };
                            let entry = VersionGlyphView {
                                glyph: test.glyph,
                                score: Some(ScoreView { time: new_time, user }),
                            };
                            lemma_version_glyph_round_trip(entry);
                            assert(bytes == key_wire(key));
                            assert(after.version_glyph(key) == Some(
                                Ok::<VersionGlyphView, CodecError>(entry),
                            ));
                            assert(entry_matches(after, key));
                        },
                        Err(_) => {},
                    },
                    _ => {},
                },
                _ => {},
            }
        }
    }
}

/// A next generation is the one before it, character by character.
///
/// Where the store is well kept and its entries match: the glyphs of the
/// current version draw different characters, which rise with the keys;
/// the next version holds, under each of these characters, the entry that
/// the current version holds there, glyph and score as they are; what any
/// other version holds, the current one among them, is as it was. Where the
/// next version held nothing before, it holds nothing else now.
#[verifier::rlimit(80)]
pub proof fn lemma_generation_by_character<F: Fn(u32) -> u32>(
    before: StateView,
    after: StateView,
    font_id: u64,
    font: FontView,
    turn: F,
    candidates: Seq<u64>,
    raw: Seq<(Seq<u8>, Seq<u8>)>,
    entries: Seq<VersionGlyphView>,
    version: VersionView,
    next: u64,
    glyphs: Seq<GlyphView>,
    variants: Seq<GlyphView>,
)
    requires
        generation_advanced_with(
            before,
            after,
            font_id,
            font,
            turn,
            candidates,
            raw,
            entries,
            version,
            next,
            glyphs,
            variants,
        ),
        scores_match(before),
    ensures
        distinct_chars(glyphs),
        forall|i: int, j: int|
            0 <= i < j < glyphs.len() ==> ((#[trigger] glyphs[i]).char as u32) < (
            (#[trigger] glyphs[j]).char as u32),
        forall|i: int|
            0 <= i < entries.len() ==> before.version_glyph(
                VersionGlyphKeyView { font_version: font.current_version, char: glyphs[i].char },
            ) == Some(Ok::<VersionGlyphView, CodecError>(#[trigger] entries[i])),
        forall|key: VersionGlyphKeyView|
            key.font_version == font.current_version && (#[trigger] before.version_glyph(key))
                is Some ==> exists|i: int|
                0 <= i < glyphs.len() && (#[trigger] glyphs[i]).char == key.char,
        forall|i: int|
            0 <= i < entries.len() ==> after.version_glyph(
                VersionGlyphKeyView { font_version: version.next_version, char: glyphs[i].char },
            ) == Some(Ok::<VersionGlyphView, CodecError>(#[trigger] entries[i])),
        forall|key: VersionGlyphKeyView|
            key.font_version != version.next_version ==> #[trigger] after.version_glyph(key)
                == before.version_glyph(key),
        holds_nothing(before, version.next_version) ==> forall|key: VersionGlyphKeyView|
            key.font_version == version.next_version && (#[trigger] after.version_glyph(key))
                is Some ==> exists|i: int|
                0 <= i < glyphs.len() && (#[trigger] glyphs[i]).char == key.char,
{
    let old_version = font.current_version;
    let new_version = version.next_version;
    let chars = chars_of(glyphs);
    let keys = version_keys(new_version, chars);
    let values = wires_of::<VersionGlyph>(entries);
    reveal(is_prefix_scan);
    // The keys of the scan are the keys of the glyphs' characters.
    assert forall|i: int| 0 <= i < raw.len() implies (#[trigger] raw[i]).0 == key_wire(
        VersionGlyphKeyView { font_version: old_version, char: glyphs[i].char },
    ) && before.version_glyph(
        VersionGlyphKeyView { font_version: old_version, char: glyphs[i].char },
    ) == Some(Ok::<VersionGlyphView, CodecError>(entries[i])) by {
        let bytes = raw[i].0;
        assert(before.scores.contains_key(bytes));
        assert(is_matching_key(before, bytes));
        let key = choose|key: VersionGlyphKeyView|
            bytes == #[trigger] key_wire(key) && entry_matches(before, key);
        lemma_key_prefix(key, old_version);
        assert(before.scores[bytes] == raw[i].1);
        assert(version_glyph_of(raw[i].1) == Ok::<VersionGlyphView, CodecError>(entries[i]));
        assert(before.version_glyph(key) == Some(Ok::<VersionGlyphView, CodecError>(entries[i])));
        assert(before.glyph(entries[i].glyph) == Some(Ok::<GlyphView, CodecError>(glyphs[i])));
        assert(key == VersionGlyphKeyView { font_version: old_version, char: glyphs[i].char });
    }
    assert forall|i: int, j: int| 0 <= i < j < glyphs.len() implies ((#[trigger] glyphs[i]).char
        as u32) < ((#[trigger] glyphs[j]).char as u32) by {
        assert(key_before(raw[i].0, raw[j].0));
        lemma_key_order(
            VersionGlyphKeyView { font_version: old_version, char: glyphs[i].char },
            VersionGlyphKeyView { font_version: old_version, char: glyphs[j].char },
        );
    }
    assert(distinct_chars(glyphs));
    assert forall|i: int| 0 <= i < entries.len() implies before.version_glyph(
        VersionGlyphKeyView { font_version: old_version, char: glyphs[i].char },
    ) == Some(Ok::<VersionGlyphView, CodecError>(#[trigger] entries[i])) by {
        assert(raw[i].0 == key_wire(
            VersionGlyphKeyView { font_version: old_version, char: glyphs[i].char },
        ));
    }
    assert forall|key: VersionGlyphKeyView|
        key.font_version == old_version && (#[trigger] before.version_glyph(key))
            is Some implies exists|i: int|
        0 <= i < glyphs.len() && (#[trigger] glyphs[i]).char == key.char by {
        lemma_key_prefix(key, old_version);
        assert(before.scores.contains_key(key_wire(key)));
        let i = choose|i: int| 0 <= i < raw.len() && #[trigger] raw[i].0 == key_wire(key);
        assert(raw[i].0 == key_wire(
            VersionGlyphKeyView { font_version: old_version, char: glyphs[i].char },
        ));
        lemma_key_round_trip(key);
        lemma_key_round_trip(
            VersionGlyphKeyView { font_version: old_version, char: glyphs[i].char },
        );
        assert(glyphs[i].char == key.char);
    }
    // What the next version holds.
    assert forall|i: int, j: int| 0 <= i < j < keys.len() implies keys[i] != keys[j] by {
        lemma_key_round_trip(VersionGlyphKeyView { font_version: new_version, char: chars[i] });
        lemma_key_round_trip(VersionGlyphKeyView { font_version: new_version, char: chars[j] });
        assert(glyphs[i].char != glyphs[j].char);
    }
    lemma_put_each_found(before.scores, keys, values);
    assert forall|i: int| 0 <= i < entries.len() implies after.version_glyph(
        VersionGlyphKeyView { font_version: new_version, char: glyphs[i].char },
    ) == Some(Ok::<VersionGlyphView, CodecError>(#[trigger] entries[i])) by {
        assert(keys[i] == key_wire(
            VersionGlyphKeyView { font_version: new_version, char: glyphs[i].char },
        ));
        assert(entry_at(after.scores, keys[i]) == Some(values[i]));
        lemma_version_glyph_round_trip(entries[i]);
    }
    assert forall|key: VersionGlyphKeyView|
        key.font_version != new_version implies #[trigger] after.version_glyph(key)
        == before.version_glyph(key) by {
        assert forall|k: int| 0 <= k < keys.len() implies keys[k] != key_wire(key) by {
            if keys[k] == key_wire(key) {
                lemma_key_round_trip(key);
                lemma_key_round_trip(
                    VersionGlyphKeyView { font_version: new_version, char: chars[k] },
                );
            }
        }
        assert(!keys.contains(key_wire(key)));
    }
    if holds_nothing(before, new_version) {
        assert forall|key: VersionGlyphKeyView|
            key.font_version == new_version && (#[trigger] after.version_glyph(key))
                is Some implies exists|i: int|
            0 <= i < glyphs.len() && (#[trigger] glyphs[i]).char == key.char by {
            lemma_put_each_origin(before.scores, keys, values, key_wire(key));
            assert(before.version_glyph(key) is None);
            let i = choose|i: int| 0 <= i < keys.len() && #[trigger] keys[i] == key_wire(key);
            lemma_key_round_trip(key);
            lemma_key_round_trip(
                VersionGlyphKeyView { font_version: new_version, char: chars[i] },
            );
            assert(glyphs[i].char == key.char);
        }
    }
}

/// A next generation keeps the entries matching.
#[verifier::rlimit(80)]
pub proof fn lemma_advanced_keeps_match<F: Fn(u32) -> u32>(
    before: StateView,
    after: StateView,
    font_id: u64,
    font: FontView,
    turn: F,
    candidates: Seq<u64>,
    raw: Seq<(Seq<u8>, Seq<u8>)>,
    entries: Seq<VersionGlyphView>,
    version: VersionView,
    next: u64,
    glyphs: Seq<GlyphView>,
    variants: Seq<GlyphView>,
)
    requires
        generation_advanced_with(
            before,
            after,
            font_id,
            font,
            turn,
            candidates,
            raw,
            entries,
            version,
            next,
            glyphs,
            variants,
        ),
        well_kept(before),
        scores_match(before),
    ensures
        scores_match(after),
{
    let new_version = version.next_version;
    let chars = chars_of(glyphs);
    let keys = version_keys(new_version, chars);
    let values = wires_of::<VersionGlyph>(entries);
    let taken = seq![next] + candidates;
    assert forall|i: int| 0 <= i < candidates.len() implies newer(
        before.issued,
        #[trigger] candidates[i],
    ) by {
        assert(taken[i + 1] == candidates[i]);
        assert(newer(before.issued, taken[i + 1]));
    }
    assert forall|a: int, b: int| 0 <= a < b < candidates.len() implies candidates[a]
        < candidates[b] by {
        assert(taken[a + 1] < taken[b + 1]);
    }
    // A glyph that was stored is stored as it was.
    assert forall|id: u64| before.glyph(id) is Some implies #[trigger] after.glyph(id)
        == before.glyph(id) by {
        lemma_old_glyph_stays(
            before.issued,
            before.glyphs,
            candidates,
            wires_of::<Glyph>(variants),
            id,
        );
    }
    assert forall|bytes: Seq<u8>| #[trigger] after.scores.contains_key(bytes) implies is_matching_key(
        after,
        bytes,
    ) by {
        lemma_put_each_origin(before.scores, keys, values, bytes);
        if entry_at(after.scores, bytes) == entry_at(before.scores, bytes) {
            assert(is_matching_key(before, bytes));
            let key = choose|key: VersionGlyphKeyView|
                bytes == #[trigger] key_wire(key) && entry_matches(before, key);
            assert(after.version_glyph(key) == before.version_glyph(key));
            assert(entry_matches(after, key));
        } else {
            let i = choose|i: int|
                0 <= i < keys.len() && #[trigger] keys[i] == bytes && entry_at(
                    after.scores,
                    bytes,
                ) == Some(values[i]);
            let key = VersionGlyphKeyView { font_version: new_version, char: glyphs[i].char };
            assert(keys[i] == key_wire(key));
            lemma_version_glyph_round_trip(entries[i]);
            assert(after.version_glyph(key) == Some(
                Ok::<VersionGlyphView, CodecError>(entries[i]),
            ));
            assert(before.glyph(entries[i].glyph) == Some(
                Ok::<GlyphView, CodecError>(glyphs[i]),
            ));
            assert(entry_matches(after, key));
        }
    }
}

/// A new font keeps the entries matching.
#[verifier::rlimit(80)]
pub proof fn lemma_added_keeps_match<F: Fn(u32) -> u32>(
    before: StateView,
    after: StateView,
    glyphs: Seq<GlyphView>,
    font: u64,
    turn: F,
    version: u64,
    next: u64,
    ids: Seq<u64>,
    variants: Seq<GlyphView>,
    candidates: Seq<u64>,
)
    requires
        font_added_with(before, after, glyphs, font, turn, version, next, ids, variants, candidates),
        well_kept(before),
        scores_match(before),
    ensures
        scores_match(after),
{
    let all = font_ids(font, version, next, ids, candidates);
    let n = ids.len() as int;
    let chars = chars_of(glyphs);
    let keys = version_keys(version, chars);
    let entries = fresh_entries(ids);
    let values = wires_of::<VersionGlyph>(entries);
    let first = put_each(before.glyphs, wires_of::<Id<Glyph>>(ids), wires_of::<Glyph>(glyphs));
    let issued_first = before.issued.union(ids.to_set());
    lemma_font_ids_apart(font, version, next, ids, candidates);
    assert forall|i: int| 0 <= i < n implies #[trigger] all[i + 1] == ids[i] by {}
    assert forall|i: int| 0 <= i < candidates.len() implies #[trigger] all[n + 2 + i]
        == candidates[i] by {}
    assert forall|i: int| 0 <= i < n implies newer(before.issued, #[trigger] ids[i]) by {
        assert(newer(before.issued, all[i + 1]));
    }
    assert forall|a: int, b: int| 0 <= a < b < n implies ids[a] < ids[b] by {
        assert(all[a + 1] < all[b + 1]);
    }
    assert forall|a: int, b: int| 0 <= a < b < candidates.len() implies candidates[a]
        < candidates[b] by {
        assert(all[n + 2 + a] < all[n + 2 + b]);
    }
    assert forall|i: int| 0 <= i < candidates.len() implies newer(
        issued_first,
        #[trigger] candidates[i],
    ) by {
        assert(newer(before.issued, all[n + 2 + i]));
        assert forall|other: u64| issued_first.contains(other) implies other < candidates[i] by {
            if ids.to_set().contains(other) {
                let k = choose|k: int| 0 <= k < ids.len() && ids[k] == other;
                assert(all[k + 1] < all[n + 2 + i]);
            }
        }
    }
    lemma_put_each_keys_issued(
        before.issued,
        issued_first,
        before.glyphs,
        ids,
        wires_of::<Glyph>(glyphs),
    );
    // A glyph that was stored is stored as it was.
    assert forall|id: u64| before.glyph(id) is Some implies #[trigger] after.glyph(id)
        == before.glyph(id) by {
        lemma_old_glyph_stays(before.issued, before.glyphs, ids, wires_of::<Glyph>(glyphs), id);
        assert(first.contains_key(be_u64(id)));
        lemma_old_glyph_stays(issued_first, first, candidates, wires_of::<Glyph>(variants), id);
    }
    // The glyphs of the font are stored.
    assert forall|i: int| 0 <= i < n implies after.glyph(#[trigger] ids[i]) == Some(
        Ok::<GlyphView, CodecError>(glyphs[i]),
    ) by {
        let id_keys = wires_of::<Id<Glyph>>(ids);
        lemma_id_keys_distinct(ids);
        lemma_put_each_found(before.glyphs, id_keys, wires_of::<Glyph>(glyphs));
        assert(id_keys[i] == be_u64(ids[i]));
        assert(entry_at(first, id_keys[i]) == Some(wires_of::<Glyph>(glyphs)[i]));
        lemma_old_glyph_stays(
            issued_first,
            first,
            candidates,
            wires_of::<Glyph>(variants),
            ids[i],
        );
        Glyph::lemma_round_trip(glyphs[i]);
    }
    assert forall|bytes: Seq<u8>| #[trigger] after.scores.contains_key(bytes) implies is_matching_key(
        after,
        bytes,
    ) by {
        lemma_put_each_origin(before.scores, keys, values, bytes);
        if entry_at(after.scores, bytes) == entry_at(before.scores, bytes) {
            assert(is_matching_key(before, bytes));
            let key = choose|key: VersionGlyphKeyView|
                bytes == #[trigger] key_wire(key) && entry_matches(before, key);
            assert(after.version_glyph(key) == before.version_glyph(key));
            assert(entry_matches(after, key));
        } else {
            let i = choose|i: int|
                0 <= i < keys.len() && #[trigger] keys[i] == bytes && entry_at(
                    after.scores,
                    bytes,
                ) == Some(values[i]);
            let key = VersionGlyphKeyView { font_version: version, char: glyphs[i].char };
            assert(keys[i] == key_wire(key));
            lemma_version_glyph_round_trip(entries[i]);
            assert(after.version_glyph(key) == Some(
                Ok::<VersionGlyphView, CodecError>(entries[i]),
            ));
            assert(after.glyph(ids[i]) == Some(Ok::<GlyphView, CodecError>(glyphs[i])));
            assert(entry_matches(after, key));
        }
    }
}

/// Whether the current version of the font under `id` is there, where the
/// font is.
pub open spec fn linked(state: StateView, id: u64) -> bool {
    state.font(id) matches Some(Ok(font)) ==> state.version(font.current_version) matches Some(
        Ok(_),
    )
}

/// Whether the current version of every font is there.
pub open spec fn all_linked(state: StateView) -> bool {
    forall|id: u64| #[trigger] linked(state, id)
}

/// Where the versions gain a record, what was there stays there.
proof fn lemma_version_stays(
    versions: Map<Seq<u8>, Seq<u8>>,
    added: u64,
    record: VersionView,
    id: u64,
)
    requires
        lookup::<Version>(versions, be_u64(id)) matches Some(Ok(_)),
    ensures
        lookup::<Version>(versions.insert(be_u64(added), version_wire(record)), be_u64(id)) matches Some(
            Ok(_),
        ),
{
    lemma_version_round_trip(record);
}

/// Where the fonts gain a record under `added`, every other font is as it
/// was.
proof fn lemma_other_fonts_stay(
    fonts: Map<Seq<u8>, Seq<u8>>,
    added: u64,
    record: FontView,
    id: u64,
)
    ensures
        lookup::<Font>(fonts.insert(be_u64(added), font_wire(record)), be_u64(id)) == if id
            == added {
            Some(Ok::<FontView, CodecError>(record))
        } else {
            lookup::<Font>(fonts, be_u64(id))
        },
{
    lemma_font_round_trip(record);
    if id != added && be_u64(id) == be_u64(added) {
        lemma_be_u64_injective(id, added);
    }
}

/// A new font leaves every font with its current version.
pub proof fn lemma_added_keeps_linked<F: Fn(u32) -> u32>(
    before: StateView,
    after: StateView,
    glyphs: Seq<GlyphView>,
    font: u64,
    turn: F,
    version: u64,
    next: u64,
    ids: Seq<u64>,
    variants: Seq<GlyphView>,
    candidates: Seq<u64>,
)
    requires
        font_added_with(before, after, glyphs, font, turn, version, next, ids, variants, candidates),
        all_linked(before),
    ensures
        all_linked(after),
{
    let record = FontView { first_version: version, current_version: version, candidates };
    let added = VersionView { next_version: next };
    lemma_version_round_trip(added);
    assert forall|id: u64| #[trigger] linked(after, id) by {
        lemma_other_fonts_stay(before.fonts, font, record, id);
        if id != font {
            assert(linked(before, id));
            match before.font(id) {
                Some(Ok(found)) => {
                    lemma_version_stays(before.versions, version, added, found.current_version);
                },
                _ => {},
            }
        }
    }
}

/// A next generation leaves every font with its current version.
pub proof fn lemma_advanced_keeps_linked<F: Fn(u32) -> u32>(
    before: StateView,
    after: StateView,
    font_id: u64,
    font: FontView,
    turn: F,
    candidates: Seq<u64>,
    raw: Seq<(Seq<u8>, Seq<u8>)>,
    entries: Seq<VersionGlyphView>,
    version: VersionView,
    next: u64,
    glyphs: Seq<GlyphView>,
    variants: Seq<GlyphView>,
)
    requires
        generation_advanced_with(
            before,
            after,
            font_id,
            font,
            turn,
            candidates,
            raw,
            entries,
            version,
            next,
            glyphs,
            variants,
        ),
        all_linked(before),
    ensures
        all_linked(after),
{
    let record = FontView {
        first_version: font.first_version,
        current_version: version.next_version,
        candidates,
    };
    let added = VersionView { next_version: next };
    lemma_version_round_trip(added);
    assert forall|id: u64| #[trigger] linked(after, id) by {
        lemma_other_fonts_stay(before.fonts, font_id, record, id);
        if id != font_id {
            assert(linked(before, id));
            match before.font(id) {
                Some(Ok(found)) => {
                    lemma_version_stays(
                        before.versions,
                        version.next_version,
                        added,
                        found.current_version,
                    );
                },
                _ => {},
            }
        }
    }
}

/// A test and a time leave every font with its current version.
pub proof fn lemma_tests_keep_linked(
    state: StateView,
    font_id: u64,
    user: u64,
    candidates: Seq<u64>,
    new_time: u64,
)
    requires
        all_linked(state),
    ensures
        all_linked(assigned(state, font_id, user, candidates)),
        all_linked(submitted(state, user, new_time).0),
{
    let shown = assigned(state, font_id, user, candidates);
    assert forall|id: u64| #[trigger] linked(shown, id) by {
        assert(linked(state, id));
    }
    let timed = submitted(state, user, new_time).0;
    assert(timed.fonts == state.fonts && timed.versions == state.versions);
    assert forall|id: u64| #[trigger] linked(timed, id) by {
        assert(linked(state, id));
    }
}

/// The current version of the font under `id`, where the font is there.
pub open spec fn current_of(state: StateView, id: u64) -> Option<u64> {
    match state.font(id) {
        Some(Ok(font)) => Some(font.current_version),
        _ => None,
    }
}

/// The version that the version under `id` names as its next, where the
/// version is there.
pub open spec fn next_of(state: StateView, id: u64) -> Option<u64> {
    match state.version(id) {
        Some(Ok(version)) => Some(version.next_version),
        _ => None,
    }
}

/// Whether the version after the current one of the font under `id` is yet
/// to be stored.
pub open spec fn head_open(state: StateView, id: u64) -> bool {
    match current_of(state, id) {
        Some(current) => match next_of(state, current) {
            Some(next) => state.version(next) is None,
            None => true,
        },
        None => true,
    }
}

/// Whether the fonts under `a` and `b`, if they are two, have current
/// versions of their own.
pub open spec fn currents_apart(state: StateView, a: u64, b: u64) -> bool {
    a != b && current_of(state, a) is Some ==> current_of(state, a) != current_of(state, b)
}

/// Whether the versions under `a` and `b`, if they are two, name next
/// versions of their own.
pub open spec fn nexts_apart(state: StateView, a: u64, b: u64) -> bool {
    a != b && next_of(state, a) is Some ==> next_of(state, a) != next_of(state, b)
}

/// Whether what is held under `key` is held by a version that is stored.
pub open spec fn under_stored(state: StateView, key: VersionGlyphKeyView) -> bool {
    state.version_glyph(key) is Some ==> state.version(key.font_version) is Some
}

/// Whether the versions form chains of their own, one for each font, each
/// ending in the font's current version: the version after it is set aside
/// but not stored, no two fonts share a current version, no two versions
/// name the same next one, and entries stand under stored versions only.
pub open spec fn chained(state: StateView) -> bool {
    &&& forall|id: u64| #[trigger] head_open(state, id)
    &&& forall|a: u64, b: u64| #[trigger] currents_apart(state, a, b)
    &&& forall|a: u64, b: u64| #[trigger] nexts_apart(state, a, b)
    &&& forall|key: VersionGlyphKeyView| #[trigger] under_stored(state, key)
}

/// Whether the store is as the engine leaves it: well kept, every font with
/// its current version, the entries matching, the versions chained.
///
/// An empty store is in order. Nothing says that a store is in order when
/// it is opened; the laws say that each operation of the engine takes a
/// store in order to a store in order.
pub open spec fn in_order(state: StateView) -> bool {
    &&& well_kept(state)
    &&& all_linked(state)
    &&& scores_match(state)
    &&& chained(state)
}

/// A store that holds nothing is in order, whatever it has given out.
pub proof fn lemma_empty_in_order(state: StateView)
    requires
        state.versions == Map::<Seq<u8>, Seq<u8>>::empty(),
        state.fonts == Map::<Seq<u8>, Seq<u8>>::empty(),
        state.glyphs == Map::<Seq<u8>, Seq<u8>>::empty(),
        state.scores == Map::<Seq<u8>, Seq<u8>>::empty(),
    ensures
        in_order(state),
{
    assert forall|id: u64| #[trigger] next_issued(state, id) by {}
    assert forall|id: u64| #[trigger] current_issued(state, id) by {}
    assert forall|id: u64| #[trigger] linked(state, id) by {}
    assert forall|id: u64| #[trigger] head_open(state, id) by {}
    assert forall|a: u64, b: u64| #[trigger] currents_apart(state, a, b) by {}
    assert forall|a: u64, b: u64| #[trigger] nexts_apart(state, a, b) by {}
    assert forall|key: VersionGlyphKeyView| #[trigger] under_stored(state, key) by {}
}

/// In a store in order, the version after a font's current one holds
/// nothing.
pub proof fn lemma_next_holds_nothing(state: StateView, font_id: u64)
    requires
        in_order(state),
        current_of(state, font_id) is Some,
        next_of(state, current_of(state, font_id)->0) is Some,
    ensures
        holds_nothing(state, next_of(state, current_of(state, font_id)->0)->0),
        state.version(next_of(state, current_of(state, font_id)->0)->0) is None,
{
    let next = next_of(state, current_of(state, font_id)->0)->0;
    assert(head_open(state, font_id));
    assert forall|key: VersionGlyphKeyView| key.font_version == next implies (
    #[trigger] state.version_glyph(key)) is None by {
        assert(under_stored(state, key));
    }
}

/// A test and a time take a store in order to a store in order.
pub proof fn lemma_tests_keep_order(
    state: StateView,
    font_id: u64,
    user: u64,
    candidates: Seq<u64>,
    new_time: u64,
)
    requires
        in_order(state),
    ensures
        in_order(assigned(state, font_id, user, candidates)),
        in_order(submitted(state, user, new_time).0),
{
    lemma_tests_keep_well(state, font_id, user, candidates, new_time);
    lemma_tests_keep_linked(state, font_id, user, candidates, new_time);
    lemma_submitted_keeps_match(state, user, new_time);
    let shown = assigned(state, font_id, user, candidates);
    assert(shown.scores == state.scores && shown.fonts == state.fonts && shown.versions
        == state.versions && shown.glyphs == state.glyphs);
    assert forall|bytes: Seq<u8>| #[trigger] shown.scores.contains_key(bytes) implies is_matching_key(
        shown,
        bytes,
    ) by {
        assert(is_matching_key(state, bytes));
        let key = choose|key: VersionGlyphKeyView|
            bytes == #[trigger] key_wire(key) && entry_matches(state, key);
        assert(entry_matches(shown, key));
    }
    assert forall|id: u64| #[trigger] head_open(shown, id) by {
        assert(head_open(state, id));
    }
    assert forall|a: u64, b: u64| #[trigger] currents_apart(shown, a, b) by {
        assert(currents_apart(state, a, b));
    }
    assert forall|a: u64, b: u64| #[trigger] nexts_apart(shown, a, b) by {
        assert(nexts_apart(state, a, b));
    }
    assert forall|key: VersionGlyphKeyView| #[trigger] under_stored(shown, key) by {
        assert(under_stored(state, key));
    }
    let timed = submitted(state, user, new_time).0;
    assert(timed.fonts == state.fonts && timed.versions == state.versions);
    assert forall|id: u64| #[trigger] head_open(timed, id) by {
        assert(head_open(state, id));
    }
    assert forall|a: u64, b: u64| #[trigger] currents_apart(timed, a, b) by {
        assert(currents_apart(state, a, b));
    }
    assert forall|a: u64, b: u64| #[trigger] nexts_apart(timed, a, b) by {
        assert(nexts_apart(state, a, b));
    }
    assert forall|key: VersionGlyphKeyView| #[trigger] under_stored(timed, key) by {
        assert(under_stored(state, key));
        if timed.version_glyph(key) != state.version_glyph(key) {
            match state.test_of(user) {
                Some(Ok(test)) => match state.font(test.font) {
                    Some(Ok(font)) => match state.glyph_char(test.glyph) {
                        Ok(char) => {
                            let stored = VersionGlyphKeyView {
                                font_version: font.current_version,
                                char,
                            };
                            if key_wire(key) == key_wire(stored) {
                                lemma_key_round_trip(key);
                                lemma_key_round_trip(stored);
                            }
                            assert(linked(state, test.font));
                        },
                        Err(_) => {},
                    },
                    _ => {},
                },
                _ => {},
            }
        }
    }
}

/// A new font takes a store in order to a store in order.
#[verifier::rlimit(80)]
pub proof fn lemma_added_keeps_order<F: Fn(u32) -> u32>(
    before: StateView,
    after: StateView,
    glyphs: Seq<GlyphView>,
    font: u64,
    turn: F,
    version: u64,
    next: u64,
    ids: Seq<u64>,
    variants: Seq<GlyphView>,
    candidates: Seq<u64>,
)
    requires
        font_added_with(before, after, glyphs, font, turn, version, next, ids, variants, candidates),
        in_order(before),
    ensures
        in_order(after),
{
    lemma_added_keeps_well(before, after, glyphs, font, turn, version, next, ids, variants, candidates);
    lemma_added_keeps_linked(before, after, glyphs, font, turn, version, next, ids, variants, candidates);
    lemma_added_keeps_match(before, after, glyphs, font, turn, version, next, ids, variants, candidates);
    let record = VersionView { next_version: next };
    let font_record = FontView { first_version: version, current_version: version, candidates };
    lemma_version_round_trip(record);
    lemma_font_round_trip(font_record);
    assert(after.version(version) == Some(Ok::<VersionView, CodecError>(record)));
    assert(after.font(font) == Some(Ok::<FontView, CodecError>(font_record)));
    let all = font_ids(font, version, next, ids, candidates);
    let n = ids.len() as int;
    assert(all[0] == version && all[n + 1] == next);
    assert(newer(before.issued, all[0]) && newer(before.issued, all[n + 1]));
    assert forall|id: u64| #[trigger] head_open(after, id) by {
        if id != font {
            assert(head_open(before, id));
            assert(current_issued(before, id));
            match current_of(before, id) {
                Some(current) => {
                    assert(next_issued(before, current));
                },
                None => {},
            }
        }
    }
    assert forall|a: u64, b: u64| #[trigger] currents_apart(after, a, b) by {
        assert(currents_apart(before, a, b));
        assert(current_issued(before, a));
        assert(current_issued(before, b));
    }
    assert forall|a: u64, b: u64| #[trigger] nexts_apart(after, a, b) by {
        assert(nexts_apart(before, a, b));
        assert(next_issued(before, a));
        assert(next_issued(before, b));
    }
    let keys = version_keys(version, chars_of(glyphs));
    let values = wires_of::<VersionGlyph>(fresh_entries(ids));
    assert forall|key: VersionGlyphKeyView| #[trigger] under_stored(after, key) by {
        assert(under_stored(before, key));
        lemma_put_each_origin(before.scores, keys, values, key_wire(key));
        if entry_at(after.scores, key_wire(key)) != entry_at(before.scores, key_wire(key)) {
            let i = choose|i: int| 0 <= i < keys.len() && #[trigger] keys[i] == key_wire(key);
            lemma_key_round_trip(key);
            lemma_key_round_trip(
                VersionGlyphKeyView { font_version: version, char: chars_of(glyphs)[i] },
            );
        } else if key.font_version != version {
            assert(after.version(key.font_version) == before.version(key.font_version));
        }
    }
}

/// A next generation takes a store in order to a store in order.
#[verifier::rlimit(80)]
pub proof fn lemma_advanced_keeps_order<F: Fn(u32) -> u32>(
    before: StateView,
    after: StateView,
    font_id: u64,
    font: FontView,
    turn: F,
    candidates: Seq<u64>,
    raw: Seq<(Seq<u8>, Seq<u8>)>,
    entries: Seq<VersionGlyphView>,
    version: VersionView,
    next: u64,
    glyphs: Seq<GlyphView>,
    variants: Seq<GlyphView>,
)
    requires
        generation_advanced_with(
            before,
            after,
            font_id,
            font,
            turn,
            candidates,
            raw,
            entries,
            version,
            next,
            glyphs,
            variants,
        ),
        before.font(font_id) == Some(Ok::<FontView, CodecError>(font)),
        in_order(before),
    ensures
        in_order(after),
{
    lemma_advanced_keeps_well(
        before,
        after,
        font_id,
        font,
        turn,
        candidates,
        raw,
        entries,
        version,
        next,
        glyphs,
        variants,
    );
    lemma_advanced_keeps_linked(
        before,
        after,
        font_id,
        font,
        turn,
        candidates,
        raw,
        entries,
        version,
        next,
        glyphs,
        variants,
    );
    lemma_advanced_keeps_match(
        before,
        after,
        font_id,
        font,
        turn,
        candidates,
        raw,
        entries,
        version,
        next,
        glyphs,
        variants,
    );
    let old_version = font.current_version;
    let new_version = version.next_version;
    let record = VersionView { next_version: next };
    let font_record = FontView {
        first_version: font.first_version,
        current_version: new_version,
        candidates,
    };
    lemma_version_round_trip(record);
    lemma_font_round_trip(font_record);
    assert(after.version(new_version) == Some(Ok::<VersionView, CodecError>(record)));
    assert(after.font(font_id) == Some(Ok::<FontView, CodecError>(font_record)));
    assert(head_open(before, font_id));
    assert(before.version(new_version) is None);
    let taken = seq![next] + candidates;
    assert(taken[0] == next);
    assert(newer(before.issued, taken[0]));
    assert forall|id: u64| #[trigger] head_open(after, id) by {
        if id != font_id {
            assert(head_open(before, id));
            assert(linked(before, id));
            assert(currents_apart(before, id, font_id));
            match current_of(before, id) {
                Some(current) => {
                    assert(nexts_apart(before, current, old_version));
                    assert(next_issued(before, current));
                },
                None => {},
            }
        }
    }
    assert forall|a: u64, b: u64| #[trigger] currents_apart(after, a, b) by {
        assert(currents_apart(before, a, b));
        assert(linked(before, a));
        assert(linked(before, b));
    }
    assert forall|a: u64, b: u64| #[trigger] nexts_apart(after, a, b) by {
        assert(nexts_apart(before, a, b));
        assert(next_issued(before, a));
        assert(next_issued(before, b));
    }
    let keys = version_keys(new_version, chars_of(glyphs));
    let values = wires_of::<VersionGlyph>(entries);
    assert forall|key: VersionGlyphKeyView| #[trigger] under_stored(after, key) by {
        assert(under_stored(before, key));
        lemma_put_each_origin(before.scores, keys, values, key_wire(key));
        if entry_at(after.scores, key_wire(key)) != entry_at(before.scores, key_wire(key)) {
            let i = choose|i: int| 0 <= i < keys.len() && #[trigger] keys[i] == key_wire(key);
            lemma_key_round_trip(key);
            lemma_key_round_trip(
                VersionGlyphKeyView { font_version: new_version, char: chars_of(glyphs)[i] },
            );
        } else if key.font_version != new_version {
            assert(after.version(key.font_version) == before.version(key.font_version));
        }
    }
}

/// In a store in order, the first version of a new font holds exactly the
/// glyphs of the font.
///
/// It holds an entry under the characters of the glyphs and under no other:
/// under each one of the glyphs that draw the character, without a score.
/// What every other version holds is as it was.
pub proof fn lemma_font_added_exact<F: Fn(u32) -> u32>(
    before: StateView,
    after: StateView,
    glyphs: Seq<GlyphView>,
    font: u64,
    turn: F,
    version: u64,
    next: u64,
    ids: Seq<u64>,
    variants: Seq<GlyphView>,
    candidates: Seq<u64>,
)
    requires
        font_added_with(before, after, glyphs, font, turn, version, next, ids, variants, candidates),
        in_order(before),
    ensures
        holds_nothing(before, version),
        forall|key: VersionGlyphKeyView|
            key.font_version == version && (#[trigger] after.version_glyph(key)) is Some
                ==> exists|i: int|
                0 <= i < glyphs.len() && (#[trigger] glyphs[i]).char == key.char
                    && after.version_glyph(key) == Some(
                    Ok::<VersionGlyphView, CodecError>(
                        VersionGlyphView { glyph: ids[i], score: None },
                    ),
                ),
        forall|i: int|
            0 <= i < glyphs.len() ==> after.version_glyph(
                VersionGlyphKeyView { font_version: version, char: (#[trigger] glyphs[i]).char },
            ) is Some,
        forall|key: VersionGlyphKeyView|
            key.font_version != version ==> #[trigger] after.version_glyph(key)
                == before.version_glyph(key),
{
    let all = font_ids(font, version, next, ids, candidates);
    assert(all[0] == version);
    assert(newer(before.issued, all[0]));
    lemma_new_id_is_free(before, version);
    assert forall|key: VersionGlyphKeyView| key.font_version == version implies (
    #[trigger] before.version_glyph(key)) is None by {
        assert(under_stored(before, key));
    }
    let chars = chars_of(glyphs);
    let keys = version_keys(version, chars);
    let entries = fresh_entries(ids);
    let values = wires_of::<VersionGlyph>(entries);
    assert forall|key: VersionGlyphKeyView|
        key.font_version == version && (#[trigger] after.version_glyph(key))
            is Some implies exists|i: int|
        0 <= i < glyphs.len() && (#[trigger] glyphs[i]).char == key.char && after.version_glyph(key)
            == Some(
            Ok::<VersionGlyphView, CodecError>(VersionGlyphView { glyph: ids[i], score: None }),
        ) by {
        lemma_put_each_origin(before.scores, keys, values, key_wire(key));
        assert(before.version_glyph(key) is None);
        let i = choose|i: int|
            0 <= i < keys.len() && #[trigger] keys[i] == key_wire(key) && entry_at(
                after.scores,
                key_wire(key),
            ) == Some(values[i]);
        lemma_key_round_trip(key);
        lemma_key_round_trip(VersionGlyphKeyView { font_version: version, char: chars[i] });
        lemma_version_glyph_round_trip(entries[i]);
        assert(glyphs[i].char == key.char);
    }
    assert forall|i: int| 0 <= i < glyphs.len() implies after.version_glyph(
        VersionGlyphKeyView { font_version: version, char: (#[trigger] glyphs[i]).char },
    ) is Some by {
        let key = VersionGlyphKeyView { font_version: version, char: glyphs[i].char };
        lemma_put_each_keeps_keys(before.scores, keys, values, i);
        assert(keys[i] == key_wire(key));
    }
    assert forall|key: VersionGlyphKeyView|
        key.font_version != version implies #[trigger] after.version_glyph(key)
        == before.version_glyph(key) by {
        lemma_put_each_origin(before.scores, keys, values, key_wire(key));
        if entry_at(after.scores, key_wire(key)) != entry_at(before.scores, key_wire(key)) {
            let i = choose|i: int| 0 <= i < keys.len() && #[trigger] keys[i] == key_wire(key);
            lemma_key_round_trip(key);
            lemma_key_round_trip(VersionGlyphKeyView { font_version: version, char: chars[i] });
        }
    }
}

/// What was stored under a key is under a key afterwards.
pub proof fn lemma_put_each_keeps_keys(
    table: Map<Seq<u8>, Seq<u8>>,
    keys: Seq<Seq<u8>>,
    values: Seq<Seq<u8>>,
    i: int,
)
    requires
        keys.len() == values.len(),
        0 <= i < keys.len(),
    ensures
        put_each(table, keys, values).contains_key(keys[i]),
    decreases keys.len(),
{
    if i < keys.len() - 1 {
        lemma_put_each_keeps_keys(table, keys.drop_last(), values.drop_last(), i);
        assert(keys.drop_last()[i] == keys[i]);
    }
}

/// Adding a font takes a store in order to a store in order.
pub proof fn lemma_add_font_keeps_order<F: Fn(u32) -> u32>(
    before: StateView,
    after: StateView,
    glyphs: Seq<GlyphView>,
    font: u64,
    turn: F,
)
    requires
        font_added(before, after, glyphs, font, turn),
        in_order(before),
    ensures
        in_order(after),
{
    let (version, next, ids, variants, candidates) = choose|
        version: u64,
        next: u64,
        ids: Seq<u64>,
        variants: Seq<GlyphView>,
        candidates: Seq<u64>,
    | #[trigger]
        font_added_with(before, after, glyphs, font, turn, version, next, ids, variants, candidates);
    lemma_added_keeps_order(before, after, glyphs, font, turn, version, next, ids, variants, candidates);
}

/// Giving out a test, with the next generation where it takes one, takes a
/// store in order to a store in order.
pub proof fn lemma_add_next_test_keeps_order<F: Fn(u32) -> u32>(
    before: StateView,
    after: StateView,
    font_id: u64,
    user: u64,
    turn: F,
)
    requires
        test_assigned(before, after, font_id, user, turn),
        in_order(before),
    ensures
        in_order(after),
{
    match before.font(font_id) {
        Some(Ok(font)) => {
            if font.candidates.len() > 0 {
                lemma_tests_keep_order(before, font_id, user, font.candidates, 0);
            } else {
                let (mid, candidates) = choose|mid: StateView, candidates: Seq<u64>|
                    {
                        &&& #[trigger] generation_advanced(
                            before,
                            mid,
                            font_id,
                            font,
                            turn,
                            candidates,
                        )
                        &&& after == assigned(mid, font_id, user, candidates)
                    };
                let (raw, entries, version, next, glyphs, variants) = choose|
                    raw: Seq<(Seq<u8>, Seq<u8>)>,
                    entries: Seq<VersionGlyphView>,
                    version: VersionView,
                    next: u64,
                    glyphs: Seq<GlyphView>,
                    variants: Seq<GlyphView>,
                | #[trigger]
                    generation_advanced_with(
                        before,
                        mid,
                        font_id,
                        font,
                        turn,
                        candidates,
                        raw,
                        entries,
                        version,
                        next,
                        glyphs,
                        variants,
                    );
                lemma_advanced_keeps_order(
                    before,
                    mid,
                    font_id,
                    font,
                    turn,
                    candidates,
                    raw,
                    entries,
                    version,
                    next,
                    glyphs,
                    variants,
                );
                lemma_tests_keep_order(mid, font_id, user, candidates, 0);
            }
        },
        _ => {},
    }
}

/// In a store in order, a next generation holds exactly what the one before
/// it holds, character by character.
///
/// The next version holds an entry under the characters of the current
/// version and under no other: under each the entry that the current
/// version holds there, glyph and score as they are. It held nothing
/// before. What the current version and every other version hold is as it
/// was.
pub proof fn lemma_generation_exact<F: Fn(u32) -> u32>(
    before: StateView,
    after: StateView,
    font_id: u64,
    font: FontView,
    turn: F,
    candidates: Seq<u64>,
    raw: Seq<(Seq<u8>, Seq<u8>)>,
    entries: Seq<VersionGlyphView>,
    version: VersionView,
    next: u64,
    glyphs: Seq<GlyphView>,
    variants: Seq<GlyphView>,
)
    requires
        generation_advanced_with(
            before,
            after,
            font_id,
            font,
            turn,
            candidates,
            raw,
            entries,
            version,
            next,
            glyphs,
            variants,
        ),
        before.font(font_id) == Some(Ok::<FontView, CodecError>(font)),
        in_order(before),
    ensures
        holds_nothing(before, version.next_version),
        forall|key: VersionGlyphKeyView|
            key.font_version == version.next_version ==> #[trigger] after.version_glyph(key)
                == before.version_glyph(
                VersionGlyphKeyView { font_version: font.current_version, char: key.char },
            ),
        forall|key: VersionGlyphKeyView|
            key.font_version != version.next_version ==> #[trigger] after.version_glyph(key)
                == before.version_glyph(key),
        candidates.len() == entries.len(),
{
    lemma_next_holds_nothing(before, font_id);
    lemma_generation_by_character(
        before,
        after,
        font_id,
        font,
        turn,
        candidates,
        raw,
        entries,
        version,
        next,
        glyphs,
        variants,
    );
    assert forall|key: VersionGlyphKeyView|
        key.font_version == version.next_version implies #[trigger] after.version_glyph(key)
        == before.version_glyph(
        VersionGlyphKeyView { font_version: font.current_version, char: key.char },
    ) by {
        let old_key = VersionGlyphKeyView { font_version: font.current_version, char: key.char };
        if after.version_glyph(key) is Some {
            let i = choose|i: int| 0 <= i < glyphs.len() && (#[trigger] glyphs[i]).char == key.char;
            assert(key == VersionGlyphKeyView {
                font_version: version.next_version,
                char: glyphs[i].char,
            });
            assert(after.version_glyph(key) == Some(
                Ok::<VersionGlyphView, CodecError>(entries[i]),
            ));
            assert(before.version_glyph(old_key) == Some(
                Ok::<VersionGlyphView, CodecError>(entries[i]),
            ));
        } else if before.version_glyph(old_key) is Some {
            let i = choose|i: int| 0 <= i < glyphs.len() && (#[trigger] glyphs[i]).char == key.char;
            assert(key == VersionGlyphKeyView {
                font_version: version.next_version,
                char: glyphs[i].char,
            });
            assert(after.version_glyph(key) == Some(
                Ok::<VersionGlyphView, CodecError>(entries[i]),
            ));
        }
    }
}

/// Whether no character stands twice among `glyphs`.
pub open spec fn distinct_chars(glyphs: Seq<GlyphView>) -> bool {
    forall|i: int, j: int| 0 <= i < j < glyphs.len() ==> glyphs[i].char != glyphs[j].char
}

/// The identifiers of a new font differ from each other.
pub proof fn lemma_font_ids_apart(
    font: u64,
    version: u64,
    next: u64,
    ids: Seq<u64>,
    candidates: Seq<u64>,
)
    requires
        ascending(font_ids(font, version, next, ids, candidates)),
    ensures
        distinct(ids),
        distinct(candidates),
        distinct(ids + candidates),
        version != next,
        version != font,
        next != font,
        forall|i: int| 0 <= i < ids.len() ==> ids[i] != version && ids[i] != next && ids[i] != font,
        forall|i: int|
            0 <= i < candidates.len() ==> candidates[i] != version && candidates[i] != next
                && candidates[i] != font,
{
    let all = font_ids(font, version, next, ids, candidates);
    let n = ids.len() as int;
    let m = candidates.len() as int;
    assert(all[0] == version);
    assert(all[n + 1] == next);
    assert(all[n + m + 2] == font);
    assert forall|i: int| 0 <= i < n implies #[trigger] all[i + 1] == ids[i] by {}
    assert forall|i: int| 0 <= i < m implies #[trigger] all[n + 2 + i] == candidates[i] by {}
    assert forall|a: int, b: int| 0 <= a < b < n implies ids[a] != ids[b] by {
        assert(all[a + 1] < all[b + 1]);
    }
    assert forall|a: int, b: int| 0 <= a < b < m implies candidates[a] != candidates[b] by {
        assert(all[n + 2 + a] < all[n + 2 + b]);
    }
    assert forall|a: int, b: int| 0 <= a < b < n + m implies (ids + candidates)[a] != (ids
        + candidates)[b] by {
        let x = if a < n { a + 1 } else { a + 2 };
        let y = if b < n { b + 1 } else { b + 2 };
        assert(all[x] < all[y]);
    }
    assert forall|i: int| 0 <= i < n implies ids[i] != version && ids[i] != next && ids[i]
        != font by {
        assert(all[0] < all[i + 1] && all[i + 1] < all[n + 1] && all[i + 1] < all[n + m + 2]);
    }
    assert forall|i: int| 0 <= i < m implies candidates[i] != version && candidates[i] != next
        && candidates[i] != font by {
        assert(all[0] < all[n + 2 + i] && all[n + 1] < all[n + 2 + i] && all[n + 2 + i] < all[n
            + m + 2]);
    }
    assert(all[0] < all[n + 1] && all[n + 1] < all[n + m + 2]);
}

/// A new font is found as it was added.
///
/// Where the glyphs draw different characters: the font's record names the
/// first version twice and holds the candidates; the version is there; it
/// holds each glyph under its character, without a score; each glyph and
/// each variant is stored under its identifier.
#[verifier::rlimit(60)]
pub proof fn lemma_font_added_found<F: Fn(u32) -> u32>(
    before: StateView,
    after: StateView,
    glyphs: Seq<GlyphView>,
    font: u64,
    turn: F,
    version: u64,
    next: u64,
    ids: Seq<u64>,
    variants: Seq<GlyphView>,
    candidates: Seq<u64>,
)
    requires
        font_added_with(before, after, glyphs, font, turn, version, next, ids, variants, candidates),
        distinct_chars(glyphs),
    ensures
        after.font(font) == Some(
            Ok::<FontView, CodecError>(
                FontView { first_version: version, current_version: version, candidates },
            ),
        ),
        after.version(version) == Some(
            Ok::<VersionView, CodecError>(VersionView { next_version: next }),
        ),
        forall|i: int|
            0 <= i < glyphs.len() ==> after.version_glyph(
                VersionGlyphKeyView { font_version: version, char: (#[trigger] glyphs[i]).char },
            ) == Some(
                Ok::<VersionGlyphView, CodecError>(VersionGlyphView { glyph: ids[i], score: None }),
            ),
        forall|i: int|
            0 <= i < glyphs.len() ==> after.glyph(#[trigger] ids[i]) == Some(
                Ok::<GlyphView, CodecError>(glyphs[i]),
            ),
        forall|i: int|
            0 <= i < variants.len() ==> after.glyph(#[trigger] candidates[i]) == Some(
                Ok::<GlyphView, CodecError>(variants[i]),
            ),
{
    lemma_font_round_trip(
        FontView { first_version: version, current_version: version, candidates },
    );
    lemma_version_round_trip(VersionView { next_version: next });
    let chars = chars_of(glyphs);
    let keys = version_keys(version, chars);
    let entries = fresh_entries(ids);
    let values = wires_of::<VersionGlyph>(entries);
    assert forall|i: int, j: int| 0 <= i < j < keys.len() implies keys[i] != keys[j] by {
        lemma_key_round_trip(VersionGlyphKeyView { font_version: version, char: chars[i] });
        lemma_key_round_trip(VersionGlyphKeyView { font_version: version, char: chars[j] });
        assert(glyphs[i].char != glyphs[j].char);
    }
    lemma_put_each_found(before.scores, keys, values);
    assert forall|i: int| 0 <= i < glyphs.len() implies after.version_glyph(
        VersionGlyphKeyView { font_version: version, char: (#[trigger] glyphs[i]).char },
    ) == Some(
        Ok::<VersionGlyphView, CodecError>(VersionGlyphView { glyph: ids[i], score: None }),
    ) by {
        assert(keys[i] == key_wire(
            VersionGlyphKeyView { font_version: version, char: glyphs[i].char },
        ));
        assert(entry_at(after.scores, keys[i]) == Some(values[i]));
        lemma_version_glyph_round_trip(entries[i]);
    }
    let all = ids + candidates;
    let id_keys = wires_of::<Id<Glyph>>(ids);
    let candidate_keys = wires_of::<Id<Glyph>>(candidates);
    let first = put_each(before.glyphs, id_keys, wires_of::<Glyph>(glyphs));
    lemma_font_ids_apart(font, version, next, ids, candidates);
    lemma_id_keys_distinct(ids);
    lemma_id_keys_distinct(candidates);
    lemma_put_each_found(before.glyphs, id_keys, wires_of::<Glyph>(glyphs));
    lemma_put_each_found(first, candidate_keys, wires_of::<Glyph>(variants));
    assert forall|i: int| 0 <= i < variants.len() implies after.glyph(#[trigger] candidates[i])
        == Some(Ok::<GlyphView, CodecError>(variants[i])) by {
        assert(candidate_keys[i] == be_u64(candidates[i]));
        assert(entry_at(after.glyphs, candidate_keys[i]) == Some(
            wires_of::<Glyph>(variants)[i],
        ));
        Glyph::lemma_round_trip(variants[i]);
    }
    assert forall|i: int| 0 <= i < glyphs.len() implies after.glyph(#[trigger] ids[i]) == Some(
        Ok::<GlyphView, CodecError>(glyphs[i]),
    ) by {
        assert(id_keys[i] == be_u64(ids[i]));
        assert forall|k: int| 0 <= k < candidate_keys.len() implies candidate_keys[k]
            != id_keys[i] by {
            assert(all[i] == ids[i] && all[ids.len() + k] == candidates[k]);
            if candidate_keys[k] == id_keys[i] {
                lemma_be_u64_injective(candidates[k], ids[i]);
            }
        }
        assert(!candidate_keys.contains(id_keys[i]));
        assert(entry_at(after.glyphs, id_keys[i]) == entry_at(first, id_keys[i]));
        assert(entry_at(first, id_keys[i]) == Some(wires_of::<Glyph>(glyphs)[i]));
        Glyph::lemma_round_trip(glyphs[i]);
    }
}

/// The user who was given a test has it.
pub proof fn lemma_assigned_found(state: StateView, font_id: u64, user: u64, candidates: Seq<u64>)
    requires
        candidates.len() > 0,
    ensures
        assigned(state, font_id, user, candidates).test_of(user) == Some(
            Ok::<ActiveTestView, CodecError>(ActiveTestView { font: font_id, glyph: candidates[0] }),
        ),
        assigned(state, font_id, user, candidates).test_glyph(user) == match state.glyph(
            candidates[0],
        ) {
            None => Err::<Option<GlyphView>, ErrorView>(missing(glyph_label())),
            Some(Err(c)) => Err::<Option<GlyphView>, ErrorView>(unreadable(c)),
            Some(Ok(glyph)) => Ok::<Option<GlyphView>, ErrorView>(Some(glyph)),
        },
{
    lemma_active_test_round_trip(ActiveTestView { font: font_id, glyph: candidates[0] });
}

/// The first test of a new font shows its first candidate, which draws one
/// of the font's characters.
///
/// Where the glyphs of the font draw different characters and there is one
/// at least: the user is given the first candidate, the candidates stay as
/// they are, and the glyph on show is a variant of one of the glyphs.
#[verifier::rlimit(60)]
pub proof fn lemma_first_test<F: Fn(u32) -> u32>(
    start: StateView,
    added: StateView,
    shown: StateView,
    glyphs: Seq<GlyphView>,
    font: u64,
    user: u64,
    turn: F,
    version: u64,
    next: u64,
    ids: Seq<u64>,
    variants: Seq<GlyphView>,
    candidates: Seq<u64>,
) -> (j: int)
    requires
        font_added_with(start, added, glyphs, font, turn, version, next, ids, variants, candidates),
        distinct_chars(glyphs),
        glyphs.len() > 0,
        test_assigned(added, shown, font, user, turn),
    ensures
        shown == added.with_test(user, ActiveTestView { font, glyph: candidates[0] }),
        shown.test_glyph(user) == Ok::<Option<GlyphView>, ErrorView>(Some(variants[0])),
        0 <= j < glyphs.len(),
        variants[0].char == glyphs[j].char,
{
    lemma_font_added_found(start, added, glyphs, font, turn, version, next, ids, variants, candidates);
    lemma_assigned_found(added, font, user, candidates);
    lemma_shuffled_variant_of(glyphs, variants, turn, 0)
}

/// A submitted time leaves the better score behind.
///
/// Where a user's test, its font and its glyph are there, the score that is
/// stored afterwards for the glyph's character in the font's current version
/// is the one that `retained` picks between the score before and the new
/// time, and the user has no test any more.
pub proof fn lemma_submitted_score(
    state: StateView,
    user: u64,
    new_time: u64,
    test: ActiveTestView,
    font: FontView,
    glyph: GlyphView,
)
    requires
        state.test_of(user) == Some(Ok::<ActiveTestView, CodecError>(test)),
        state.font(test.font) == Some(Ok::<FontView, CodecError>(font)),
        state.glyph(test.glyph) == Some(Ok::<GlyphView, CodecError>(glyph)),
        !(state.version_glyph(
            VersionGlyphKeyView { font_version: font.current_version, char: glyph.char },
        ) matches Some(Err(_))),
    ensures
        submitted(state, user, new_time).1 is Ok,
        submitted(state, user, new_time).0.test_of(user) is None,
        score_of(
            submitted(state, user, new_time).0.version_glyph(
                VersionGlyphKeyView { font_version: font.current_version, char: glyph.char },
            ),
        ) == Some(
            retained(
                score_of(
                    state.version_glyph(
                        VersionGlyphKeyView {
                            font_version: font.current_version,
                            char: glyph.char,
                        },
                    ),
                ),
                new_time,
                user,
            ),
        ),
{
    let key = VersionGlyphKeyView { font_version: font.current_version, char: glyph.char };
    let found = state.version_glyph(key);
    if !keeps(score_of(found), new_time) {
        lemma_version_glyph_round_trip(
            VersionGlyphView { glyph: test.glyph, score: Some(ScoreView { time: new_time, user }) },
        );
    }
}

/// The first time for a character of a new font is stored as it comes.
///
/// Where the user has been given the first test of a new font whose glyphs
/// draw different characters, a submitted time becomes the score of the
/// shown character in the font's first version, with the shown candidate as
/// its glyph, and the user's test ends.
#[verifier::rlimit(60)]
pub proof fn lemma_first_time<F: Fn(u32) -> u32>(
    start: StateView,
    added: StateView,
    shown: StateView,
    glyphs: Seq<GlyphView>,
    font: u64,
    user: u64,
    turn: F,
    version: u64,
    next: u64,
    ids: Seq<u64>,
    variants: Seq<GlyphView>,
    candidates: Seq<u64>,
    new_time: u64,
)
    requires
        font_added_with(start, added, glyphs, font, turn, version, next, ids, variants, candidates),
        distinct_chars(glyphs),
        glyphs.len() > 0,
        test_assigned(added, shown, font, user, turn),
    ensures
        submitted(shown, user, new_time).1 is Ok,
        submitted(shown, user, new_time).0.test_of(user) is None,
        submitted(shown, user, new_time).0.version_glyph(
            VersionGlyphKeyView { font_version: version, char: variants[0].char },
        ) == Some(
            Ok::<VersionGlyphView, CodecError>(
                VersionGlyphView {
                    glyph: candidates[0],
                    score: Some(ScoreView { time: new_time, user }),
                },
            ),
        ),
{
    let j = lemma_first_test(
        start,
        added,
        shown,
        glyphs,
        font,
        user,
        turn,
        version,
        next,
        ids,
        variants,
        candidates,
    );
    lemma_font_added_found(start, added, glyphs, font, turn, version, next, ids, variants, candidates);
    let key = VersionGlyphKeyView { font_version: version, char: variants[0].char };
    assert(key == VersionGlyphKeyView { font_version: version, char: glyphs[j].char });
    assert(shown.version_glyph(key) == Some(
        Ok::<VersionGlyphView, CodecError>(VersionGlyphView { glyph: ids[j], score: None }),
    ));
    let test = ActiveTestView { font, glyph: candidates[0] };
    lemma_active_test_round_trip(test);
    lemma_version_glyph_round_trip(
        VersionGlyphView { glyph: candidates[0], score: Some(ScoreView { time: new_time, user }) },
    );
}

/// A next generation starts with the scores of the one before it.
///
/// Where the glyphs of a version draw different characters, each entry of
/// the version is found under the next version and the character of its
/// glyph, with the same glyph and the same score or none. The font's record
/// names the next version, which is there, and holds the new candidates.
/// Each candidate is a stored variant, and none is a glyph that the table
/// had given out before.
#[verifier::rlimit(60)]
pub proof fn lemma_generation_keeps_scores<F: Fn(u32) -> u32>(
    before: StateView,
    after: StateView,
    font_id: u64,
    font: FontView,
    turn: F,
    candidates: Seq<u64>,
    raw: Seq<(Seq<u8>, Seq<u8>)>,
    entries: Seq<VersionGlyphView>,
    version: VersionView,
    next: u64,
    glyphs: Seq<GlyphView>,
    variants: Seq<GlyphView>,
)
    requires
        generation_advanced_with(
            before,
            after,
            font_id,
            font,
            turn,
            candidates,
            raw,
            entries,
            version,
            next,
            glyphs,
            variants,
        ),
        distinct_chars(glyphs),
    ensures
        forall|i: int|
            0 <= i < entries.len() ==> after.version_glyph(
                VersionGlyphKeyView {
                    font_version: version.next_version,
                    char: glyphs[i].char,
                },
            ) == Some(Ok::<VersionGlyphView, CodecError>(#[trigger] entries[i])),
        after.font(font_id) == Some(
            Ok::<FontView, CodecError>(
                FontView {
                    first_version: font.first_version,
                    current_version: version.next_version,
                    candidates,
                },
            ),
        ),
        forall|i: int, j: int|
            0 <= i < candidates.len() && 0 <= j < entries.len() && before.issued.contains(
                (#[trigger] entries[j]).glyph,
            ) ==> #[trigger] candidates[i] != entries[j].glyph,
        forall|i: int|
            0 <= i < candidates.len() ==> after.glyph(#[trigger] candidates[i]) == Some(
                Ok::<GlyphView, CodecError>(variants[i]),
            ),
        after.version(version.next_version) == Some(
            Ok::<VersionView, CodecError>(VersionView { next_version: next }),
        ),
{
    lemma_version_round_trip(VersionView { next_version: next });
    let candidate_keys = wires_of::<Id<Glyph>>(candidates);
    let taken = seq![next] + candidates;
    assert forall|i: int| 0 <= i < candidates.len() implies #[trigger] taken[i + 1]
        == candidates[i] by {}
    assert forall|a: int, b: int| 0 <= a < b < candidates.len() implies candidates[a]
        != candidates[b] by {
        assert(taken[a + 1] < taken[b + 1]);
    }
    assert forall|i: int, j: int|
        0 <= i < candidates.len() && 0 <= j < entries.len() && before.issued.contains(
            (#[trigger] entries[j]).glyph,
        ) implies #[trigger] candidates[i] != entries[j].glyph by {
        assert(newer(before.issued, taken[i + 1]));
    }
    lemma_id_keys_distinct(candidates);
    lemma_put_each_found(before.glyphs, candidate_keys, wires_of::<Glyph>(variants));
    assert forall|i: int| 0 <= i < candidates.len() implies after.glyph(#[trigger] candidates[i])
        == Some(Ok::<GlyphView, CodecError>(variants[i])) by {
        assert(candidate_keys[i] == be_u64(candidates[i]));
        assert(entry_at(after.glyphs, candidate_keys[i]) == Some(
            wires_of::<Glyph>(variants)[i],
        ));
        Glyph::lemma_round_trip(variants[i]);
    }
    let chars = chars_of(glyphs);
    let keys = version_keys(version.next_version, chars);
    let values = wires_of::<VersionGlyph>(entries);
    assert forall|i: int, j: int| 0 <= i < j < keys.len() implies keys[i] != keys[j] by {
        let a = VersionGlyphKeyView { font_version: version.next_version, char: chars[i] };
        let b = VersionGlyphKeyView { font_version: version.next_version, char: chars[j] };
        lemma_key_round_trip(a);
        lemma_key_round_trip(b);
        assert(glyphs[i].char != glyphs[j].char);
    }
    lemma_put_each_found(before.scores, keys, values);
    assert forall|i: int| 0 <= i < entries.len() implies after.version_glyph(
        VersionGlyphKeyView { font_version: version.next_version, char: glyphs[i].char },
    ) == Some(Ok::<VersionGlyphView, CodecError>(#[trigger] entries[i])) by {
        assert(keys[i] == key_wire(
            VersionGlyphKeyView { font_version: version.next_version, char: glyphs[i].char },
        ));
        assert(entry_at(after.scores, keys[i]) == Some(values[i]));
        lemma_version_glyph_round_trip(entries[i]);
    }
    lemma_font_round_trip(
        FontView {
            first_version: font.first_version,
            current_version: version.next_version,
            candidates,
        },
    );
}

} // verus!
