//! The test that a user is taking.

use vstd::prelude::*;
use crate::bytes::{be_u64, get_u64, lemma_u64_round_trip, put_u64, u64_at};
use crate::font::Font;
use crate::glyph::Glyph;
use crate::id::Id;
use crate::util::{CodecError, DekuRW};

verus! {

/// A test begins when a glyph is shown to a user, and ends when the user's
/// time comes in. It is stored under the user, so a user has one at most.
#[derive(Clone, Copy)]
pub struct ActiveTest {
    pub font: Id<Font>,
    pub glyph: Id<Glyph>,
}

/// An active test as a plain value.
pub struct ActiveTestView {
    pub font: u64,
    pub glyph: u64,
}

impl View for ActiveTest {
    type V = ActiveTestView;

    open spec fn view(&self) -> ActiveTestView {
        ActiveTestView { font: self.font@, glyph: self.glyph@ }
    }
}

/// An active test: the font, then the glyph.
pub open spec fn active_test_wire(test: ActiveTestView) -> Seq<u8> {
    be_u64(test.font) + be_u64(test.glyph)
}

/// The active test at the front of `s`.
pub open spec fn active_test_of(s: Seq<u8>) -> Result<ActiveTestView, CodecError> {
    if s.len() < 16 {
        Err(CodecError::Incomplete)
    } else {
        Ok(ActiveTestView { font: u64_at(s, 0), glyph: u64_at(s, 8) })
    }
}

/// Reading the wire form of an active test gives the test again.
pub proof fn lemma_active_test_round_trip(test: ActiveTestView)
    ensures
        active_test_of(active_test_wire(test)) == Ok::<ActiveTestView, CodecError>(test),
{
    let s = active_test_wire(test);
    assert(s.subrange(0, 8) =~= be_u64(test.font));
    assert(s.subrange(8, 16) =~= be_u64(test.glyph));
    lemma_u64_round_trip(s, 0, test.font);
    lemma_u64_round_trip(s, 8, test.glyph);
}

impl DekuRW for ActiveTest {
    open spec fn wire(value: ActiveTestView) -> Seq<u8> {
        active_test_wire(value)
    }

    open spec fn parse(bytes: Seq<u8>) -> Result<ActiveTestView, CodecError> {
        active_test_of(bytes)
    }

    open spec fn fits(value: ActiveTestView) -> bool {
        true
    }

    proof fn lemma_round_trip(value: ActiveTestView) {
        lemma_active_test_round_trip(value);
    }

    fn to_bytes(&self) -> (out: Vec<u8>) {
        let mut out: Vec<u8> = Vec::new();
        put_u64(&mut out, self.font.get_inner());
        put_u64(&mut out, self.glyph.get_inner());
        assert(out@ =~= active_test_wire(self@));
        out
    }

    fn read(bytes: &[u8]) -> (r: Result<Self, CodecError>) {
        if bytes.len() < 16 {
            Err(CodecError::Incomplete)
        } else {
            Ok(ActiveTest { font: Id::new(get_u64(bytes, 0)), glyph: Id::new(get_u64(bytes, 8)) })
        }
    }
}

} // verus!
