//! A test session as it is stored: the font and the glyph on show.

use vstd::prelude::*;
use crate::active_test::{
    active_test_of, active_test_wire, lemma_active_test_round_trip, ActiveTestView,
};
use crate::bytes::{get_u64, put_u64};
use crate::font::Font;
use crate::glyph::Glyph;
use crate::id::Id;
use crate::util::{CodecError, DekuRW};

verus! {

/// The record of the table of test sessions. It has the layout of an active
/// test.
#[derive(Clone, Copy)]
pub struct TestSession {
    pub font: Id<Font>,
    pub glyph: Id<Glyph>,
}

impl View for TestSession {
    type V = ActiveTestView;

    open spec fn view(&self) -> ActiveTestView {
        ActiveTestView { font: self.font@, glyph: self.glyph@ }
    }
}

impl DekuRW for TestSession {
    open spec fn wire(value: ActiveTestView) -> Seq<u8> {
        active_test_wire(value)
    }

    open spec fn parse(bytes: Seq<u8>) -> Result<ActiveTestView, CodecError> {
        active_test_of(bytes)
    }

    open spec fn fits(value: ActiveTestView) -> bool {
        true
    }

    proof fn lemma_round_trip(value: ActiveTestView) {
        lemma_active_test_round_trip(value);
    }

    fn to_bytes(&self) -> (out: Vec<u8>) {
        let mut out: Vec<u8> = Vec::new();
        put_u64(&mut out, self.font.get_inner());
        put_u64(&mut out, self.glyph.get_inner());
        assert(out@ =~= active_test_wire(self@));
        out
    }

    fn read(bytes: &[u8]) -> (r: Result<Self, CodecError>) {
        if bytes.len() < 16 {
            Err(CodecError::Incomplete)
        } else {
            Ok(TestSession { font: Id::new(get_u64(bytes, 0)), glyph: Id::new(get_u64(bytes, 8)) })
        }
    }
}

} // verus!
