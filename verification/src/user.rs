//! User accounts.

use vstd::prelude::*;
use crate::util::{CodecError, DekuRW};

verus! {

/// The length of a stored password hash in bytes.
pub const HASH_LENGTH: usize = 16;

/// A user: the salted hash of the password, then the display name.
pub struct User {
    password_hash: Vec<u8>,
    name: Vec<u8>,
}

/// A user as a plain value.
pub struct UserView {
    pub password_hash: Seq<u8>,
    pub name: Seq<u8>,
}

impl View for User {
    type V = UserView;

    closed spec fn view(&self) -> UserView {
        UserView { password_hash: self.password_hash@, name: self.name@ }
    }
}

/// A user: the hash, then the name to the end of the record.
pub open spec fn user_wire(user: UserView) -> Seq<u8> {
    user.password_hash + user.name
}

/// The user that fills `s`.
pub open spec fn user_of(s: Seq<u8>) -> Result<UserView, CodecError> {
    if s.len() < HASH_LENGTH {
        Err(CodecError::Incomplete)
    } else {
        Ok(
            UserView {
                password_hash: s.subrange(0, HASH_LENGTH as int),
                name: s.subrange(HASH_LENGTH as int, s.len() as int),
            },
        )
    }
}

/// Reading the wire form of a user gives the user again.
pub proof fn lemma_user_round_trip(user: UserView)
    requires
        user.password_hash.len() == HASH_LENGTH,
    ensures
        user_of(user_wire(user)) == Ok::<UserView, CodecError>(user),
{
    let s = user_wire(user);
    assert(s.subrange(0, HASH_LENGTH as int) =~= user.password_hash);
    assert(s.subrange(HASH_LENGTH as int, s.len() as int) =~= user.name);
}

impl User {
    #[verifier::type_invariant]
    spec fn hashed(&self) -> bool {
        self.password_hash@.len() == HASH_LENGTH
    }

    /// The user with the given hash and name, where the hash has the length
    /// of one.
    pub fn new(password_hash: Vec<u8>, name: Vec<u8>) -> (user: Option<User>)
        ensures
            user is Some <==> password_hash@.len() == HASH_LENGTH,
            user matches Some(u) ==> u@ == (UserView {
                password_hash: password_hash@,
                name: name@,
            }),
    {
        if password_hash.len() == HASH_LENGTH {
            Some(User { password_hash, name })
        } else {
            None
        }
    }

    /// The salted hash of the user's password.
    pub fn password_hash(&self) -> (hash: &Vec<u8>)
        ensures
            hash@ == self@.password_hash,
            hash@.len() == HASH_LENGTH,
    {
        proof {
            use_type_invariant(self);
        }
        &self.password_hash
    }

    /// The user's display name.
    pub fn name(&self) -> (name: &Vec<u8>)
        ensures
            name@ == self@.name,
    {
        &self.name
    }
}

/// Appends `bytes[from..to]` to `out`.
fn push_range(out: &mut Vec<u8>, bytes: &[u8], from: usize, to: usize)
    requires
        from <= to <= bytes@.len(),
    ensures
        final(out)@ == old(out)@ + bytes@.subrange(from as int, to as int),
{
    let mut i: usize = from;
    while i < to
        invariant
            from <= i <= to <= bytes@.len(),
            out@ == old(out)@ + bytes@.subrange(from as int, i as int),
        decreases to - i,
    {
        out.push(bytes[i]);
        assert(out@ =~= old(out)@ + bytes@.subrange(from as int, i as int + 1));
        i += 1;
    }
}

impl DekuRW for User {
    open spec fn wire(value: UserView) -> Seq<u8> {
        user_wire(value)
    }

    open spec fn parse(bytes: Seq<u8>) -> Result<UserView, CodecError> {
        user_of(bytes)
    }

    open spec fn fits(value: UserView) -> bool {
        value.password_hash.len() == HASH_LENGTH
    }

    proof fn lemma_round_trip(value: UserView) {
        lemma_user_round_trip(value);
    }

    fn to_bytes(&self) -> (out: Vec<u8>) {
        proof {
            use_type_invariant(self);
        }
        let mut out: Vec<u8> = Vec::new();
        push_range(&mut out, self.password_hash.as_slice(), 0, self.password_hash.len());
        push_range(&mut out, self.name.as_slice(), 0, self.name.len());
        assert(out@ =~= user_wire(self@));
        out
    }

    fn read(bytes: &[u8]) -> (r: Result<Self, CodecError>) {
        if bytes.len() < HASH_LENGTH {
            return Err(CodecError::Incomplete);
        }
        let mut password_hash: Vec<u8> = Vec::new();
        push_range(&mut password_hash, bytes, 0, HASH_LENGTH);
        let mut name: Vec<u8> = Vec::new();
        push_range(&mut name, bytes, HASH_LENGTH, bytes.len());
        let user = User { password_hash, name };
        assert(user@.password_hash =~= bytes@.subrange(0, HASH_LENGTH as int));
        assert(user@.name =~= bytes@.subrange(HASH_LENGTH as int, bytes@.len() as int));
        Ok(user)
    }
}

} // verus!
