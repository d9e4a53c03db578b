//! Users, and the check of a password against a stored hash.

use crate::text::bounded_decimal;
use crate::text::cuts_within;
use crate::text::fields;
use crate::text::lemma_fields_nonempty;
use crate::text::pieces;
use crate::text::read_number;
use crate::text::split;
use crate::text::COMMA;
use crate::text::DOLLAR;
use crate::text::EQUALS;
use vstd::prelude::*;

verus! {

/// Whether Argon2 accepts `password` for the hash string `hash`: whether
/// `hash` is a PHC string whose parameters Argon2 takes, and hashing
/// `password` with its salt and parameters gives its output.
pub uninterp spec fn argon2_accepts(hash: Seq<char>, password: Seq<u8>) -> bool;

/// Whether `hash` is a PHC string: whether the hashing library can take it
/// apart into algorithm, version, parameters, salt and output.
pub uninterp spec fn is_phc_string(hash: Seq<char>) -> bool;

/// The most lanes that a hash may ask for: the degree of parallelism of
/// Argon2 ends here.
pub const MAX_LANES: u32 = 0xFF_FFFF;

/// The letter `p`, which names the lanes among the parameters of a hash.
pub const LANES: u8 = 0x70;

/// Why a password was not verified.
#[derive(Clone, Copy, Debug, PartialEq, Eq, Structural)]
pub enum PasswordError {
    /// The stored hash is no PHC string.
    Malformed,
    /// The stored hash is a PHC string, but the password was not verified
    /// against it.
    Mismatch,
    /// The stored hash is a PHC string, but Argon2 does not take what it asks
    /// for.
    Unsupported,
}

/// Whether the item `item` of a parameter list, if it sets `p`, sets it to a
/// decimal number of at most `MAX_LANES`.
pub open spec fn item_in_range(item: Seq<u8>) -> bool {
    let pair = fields(item, EQUALS);
    pair.len() >= 2 && pair[0] == seq![LANES] ==> bounded_decimal(pair[1], MAX_LANES as nat)
        is Some
}

/// Whether every item between the commas of `piece` is in range.
pub open spec fn piece_in_range(piece: Seq<u8>) -> bool {
    forall|i: int|
        0 <= i < fields(piece, COMMA).len() ==> item_in_range(#[trigger] fields(piece, COMMA)[i])
}

/// Whether every piece between the `$` of `bytes` is in range.
pub open spec fn lanes_ok(bytes: Seq<u8>) -> bool {
    forall|i: int|
        0 <= i < fields(bytes, DOLLAR).len() ==> piece_in_range(
            #[trigger] fields(bytes, DOLLAR)[i],
        )
}

/// Whether the hash string `hash` asks for no more lanes than Argon2 has:
/// wherever a piece between `$` holds an item `p=..` between commas, what
/// follows the `=` is a decimal number of at most `MAX_LANES`. A text without
/// such an item is in range.
pub open spec fn lanes_in_range(hash: Seq<char>) -> bool {
    lanes_ok(vstd::utf8::encode_utf8(hash))
}

/// A user as stored.
#[derive(Debug, Clone)]
pub struct User {
    /// The identifier of the record, in text.
    pub id: String,
    pub peer_id: String,
    pub name: String,
    pub avatar: String,
    pub email: String,
    /// The hash of the password, as a PHC string.
    pub password_hash: String,
    pub creation_date: String,
    pub is_visible: bool,
    pub is_inactive: bool,
}

/// A user to be stored: all of a user but the identifier, which the store
/// gives.
#[derive(Debug, Clone)]
pub struct UserCreate {
    pub peer_id: String,
    pub name: String,
    pub avatar: String,
    pub email: String,
    /// The hash of the password, as a PHC string.
    pub password_hash: String,
    pub creation_date: String,
    pub is_visible: bool,
    pub is_inactive: bool,
}

/// Calls `argon2::PasswordHash::new` on `hash` and then
/// `argon2::PasswordVerifier::verify_password` of `argon2::Argon2::default()`
/// on the result. A failure of the first call is `Malformed`; of the second,
/// its error `Password` is `Mismatch` and any other `Unsupported`.
///
/// Taken on trust: each call succeeds or fails by the hash string and the
/// password alone, with no state, clock or randomness involved, so that the
/// success of each can bear a name; and the first call refuses the empty text
/// and any text that does not begin with `$`. A hash that asks for more lanes
/// than `MAX_LANES` is kept out: the second call multiplies the lanes by
/// eight before it tests them. The memory that the hash string asks for is
/// allocated in full.
#[verifier::external_body]
fn argon2_verify(hash: &str, password: &[u8]) -> (outcome: Result<(), PasswordError>)
    requires
        lanes_in_range(hash@),
    ensures
        outcome is Ok <==> argon2_accepts(hash@, password@),
        (outcome is Err && outcome->Err_0 == PasswordError::Malformed) <==> !is_phc_string(hash@),
        hash@.len() == 0 ==> (outcome is Err && outcome->Err_0 == PasswordError::Malformed),
        hash@.len() > 0 && hash@[0] != '$' ==> (outcome is Err && outcome->Err_0
            == PasswordError::Malformed),
{
    let parsed = match argon2::PasswordHash::new(hash) {
        Ok(parsed) => parsed,
        Err(_) => return Err(PasswordError::Malformed),
    };
    match argon2::PasswordVerifier::verify_password(&argon2::Argon2::default(), password, &parsed) {
        Ok(()) => Ok(()),
        Err(argon2::password_hash::Error::Password) => Err(PasswordError::Mismatch),
        Err(_) => Err(PasswordError::Unsupported),
    }
}

/// Whether the item `bytes[from..to]` of a parameter list is in range.
fn item_is_in_range(bytes: &[u8], from: usize, to: usize) -> (ok: bool)
    requires
        from <= to <= bytes@.len(),
    ensures
        ok == item_in_range(bytes@.subrange(from as int, to as int)),
{
    let cuts = split(bytes, from, to, EQUALS);
    if cuts.len() < 2 {
        return true;
    }
    let ghost pair = fields(bytes@.subrange(from as int, to as int), EQUALS);
    proof {
        assert(pair[0] == pieces(bytes@, cuts@)[0]);
        assert(pair[1] == pieces(bytes@, cuts@)[1]);
    }
    let (name_from, name_to) = cuts[0];
    let (value_from, value_to) = cuts[1];
    if name_to - name_from != 1 || bytes[name_from] != LANES {
        proof {
            if pair[0].len() == 1 {
                assert(pair[0][0] == bytes@[name_from as int]);
            }
        }
        return true;
    }
    proof {
        assert(pair[0] =~= seq![LANES]);
    }
    read_number(bytes, value_from, value_to, 10, MAX_LANES).is_some()
}

/// Whether the piece `bytes[from..to]` of a hash string is in range.
fn piece_is_in_range(bytes: &[u8], from: usize, to: usize) -> (ok: bool)
    requires
        from <= to <= bytes@.len(),
    ensures
        ok == piece_in_range(bytes@.subrange(from as int, to as int)),
{
    let cuts = split(bytes, from, to, COMMA);
    let ghost items = fields(bytes@.subrange(from as int, to as int), COMMA);
    let mut i: usize = 0;
    while i < cuts.len()
        invariant
            i <= cuts@.len(),
            cuts_within(cuts@, from as int, to as int),
            to <= bytes@.len(),
            items == pieces(bytes@, cuts@),
            items == fields(bytes@.subrange(from as int, to as int), COMMA),
            forall|k: int| 0 <= k < i ==> item_in_range(#[trigger] items[k]),
        decreases cuts@.len() - i,
    {
        let (item_from, item_to) = cuts[i];
        proof {
            assert(items[i as int] == bytes@.subrange(item_from as int, item_to as int));
        }
        if !item_is_in_range(bytes, item_from, item_to) {
            proof {
                let piece = bytes@.subrange(from as int, to as int);
                assert(!item_in_range(fields(piece, COMMA)[i as int]));
            }
            return false;
        }
        i = i + 1;
    }
    true
}

/// Tells whether the hash string `hash` asks for no more lanes than Argon2
/// has.
pub fn has_lanes_in_range(hash: &str) -> (ok: bool)
    ensures
        ok == lanes_in_range(hash@),
{
    let bytes = hash.as_bytes();
    proof {
        assert(bytes@.subrange(0, bytes@.len() as int) =~= bytes@);
    }
    let cuts = split(bytes, 0, bytes.len(), DOLLAR);
    let ghost parts = fields(bytes@, DOLLAR);
    let mut i: usize = 0;
    while i < cuts.len()
        invariant
            i <= cuts@.len(),
            cuts_within(cuts@, 0, bytes@.len() as int),
            bytes@ == vstd::utf8::encode_utf8(hash@),
            parts == pieces(bytes@, cuts@),
            parts == fields(bytes@, DOLLAR),
            forall|k: int| 0 <= k < i ==> piece_in_range(#[trigger] parts[k]),
        decreases cuts@.len() - i,
    {
        let (piece_from, piece_to) = cuts[i];
        proof {
            assert(parts[i as int] == bytes@.subrange(piece_from as int, piece_to as int));
        }
        if !piece_is_in_range(bytes, piece_from, piece_to) {
            proof {
                assert(!piece_in_range(fields(bytes@, DOLLAR)[i as int]));
            }
            return false;
        }
        i = i + 1;
    }
    true
}

/// The empty text asks for no lanes at all.
pub proof fn lemma_empty_is_in_range()
    ensures
        lanes_in_range(Seq::<char>::empty()),
{
    let none = Seq::<char>::empty();
    let e = Seq::<u8>::empty();
    vstd::utf8::is_ascii_chars_encode_utf8(none);
    assert(vstd::utf8::encode_utf8(none) =~= e);
    assert(fields(e, DOLLAR) =~= seq![e]);
    assert(fields(e, COMMA) =~= seq![e]);
    assert(fields(e, EQUALS) =~= seq![e]);
    assert(item_in_range(e));
    assert(piece_in_range(e));
}

impl User {
    /// Verifies that `password` is the password of this user: that Argon2
    /// accepts its UTF-8 bytes for the stored hash.
    ///
    /// A stored hash that asks for more lanes than Argon2 has is
    /// `Unsupported`, whatever else it holds. Any other hash is `Malformed`
    /// exactly if it is no PHC string, as the empty text is and any text that
    /// does not begin with `$`.
    pub fn verify_password(&self, password: String) -> (outcome: Result<(), PasswordError>)
        ensures
            outcome is Ok <==> lanes_in_range(self.password_hash@) && argon2_accepts(
                self.password_hash@,
                vstd::utf8::encode_utf8(password@),
            ),
            !lanes_in_range(self.password_hash@) ==> (outcome is Err && outcome->Err_0
                == PasswordError::Unsupported),
            lanes_in_range(self.password_hash@) ==> ((outcome is Err && outcome->Err_0
                == PasswordError::Malformed) <==> !is_phc_string(self.password_hash@)),
            self.password_hash@.len() == 0 ==> (outcome is Err && outcome->Err_0
                == PasswordError::Malformed),
            lanes_in_range(self.password_hash@) && self.password_hash@.len() > 0
                && self.password_hash@[0] != '$' ==> (outcome is Err && outcome->Err_0
                == PasswordError::Malformed),
    {
        proof {
            lemma_empty_is_in_range();
        }
        if !has_lanes_in_range(self.password_hash.as_str()) {
            return Err(PasswordError::Unsupported);
        }
        argon2_verify(self.password_hash.as_str(), password.as_str().as_bytes())
    }
}

} // verus!
