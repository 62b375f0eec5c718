//! The API token: issuing it on first start and checking the bearer token
//! of each request against its bcrypt hash.
use vstd::prelude::*;
use vstd::string::StrSliceExecFns;
use vstd::utf8::encode_utf8;

verus! {

#[verifier::external_type_specification]
#[verifier::external_body]
pub struct ExBcryptError(bcrypt::BcryptError);

#[verifier::external_type_specification]
#[verifier::external_body]
pub struct ExThreadRng(rand::rngs::ThreadRng);

/// What `bcrypt::verify(password, hash)` answers: `Some(true)` when the
/// password matches the hash, `Some(false)` when it does not, `None` when
/// the hash cannot be read. It depends on its two arguments alone.
pub uninterp spec fn bcrypt_verify_outcome(password: Seq<u8>, hash: Seq<char>) -> Option<bool>;

/// `bcrypt::verify`: whether `password` matches `hash`; `None` for the
/// error (a hash that is not a bcrypt hash). The answer is named, not
/// stated: it recomputes the bcrypt hash with the salt and cost read from
/// `hash`.
#[verifier::external_body]
fn bcrypt_verify(password: &str, hash: &str) -> (r: Option<bool>)
    ensures
        r == bcrypt_verify_outcome(encode_utf8(password@), hash@),
{
    match bcrypt::verify(password, hash) {
        Ok(b) => Some(b),
        Err(_) => None,
    }
}

/// The text "$2b$12$": version 2b and cost 12 of a bcrypt hash.
pub open spec fn bcrypt_default_prefix() -> Seq<char> {
    seq!['$', '2', 'b', '$', '1', '2', '$']
}

/// `bcrypt::hash(password, bcrypt::DEFAULT_COST)`: a bcrypt hash with a
/// fresh random salt. Its source shows: the result has 60 characters and
/// starts with "$2b$12$" (version 2b, cost 12), and `bcrypt::verify`
/// accepts `password` against it. It fails only when the system's random
/// source fails; which salt comes out is left open.
#[verifier::external_body]
fn bcrypt_hash_default_cost(password: &str) -> (r: Result<String, bcrypt::BcryptError>)
    ensures
        r matches Ok(h) ==> {
            &&& h@.len() == 60
            &&& h@.subrange(0, 7) == bcrypt_default_prefix()
            &&& bcrypt_verify_outcome(encode_utf8(password@), h@) == Some(true)
        },
{
    bcrypt::hash(password, bcrypt::DEFAULT_COST)
}

/// `rand::thread_rng()`: the thread's random generator.
#[verifier::external_body]
fn thread_rng() -> rand::rngs::ThreadRng {
    rand::thread_rng()
}

/// `RngCore::fill_bytes`: fills the buffer with random bytes; which ones
/// is left open.
#[verifier::external_body]
fn fill_random(rng: &mut rand::rngs::ThreadRng, buf: &mut [u8; 32]) {
    rand::RngCore::fill_bytes(rng, buf);
}

/// Lower-case hexadecimal digit of `v` (0 to 15).
pub open spec fn hex_digit(v: int) -> char {
    if v < 10 {
        (v + 48) as char
    } else {
        (v - 10 + 97) as char
    }
}

/// Lower-case hexadecimal text of bytes, two digits per byte, high first.
pub open spec fn hex_lower(b: Seq<u8>) -> Seq<char>
    decreases b.len(),
{
    if b.len() == 0 {
        Seq::empty()
    } else {
        hex_lower(b.drop_last()) + seq![hex_digit(b.last() as int / 16), hex_digit(b.last() as int % 16)]
    }
}

/// `hex::encode`: the lower-case hexadecimal text of the bytes.
#[verifier::external_body]
fn hex_encode(data: &[u8; 32]) -> (r: String)
    ensures
        r@ == hex_lower(data@),
{
    hex::encode(data)
}

pub proof fn lemma_hex_lower_len(b: Seq<u8>)
    ensures
        hex_lower(b).len() == 2 * b.len(),
    decreases b.len(),
{
    if b.len() > 0 {
        lemma_hex_lower_len(b.drop_last());
    }
}

/// A freshly issued API token: the text to give to the station (shown once)
/// and the bcrypt hash to store.
pub struct IssuedToken {
    pub token: String,
    pub token_hash: String,
}

/// Issuing a token failed: the bcrypt hash could not be made.
#[derive(Debug, Clone, Copy, PartialEq, Eq, Structural)]
pub enum TokenError {
    HashFailed,
}

/// The token is the hexadecimal text of 32 random bytes, and its hash is a
/// bcrypt hash (version 2b, cost 12) that the token verifies against.
pub open spec fn well_issued(t: IssuedToken) -> bool {
    &&& exists|b: Seq<u8>| b.len() == 32 && t.token@ == hex_lower(b)
    &&& t.token@.len() == 64
    &&& t.token_hash@.len() == 60
    &&& t.token_hash@.subrange(0, 7) == bcrypt_default_prefix()
    &&& bcrypt_verify_outcome(encode_utf8(t.token@), t.token_hash@) == Some(true)
}

/// Makes a new API token from 32 random bytes, with its bcrypt hash.
pub fn issue_token() -> (r: Result<IssuedToken, TokenError>)
    ensures
        r matches Ok(t) ==> well_issued(t),
{
    let mut bytes = [0u8; 32];
    let mut rng = thread_rng();
    fill_random(&mut rng, &mut bytes);
    let token = hex_encode(&bytes);
    proof {
        lemma_hex_lower_len(bytes@);
    }
    match bcrypt_hash_default_cost(token.as_str()) {
        Ok(token_hash) => {
            let t = IssuedToken { token, token_hash };
            assert(t.token@ == hex_lower(bytes@));
            Ok(t)
        },
        Err(_) => Err(TokenError::HashFailed),
    }
}

/// First-start token handling: when a token hash is stored already nothing
/// is issued; otherwise a new token is.
pub fn token_to_issue(existing_hash: &Option<String>) -> (r: Result<Option<IssuedToken>, TokenError>)
    ensures
        existing_hash is Some ==> r matches Ok(None),
        existing_hash is None ==> (r matches Ok(Some(t)) ==> well_issued(t)),
        existing_hash is None ==> !(r matches Ok(None)),
{
    match existing_hash {
        Some(_) => Ok(None),
        None => match issue_token() {
            Ok(t) => Ok(Some(t)),
            Err(e) => Err(e),
        },
    }
}

/// A request that carried the right API token.
pub struct TokenAuthenticated;

/// Why a request was not authenticated.
#[derive(Debug, Clone, Copy, PartialEq, Eq, Structural)]
pub enum AuthFailure {
    /// No valid bearer token, or the wrong one (HTTP 401).
    Unauthorized,
    /// The server cannot check the token: no database, or no stored hash
    /// (HTTP 500).
    ServerError,
}

/// The text "Bearer ".
pub open spec fn bearer_prefix() -> Seq<char> {
    seq!['B', 'e', 'a', 'r', 'e', 'r', ' ']
}

/// The token of an `Authorization` header: what follows "Bearer ".
pub open spec fn bearer_token_spec(header: Seq<char>) -> Option<Seq<char>> {
    if header.len() >= 7 && header.subrange(0, 7) == bearer_prefix() {
        Some(header.subrange(7, header.len() as int))
    } else {
        None
    }
}

/// The bearer token of an `Authorization` header, when it has one.
pub fn bearer_token(header: Option<&str>) -> (r: Option<&str>)
    ensures
        match header {
            None => r is None,
            Some(h) => match bearer_token_spec(h@) {
                None => r is None,
                Some(t) => r matches Some(rt) && rt@ == t,
            },
        },
{
    match header {
        None => None,
        Some(h) => {
            let n = h.unicode_len();
            if n < 7 {
                return None;
            }
            let prefix = ['B', 'e', 'a', 'r', 'e', 'r', ' '];
            let mut i: usize = 0;
            while i < 7
                invariant
                    0 <= i <= 7 <= n,
                    header == Some(h),
                    n == h@.len(),
                    prefix@ == bearer_prefix(),
                    h@.subrange(0, i as int) == bearer_prefix().subrange(0, i as int),
                decreases 7 - i,
            {
                let c = h.get_char(i);
                if c != prefix[i] {
                    assert(prefix@[i as int] == bearer_prefix()[i as int]);
                    assert(h@.subrange(0, 7)[i as int] == c);
                    assert(h@.subrange(0, 7)[i as int] != bearer_prefix()[i as int]);
                    assert(h@.subrange(0, 7) != bearer_prefix());
                    assert(bearer_token_spec(h@) is None);
                    return None;
                }
                assert(h@.subrange(0, i + 1) =~= h@.subrange(0, i as int).push(h@[i as int]));
                assert(bearer_prefix().subrange(0, i + 1) =~= bearer_prefix().subrange(
                    0,
                    i as int,
                ).push(bearer_prefix()[i as int]));
                i = i + 1;
            }
            assert(bearer_prefix().subrange(0, 7) =~= bearer_prefix());
            Some(h.substring_char(7, n))
        },
    }
}

/// The outcome of checking `token` against the stored hash (`None`: no
/// hash stored, or it could not be read).
pub open spec fn check_token_spec(token: Seq<char>, stored_hash: Option<Seq<char>>) -> Result<(), AuthFailure> {
    match stored_hash {
        None => Err(AuthFailure::ServerError),
        Some(h) => if bcrypt_verify_outcome(encode_utf8(token), h) == Some(true) {
            Ok(())
        } else {
            Err(AuthFailure::Unauthorized)
        },
    }
}

/// The text of an optional string.
pub open spec fn string_option_view(o: Option<String>) -> Option<Seq<char>> {
    match o {
        Some(s) => Some(s@),
        None => None,
    }
}

/// Checks a bearer token against the stored hash: accepted exactly when
/// bcrypt verifies it.
pub fn check_token(token: &str, stored_hash: &Option<String>) -> (r: Result<TokenAuthenticated, AuthFailure>)
    ensures
        r is Ok <==> check_token_spec(token@, string_option_view(*stored_hash)) is Ok,
        r matches Err(e) ==> check_token_spec(token@, string_option_view(*stored_hash)) == Err::<(), AuthFailure>(e),
{
    match stored_hash {
        None => Err(AuthFailure::ServerError),
        Some(h) => match bcrypt_verify(token, h.as_str()) {
            Some(true) => Ok(TokenAuthenticated),
            _ => Err(AuthFailure::Unauthorized),
        },
    }
}

/// The whole decision for one request, in the order the server takes it:
/// no database is a server error; a missing or malformed header is
/// unauthorized (the hash is then not looked up); otherwise the token is
/// checked against the stored hash.
pub open spec fn authenticate_spec(
    has_database: bool,
    header: Option<Seq<char>>,
    stored_hash: Option<Seq<char>>,
) -> Result<(), AuthFailure> {
    if !has_database {
        Err(AuthFailure::ServerError)
    } else {
        match header {
            None => Err(AuthFailure::Unauthorized),
            Some(h) => match bearer_token_spec(h) {
                None => Err(AuthFailure::Unauthorized),
                Some(t) => check_token_spec(t, stored_hash),
            },
        }
    }
}

/// Law: a freshly issued token authenticates a request that presents it as
/// a bearer token, once its hash is stored.
pub proof fn law_issued_token_authenticates(t: IssuedToken, header: Seq<char>)
    requires
        well_issued(t),
        header == bearer_prefix() + t.token@,
    ensures
        authenticate_spec(true, Some(header), Some(t.token_hash@)) == Ok::<(), AuthFailure>(()),
{
    assert(header.subrange(0, 7) =~= bearer_prefix());
    assert(header.subrange(7, header.len() as int) =~= t.token@);
}

/// Law: a request without an `Authorization` header, or with one that is
/// not a bearer token, is unauthorized whatever is stored.
pub proof fn law_missing_token_rejected(header: Option<Seq<char>>, stored_hash: Option<Seq<char>>)
    requires
        header matches Some(h) ==> bearer_token_spec(h) is None,
    ensures
        authenticate_spec(true, header, stored_hash) == Err::<(), AuthFailure>(
            AuthFailure::Unauthorized,
        ),
{
}

} // verus!
