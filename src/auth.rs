//! The `Authorization` header for HTTP Basic authentication.

use base64::Engine;
use vstd::prelude::*;
use vstd::string::{StrSliceExecFns, StringExecFns, StringSliceAdditionalSpecFns};

verus! {

/// The padded Base64 text, in the standard alphabet, of a byte string.
pub uninterp spec fn base64_standard_of(b: Seq<u8>) -> Seq<char>;

/// Relies on `base64::engine::general_purpose::STANDARD.encode`: standard
/// alphabet with padding, four characters for each started group of three
/// bytes; it panics only where that length overflows `usize`.
#[verifier::external_body]
fn base64_standard(b: &[u8]) -> (r: String)
    requires
        b@.len() <= usize::MAX / 2,
    ensures
        r@ == base64_standard_of(b@),
        r@.len() == 4 * ((b@.len() + 2) / 3),
{
    base64::engine::general_purpose::STANDARD.encode(b)
}

/// The bytes `username:password`.
pub open spec fn credentials_of(username: Seq<u8>, password: Seq<u8>) -> Seq<u8> {
    username + seq![0x3au8] + password
}

/// `Basic ` followed by the encoded credentials.
pub open spec fn basic_value_of(encoded: Seq<char>) -> Seq<char> {
    seq!['B', 'a', 's', 'i', 'c', ' '] + encoded
}

/// The bytes of `username:password`.
pub fn credentials(username: &str, password: &str) -> (r: Vec<u8>)
    requires
        username.spec_bytes().len() + password.spec_bytes().len() < usize::MAX,
    ensures
        r@ == credentials_of(username.spec_bytes(), password.spec_bytes()),
{
    let mut out = username.as_bytes_vec();
    out.push(0x3au8);
    let p = password.as_bytes();
    let mut i: usize = 0;
    while i < p.len()
        invariant
            i <= p@.len(),
            p@ == password.spec_bytes(),
            out@ == username.spec_bytes() + seq![0x3au8] + p@.subrange(0, i as int),
        decreases p@.len() - i,
    {
        out.push(p[i]);
        i = i + 1;
        assert(out@ =~= username.spec_bytes() + seq![0x3au8] + p@.subrange(0, i as int));
    }
    assert(p@.subrange(0, p@.len() as int) =~= p@);
    out
}

/// The header value `Basic <encoded>` for encoded credentials.
pub fn basic_value(encoded: &str) -> (r: String)
    ensures
        r@ == basic_value_of(encoded@),
{
    let prefix = String::from_str("Basic ");
    proof {
        reveal_strlit("Basic ");
    }
    assert(prefix@ =~= seq!['B', 'a', 's', 'i', 'c', ' ']);
    prefix.concat(encoded)
}

/// The `Authorization` header value for the configured credentials: none where
/// both are empty, otherwise `Basic ` and the Base64 of `username:password`.
pub fn basic_auth_header(username: &str, password: &str) -> (r: Option<String>)
    requires
        username.spec_bytes().len() + password.spec_bytes().len() < usize::MAX / 2,
    ensures
        (username@.len() == 0 && password@.len() == 0) ==> r is None,
        !(username@.len() == 0 && password@.len() == 0) ==> (r matches Some(v) && v@
            == basic_value_of(
            base64_standard_of(credentials_of(username.spec_bytes(), password.spec_bytes())),
        )),
{
    if username.is_empty() && password.is_empty() {
        return None;
    }
    let raw = credentials(username, password);
    let encoded = base64_standard(raw.as_slice());
    Some(basic_value(encoded.as_str()))
}

} // verus!
