//! The stable fingerprint of a credential, by which a saved lease finds its
//! credential again.

use vstd::prelude::*;

verus! {

/// The lower-case hexadecimal SHA-1 digest that the `sha1` crate computes for
/// the UTF-8 bytes of `text`.
pub uninterp spec fn sha1_hex(text: Seq<char>) -> Seq<char>;

/// The text that is hashed for a user and a password.
pub open spec fn fingerprint_input(user: Seq<char>, password: Seq<char>) -> Seq<char> {
    user + seq!['|'] + password
}

/// The fingerprint of a user and a password: the hexadecimal SHA-1 digest of
/// `user`, a vertical bar and `password`.
pub open spec fn fingerprint_of(user: Seq<char>, password: Seq<char>) -> Seq<char> {
    sha1_hex(fingerprint_input(user, password))
}

/// Hashes `text` with `sha1::Sha1::from` and writes the digest with the
/// `Display` impl of `sha1::Digest`, which is what `Sha1::hexdigest` returns.
/// The contract claims only that the result is the digest named `sha1_hex`
/// for this text: SHA-1 depends on nothing but the bytes hashed.
#[verifier::external_body]
fn sha1_hexdigest(text: &str) -> (digest: String)
    ensures
        digest@ == sha1_hex(text@),
{
    sha1::Sha1::from(text).digest().to_string()
}

/// The fingerprint of `user` and `password`.
pub fn fingerprint(user: &String, password: &String) -> (digest: String)
    ensures
        digest@ == fingerprint_of(user@, password@),
{
    let mut text = user.clone();
    proof {
        reveal_strlit("|");
    }
    text.append("|");
    text.append(password.as_str());
    assert("|"@ =~= seq!['|']);
    sha1_hexdigest(text.as_str())
}

} // verus!
