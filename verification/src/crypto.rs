//! The encrypted persistence codec: the aggregate is serialized to its
//! canonical JSON form and, when a passphrase is given, encrypted with a
//! key derived freshly from the passphrase on every call. An empty
//! passphrase means plain JSON — no confidentiality, not an error.

use vstd::prelude::*;
use magic_crypt::MagicCryptTrait;
use crate::userdata::{UserData, UserDataView};
use crate::json::{ser_userdata, parse_userdata, spec_ser_userdata, spec_parse_userdata,
    lemma_parse_ser_userdata};

verus! {

/// The failures of the persistence layer.
#[derive(Clone, Copy, PartialEq, Eq, Structural, Debug)]
pub enum StoreError {
    IoError,
    NotFound,
    DecryptionError,
    DeserializationError,
    HttpError,
    MalformedResponse,
}

/// What magic-crypt's AES-256 encryption returns for a passphrase and a
/// plaintext. The key and the IV are derived from the passphrase alone, so
/// the result is a function of the two arguments.
pub uninterp spec fn spec_magic_encrypt(pass: Seq<char>, plain: Seq<char>) -> Seq<char>;

/// Relies on magic-crypt's `MagicCrypt256::new` and
/// `encrypt_str_to_base64`: AES-256-CBC, with the key a digest of the
/// passphrase and a fixed IV, base64-encoded; deterministic in the
/// passphrase and the plaintext.
#[verifier::external_body]
fn mc_encrypt(pass: &str, plain: &str) -> (r: String)
    ensures
        r@ == spec_magic_encrypt(pass@, plain@),
{
    let mc = <magic_crypt::MagicCrypt256 as MagicCryptTrait>::new(pass, None::<&str>);
    mc.encrypt_str_to_base64(plain)
}

/// Relies on magic-crypt's `MagicCrypt256::new` and
/// `decrypt_base64_to_string`: base64 decoding and AES-256-CBC decryption
/// invert `encrypt_str_to_base64` under the same passphrase. On any other
/// input it may fail or return other text; nothing is promised of that.
#[verifier::external_body]
fn mc_decrypt(pass: &str, cipher: &str) -> (r: Option<String>)
    ensures
        r matches Some(d) ==> forall|p: Seq<char>|
            cipher@ == spec_magic_encrypt(pass@, p) ==> d@ == p,
        r is None ==> forall|p: Seq<char>|
            cipher@ != #[trigger] spec_magic_encrypt(pass@, p),
{
    let mc = <magic_crypt::MagicCrypt256 as MagicCryptTrait>::new(pass, None::<&str>);
    mc.decrypt_base64_to_string(cipher).ok()
}

/// The text stored for an aggregate: its canonical JSON, encrypted when
/// the passphrase (the second credential) is non-empty.
pub fn encrypt_userdata(userdata: &UserData, credentials: &(String, String)) -> (r: String)
    ensures
        credentials.1@.len() == 0 ==> r@ == spec_ser_userdata(userdata@),
        credentials.1@.len() > 0 ==> r@ == spec_magic_encrypt(
            credentials.1@,
            spec_ser_userdata(userdata@),
        ),
{
    let plain = ser_userdata(userdata);
    if credentials.1.as_str().is_empty() {
        plain
    } else {
        mc_encrypt(credentials.1.as_str(), plain.as_str())
    }
}

/// Reads stored text back into the aggregate. Whatever `encrypt_userdata`
/// produced for a well-formed aggregate under the same credentials comes
/// back as exactly that aggregate; a failed decryption reports
/// `DecryptionError`, text that is not the canonical form reports
/// `DeserializationError`, and nothing else is ever returned.
pub fn decrypt_notes(raw: &str, credentials: &(String, String)) -> (r: Result<
    UserData,
    StoreError,
>)
    ensures
        forall|uv: UserDataView|
            uv.wf() && credentials.1@.len() == 0 && raw@ == spec_ser_userdata(uv) ==> (r matches
            Ok(u) && u@ == uv),
        forall|uv: UserDataView|
            uv.wf() && credentials.1@.len() > 0 && raw@ == spec_magic_encrypt(
                credentials.1@,
                spec_ser_userdata(uv),
            ) ==> (r matches Ok(u) && u@ == uv),
        r matches Ok(u) ==> u@.wf(),
        r matches Err(e) ==> e == StoreError::DecryptionError || e
            == StoreError::DeserializationError,
        credentials.1@.len() == 0 ==> ((r is Err) <==> !(spec_parse_userdata(raw@, 0) matches Some(
            (uv, j),
        ) && j == raw@.len())),
        credentials.1@.len() == 0 && r is Err ==> r->Err_0 == StoreError::DeserializationError,
{
    if credentials.1.as_str().is_empty() {
        match parse_userdata(raw) {
            Some(u) => {
                proof {
                    assert forall|uv: UserDataView|
                        uv.wf() && raw@ == spec_ser_userdata(uv) implies u@ == uv by {
                        lemma_full_parse(uv, raw@);
                    }
                }
                Ok(u)
            },
            None => {
                proof {
                    assert forall|uv: UserDataView|
                        uv.wf() && raw@ == spec_ser_userdata(uv) implies false by {
                        lemma_full_parse(uv, raw@);
                    }
                }
                Err(StoreError::DeserializationError)
            },
        }
    } else {
        match mc_decrypt(credentials.1.as_str(), raw) {
            Some(plain) => {
                match parse_userdata(plain.as_str()) {
                    Some(u) => {
                        proof {
                            assert forall|uv: UserDataView|
                                uv.wf() && raw@ == spec_magic_encrypt(
                                    credentials.1@,
                                    spec_ser_userdata(uv),
                                ) implies u@ == uv by {
                                assert(plain@ == spec_ser_userdata(uv));
                                lemma_full_parse(uv, plain@);
                            }
                        }
                        Ok(u)
                    },
                    None => {
                        proof {
                            assert forall|uv: UserDataView|
                                uv.wf() && raw@ == spec_magic_encrypt(
                                    credentials.1@,
                                    spec_ser_userdata(uv),
                                ) implies false by {
                                assert(plain@ == spec_ser_userdata(uv));
                                lemma_full_parse(uv, plain@);
                            }
                        }
                        Err(StoreError::DeserializationError)
                    },
                }
            },
            None => Err(StoreError::DecryptionError),
        }
    }
}

/// A text that is the canonical form of a well-formed aggregate parses
/// wholly back to it.
proof fn lemma_full_parse(uv: UserDataView, s: Seq<char>)
    requires
        uv.wf(),
        s == spec_ser_userdata(uv),
    ensures
        spec_parse_userdata(s, 0) == Some((uv, s.len() as int)),
{
    assert(s.subrange(0, spec_ser_userdata(uv).len() as int) =~= spec_ser_userdata(uv));
    lemma_parse_ser_userdata(uv, s, 0);
}

/// The codec round trip: decrypting what was encrypted, under the same
/// credentials, yields the aggregate back. Stated over the specification
/// functions that `encrypt_userdata` and `decrypt_notes` promise: the
/// stored text of a well-formed aggregate parses wholly back to it, with
/// or without a passphrase (the encryption layer's inversion is the
/// contract of the cipher wrappers).
pub proof fn lemma_codec_round_trip(uv: UserDataView)
    requires
        uv.wf(),
    ensures
        spec_parse_userdata(spec_ser_userdata(uv), 0) == Some(
            (uv, spec_ser_userdata(uv).len() as int),
        ),
{
    lemma_full_parse(uv, spec_ser_userdata(uv));
}

} // verus!
