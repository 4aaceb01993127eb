//! The storage backend: a local file or a remote bin store, both offering
//! the same two operations. The decisions — what to write, which request
//! to issue, how to read a response — are made here; the host performs the
//! file and network transfers and feeds results back through the bus.

use vstd::prelude::*;
use crate::userdata::{UserData, UserDataView};
use crate::crypto::{StoreError, encrypt_userdata, decrypt_notes, spec_magic_encrypt};
use crate::json::{spec_ser_userdata, spec_ser_string, spec_parse_string, spec_parse_lit,
    spec_cat, spec_cat_off, lemma_cat_len, lemma_cat_window, lemma_parse_ser_string,
    ser_string_chars, parse_string, parse_lit, lemma_parse_string_bound};
use crate::text::{str_chars, chars_string, to_string_of};

verus! {

/// The remote bin store's base address.
pub open spec fn spec_bin_base() -> Seq<char> {
    "https://api.jsonbin.io/v3/b"@
}

/// Where and how the aggregate is persisted.
pub enum StorageMode {
    Local { path: String },
    JsonBin { masterkey: String, bin_id: Option<String> },
}

impl StorageMode {
    /// A short fixed name for the mode, for display.
    pub fn mode_name(&self) -> (r: &'static str)
        ensures
            self is Local ==> r@ == "Local"@,
            self is JsonBin ==> r@ == "JsonBin"@,
    {
        match self {
            StorageMode::Local { .. } => "Local",
            StorageMode::JsonBin { .. } => "JsonBin",
        }
    }
}

impl Default for StorageMode {
    /// Local persistence into the fixed backup file.
    fn default() -> (r: StorageMode)
        ensures
            r matches StorageMode::Local { path } && path@ == "backup.json"@,
    {
        StorageMode::Local { path: to_string_of("backup.json") }
    }
}

/// A request for the host to issue, as plain values.
pub struct HttpRequest {
    pub method: String,
    pub url: String,
    pub body: String,
    pub headers: Vec<(String, String)>,
}

/// What a save action amounts to.
pub enum SavePlan {
    /// Overwrite the file at `path` with `content`.
    WriteLocal { path: String, content: String },
    /// Create a new remote record; its id arrives via the id channel.
    Publish { request: HttpRequest },
    /// Overwrite the known remote record.
    Update { request: HttpRequest },
}

/// What a load action amounts to.
pub enum LoadPlan {
    /// Read the file at `path` and hand its text to `read_local`.
    ReadLocal { path: String },
    /// Fetch the remote record and hand the response to `load_response`.
    Fetch { request: HttpRequest },
}

/// The envelope a remote record holds: the ciphertext under one key.
pub open spec fn spec_envelope_parts(cipher: Seq<char>) -> Seq<Seq<char>> {
    seq!["{\"encrypted\":"@, spec_ser_string(cipher), "}"@]
}

pub open spec fn spec_envelope(cipher: Seq<char>) -> Seq<char> {
    spec_cat(spec_envelope_parts(cipher))
}

/// The ciphertext read back out of an envelope, when the text is one.
pub open spec fn spec_parse_envelope(s: Seq<char>) -> Option<Seq<char>> {
    match spec_parse_lit(s, 0, "{\"encrypted\":"@) {
        Some(j0) => match spec_parse_string(s, j0) {
            Some((cipher, j1)) => match spec_parse_lit(s, j1, seq!['}']) {
                Some(j2) => if j2 == s.len() {
                    Some(cipher)
                } else {
                    None
                },
                None => None,
            },
            None => None,
        },
        None => None,
    }
}

/// Reading an envelope back yields the ciphertext that was wrapped.
pub proof fn lemma_parse_ser_envelope(cipher: Seq<char>)
    ensures
        spec_parse_envelope(spec_envelope(cipher)) == Some(cipher),
{
    reveal_strlit("{\"encrypted\":");
    reveal_strlit("}");
    let pp = spec_envelope_parts(cipher);
    let s = spec_envelope(cipher);
    lemma_cat_len(pp);
    assert(s.subrange(0, s.len() as int) =~= s);
    lemma_cat_window(s, 0, pp);
    let o1 = spec_cat_off(pp, 1);
    let o2 = spec_cat_off(pp, 2);
    let o3 = spec_cat_off(pp, 3);
    assert(s.subrange(0, o1) == pp[0]);
    assert(s.subrange(o1, o2) == pp[1]);
    assert(s.subrange(o2, o3) == pp[2]);
    lemma_parse_ser_string(cipher, s, o1);
    assert(s.subrange(o2, o2 + 1) =~= seq![s[o2 + 0]]);
    assert(s[o2 + 0] == '}') by {
        assert(s.subrange(o2, o3)[0] == s[o2 + 0]);
    }
    assert(spec_parse_lit(s, o2, seq!['}']) == Some(o3));
}

/// Wraps a ciphertext in the envelope a remote record holds.
pub fn make_envelope(cipher: &str) -> (r: String)
    ensures
        r@ == spec_envelope(cipher@),
{
    let mut out = str_chars("{\"encrypted\":");
    let cv = str_chars(cipher);
    let mut mid = ser_string_chars(&cv);
    let mut close = str_chars("}");
    out.append(&mut mid);
    out.append(&mut close);
    proof {
        let pp = spec_envelope_parts(cipher@);
        let d1 = pp.drop_first();
        let d2 = d1.drop_first();
        let d3 = d2.drop_first();
        assert(d3 =~= Seq::<Seq<char>>::empty());
        assert(spec_cat(d3) == Seq::<char>::empty());
        assert(d2[0] == pp[2]);
        assert(d1[0] == pp[1]);
        assert(spec_cat(d2) == d2[0] + spec_cat(d3));
        assert(spec_cat(d1) == d1[0] + spec_cat(d2));
        assert(spec_cat(pp) == pp[0] + spec_cat(d1));
        assert(out@ =~= spec_envelope(cipher@));
    }
    chars_string(&out)
}

/// Reads the ciphertext out of an envelope, exactly when the whole text
/// is one.
pub fn open_envelope(body: &str) -> (r: Option<String>)
    ensures
        (r is Some) == (spec_parse_envelope(body@) is Some),
        r matches Some(c) ==> spec_parse_envelope(body@) == Some(c@),
{
    let s = str_chars(body);
    let lit = str_chars("{\"encrypted\":");
    let mut close: Vec<char> = Vec::new();
    close.push('}');
    proof {
        assert(close@ =~= seq!['}']);
    }
    let j0 = match parse_lit(&s, 0, &lit) {
        Some(j) => j,
        None => {
            return None;
        },
    };
    proof {
        assert(spec_parse_lit(s@, 0, lit@)->Some_0 <= s@.len());
    }
    let (cipher, j1) = match parse_string(&s, j0) {
        Some(p) => p,
        None => {
            return None;
        },
    };
    proof {
        lemma_parse_string_bound(s@, j0 as int);
    }
    let j2 = match parse_lit(&s, j1, &close) {
        Some(j) => j,
        None => {
            return None;
        },
    };
    if j2 != s.len() {
        return None;
    }
    Some(chars_string(&cipher))
}

fn headers_for(masterkey: &String) -> (h: Vec<(String, String)>)
    ensures
        h@.len() == 3,
        h@[0].0@ == "Accept"@ && h@[0].1@ == "*/*"@,
        h@[1].0@ == "Content-Type"@ && h@[1].1@ == "application/json; charset=utf-8"@,
        h@[2].0@ == "X-Master-Key"@ && h@[2].1@ == masterkey@,
{
    let mut h: Vec<(String, String)> = Vec::new();
    h.push((to_string_of("Accept"), to_string_of("*/*")));
    h.push((to_string_of("Content-Type"), to_string_of("application/json; charset=utf-8")));
    h.push((to_string_of("X-Master-Key"), clone_string(masterkey)));
    h
}

fn clone_string(s: &String) -> (r: String)
    ensures
        r@ == s@,
{
    let v = str_chars(s.as_str());
    chars_string(&v)
}

fn concat_str(a: &str, b: &str) -> (r: String)
    ensures
        r@ == a@ + b@,
{
    let mut va = str_chars(a);
    let mut vb = str_chars(b);
    va.append(&mut vb);
    chars_string(&va)
}

impl StorageMode {
    /// Decides what saving amounts to in this mode: the local file to
    /// overwrite, or the exact request to create or update the remote
    /// record. The content is always the encrypted aggregate; a remote
    /// body wraps it in the envelope.
    pub fn plan_save(&self, userdata: &UserData, credentials: &(String, String)) -> (plan:
        SavePlan)
        ensures
            ({
                let cipher = if credentials.1@.len() == 0 {
                    spec_ser_userdata(userdata@)
                } else {
                    spec_magic_encrypt(credentials.1@, spec_ser_userdata(userdata@))
                };
                match self {
                    StorageMode::Local { path } => plan matches SavePlan::WriteLocal {
                        path: p,
                        content,
                    } && p@ == path@ && content@ == cipher,
                    StorageMode::JsonBin { masterkey, bin_id: None } => plan matches
                        SavePlan::Publish { request } && request.method@ == "POST"@
                        && request.url@ == spec_bin_base() && request.body@ == spec_envelope(
                        cipher,
                    ) && request.headers@.len() == 3 && request.headers@[2].0@
                        == "X-Master-Key"@ && request.headers@[2].1@ == masterkey@,
                    StorageMode::JsonBin { masterkey, bin_id: Some(id) } => plan matches
                        SavePlan::Update { request } && request.method@ == "PUT"@
                        && request.url@ == spec_bin_base() + seq!['/'] + id@ && request.body@
                        == spec_envelope(cipher) && request.headers@.len() == 3
                        && request.headers@[2].0@ == "X-Master-Key"@ && request.headers@[2].1@
                        == masterkey@,
                }
            }),
    {
        let cipher = encrypt_userdata(userdata, credentials);
        match self {
            StorageMode::Local { path } => SavePlan::WriteLocal {
                path: clone_string(path),
                content: cipher,
            },
            StorageMode::JsonBin { masterkey, bin_id } => {
                let body = make_envelope(cipher.as_str());
                let headers = headers_for(masterkey);
                match bin_id {
                    None => SavePlan::Publish {
                        request: HttpRequest {
                            method: to_string_of("POST"),
                            url: to_string_of("https://api.jsonbin.io/v3/b"),
                            body,
                            headers,
                        },
                    },
                    Some(id) => {
                        let base = concat_str("https://api.jsonbin.io/v3/b", "/");
                        let url = concat_str(base.as_str(), id.as_str());
                        proof {
                            assert(spec_bin_base() + "/"@ + id@ =~= spec_bin_base() + seq!['/']
                                + id@) by {
                                reveal_strlit("/");
                            }
                        }
                        SavePlan::Update {
                            request: HttpRequest {
                                method: to_string_of("PUT"),
                                url,
                                body,
                                headers,
                            },
                        }
                    },
                }
            },
        }
    }

    /// Decides what loading amounts to: the local file to read, or the
    /// request that fetches the remote record. A remote mode without a
    /// published record cannot load: `NotFound`.
    pub fn plan_load(&self, credentials: &(String, String)) -> (r: Result<LoadPlan, StoreError>)
        ensures
            match self {
                StorageMode::Local { path } => r matches Ok(LoadPlan::ReadLocal { path: p })
                    && p@ == path@,
                StorageMode::JsonBin { masterkey, bin_id: None } => r == Err::<
                    LoadPlan,
                    StoreError,
                >(StoreError::NotFound),
                StorageMode::JsonBin { masterkey, bin_id: Some(id) } => r matches Ok(
                    LoadPlan::Fetch { request },
                ) && request.method@ == "GET"@ && request.url@ == spec_bin_base() + seq!['/']
                    + id@ + "?meta=false"@ && request.body@.len() == 0
                    && request.headers@.len() == 3 && request.headers@[2].0@ == "X-Master-Key"@
                    && request.headers@[2].1@ == masterkey@,
            },
    {
        match self {
            StorageMode::Local { path } => Ok(LoadPlan::ReadLocal { path: clone_string(path) }),
            StorageMode::JsonBin { masterkey, bin_id } => match bin_id {
                None => Err(StoreError::NotFound),
                Some(id) => {
                    let base = concat_str("https://api.jsonbin.io/v3/b", "/");
                    let with_id = concat_str(base.as_str(), id.as_str());
                    let url = concat_str(with_id.as_str(), "?meta=false");
                    proof {
                        assert(spec_bin_base() + "/"@ + id@ + "?meta=false"@ =~= spec_bin_base()
                            + seq!['/'] + id@ + "?meta=false"@) by {
                            reveal_strlit("/");
                        }
                    }
                    Ok(
                        LoadPlan::Fetch {
                            request: HttpRequest {
                                method: to_string_of("GET"),
                                url,
                                body: String::new(),
                                headers: headers_for(masterkey),
                            },
                        },
                    )
                },
            },
        }
    }
}

/// Decodes the text read from the local file: what `plan_save` wrote for a
/// well-formed aggregate under the same credentials comes back as exactly
/// that aggregate.
pub fn read_local(content: &str, credentials: &(String, String)) -> (r: Result<
    UserData,
    StoreError,
>)
    ensures
        forall|uv: UserDataView|
            uv.wf() && credentials.1@.len() == 0 && content@ == spec_ser_userdata(uv) ==> (
            r matches Ok(u) && u@ == uv),
        forall|uv: UserDataView|
            uv.wf() && credentials.1@.len() > 0 && content@ == spec_magic_encrypt(
                credentials.1@,
                spec_ser_userdata(uv),
            ) ==> (r matches Ok(u) && u@ == uv),
        r matches Ok(u) ==> u@.wf(),
        r matches Err(e) ==> e == StoreError::DecryptionError || e
            == StoreError::DeserializationError,
{
    decrypt_notes(content, credentials)
}

/// Decodes a fetch response: a success status whose body is the envelope
/// of what was stored for a well-formed aggregate yields that aggregate; a
/// non-success status is `HttpError`, a body that is no envelope is
/// `MalformedResponse`.
pub fn load_response(status: u16, body: &str, credentials: &(String, String)) -> (r: Result<
    UserData,
    StoreError,
>)
    ensures
        !(200 <= status < 300) <==> r == Err::<UserData, StoreError>(StoreError::HttpError),
        200 <= status < 300 && spec_parse_envelope(body@) is None <==> r == Err::<
            UserData,
            StoreError,
        >(StoreError::MalformedResponse),
        forall|uv: UserDataView|
            uv.wf() && 200 <= status < 300 && credentials.1@.len() > 0 && body@ == spec_envelope(
                spec_magic_encrypt(credentials.1@, spec_ser_userdata(uv)),
            ) ==> (r matches Ok(u) && u@ == uv),
        forall|uv: UserDataView|
            uv.wf() && 200 <= status < 300 && credentials.1@.len() == 0 && body@
                == spec_envelope(spec_ser_userdata(uv)) ==> (r matches Ok(u) && u@ == uv),
        r matches Ok(u) ==> u@.wf(),
{
    if !(200 <= status && status < 300) {
        return Err(StoreError::HttpError);
    }
    match open_envelope(body) {
        None => {
            proof {
                assert forall|uv: UserDataView|
                    uv.wf() && credentials.1@.len() > 0 && body@ == spec_envelope(
                        spec_magic_encrypt(credentials.1@, spec_ser_userdata(uv)),
                    ) implies false by {
                    lemma_parse_ser_envelope(
                        spec_magic_encrypt(credentials.1@, spec_ser_userdata(uv)),
                    );
                }
                assert forall|uv: UserDataView|
                    uv.wf() && credentials.1@.len() == 0 && body@ == spec_envelope(
                        spec_ser_userdata(uv),
                    ) implies false by {
                    lemma_parse_ser_envelope(spec_ser_userdata(uv));
                }
            }
            Err(StoreError::MalformedResponse)
        },
        Some(cipher) => {
            let r = decrypt_notes(cipher.as_str(), credentials);
            match r {
                Ok(u) => {
                    proof {
                        assert forall|uv: UserDataView|
                            uv.wf() && credentials.1@.len() > 0 && body@ == spec_envelope(
                                spec_magic_encrypt(credentials.1@, spec_ser_userdata(uv)),
                            ) implies u@ == uv by {
                            lemma_parse_ser_envelope(
                                spec_magic_encrypt(credentials.1@, spec_ser_userdata(uv)),
                            );
                        }
                        assert forall|uv: UserDataView|
                            uv.wf() && credentials.1@.len() == 0 && body@ == spec_envelope(
                                spec_ser_userdata(uv),
                            ) implies u@ == uv by {
                            lemma_parse_ser_envelope(spec_ser_userdata(uv));
                        }
                    }
                    Ok(u)
                },
                Err(e) => {
                    proof {
                        assert forall|uv: UserDataView|
                            uv.wf() && credentials.1@.len() > 0 && body@ == spec_envelope(
                                spec_magic_encrypt(credentials.1@, spec_ser_userdata(uv)),
                            ) implies false by {
                            lemma_parse_ser_envelope(
                                spec_magic_encrypt(credentials.1@, spec_ser_userdata(uv)),
                            );
                        }
                        assert forall|uv: UserDataView|
                            uv.wf() && credentials.1@.len() == 0 && body@ == spec_envelope(
                                spec_ser_userdata(uv),
                            ) implies false by {
                            lemma_parse_ser_envelope(spec_ser_userdata(uv));
                        }
                    }
                    match e {
                        StoreError::DecryptionError => Err(StoreError::DecryptionError),
                        _ => Err(StoreError::DeserializationError),
                    }
                },
            }
        },
    }
}

/// The record id inside a publish response: the string value of the `id`
/// field of the `metadata` object, found by scanning for the field head.
pub open spec fn spec_extract_bin_id(s: Seq<char>) -> Option<Seq<char>> {
    let f = crate::text::spec_find_sub(s, "\"metadata\":{\"id\":\""@);
    if f < 0 {
        None
    } else {
        let rest = s.skip(f + "\"metadata\":{\"id\":\""@.len());
        let q = crate::text::spec_find_sep(rest, crate::text::Sep::Quote);
        if q == rest.len() {
            None
        } else {
            Some(rest.take(q))
        }
    }
}

/// Reads the freshly assigned record id out of a publish response. The
/// bin service answers a create with the record and a `metadata` object
/// holding the new id; scanning for that field suffices for the minified
/// responses the service returns. A non-success status is `HttpError`, a
/// body without the field is `MalformedResponse`.
pub fn publish_response(status: u16, body: &str) -> (r: Result<String, StoreError>)
    ensures
        !(200 <= status < 300) <==> r == Err::<String, StoreError>(StoreError::HttpError),
        200 <= status < 300 ==> ((r is Err) <==> spec_extract_bin_id(body@) is None),
        200 <= status < 300 && r is Err ==> r->Err_0 == StoreError::MalformedResponse,
        r matches Ok(id) ==> spec_extract_bin_id(body@) == Some(id@),
{
    if !(200 <= status && status < 300) {
        return Err(StoreError::HttpError);
    }
    let s = str_chars(body);
    let pat = str_chars("\"metadata\":{\"id\":\"");
    match crate::text::find_first_sub(&s, &pat) {
        None => Err(StoreError::MalformedResponse),
        Some(f) => {
            let n = s.len();
            proof {
                crate::text::lemma_find_sub(s@, pat@);
                assert(f + pat@.len() <= n);
            }
            let rest = crate::text::subvec(&s, f + pat.len(), n);
            let q = crate::text::find_sep(&rest, 0, crate::text::Sep::Quote);
            proof {
                assert(rest@.skip(0) =~= rest@);
                assert(rest@ =~= s@.skip(f + pat@.len()));
            }
            if q == rest.len() {
                Err(StoreError::MalformedResponse)
            } else {
                let idv = crate::text::subvec(&rest, 0, q);
                proof {
                    assert(idv@ =~= rest@.take(q as int));
                }
                Ok(chars_string(&idv))
            }
        },
    }
}

} // verus!
