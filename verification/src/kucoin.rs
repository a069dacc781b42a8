//! Kucoin REST requests: the credentials and settings, the string that a
//! request signs, its HMAC-SHA256 signature (hex, then base64), the headers
//! that carry it, and the URLs of the REST and websocket endpoints.
use vstd::prelude::*;
use vstd::utf8::encode_utf8;
use data_encoding::BASE64;
use hmac::{Hmac, Mac};
use sha2::Sha256;
use url::Url;

verus! {

/// The API credentials of a Kucoin account.
#[derive(Debug)]
pub struct KucoinCreds {
    pub api_key: String,
    pub api_passphrase: String,
    pub api_secret: String,
    pub api_key_version: String,
}

/// The kinds of request the bot makes.
#[derive(Debug, Clone, Copy, PartialEq, Eq, Structural)]
pub enum KucoinRequestType {
    Get,
    Post,
    OrderPost,
    WebsocketToken,
}

/// The Kucoin service to talk to.
#[derive(Debug, Clone, Copy, PartialEq, Eq, Structural)]
pub enum KucoinEnviroment {
    Live,
    Sandbox,
}

/// A websocket server that a token request lists.
#[allow(non_snake_case)]
#[derive(Debug)]
pub struct KucoinResponseL2Token {
    pub endpoint: String,
    pub encrypt: bool,
    pub pingInterval: u64,
    pub pingTimeout: u64,
}

/// The HTTP method of a request: `GET` for reads, `POST` for the others.
pub open spec fn method_name(method: KucoinRequestType) -> Seq<char> {
    match method {
        KucoinRequestType::Get => "GET"@,
        _ => "POST"@,
    }
}

/// The HTTP method of a request.
pub fn method_str(method: &KucoinRequestType) -> (r: &'static str)
    ensures
        r@ == method_name(*method),
{
    match method {
        KucoinRequestType::Get => "GET",
        KucoinRequestType::Post => "POST",
        KucoinRequestType::OrderPost => "POST",
        KucoinRequestType::WebsocketToken => "POST",
    }
}

/// The host of the service.
pub open spec fn host_name(env: KucoinEnviroment) -> Seq<char> {
    match env {
        KucoinEnviroment::Live => "api.kucoin.com"@,
        KucoinEnviroment::Sandbox => "openapi-sandbox.kucoin.com"@,
    }
}

/// The host of the service.
pub fn base_url(env: &KucoinEnviroment) -> (r: &'static str)
    ensures
        r@ == host_name(*env),
{
    match env {
        KucoinEnviroment::Live => "api.kucoin.com",
        KucoinEnviroment::Sandbox => "openapi-sandbox.kucoin.com",
    }
}

/// The text a request signs: the timestamp, the method, the endpoint, and the
/// JSON body when there is one, written together.
pub open spec fn payload_text(
    timestamp: Seq<char>,
    method: KucoinRequestType,
    endpoint: Seq<char>,
    body: Option<Seq<char>>,
) -> Seq<char> {
    let head = timestamp + method_name(method) + endpoint;
    match body {
        Some(b) => head + b,
        None => head,
    }
}

pub open spec fn opt_view(body: Option<&str>) -> Option<Seq<char>> {
    match body {
        Some(b) => Some(b@),
        None => None,
    }
}

/// The text a request signs.
pub fn payload_string(timestamp: &str, method: &KucoinRequestType, endpoint: &str, body: Option<&str>) -> (r: String)
    ensures
        r@ == payload_text(timestamp@, *method, endpoint@, opt_view(body)),
{
    let text = String::from_str(timestamp).concat(method_str(method)).concat(endpoint);
    match body {
        Some(b) => text.concat(b),
        None => text,
    }
}

/// What HMAC-SHA256 (`hmac` over `sha2`) gives for a key and a message.
pub uninterp spec fn hmac_sha256(key: Seq<u8>, message: Seq<u8>) -> Seq<u8>;

/// The character of a 6-bit value in the standard base64 alphabet
/// (`A`-`Z`, `a`-`z`, `0`-`9`, `+`, `/`).
pub open spec fn base64_digit(n: int) -> char {
    if n < 26 {
        (65 + n) as char
    } else if n < 52 {
        (97 + n - 26) as char
    } else if n < 62 {
        (48 + n - 52) as char
    } else if n == 62 {
        '+'
    } else {
        '/'
    }
}

/// Standard base64 with padding (RFC 4648): each three bytes become four
/// characters of six bits each, high bits first; a last group of one or two
/// bytes is padded with `=`.
pub open spec fn base64_text(bytes: Seq<u8>) -> Seq<char>
    decreases bytes.len(),
{
    if bytes.len() == 0 {
        seq![]
    } else if bytes.len() == 1 {
        let b0 = bytes[0] as int;
        seq![base64_digit(b0 / 4), base64_digit((b0 % 4) * 16), '=', '=']
    } else if bytes.len() == 2 {
        let (b0, b1) = (bytes[0] as int, bytes[1] as int);
        seq![base64_digit(b0 / 4), base64_digit((b0 % 4) * 16 + b1 / 16), base64_digit((b1 % 16) * 4), '=']
    } else {
        let (b0, b1, b2) = (bytes[0] as int, bytes[1] as int, bytes[2] as int);
        seq![
            base64_digit(b0 / 4),
            base64_digit((b0 % 4) * 16 + b1 / 16),
            base64_digit((b1 % 16) * 4 + b2 / 64),
            base64_digit(b2 % 64),
        ] + base64_text(bytes.subrange(3, bytes.len() as int))
    }
}

/// `Hmac::<Sha256>::new_from_slice`, `update`, `finalize`: the 32-byte tag of
/// `message` under `key`. The crate accepts keys of any length, so the key
/// never fails; which bytes come out is left to the name.
#[verifier::external_body]
fn hmac_sha256_tag(key: &[u8], message: &[u8]) -> (r: Vec<u8>)
    ensures
        r@ == hmac_sha256(key@, message@),
        r@.len() == 32,
{
    let mut mac = <Hmac<Sha256> as Mac>::new_from_slice(key).unwrap();
    mac.update(message);
    mac.finalize().into_bytes().to_vec()
}

/// `data_encoding::BASE64.encode`: the padded standard base64 text of
/// `bytes` (RFC 4648), four characters for every three bytes begun. The
/// crate panics only for inputs longer than `usize::MAX / 512` bytes, which
/// `requires` leaves out.
#[verifier::external_body]
fn base64_encode(bytes: &[u8]) -> (r: String)
    requires
        bytes@.len() <= usize::MAX / 512,
    ensures
        r@ == base64_text(bytes@),
        r@.len() == 4 * ((bytes@.len() + 2) / 3),
{
    BASE64.encode(bytes)
}

/// The ASCII code of the lowercase hex digit `n` (`0`-`9`, `a`-`f`).
pub open spec fn hex_code(n: int) -> u8 {
    if n < 10 {
        (48 + n) as u8
    } else {
        (87 + n) as u8
    }
}

/// The bytes written as lowercase hex, two digits each, high digit first, as
/// the ASCII codes of the digits (what `format!("{:x}", ..)` prints for a
/// digest).
pub open spec fn hex_codes(bytes: Seq<u8>) -> Seq<u8>
    decreases bytes.len(),
{
    if bytes.len() == 0 {
        seq![]
    } else {
        hex_codes(bytes.drop_last()) + seq![hex_code(bytes.last() as int / 16), hex_code(bytes.last() as int % 16)]
    }
}

proof fn lemma_hex_codes_len(bytes: Seq<u8>)
    ensures
        hex_codes(bytes).len() == 2 * bytes.len(),
    decreases bytes.len(),
{
    if bytes.len() > 0 {
        lemma_hex_codes_len(bytes.drop_last());
    }
}

/// The lowercase hex digits of `bytes`, as ASCII codes.
pub fn lower_hex(bytes: &[u8]) -> (r: Vec<u8>)
    ensures
        r@ == hex_codes(bytes@),
        r@.len() == 2 * bytes@.len(),
{
    let mut out: Vec<u8> = Vec::new();
    let mut k: usize = 0;
    while k < bytes.len()
        invariant
            k <= bytes@.len(),
            out@ == hex_codes(bytes@.subrange(0, k as int)),
        decreases bytes@.len() - k,
    {
        let b = bytes[k];
        let hi = b / 16;
        let lo = b % 16;
        let hc: u8 = if hi < 10 { 48 + hi } else { 87 + hi };
        let lc: u8 = if lo < 10 { 48 + lo } else { 87 + lo };
        assert(bytes@.subrange(0, k + 1).drop_last() =~= bytes@.subrange(0, k as int));
        assert(bytes@.subrange(0, k + 1).last() == b);
        out.push(hc);
        out.push(lc);
        k = k + 1;
        assert(out@ =~= hex_codes(bytes@.subrange(0, k as int)));
    }
    assert(bytes@.subrange(0, bytes@.len() as int) =~= bytes@);
    proof {
        lemma_hex_codes_len(bytes@);
    }
    out
}

/// The signature Kucoin expects: HMAC-SHA256 of the message under the secret
/// (both as UTF-8), written as lowercase hex, and that text in base64.
pub open spec fn signature(secret: Seq<char>, message: Seq<char>) -> Seq<char> {
    base64_text(hex_codes(hmac_sha256(encode_utf8(secret), encode_utf8(message))))
}

/// Signs `message` with `secret`.
pub fn sign(secret: &str, message: &str) -> (r: String)
    ensures
        r@ == signature(secret@, message@),
        r@.len() == 88,
{
    let tag = hmac_sha256_tag(secret.as_bytes(), message.as_bytes());
    let hex = lower_hex(tag.as_slice());
    base64_encode(hex.as_slice())
}

/// What `ring::hmac::sign` with `HMAC_SHA256` gives for a key and a message.
pub uninterp spec fn ring_hmac_sha256(key: Seq<u8>, message: Seq<u8>) -> Seq<u8>;

/// `ring::hmac::Key::new(HMAC_SHA256, key)` and `ring::hmac::sign`: the
/// 32-byte tag of `message` under `key`. The crate panics on inputs longer
/// than SHA-256 can count, far beyond the bounds that `requires` sets; which
/// bytes come out is left to the name.
#[verifier::external_body]
fn ring_hmac_tag(key: &[u8], message: &[u8]) -> (r: Vec<u8>)
    requires
        key@.len() <= 0x1000_0000_0000_0000,
        message@.len() <= 0x1000_0000_0000_0000,
    ensures
        r@ == ring_hmac_sha256(key@, message@),
        r@.len() == 32,
{
    let signing_key = ring::hmac::Key::new(ring::hmac::HMAC_SHA256, key);
    ring::hmac::sign(&signing_key, message).as_ref().to_vec()
}

/// The signature of the first Kucoin client: the HMAC-SHA256 tag itself
/// (computed with `ring`) in base64, with no hex step.
pub open spec fn tag_signature(secret: Seq<char>, message: Seq<char>) -> Seq<char> {
    base64_text(ring_hmac_sha256(encode_utf8(secret), encode_utf8(message)))
}

/// Signs `message` with `secret`, base64 over the raw tag.
pub fn sign_tag(secret: &str, message: &str) -> (r: String)
    requires
        encode_utf8(secret@).len() <= 0x1000_0000_0000_0000,
        encode_utf8(message@).len() <= 0x1000_0000_0000_0000,
    ensures
        r@ == tag_signature(secret@, message@),
        r@.len() == 44,
{
    let tag = ring_hmac_tag(secret.as_bytes(), message.as_bytes());
    base64_encode(tag.as_slice())
}

/// The headers of a signed request, in the order they are set.
pub open spec fn headers_view(v: Seq<(String, String)>) -> Seq<(Seq<char>, Seq<char>)> {
    v.map_values(|h: (String, String)| (h.0@, h.1@))
}

/// The headers that authenticate a request: the key, the signature of the
/// request's text, the timestamp, the signed passphrase, the key version,
/// and the charset.
pub open spec fn auth_headers(creds: KucoinCreds, timestamp: Seq<char>, payload: Seq<char>) -> Seq<
    (Seq<char>, Seq<char>),
> {
    seq![
        ("kc-api-key"@, creds.api_key@),
        ("kc-api-sign"@, signature(creds.api_secret@, payload)),
        ("kc-api-timestamp"@, timestamp),
        ("kc-api-passphrase"@, signature(creds.api_secret@, creds.api_passphrase@)),
        ("kc-api-key-version"@, creds.api_key_version@),
        ("charset"@, "utf-8"@),
    ]
}

fn header(name: &str, value: &str) -> (r: (String, String))
    ensures
        r.0@ == name@,
        r.1@ == value@,
{
    (String::from_str(name), String::from_str(value))
}

/// The headers of a request made at `timestamp` (milliseconds since the
/// epoch, as text) with `method` on `endpoint`, carrying `body` if any.
pub fn get_headers(
    creds: &KucoinCreds,
    timestamp: &str,
    method: &KucoinRequestType,
    endpoint: &str,
    body: Option<&str>,
) -> (r: Vec<(String, String)>)
    ensures
        headers_view(r@) == auth_headers(*creds, timestamp@, payload_text(timestamp@, *method, endpoint@, opt_view(body))),
{
    let payload = payload_string(timestamp, method, endpoint, body);
    let signed_payload = sign(creds.api_secret.as_str(), payload.as_str());
    let signed_passphrase = sign(creds.api_secret.as_str(), creds.api_passphrase.as_str());
    let mut headers: Vec<(String, String)> = Vec::new();
    headers.push(header("kc-api-key", creds.api_key.as_str()));
    headers.push(header("kc-api-sign", signed_payload.as_str()));
    headers.push(header("kc-api-timestamp", timestamp));
    headers.push(header("kc-api-passphrase", signed_passphrase.as_str()));
    headers.push(header("kc-api-key-version", creds.api_key_version.as_str()));
    headers.push(header("charset", "utf-8"));
    assert(headers_view(headers@) =~= auth_headers(
        *creds,
        timestamp@,
        payload_text(timestamp@, *method, endpoint@, opt_view(body)),
    ));
    headers
}

/// What `url::Url::parse` makes of a text: the URL as the crate writes it
/// back (`as_str`), or `None` when the text is not a URL.
pub uninterp spec fn parsed_url(text: Seq<char>) -> Option<Seq<char>>;

/// `url::Url::parse` followed by `as_str`: the URL written back by the
/// crate, or `None` when parsing fails; which text comes out is left to the
/// name.
#[verifier::external_body]
fn parse_url(text: &str) -> (r: Option<String>)
    ensures
        match r {
            Some(u) => parsed_url(text@) == Some(u@),
            None => parsed_url(text@) is None,
        },
{
    match Url::parse(text) {
        Ok(u) => Some(u.as_str().to_owned()),
        Err(_) => None,
    }
}

/// The address of an endpoint of the service: `https://`, the host, and the
/// endpoint's path.
pub open spec fn endpoint_text(env: KucoinEnviroment, endpoint: Seq<char>) -> Seq<char> {
    "https://"@ + host_name(env) + endpoint
}

/// The URL of an endpoint of the service, as parsed; `None` when the text is
/// not a URL.
pub fn request_url(env: &KucoinEnviroment, endpoint: &str) -> (r: Option<String>)
    ensures
        match r {
            Some(u) => parsed_url(endpoint_text(*env, endpoint@)) == Some(u@),
            None => parsed_url(endpoint_text(*env, endpoint@)) is None,
        },
{
    let text = String::from_str("https://").concat(base_url(env)).concat(endpoint);
    parse_url(text.as_str())
}

/// The address of a websocket server with the token that admits to it.
pub open spec fn websocket_text(endpoint: Seq<char>, token: Seq<char>) -> Seq<char> {
    endpoint + "?token="@ + token
}

/// The URL of the websocket server `endpoint` with `token`, as parsed; `None`
/// when the text is not a URL.
pub fn websocket_url(endpoint: &str, token: &str) -> (r: Option<String>)
    ensures
        match r {
            Some(u) => parsed_url(websocket_text(endpoint@, token@)) == Some(u@),
            None => parsed_url(websocket_text(endpoint@, token@)) is None,
        },
{
    let text = String::from_str(endpoint).concat("?token=").concat(token);
    parse_url(text.as_str())
}

/// A request signs its timestamp, then `GET` for a read and `POST` for every
/// other kind of request, then its endpoint, then its body when it has one.
pub proof fn law_signed_text(
    timestamp: Seq<char>,
    method: KucoinRequestType,
    endpoint: Seq<char>,
    body: Option<Seq<char>>,
)
    ensures
        payload_text(timestamp, method, endpoint, body) == timestamp + (if method == KucoinRequestType::Get {
            "GET"@
        } else {
            "POST"@
        }) + endpoint + match body {
            Some(b) => b,
            None => Seq::<char>::empty(),
        },
{
    let head = timestamp + method_name(method) + endpoint;
    if body is None {
        assert(head + Seq::<char>::empty() =~= head);
    }
}

/// The headers of a request, in order: the API key; the signature, under the
/// secret, of the timestamp, method, endpoint and body; the timestamp; the
/// signature, under the same secret, of the passphrase; the key version; and
/// the charset `utf-8`.
pub proof fn law_request_headers(
    creds: KucoinCreds,
    timestamp: Seq<char>,
    method: KucoinRequestType,
    endpoint: Seq<char>,
    body: Option<Seq<char>>,
)
    ensures
        ({
            let h = auth_headers(creds, timestamp, payload_text(timestamp, method, endpoint, body));
            let text = timestamp + (if method == KucoinRequestType::Get {
                "GET"@
            } else {
                "POST"@
            }) + endpoint + match body {
                Some(b) => b,
                None => Seq::<char>::empty(),
            };
            &&& h.len() == 6
            &&& h[0] == ("kc-api-key"@, creds.api_key@)
            &&& h[1] == ("kc-api-sign"@, signature(creds.api_secret@, text))
            &&& h[2] == ("kc-api-timestamp"@, timestamp)
            &&& h[3] == ("kc-api-passphrase"@, signature(creds.api_secret@, creds.api_passphrase@))
            &&& h[4] == ("kc-api-key-version"@, creds.api_key_version@)
            &&& h[5] == ("charset"@, "utf-8"@)
        }),
{
    law_signed_text(timestamp, method, endpoint, body);
}

/// Written as lowercase hex, byte `i` becomes the characters at `2i` and
/// `2i + 1`: the digit of its high four bits, then of its low four bits,
/// `0`-`9` as ASCII 48-57 and `a`-`f` as ASCII 97-102.
pub proof fn law_lower_hex_digits(bytes: Seq<u8>)
    ensures
        hex_codes(bytes).len() == 2 * bytes.len(),
        forall|i: int|
            0 <= i < bytes.len() ==> {
                let hi = (#[trigger] bytes[i]) as int / 16;
                let lo = bytes[i] as int % 16;
                &&& hex_codes(bytes)[2 * i] as int == if hi < 10 { 48 + hi } else { 97 + hi - 10 }
                &&& hex_codes(bytes)[2 * i + 1] as int == if lo < 10 { 48 + lo } else { 97 + lo - 10 }
            },
    decreases bytes.len(),
{
    lemma_hex_codes_len(bytes);
    if bytes.len() > 0 {
        let init = bytes.drop_last();
        law_lower_hex_digits(init);
        lemma_hex_codes_len(init);
        assert forall|i: int|
            0 <= i < bytes.len() implies {
                let hi = (#[trigger] bytes[i]) as int / 16;
                let lo = bytes[i] as int % 16;
                &&& hex_codes(bytes)[2 * i] as int == if hi < 10 { 48 + hi } else { 97 + hi - 10 }
                &&& hex_codes(bytes)[2 * i + 1] as int == if lo < 10 { 48 + lo } else { 97 + lo - 10 }
            } by {
            if i < init.len() {
                assert(init[i] == bytes[i]);
                assert(hex_codes(bytes)[2 * i] == hex_codes(init)[2 * i]);
                assert(hex_codes(bytes)[2 * i + 1] == hex_codes(init)[2 * i + 1]);
            }
        }
    }
}

/// A request goes to `https://`, then `api.kucoin.com` on the live service
/// or `openapi-sandbox.kucoin.com` on the sandbox, then the endpoint; a
/// websocket connects to its endpoint with `?token=` and the token appended;
/// the requests of every kind but reads are sent as `POST`.
pub proof fn law_service_addresses(env: KucoinEnviroment, endpoint: Seq<char>, token: Seq<char>)
    ensures
        endpoint_text(env, endpoint) == "https://"@ + (if env == KucoinEnviroment::Live {
            "api.kucoin.com"@
        } else {
            "openapi-sandbox.kucoin.com"@
        }) + endpoint,
        websocket_text(endpoint, token) == endpoint + "?token="@ + token,
        method_name(KucoinRequestType::Post) == "POST"@ && method_name(KucoinRequestType::OrderPost) == "POST"@
            && method_name(KucoinRequestType::WebsocketToken) == "POST"@ && method_name(KucoinRequestType::Get)
            == "GET"@,
{
}

/// The code of a response that went through.
pub open spec fn success_code() -> u64 {
    200000
}

/// A response body reports success by its code.
pub fn response_ok(code: u64) -> (r: bool)
    ensures
        r == (code == success_code()),
{
    code == 200000
}

/// A copy of the credentials.
pub fn clone_creds(creds: &KucoinCreds) -> (r: KucoinCreds)
    ensures
        r.api_key@ == creds.api_key@,
        r.api_passphrase@ == creds.api_passphrase@,
        r.api_secret@ == creds.api_secret@,
        r.api_key_version@ == creds.api_key_version@,
{
    KucoinCreds {
        api_key: String::from_str(creds.api_key.as_str()),
        api_passphrase: String::from_str(creds.api_passphrase.as_str()),
        api_secret: String::from_str(creds.api_secret.as_str()),
        api_key_version: String::from_str(creds.api_key_version.as_str()),
    }
}

} // verus!
