use vstd::prelude::*;
use vstd::string::StrSliceExecFns;
use vstd::string::StringExecFns;
use vstd::utf8::char_u32_cast;
use vstd::utf8::encode_scalar;
use vstd::utf8::encode_utf8;
use vstd::utf8::has_width_1_encoding;

use crate::base64::base64_encode;
use crate::base64::lemma_base64_encode_ascii;
use crate::base64::lemma_base64_round_trip;
use crate::base64::spec_base64_decode;
use crate::base64::spec_base64_encode;
use crate::request::ReqView;
use crate::request::Request;

verus! {

/// The characters of an ASCII byte sequence, one character per byte.
pub open spec fn ascii_chars(bytes: Seq<u8>) -> Seq<char> {
    Seq::new(bytes.len(), |i: int| bytes[i] as char)
}

/// The bytes whose base64 form carries HTTP Basic credentials: the user, a
/// `:` separator, and the token, each in UTF-8 (RFC 7617).
pub open spec fn basic_credential(user: Seq<char>, token: Seq<char>) -> Seq<u8> {
    encode_utf8(user) + seq![58u8] + encode_utf8(token)
}

/// The whole `Authorization` header value a basic authorizer stamps.
pub open spec fn basic_header(user: Seq<char>, token: Seq<char>) -> Seq<char> {
    "Basic "@ + ascii_chars(spec_base64_encode(basic_credential(user, token)))
}

/// Stamps a pre-formatted bearer token: the stored value already carries the
/// `Bearer ` prefix, added once at construction, and `authorize_request` sets
/// the `Authorization` header to that value directly.
pub struct BearerTokenAuthorizer {
    /// Metadata only: it takes no part in forming the header value.
    pub token_key: String,
    /// The whole header value, `Bearer ` followed by the token.
    pub token_value: String,
}

/// Stamps HTTP Basic credentials: user and token are stored verbatim and
/// combined at authorization time.
pub struct BasicAuth {
    pub user: String,
    pub api_token: String,
}

/// One of the interchangeable credential-stamping strategies a client can
/// hold without knowing which scheme is in use.
pub enum Authorizer {
    Bearer(BearerTokenAuthorizer),
    Basic(BasicAuth),
}

impl Authorizer {
    /// The `Authorization` header value this authorizer stamps.
    pub open spec fn header(self) -> Seq<char> {
        match self {
            Authorizer::Bearer(a) => a.token_value@,
            Authorizer::Basic(a) => basic_header(a.user@, a.api_token@),
        }
    }
}

/// What authorizing does to a request: the URL stays as it was, and the
/// `Authorization` header becomes the authorizer's header value, whatever the
/// header held before.
pub open spec fn spec_authorize(a: Authorizer, q: ReqView) -> ReqView {
    ReqView { url: q.url, authorization: Some(a.header()) }
}

impl BearerTokenAuthorizer {
    /// Builds the header value `Bearer ` + `value` once; `key` is stored but
    /// never used in the header.
    pub fn new(key: &str, value: &str) -> (r: Self)
        ensures
            r.token_key@ == key@,
            r.token_value@ == "Bearer "@ + value@,
    {
        let mut token_value = "Bearer ".to_owned();
        token_value.append(value);
        BearerTokenAuthorizer { token_key: key.to_owned(), token_value }
    }

    /// Sets the `Authorization` header to the stored, pre-formatted value.
    pub fn authorize_request(&self, req: Request) -> (r: Request)
        ensures
            r@ == spec_authorize(Authorizer::Bearer(*self), req@),
    {
        Request { url: req.url, authorization: Some(self.token_value.clone()) }
    }
}

impl Clone for BearerTokenAuthorizer {
    /// An independent copy carrying the same key and header value.
    fn clone(&self) -> (res: Self)
        ensures
            res == *self,
    {
        BearerTokenAuthorizer {
            token_key: self.token_key.clone(),
            token_value: self.token_value.clone(),
        }
    }
}

impl BasicAuth {
    /// Stores the user and the token verbatim.
    pub fn new(user: &str, value: &str) -> (r: Self)
        ensures
            r.user@ == user@,
            r.api_token@ == value@,
    {
        BasicAuth { user: user.to_owned(), api_token: value.to_owned() }
    }

    /// Sets the `Authorization` header to `Basic ` followed by the base64
    /// form of `user:token` in UTF-8.
    pub fn authorize_request(&self, req: Request) -> (r: Request)
        ensures
            r@ == spec_authorize(Authorizer::Basic(*self), req@),
    {
        let mut cred = self.user.as_str().as_bytes_vec();
        cred.push(58);
        let mut token_bytes = self.api_token.as_str().as_bytes_vec();
        cred.append(&mut token_bytes);
        proof {
            assert(cred@ =~= basic_credential(self.user@, self.api_token@));
        }
        let encoded = base64_encode(&cred);
        proof {
            lemma_base64_encode_ascii(cred@);
        }
        let encoded_text = ascii_string(&encoded);
        let mut header = "Basic ".to_owned();
        header.append(encoded_text.as_str());
        proof {
            assert(header@ == basic_header(self.user@, self.api_token@));
        }
        Request { url: req.url, authorization: Some(header) }
    }
}

impl Clone for BasicAuth {
    /// An independent copy carrying the same user and token.
    fn clone(&self) -> (res: Self)
        ensures
            res == *self,
    {
        BasicAuth { user: self.user.clone(), api_token: self.api_token.clone() }
    }
}

impl Authorizer {
    /// Applies this authorizer's scheme to `req`: the request comes back with
    /// its `Authorization` header set and nothing else changed.
    pub fn authorize_request(&self, req: Request) -> (r: Request)
        ensures
            r@ == spec_authorize(*self, req@),
    {
        match self {
            Authorizer::Bearer(a) => a.authorize_request(req),
            Authorizer::Basic(a) => a.authorize_request(req),
        }
    }

    /// The computing half of a client's fetch: a GET request for `url` with
    /// this authorizer's credentials attached, ready to be sent.
    pub fn authorized_get(&self, url: String) -> (r: Request)
        ensures
            r@ == spec_authorize(*self, ReqView { url: url@, authorization: None }),
    {
        self.authorize_request(Request::get(url))
    }
}

impl Clone for Authorizer {
    /// An independent copy of the same strategy with the same credentials.
    fn clone(&self) -> (res: Self)
        ensures
            res == *self,
    {
        match self {
            Authorizer::Bearer(a) => Authorizer::Bearer(a.clone()),
            Authorizer::Basic(a) => Authorizer::Basic(a.clone()),
        }
    }
}

/// Relies on `String::from_utf8`: ASCII bytes decode to themselves, one
/// character per byte.
#[verifier::external_body]
fn ascii_string(bytes: &Vec<u8>) -> (r: String)
    requires
        forall|i: int| 0 <= i < bytes@.len() ==> bytes@[i] < 128,
    ensures
        r@ == ascii_chars(bytes@),
{
    String::from_utf8(bytes.clone()).unwrap_or_default()
}

/// Law: authorizing is idempotent — applying the same authorizer a second
/// time yields exactly the request the first application produced.
pub proof fn lemma_authorize_idempotent(a: Authorizer, q: ReqView)
    ensures
        spec_authorize(a, spec_authorize(a, q)) == spec_authorize(a, q),
{
}

/// Law: bearer authorization is deterministic — two authorizers built from
/// the same key and value stamp byte-identical headers on any two requests.
pub proof fn lemma_bearer_deterministic(
    a1: BearerTokenAuthorizer,
    a2: BearerTokenAuthorizer,
    key: Seq<char>,
    value: Seq<char>,
    q1: ReqView,
    q2: ReqView,
)
    requires
        a1.token_key@ == key,
        a1.token_value@ == "Bearer "@ + value,
        a2.token_key@ == key,
        a2.token_value@ == "Bearer "@ + value,
    ensures
        spec_authorize(Authorizer::Bearer(a1), q1).authorization == spec_authorize(
            Authorizer::Bearer(a2),
            q2,
        ).authorization,
{
}

/// Splits a byte sequence at its first `:` into the parts before and after,
/// or `None` if it has no `:`.
pub open spec fn split_at_colon(s: Seq<u8>) -> Option<(Seq<u8>, Seq<u8>)>
    decreases s.len(),
{
    if s.len() == 0 {
        None
    } else if s[0] == 58 {
        Some((Seq::empty(), s.drop_first()))
    } else {
        match split_at_colon(s.drop_first()) {
            Some(p) => Some((seq![s[0]] + p.0, p.1)),
            None => None,
        }
    }
}

proof fn lemma_split_at_colon(u: Seq<u8>, t: Seq<u8>)
    requires
        !u.contains(58u8),
    ensures
        split_at_colon(u + seq![58u8] + t) == Some((u, t)),
    decreases u.len(),
{
    let s = u + seq![58u8] + t;
    if u.len() == 0 {
        assert(s[0] == 58);
        assert(s.drop_first() =~= t);
        assert(Seq::<u8>::empty() =~= u);
    } else {
        assert(s[0] == u[0]);
        assert(u[0] != 58) by {
            if u[0] == 58 {
                assert(u.contains(58u8));
            }
        }
        assert(!u.drop_first().contains(58u8)) by {
            if u.drop_first().contains(58u8) {
                let i = choose|i: int|
                    0 <= i < u.drop_first().len() && u.drop_first()[i] == 58u8;
                assert(u[i + 1] == 58u8);
                assert(u.contains(58u8));
            }
        }
        lemma_split_at_colon(u.drop_first(), t);
        assert(s.drop_first() =~= u.drop_first() + seq![58u8] + t);
        assert(seq![s[0]] + u.drop_first() =~= u);
    }
}

/// The UTF-8 form of a text without `:` contains no `:` byte: an ASCII
/// character encodes to itself, and every byte of a longer encoding has its
/// high bit set.
proof fn lemma_no_colon_utf8(chars: Seq<char>)
    requires
        !chars.contains(':'),
    ensures
        !encode_utf8(chars).contains(58u8),
    decreases chars.len(),
{
    if chars.len() > 0 {
        let c0 = chars[0];
        let c = c0 as u32;
        assert(c0 != ':') by {
            if c0 == ':' {
                assert(chars.contains(':'));
            }
        }
        assert(c != 58) by {
            if c == 58 {
                char_u32_cast(c0, 58);
                char_u32_cast(':', 58);
            }
        }
        let front = encode_scalar(c);
        assert(forall|j: int| 0 <= j < front.len() ==> front[j] != 58u8) by {
            if has_width_1_encoding(c) {
                assert((c & 0x7F) as u8 != 58u8) by (bit_vector)
                    requires
                        c < 0x80 && c != 58,
                ;
            } else {
                assert((0xC0u8 | (((c >> 6) & 0x1F) as u8)) != 58u8) by (bit_vector);
                assert((0xE0u8 | (((c >> 12) & 0x0F) as u8)) != 58u8) by (bit_vector);
                assert((0xF0u8 | (((c >> 18) & 0x7) as u8)) != 58u8) by (bit_vector);
                assert((0x80u8 | ((c & 0x3F) as u8)) != 58u8) by (bit_vector);
                assert((0x80u8 | (((c >> 6) & 0x3F) as u8)) != 58u8) by (bit_vector);
                assert((0x80u8 | (((c >> 12) & 0x3F) as u8)) != 58u8) by (bit_vector);
            }
        }
        assert(!chars.drop_first().contains(':')) by {
            if chars.drop_first().contains(':') {
                let i = choose|i: int|
                    0 <= i < chars.drop_first().len() && chars.drop_first()[i] == ':';
                assert(chars[i + 1] == ':');
                assert(chars.contains(':'));
            }
        }
        lemma_no_colon_utf8(chars.drop_first());
        let rest = encode_utf8(chars.drop_first());
        assert(!(front + rest).contains(58u8)) by {
            if (front + rest).contains(58u8) {
                let i = choose|i: int|
                    0 <= i < (front + rest).len() && (front + rest)[i] == 58u8;
                if i < front.len() {
                    assert(front[i] == 58u8);
                } else {
                    assert(rest[i - front.len()] == 58u8);
                    assert(rest.contains(58u8));
                }
            }
        }
    }
}

/// Law: Basic credentials round-trip. Decoding the base64 payload of the
/// stamped header gives back the credential bytes, and splitting those at
/// their first colon recovers the user and the token exactly — provided the
/// user contains no `:`, as RFC 7617 requires of user-ids.
pub proof fn lemma_basic_credentials_round_trip(user: Seq<char>, token: Seq<char>)
    requires
        !user.contains(':'),
    ensures
        spec_base64_decode(spec_base64_encode(basic_credential(user, token))) == Some(
            basic_credential(user, token),
        ),
        split_at_colon(basic_credential(user, token)) == Some(
            (encode_utf8(user), encode_utf8(token)),
        ),
{
    lemma_base64_round_trip(basic_credential(user, token));
    lemma_no_colon_utf8(user);
    lemma_split_at_colon(encode_utf8(user), encode_utf8(token));
}

} // verus!
