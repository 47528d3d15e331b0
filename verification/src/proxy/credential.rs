//! The credential of one execution.
use vstd::prelude::*;
use vstd::utf8::{encode_utf8, is_ascii_chars};
use crate::text::{decimal, digit, digit_char, digit_value, push_numeral, string_of};

verus! {

/// `rand::rngs::OsRng` fills the bytes from the system's random source, or
/// fails. Nothing is known of the bytes.
#[verifier::external_body]
fn random_secret() -> (r: Option<[u8; 32]>) {
    let mut secret = [0u8; 32];
    match rand::RngCore::try_fill_bytes(&mut rand::rngs::OsRng, &mut secret) {
        Ok(()) => Some(secret),
        Err(_) => None,
    }
}

/// The Base64 digit for six bits.
pub open spec fn sextet(v: int) -> char {
    if v < 26 {
        (v + 'A' as int) as char
    } else if v < 52 {
        (v - 26 + 'a' as int) as char
    } else if v < 62 {
        (v - 52 + '0' as int) as char
    } else if v == 62 {
        '+'
    } else {
        '/'
    }
}

/// `b` in Base64, with padding.
pub open spec fn base64_of(b: Seq<u8>) -> Seq<char>
    decreases b.len(),
{
    if b.len() == 0 {
        Seq::empty()
    } else if b.len() == 1 {
        let x = b[0] as int;
        seq![sextet(x / 4), sextet(x % 4 * 16), '=', '=']
    } else if b.len() == 2 {
        let x = b[0] as int;
        let y = b[1] as int;
        seq![sextet(x / 4), sextet(x % 4 * 16 + y / 16), sextet(y % 16 * 4), '=']
    } else {
        let x = b[0] as int;
        let y = b[1] as int;
        let z = b[2] as int;
        seq![
            sextet(x / 4),
            sextet(x % 4 * 16 + y / 16),
            sextet(y % 16 * 4 + z / 64),
            sextet(z % 64),
        ] + base64_of(b.skip(3))
    }
}

/// `Engine::encode` of the standard engine writes Base64 in the standard
/// alphabet, with padding. It panics where the length of the text would not fit
/// a `usize`.
#[verifier::external_body]
fn base64(b: &[u8]) -> (r: String)
    requires
        b@.len() <= 0x4000_0000,
    ensures
        r@ == base64_of(b@),
{
    base64::Engine::encode(&base64::engine::general_purpose::STANDARD, b)
}

/// `ConstantTimeEq::ct_eq` of two byte slices tells whether they have the same
/// length and the same bytes.
#[verifier::external_body]
pub(crate) fn same_secret(a: &[u8], b: &[u8]) -> (r: bool)
    ensures
        r == (a@ == b@),
{
    bool::from(subtle::ConstantTimeEq::ct_eq(a, b))
}

proof fn lemma_sextet_injective(v: int, w: int)
    requires
        0 <= v < 64,
        0 <= w < 64,
        sextet(v) == sextet(w),
    ensures
        v == w,
{
}

proof fn lemma_sextet_not_padding(v: int)
    requires
        0 <= v < 64,
    ensures
        sextet(v) != '=',
{
}

/// Different bytes have different Base64.
pub proof fn lemma_base64_injective(a: Seq<u8>, b: Seq<u8>)
    requires
        base64_of(a) == base64_of(b),
    ensures
        a == b,
    decreases a.len(),
{
    let s = base64_of(a);
    let t = base64_of(b);
    assert(a.len() > 0 ==> s.len() >= 4);
    assert(b.len() > 0 ==> t.len() >= 4);
    if a.len() == 0 || b.len() == 0 {
        assert(a =~= b);
    } else {
        let x = a[0] as int;
        let u = b[0] as int;
        let y = if a.len() > 1 {
            a[1] as int
        } else {
            0
        };
        let v = if b.len() > 1 {
            b[1] as int
        } else {
            0
        };
        let z = if a.len() > 2 {
            a[2] as int
        } else {
            0
        };
        let w = if b.len() > 2 {
            b[2] as int
        } else {
            0
        };
        assert(s[0] == sextet(x / 4) && t[0] == sextet(u / 4));
        assert(s[1] == sextet(x % 4 * 16 + y / 16) && t[1] == sextet(u % 4 * 16 + v / 16));
        lemma_sextet_injective(x / 4, u / 4);
        lemma_sextet_injective(x % 4 * 16 + y / 16, u % 4 * 16 + v / 16);
        lemma_sextet_not_padding(y % 16 * 4 + z / 64);
        lemma_sextet_not_padding(v % 16 * 4 + w / 64);
        lemma_sextet_not_padding(z % 64);
        lemma_sextet_not_padding(w % 64);
        assert(s[2] == if a.len() > 1 {
            sextet(y % 16 * 4 + z / 64)
        } else {
            '='
        });
        assert(t[2] == if b.len() > 1 {
            sextet(v % 16 * 4 + w / 64)
        } else {
            '='
        });
        assert(s[3] == if a.len() > 2 {
            sextet(z % 64)
        } else {
            '='
        });
        assert(t[3] == if b.len() > 2 {
            sextet(w % 64)
        } else {
            '='
        });
        if a.len() > 1 {
            lemma_sextet_injective(y % 16 * 4 + z / 64, v % 16 * 4 + w / 64);
        }
        if a.len() > 2 {
            lemma_sextet_injective(z % 64, w % 64);
            assert(s.skip(4) =~= base64_of(a.skip(3)));
            assert(t.skip(4) =~= base64_of(b.skip(3)));
            lemma_base64_injective(a.skip(3), b.skip(3));
            assert(a.len() == b.len());
            assert forall|i: int| 0 <= i < a.len() implies a[i] == b[i] by {
                if i >= 3 {
                    assert(a.skip(3)[i - 3] == b.skip(3)[i - 3]);
                }
            }
        }
        assert(a =~= b);
    }
}

/// Two hexadecimal digits for each byte.
pub open spec fn hex_of(b: Seq<u8>) -> Seq<char> {
    Seq::new(
        2 * b.len(),
        |i: int|
            digit(
                if i % 2 == 0 {
                    b[i / 2] as int / 16
                } else {
                    b[i / 2] as int % 16
                },
            ),
    )
}

/// What authorizes one execution at its proxy. Never log it.
pub struct Credential {
    text: String,
}

impl View for Credential {
    type V = Seq<char>;

    closed spec fn view(&self) -> Seq<char> {
        self.text@
    }
}

/// The address of a proxy, with the credential.
pub open spec fn url_of(credential: Seq<char>, port: nat) -> Seq<char> {
    "http://world:"@ + credential + "@127.0.0.1:"@ + decimal(port)
}

/// The value of the `Proxy-Authorization` header.
pub open spec fn authorization_of(credential: Seq<char>) -> Seq<char> {
    "Basic "@ + base64_of(encode_utf8("world:"@ + credential))
}

impl Credential {
    #[verifier::type_invariant]
    spec fn is_hex(self) -> bool {
        self.text@.len() == 64 && is_ascii_chars(self.text@)
    }

    /// The credential for a secret.
    pub fn from_secret(secret: &[u8; 32]) -> (r: Credential)
        ensures
            r@ == hex_of(secret@),
    {
        let mut t: Vec<char> = Vec::new();
        let mut i: usize = 0;
        while i < 32
            invariant
                i <= 32,
                t@ == hex_of(secret@.take(i as int)),
            decreases 32 - i,
        {
            let ghost before = t@;
            let b = secret[i];
            t.push(digit_char(b / 16));
            t.push(digit_char(b % 16));
            i = i + 1;
            proof {
                let more = hex_of(secret@.take(i as int));
                assert forall|k: int| 0 <= k < more.len() implies t@[k] == #[trigger] more[k] by {
                    if k < before.len() {
                        assert(before[k] == hex_of(secret@.take(i - 1))[k]);
                    }
                }
                assert(t@ =~= more);
            }
        }
        proof {
            assert(secret@.take(32) =~= secret@);
            assert forall|k: int| 0 <= k < t@.len() implies '\0' <= #[trigger] t@[k]
                <= '\u{7f}' by {
                assert(t@[k] == hex_of(secret@)[k]);
            }
        }
        Credential { text: string_of(&t) }
    }

    /// A credential from the system's random source, if it has one.
    pub fn generate() -> (r: Option<Credential>)
        ensures
            r matches Some(c) ==> exists|secret: [u8; 32]| c@ == #[trigger] hex_of(secret@),
    {
        match random_secret() {
            Some(secret) => Some(Credential::from_secret(&secret)),
            None => None,
        }
    }

    /// The address of the proxy at `port`, with the credential. Never log this
    /// value.
    pub fn url(&self, port: u16) -> (r: String)
        ensures
            r@ == url_of(self@, port as nat),
    {
        let mut r = String::from_str("http://world:");
        r.append(self.text.as_str());
        r.append("@127.0.0.1:");
        let mut t: Vec<char> = Vec::new();
        push_numeral(&mut t, port as u64, 10);
        proof {
            assert(t@ =~= decimal(port as nat));
        }
        r.append(string_of(&t).as_str());
        r
    }

    /// The value of the `Proxy-Authorization` header.
    pub fn authorization(&self) -> (r: String)
        ensures
            r@ == authorization_of(self@),
    {
        proof {
            use_type_invariant(self);
        }
        let mut user = String::from_str("world:");
        user.append(self.text.as_str());
        proof {
            reveal_strlit("world:");
            assert(user@.len() == 70);
            assert(is_ascii_chars(user@)) by {
                assert forall|i: int| 0 <= i < user@.len() implies '\0' <= #[trigger] user@[i]
                    <= '\u{7f}' by {
                    if i >= 6 {
                        assert(user@[i] == self.text@[i - 6]);
                    }
                }
            }
            vstd::utf8::is_ascii_chars_encode_utf8(user@);
        }
        let mut r = String::from_str("Basic ");
        r.append(base64(user.as_str().as_bytes()).as_str());
        r
    }
}

/// Credentials of different executions are not interchangeable: they have
/// different authorizations.
pub proof fn law_credentials_not_interchangeable(a: Seq<char>, b: Seq<char>)
    requires
        authorization_of(a) == authorization_of(b),
    ensures
        a == b,
{
    let ua = "world:"@ + a;
    let ub = "world:"@ + b;
    let basic = "Basic "@;
    let n = basic.len() as int;
    assert(authorization_of(a).skip(n) =~= base64_of(encode_utf8(ua)));
    assert(authorization_of(b).skip(n) =~= base64_of(encode_utf8(ub)));
    lemma_base64_injective(encode_utf8(ua), encode_utf8(ub));
    vstd::utf8::encode_utf8_decode_utf8(ua);
    vstd::utf8::encode_utf8_decode_utf8(ub);
    let m = "world:"@.len() as int;
    assert(ua.skip(m) =~= a);
    assert(ub.skip(m) =~= b);
}

/// A credential spells its secret: two small hexadecimal digits stand for each
/// byte, so that different secrets have different credentials.
pub proof fn law_credential_spells_secret(b: Seq<u8>, i: int)
    requires
        0 <= i < b.len(),
    ensures
        hex_of(b).len() == 2 * b.len(),
        16 * digit_value(hex_of(b)[2 * i]) + digit_value(hex_of(b)[2 * i + 1]) == b[i],
        !('A' <= hex_of(b)[2 * i] <= 'Z') && !('A' <= hex_of(b)[2 * i + 1] <= 'Z'),
        digit_value(hex_of(b)[2 * i]) < 16 && digit_value(hex_of(b)[2 * i + 1]) < 16,
{
    assert((2 * i) % 2 == 0 && (2 * i) / 2 == i);
    assert((2 * i + 1) % 2 == 1 && (2 * i + 1) / 2 == i);
}

/// What a character stands for as a Base64 digit, if it is one.
pub open spec fn six_bits(c: char) -> Option<int> {
    if 'A' <= c <= 'Z' {
        Some(c as int - 65)
    } else if 'a' <= c <= 'z' {
        Some(c as int - 71)
    } else if '0' <= c <= '9' {
        Some(c as int + 4)
    } else if c == '+' {
        Some(62)
    } else if c == '/' {
        Some(63)
    } else {
        None
    }
}

/// Base64 writes three bytes as four digits that stand for the same bits, and
/// fills up what is left of one or two bytes with zero bits and equals signs.
pub proof fn law_base64_keeps_bits(x: u8, y: u8, z: u8, rest: Seq<u8>)
    ensures
        ({
            let three = base64_of(seq![x, y, z] + rest);
            let two = base64_of(seq![x, y]);
            let one = base64_of(seq![x]);
            let bits = |a: char, b: char, c: char, d: char|
                six_bits(a)->0 * 262144 + six_bits(b)->0 * 4096 + six_bits(c)->0 * 64 + six_bits(
                    d,
                )->0;
            &&& three.len() == 4 + base64_of(rest).len()
            &&& forall|i: int| 0 <= i < 4 ==> six_bits(#[trigger] three[i]) is Some
            &&& bits(three[0], three[1], three[2], three[3]) == x * 65536 + y * 256 + z
            &&& three.skip(4) == base64_of(rest)
            &&& two.len() == 4
            &&& six_bits(two[0]) is Some && six_bits(two[1]) is Some && six_bits(two[2]) is Some
            &&& bits(two[0], two[1], two[2], 'A') == x * 65536 + y * 256
            &&& two[3] == '='
            &&& one.len() == 4
            &&& six_bits(one[0]) is Some && six_bits(one[1]) is Some
            &&& bits(one[0], one[1], 'A', 'A') == x * 65536
            &&& one[2] == '=' && one[3] == '='
            &&& base64_of(Seq::empty()).len() == 0
        }),
{
    let b = seq![x, y, z] + rest;
    assert(b.skip(3) =~= rest);
    assert(b[0] == x && b[1] == y && b[2] == z);
    let three = base64_of(b);
    assert(three.skip(4) =~= base64_of(rest));
    let (p, q, r) = (x as int, y as int, z as int);
    lemma_six_bits(p / 4);
    lemma_six_bits(p % 4 * 16 + q / 16);
    lemma_six_bits(q % 16 * 4 + r / 64);
    lemma_six_bits(r % 64);
    lemma_six_bits(p % 4 * 16);
    lemma_six_bits(q % 16 * 4);
    assert(three[0] == sextet(p / 4));
    assert(three[1] == sextet(p % 4 * 16 + q / 16));
    assert(three[2] == sextet(q % 16 * 4 + r / 64));
    assert(three[3] == sextet(r % 64));
}

proof fn lemma_six_bits(v: int)
    requires
        0 <= v < 64,
    ensures
        six_bits(sextet(v)) == Some(v),
{
}

/// A program that is given the proxy's URL logs in as the authorization says: the
/// user and the secret that stand before the `@` of the one are those that the
/// other writes in Base64. The URL leads to the port on 127.0.0.1.
pub proof fn law_url_logs_in(credential: Seq<char>, port: nat)
    ensures
        ({
            let login = "world:"@ + credential;
            &&& url_of(credential, port) == "http://"@ + login + "@"@ + "127.0.0.1"@ + seq![':']
                + decimal(port)
            &&& authorization_of(credential) == "Basic "@ + base64_of(encode_utf8(login))
        }),
{
    reveal_strlit("http://world:");
    reveal_strlit("http://");
    reveal_strlit("world:");
    reveal_strlit("@127.0.0.1:");
    reveal_strlit("@");
    reveal_strlit("127.0.0.1");
    assert("http://world:"@ =~= "http://"@ + "world:"@);
    assert("@127.0.0.1:"@ =~= "@"@ + "127.0.0.1"@ + seq![':']);
    assert(url_of(credential, port) =~= "http://"@ + ("world:"@ + credential) + "@"@ + "127.0.0.1"@
        + seq![':'] + decimal(port));
}

} // verus!
