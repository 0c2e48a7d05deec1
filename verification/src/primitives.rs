//! What the library takes from outside: hashing, message authentication,
//! text encodings of bytes, random bytes and a few functions of the standard
//! library.

use crate::text::Chars;
use base64::Engine;
use ring::rand::SecureRandom;
use sha2::Digest;
use vstd::prelude::*;
use vstd::utf8::{decode_utf8, valid_utf8};

verus! {

/// The lower-case hexadecimal digit of value `d`.
pub open spec fn hex_digit(d: int) -> char {
    if d < 10 {
        (('0' as u32) + d) as char
    } else {
        (('a' as u32) + (d - 10)) as char
    }
}

/// The value of a hexadecimal digit of either case, and -1 for anything else.
pub open spec fn hex_value(c: char) -> int {
    if '0' <= c <= '9' {
        c as int - '0' as int
    } else if 'a' <= c <= 'f' {
        c as int - 'a' as int + 10
    } else if 'A' <= c <= 'F' {
        c as int - 'A' as int + 10
    } else {
        -1
    }
}

/// Two lower-case digits for each byte, the higher half first.
pub open spec fn hex_text(b: Seq<u8>) -> Chars {
    Seq::new(
        2 * b.len(),
        |i: int|
            hex_digit(
                if i % 2 == 0 {
                    b[i / 2] as int / 16
                } else {
                    b[i / 2] as int % 16
                },
            ),
    )
}

/// An even number of hexadecimal digits.
pub open spec fn is_hex(s: Chars) -> bool {
    s.len() % 2 == 0 && forall|i: int| 0 <= i < s.len() ==> hex_value(#[trigger] s[i]) >= 0
}

/// The bytes that pairs of digits stand for.
pub open spec fn hex_bytes(s: Chars) -> Seq<u8> {
    Seq::new(s.len() / 2, |i: int| (16 * hex_value(s[2 * i]) + hex_value(s[2 * i + 1])) as u8)
}

/// `hex::encode`: lower-case digits, two for each byte.
#[verifier::external_body]
pub(crate) fn hex_encode(bytes: &[u8]) -> (r: String)
    requires
        2 * bytes@.len() <= isize::MAX,
    ensures
        r@ == hex_text(bytes@),
{
    hex::encode(bytes)
}

/// `hex::decode`: succeeds on an even number of digits of either case, and
/// then gives the bytes they stand for.
#[verifier::external_body]
pub(crate) fn hex_decode(text: &str) -> (r: Option<Vec<u8>>)
    ensures
        r is Some <==> is_hex(text@),
        r is Some ==> r->0@ == hex_bytes(text@),
{
    hex::decode(text).ok()
}

/// Reading back the digits of some bytes gives the bytes.
pub proof fn lemma_hex_round_trip(b: Seq<u8>)
    ensures
        is_hex(hex_text(b)),
        hex_bytes(hex_text(b)) == b,
{
    let t = hex_text(b);
    assert forall|i: int| 0 <= i < t.len() implies hex_value(#[trigger] t[i]) >= 0 by {
        assert(0 <= i / 2 < b.len());
        assert(0 <= b[i / 2] as int / 16 < 16);
        assert(0 <= b[i / 2] as int % 16 < 16);
    }
    assert forall|i: int| 0 <= i < b.len() implies #[trigger] hex_bytes(t)[i] == b[i] by {
        assert((2 * i) / 2 == i && (2 * i) % 2 == 0);
        assert((2 * i + 1) / 2 == i && (2 * i + 1) % 2 == 1);
        let v = b[i] as int;
        assert(0 <= v / 16 < 16 && 0 <= v % 16 < 16 && v == 16 * (v / 16) + v % 16);
        assert(hex_value(t[2 * i]) == v / 16);
        assert(hex_value(t[2 * i + 1]) == v % 16);
    }
    assert(hex_bytes(t) =~= b);
}

/// The SHA-256 digest of some bytes.
pub uninterp spec fn sha256_of(data: Seq<u8>) -> Seq<u8>;

/// `sha2::Sha256::digest`: the digest of the bytes, which has 32 bytes.
#[verifier::external_body]
pub(crate) fn sha256(data: &[u8]) -> (r: Vec<u8>)
    ensures
        r@ == sha256_of(data@),
        r@.len() == 32,
{
    sha2::Sha256::digest(data).to_vec()
}

/// A SHA-256 computation in progress.
#[verifier::external_body]
pub struct ContentHasher {
    inner: sha2::Sha256,
}

/// The bytes that a computation has taken in so far.
pub uninterp spec fn absorbed(h: ContentHasher) -> Seq<u8>;

/// `sha2::Sha256::new`: nothing has been taken in.
#[verifier::external_body]
pub(crate) fn hasher_new() -> (r: ContentHasher)
    ensures
        absorbed(r) == Seq::<u8>::empty(),
{
    ContentHasher { inner: sha2::Sha256::new() }
}

/// `Digest::update` of SHA-256: the bytes follow those taken in before.
#[verifier::external_body]
pub(crate) fn hasher_update(h: &mut ContentHasher, data: &[u8])
    ensures
        absorbed(*final(h)) == absorbed(*old(h)) + data@,
{
    h.inner.update(data);
}

/// `Digest::finalize` of SHA-256: the digest of all bytes taken in.
#[verifier::external_body]
pub(crate) fn hasher_finish(h: ContentHasher) -> (r: Vec<u8>)
    ensures
        r@ == sha256_of(absorbed(h)),
        r@.len() == 32,
{
    h.inner.finalize().to_vec()
}

/// The HMAC-SHA256 tag of a message under a key.
pub uninterp spec fn hmac_of(key: Seq<u8>, message: Seq<u8>) -> Seq<u8>;

/// `hmac::Hmac<Sha256>`: a key of any length, one message, and the tag, which
/// has 32 bytes.
#[verifier::external_body]
pub(crate) fn hmac_sha256(key: &[u8], message: &[u8]) -> (r: Vec<u8>)
    ensures
        r@ == hmac_of(key@, message@),
        r@.len() == 32,
{
    let mut mac = <hmac::Hmac<sha2::Sha256> as hmac::Mac>::new_from_slice(key).unwrap();
    hmac::Mac::update(&mut mac, message);
    hmac::Mac::finalize(mac).into_bytes().to_vec()
}

/// `Mac::verify_slice` of HMAC-SHA256: succeeds on the whole tag and on
/// nothing else.
#[verifier::external_body]
pub(crate) fn hmac_verify(key: &[u8], message: &[u8], tag: &[u8]) -> (r: bool)
    ensures
        r == (tag@ == hmac_of(key@, message@)),
{
    let mut mac = <hmac::Hmac<sha2::Sha256> as hmac::Mac>::new_from_slice(key).unwrap();
    hmac::Mac::update(&mut mac, message);
    hmac::Mac::verify_slice(mac, tag).is_ok()
}

/// The unpadded URL-safe Base64 text of some bytes.
pub uninterp spec fn base64_text(data: Seq<u8>) -> Chars;

/// The bytes that an unpadded URL-safe Base64 text stands for, if it is one.
pub uninterp spec fn base64_bytes(text: Chars) -> Option<Seq<u8>>;

/// A character of the URL-safe Base64 alphabet.
pub open spec fn base64_char(c: char) -> bool {
    'A' <= c <= 'Z' || 'a' <= c <= 'z' || '0' <= c <= '9' || c == '-' || c == '_'
}

/// `base64`'s engine `URL_SAFE_NO_PAD`, encoding: the text uses the URL-safe
/// alphabet alone, and decoding it gives the bytes back.
#[verifier::external_body]
pub(crate) fn base64_encode(data: &[u8]) -> (r: String)
    requires
        data@.len() <= 0x1000_0000,
    ensures
        r@ == base64_text(data@),
        base64_bytes(r@) == Some(data@),
        forall|i: int| 0 <= i < r@.len() ==> base64_char(#[trigger] r@[i]),
{
    base64::engine::general_purpose::URL_SAFE_NO_PAD.encode(data)
}

/// `base64`'s engine `URL_SAFE_NO_PAD`, decoding.
#[verifier::external_body]
pub(crate) fn base64_decode(text: &str) -> (r: Option<Vec<u8>>)
    ensures
        r is Some <==> base64_bytes(text@) is Some,
        r is Some ==> r->0@ == base64_bytes(text@)->0,
{
    base64::engine::general_purpose::URL_SAFE_NO_PAD.decode(text).ok()
}

/// `getrandom::getrandom` on 32 bytes; nothing is known of the bytes, nor of
/// when the system refuses them.
#[verifier::external_body]
pub(crate) fn random_bytes() -> (r: Option<Vec<u8>>)
    ensures
        r is Some ==> r->0@.len() == 32,
{
    let mut bytes = vec![0u8; 32];
    getrandom::getrandom(&mut bytes).ok().map(|()| bytes)
}

/// `String::from_utf8`: succeeds on valid UTF-8, and then gives its text.
#[verifier::external_body]
pub(crate) fn utf8_text(bytes: Vec<u8>) -> (r: Option<String>)
    ensures
        r is Some <==> valid_utf8(bytes@),
        r is Some ==> r->0@ == decode_utf8(bytes@),
{
    String::from_utf8(bytes).ok()
}

/// The lower-case form of a text, as Unicode maps it.
pub uninterp spec fn lowercase(s: Chars) -> Chars;

/// `str::to_lowercase` of the standard library.
pub assume_specification[ str::to_lowercase ](s: &str) -> (r: String)
    ensures
        r@ == lowercase(s@),
;

/// The upper-case form of a text, as Unicode maps it.
pub uninterp spec fn uppercase(s: Chars) -> Chars;

/// `str::to_uppercase` of the standard library.
pub assume_specification[ str::to_uppercase ](s: &str) -> (r: String)
    ensures
        r@ == uppercase(s@),
;

/// The big-endian bytes of a 16-bit number.
pub open spec fn be16(v: int) -> Seq<u8> {
    seq![(v / 256) as u8, (v % 256) as u8]
}

/// The big-endian bytes of a 32-bit number.
pub open spec fn be32(v: int) -> Seq<u8> {
    seq![
        (v / 0x100_0000) as u8,
        (v / 0x1_0000 % 256) as u8,
        (v / 256 % 256) as u8,
        (v % 256) as u8,
    ]
}

/// The number that big-endian bytes stand for.
pub open spec fn be_value(b: Seq<u8>) -> int
    decreases b.len(),
{
    if b.len() == 0 {
        0
    } else {
        be_value(b.drop_last()) * 256 + b.last() as int
    }
}

/// Reading a 32-bit number back gives the number.
pub proof fn lemma_be32(v: int)
    requires
        0 <= v < 0x1_0000_0000,
    ensures
        be32(v).len() == 4,
        be_value(be32(v)) == v,
{
    let b = be32(v);
    reveal_with_fuel(be_value, 5);
    assert(b.drop_last() =~= seq![b[0], b[1], b[2]]);
    assert(b.drop_last().drop_last() =~= seq![b[0], b[1]]);
    assert(b.drop_last().drop_last().drop_last() =~= seq![b[0]]);
    assert(b.drop_last().drop_last().drop_last().drop_last() =~= Seq::<u8>::empty());
}

/// Reading a 16-bit number back gives the number.
pub proof fn lemma_be16(v: int)
    requires
        0 <= v < 0x1_0000,
    ensures
        be16(v).len() == 2,
        be_value(be16(v)) == v,
{
    let b = be16(v);
    reveal_with_fuel(be_value, 3);
    assert(b.drop_last() =~= seq![b[0]]);
    assert(b.drop_last().drop_last() =~= Seq::<u8>::empty());
}

/// Appends a 32-bit number, big end first.
pub fn push_be32(out: &mut Vec<u8>, v: u32)
    ensures
        final(out)@ == old(out)@ + be32(v as int),
{
    let ghost was = out@;
    out.push((v / 0x100_0000) as u8);
    out.push((v / 0x1_0000 % 256) as u8);
    out.push((v / 256 % 256) as u8);
    out.push((v % 256) as u8);
    assert(out@ =~= was + be32(v as int));
}

/// Appends a 16-bit number, big end first.
pub fn push_be16(out: &mut Vec<u8>, v: u16)
    ensures
        final(out)@ == old(out)@ + be16(v as int),
{
    let ghost was = out@;
    out.push((v / 256) as u8);
    out.push((v % 256) as u8);
    assert(out@ =~= was + be16(v as int));
}

/// Reads the 32-bit number at a position.
pub fn read_be32(b: &[u8], at: usize) -> (v: u32)
    requires
        at + 4 <= b@.len(),
    ensures
        v == be_value(b@.subrange(at as int, at + 4)),
{
    proof {
        let s = b@.subrange(at as int, at + 4);
        reveal_with_fuel(be_value, 5);
        assert(s.drop_last() =~= seq![s[0], s[1], s[2]]);
        assert(s.drop_last().drop_last() =~= seq![s[0], s[1]]);
        assert(s.drop_last().drop_last().drop_last() =~= seq![s[0]]);
        assert(s.drop_last().drop_last().drop_last().drop_last() =~= Seq::<u8>::empty());
    }
    b[at] as u32 * 0x100_0000 + b[at + 1] as u32 * 0x1_0000 + b[at + 2] as u32 * 256 + b[at
        + 3] as u32
}

/// Reads the 16-bit number at a position.
pub fn read_be16(b: &[u8], at: usize) -> (v: u16)
    requires
        at + 2 <= b@.len(),
    ensures
        v == be_value(b@.subrange(at as int, at + 2)),
{
    proof {
        let s = b@.subrange(at as int, at + 2);
        reveal_with_fuel(be_value, 3);
        assert(s.drop_last() =~= seq![s[0]]);
        assert(s.drop_last().drop_last() =~= Seq::<u8>::empty());
    }
    b[at] as u16 * 256 + b[at + 1] as u16
}

/// Appends bytes to bytes.
pub fn push_bytes(out: &mut Vec<u8>, data: &[u8])
    ensures
        final(out)@ == old(out)@ + data@,
{
    let ghost was = out@;
    let mut i: usize = 0;
    assert(was + data@.take(0) =~= was);
    while i < data.len()
        invariant
            i <= data@.len(),
            out@ == was + data@.take(i as int),
        decreases data@.len() - i,
    {
        out.push(data[i]);
        assert(data@.take(i + 1) =~= data@.take(i as int).push(data@[i as int]));
        i = i + 1;
        assert(out@ =~= was + data@.take(i as int));
    }
    assert(data@.take(i as int) =~= data@);
}

/// Copies the bytes `from..to`.
pub fn copy_bytes(b: &[u8], from: usize, to: usize) -> (r: Vec<u8>)
    requires
        from <= to <= b@.len(),
    ensures
        r@ == b@.subrange(from as int, to as int),
{
    let mut r: Vec<u8> = Vec::new();
    let mut i: usize = from;
    while i < to
        invariant
            from <= i <= to <= b@.len(),
            r@ == b@.subrange(from as int, i as int),
        decreases to - i,
    {
        r.push(b[i]);
        i = i + 1;
        assert(b@.subrange(from as int, i as int) =~= b@.subrange(from as int, i - 1).push(
            b@[i - 1],
        ));
    }
    r
}

/// The identity that 32 bytes stand for.
pub fn id_of(bytes: &[u8]) -> (r: String)
    requires
        bytes@.len() == 32,
    ensures
        r@ == hex_text(bytes@),
{
    hex_encode(bytes)
}

/// A new identity: 64 random hexadecimal digits, or nothing when the system
/// has no random bytes.
pub fn random_id() -> (r: Option<String>)
    ensures
        r is Some ==> r->0@.len() == 64 && is_hex(r->0@) && hex_text(hex_bytes(r->0@)) == r->0@,
{
    match random_bytes() {
        None => None,
        Some(bytes) => {
            proof {
                lemma_hex_round_trip(bytes@);
            }
            Some(id_of(bytes.as_slice()))
        },
    }
}

/// The key of `size` bytes that PBKDF2 with HMAC-SHA256 derives from a secret.
pub uninterp spec fn derived_key(
    iterations: u32,
    salt: Seq<u8>,
    secret: Seq<u8>,
    size: nat,
) -> Seq<u8>;

/// `ring::pbkdf2::derive` with `PBKDF2_HMAC_SHA256`, into a key of `size`
/// bytes.
#[verifier::external_body]
pub(crate) fn pbkdf2(iterations: u32, salt: &[u8], secret: &[u8], size: usize) -> (r: Vec<u8>)
    requires
        iterations > 0,
        size <= 0x1000_0000,
    ensures
        r@ == derived_key(iterations, salt@, secret@, size as nat),
        r@.len() == size,
{
    let mut key = vec![0u8; size];
    let rounds = std::num::NonZeroU32::new(iterations).unwrap();
    ring::pbkdf2::derive(ring::pbkdf2::PBKDF2_HMAC_SHA256, rounds, salt, secret, &mut key);
    key
}

/// `ring::rand::SystemRandom`: some random bytes; nothing is known of them,
/// nor of when the system refuses them.
#[verifier::external_body]
pub(crate) fn secure_random(size: usize) -> (r: Option<Vec<u8>>)
    requires
        size <= 0x1000_0000,
    ensures
        r is Some ==> r->0@.len() == size,
{
    let mut bytes = vec![0u8; size];
    ring::rand::SystemRandom::new().fill(&mut bytes).ok().map(|()| bytes)
}

/// The text that AES-256-GCM seals, with its tag behind it, if it is not too
/// long.
pub uninterp spec fn gcm_sealed(
    key: Seq<u8>,
    nonce: Seq<u8>,
    label: Seq<u8>,
    plain: Seq<u8>,
) -> Option<Seq<u8>>;

/// The text that AES-256-GCM opens, if the tag behind it fits the key, the
/// nonce and the label.
pub uninterp spec fn gcm_opened(
    key: Seq<u8>,
    nonce: Seq<u8>,
    label: Seq<u8>,
    sealed: Seq<u8>,
) -> Option<Seq<u8>>;

/// `ring::aead::LessSafeKey::seal_in_place_append_tag` with `AES_256_GCM`: it
/// seals what a block counter of 32 bits can count, with a label whose bits 64
/// bits can count, and what it seals can be opened with the same key, nonce and
/// label.
#[verifier::external_body]
pub(crate) fn gcm_seal(key: &[u8], nonce: &[u8], label: &[u8], plain: &[u8]) -> (r: Option<Vec<u8>>)
    requires
        key@.len() == 32,
        nonce@.len() == 12,
    ensures
        r is Some <==> gcm_sealed(key@, nonce@, label@, plain@) is Some,
        r is Some ==> r->0@ == gcm_sealed(key@, nonce@, label@, plain@)->0,
        r is Some ==> r->0@.len() == plain@.len() + 16,
        r is Some ==> gcm_opened(key@, nonce@, label@, r->0@) == Some(plain@),
        plain@.len() <= 0xf_ffff_ffe0 && label@.len() <= 0xffff_ffff ==> r is Some,
{
    let key = ring::aead::UnboundKey::new(&ring::aead::AES_256_GCM, key).ok()?;
    let nonce = ring::aead::Nonce::try_assume_unique_for_key(nonce).ok()?;
    let mut bytes = plain.to_vec();
    ring::aead::LessSafeKey::new(key)
        .seal_in_place_append_tag(nonce, ring::aead::Aad::from(label), &mut bytes)
        .ok()?;
    Some(bytes)
}

/// `ring::aead::LessSafeKey::open_in_place` with `AES_256_GCM`: whether it opens
/// a text, and what it gives back, depends on its arguments alone. That another
/// key does not open what was sealed is not claimed: a tag that fits by chance
/// is unlikely, but not impossible.
#[verifier::external_body]
pub(crate) fn gcm_open(key: &[u8], nonce: &[u8], label: &[u8], sealed: &[u8]) -> (r: Option<
    Vec<u8>,
>)
    requires
        key@.len() == 32,
        nonce@.len() == 12,
    ensures
        r is Some <==> gcm_opened(key@, nonce@, label@, sealed@) is Some,
        r is Some ==> r->0@ == gcm_opened(key@, nonce@, label@, sealed@)->0,
{
    let key = ring::aead::UnboundKey::new(&ring::aead::AES_256_GCM, key).ok()?;
    let nonce = ring::aead::Nonce::try_assume_unique_for_key(nonce).ok()?;
    let mut bytes = sealed.to_vec();
    let plain = ring::aead::LessSafeKey::new(key)
        .open_in_place(nonce, ring::aead::Aad::from(label), &mut bytes)
        .ok()?;
    Some(plain.to_vec())
}

/// `rcgen::generate_simple_self_signed`: a certificate for a name and its
/// private key, both in DER; nothing is known of them.
#[verifier::external_body]
pub(crate) fn self_signed(name: &str) -> (r: Option<(Vec<u8>, Vec<u8>)>) {
    let made = rcgen::generate_simple_self_signed(vec![name.to_string()]).ok()?;
    Some((made.cert.der().to_vec(), made.key_pair.serialize_der()))
}

/// A certificate and a private key, both in DER, can be taken for a server's
/// identity.
pub uninterp spec fn tls_pair(cert: Seq<u8>, key: Seq<u8>) -> bool;

/// `rustls::ServerConfig`'s `with_single_cert`, with the cryptography of
/// `ring`: only a certificate and a PKCS #8 key that belong together are taken
/// for a server's identity. They need not be: reading some keys draws random
/// bytes, and fails where the system has none.
#[verifier::external_body]
pub(crate) fn tls_accepts(cert: Vec<u8>, key: Vec<u8>) -> (r: bool)
    ensures
        r ==> tls_pair(cert@, key@),
{
    let key = rustls::pki_types::PrivatePkcs8KeyDer::from(key);
    let provider = std::sync::Arc::new(rustls::crypto::ring::default_provider());
    rustls::ServerConfig::builder_with_provider(provider)
        .with_safe_default_protocol_versions()
        .and_then(|b| b.with_no_client_auth().with_single_cert(vec![cert.into()], key.into()))
        .is_ok()
}

/// The QR code of a text in block characters, if there is one.
pub uninterp spec fn qr_blocks(text: Chars) -> Option<Chars>;

/// The QR code of a text as an SVG image, if there is one.
pub uninterp spec fn qr_svg(text: Chars, side: u32) -> Option<Chars>;

/// `qrcode::QrCode` drawn with `Dense1x2` and its quiet zone.
#[verifier::external_body]
pub(crate) fn draw_blocks(text: &str) -> (r: Option<String>)
    requires
        text@.len() <= 7089,
    ensures
        r is Some <==> qr_blocks(text@) is Some,
        r is Some ==> r->0@ == qr_blocks(text@)->0,
{
    let code = qrcode::QrCode::new(text.as_bytes()).ok()?;
    Some(code.render::<qrcode::render::unicode::Dense1x2>().quiet_zone(true).build())
}

/// `qrcode::QrCode` drawn as an SVG image that is at least `side` pixels wide
/// and high.
#[verifier::external_body]
pub(crate) fn draw_svg(text: &str, side: u32) -> (r: Option<String>)
    requires
        text@.len() <= 7089,
        side <= 0x10000,
    ensures
        r is Some <==> qr_svg(text@, side) is Some,
        r is Some ==> r->0@ == qr_svg(text@, side)->0,
{
    let code = qrcode::QrCode::new(text.as_bytes()).ok()?;
    Some(code.render::<qrcode::render::svg::Color<'_>>().min_dimensions(side, side).build())
}

} // verus!
