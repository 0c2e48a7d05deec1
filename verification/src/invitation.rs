//! The invitation that a PC hands to a phone: where it listens, the
//! certificate to trust and the shared secret.

use crate::model::{is_hash, lower_hex, valid_hash, INVITATION_VERSION, VERSION};
use crate::primitives::{
    base64_bytes, base64_char, base64_decode, base64_encode, base64_text, be16, be32, be_value,
    copy_bytes, hex_bytes, hex_decode, hex_encode, hex_text, hex_value, is_hex, push_be16,
    push_be32, push_bytes, read_be16, read_be32, sha256, sha256_of, utf8_text,
};
use crate::text::{begins, strip_prefix, trim, trimmed, white, Chars};
use vstd::prelude::*;
use vstd::utf8::{decode_utf8, encode_utf8, valid_utf8};

verus! {

/// What a phone needs to pair with a PC.
#[derive(Clone, Debug)]
pub struct Invitation {
    pub version: u32,
    pub address: String,
    pub pair_id: String,
    pub cert_der: String,
    pub secret: String,
}

/// An [`Invitation`] as a mathematical value.
pub struct InvitationView {
    pub version: u32,
    pub address: Chars,
    pub pair_id: Chars,
    pub cert_der: Chars,
    pub secret: Chars,
}

impl View for Invitation {
    type V = InvitationView;

    open spec fn view(&self) -> InvitationView {
        InvitationView {
            version: self.version,
            address: self.address@,
            pair_id: self.pair_id@,
            cert_der: self.cert_der@,
            secret: self.secret@,
        }
    }
}

/// The fields of an invitation of the first version, which was a JSON object.
#[derive(Clone, Debug)]
pub struct LegacyInvitation {
    pub version: u32,
    pub address: String,
    pub pair_id: String,
    pub folder_id: String,
    pub cert_der: String,
    pub secret: String,
}

/// A [`LegacyInvitation`] as a mathematical value.
pub struct LegacyView {
    pub version: u32,
    pub address: Chars,
    pub pair_id: Chars,
    pub folder_id: Chars,
    pub cert_der: Chars,
    pub secret: Chars,
}

impl View for LegacyInvitation {
    type V = LegacyView;

    open spec fn view(&self) -> LegacyView {
        LegacyView {
            version: self.version,
            address: self.address@,
            pair_id: self.pair_id@,
            folder_id: self.folder_id@,
            cert_der: self.cert_der@,
            secret: self.secret@,
        }
    }
}

/// Why an invitation is refused.
#[derive(Clone, Copy, Debug, PartialEq, Eq, Structural)]
pub enum InvitationError {
    /// Not the version in use.
    Version,
    /// An identity or the secret is not 64 lower-case hexadecimal digits.
    Hash,
    /// The address is empty or longer than 2048 bytes.
    Address,
    /// The certificate's text is longer than 16384 bytes.
    CertificateTooLarge,
    /// The certificate's text is not hexadecimal.
    CertificateText,
    /// There is no certificate.
    CertificateEmpty,
    /// The text behind the marker is not Base64.
    Encoding,
    /// The payload ends too early.
    Truncated,
    /// The payload has another layout.
    Layout,
    /// The payload announces an address of more than 2048 bytes.
    AddressLength,
    /// The payload announces a certificate of more than 8192 bytes.
    CertificateLength,
    /// Bytes follow the payload.
    Trailing,
    /// The address is not UTF-8.
    AddressText,
    /// Neither a payload nor a JSON invitation.
    Unreadable,
    /// A JSON invitation of another version.
    LegacyVersion,
}

/// What is wrong with an invitation, if anything.
pub open spec fn invitation_fault(v: InvitationView) -> Option<InvitationError> {
    if v.version != INVITATION_VERSION {
        Some(InvitationError::Version)
    } else if !valid_hash(v.pair_id) || !valid_hash(v.secret) {
        Some(InvitationError::Hash)
    } else if v.address.len() == 0 || encode_utf8(v.address).len() > 2048 {
        Some(InvitationError::Address)
    } else if encode_utf8(v.cert_der).len() > 16_384 {
        Some(InvitationError::CertificateTooLarge)
    } else if !is_hex(v.cert_der) {
        Some(InvitationError::CertificateText)
    } else if v.cert_der.len() == 0 {
        Some(InvitationError::CertificateEmpty)
    } else {
        None
    }
}

/// The invitation if nothing is wrong with it, else the fault.
pub open spec fn checked(v: InvitationView) -> Result<InvitationView, InvitationError> {
    match invitation_fault(v) {
        None => Ok(v),
        Some(f) => Err(f),
    }
}

/// The bytes of an invitation: a layout marker, the version, the address
/// behind its length, both identities, the certificate behind its length.
pub open spec fn payload(v: InvitationView) -> Seq<u8> {
    let address = encode_utf8(v.address);
    let certificate = hex_bytes(v.cert_der);
    seq![2u8] + be32(v.version as int) + be16(address.len() as int) + address + hex_bytes(v.pair_id)
        + hex_bytes(v.secret) + be16(certificate.len() as int) + certificate
}

/// The text of an invitation.
pub open spec fn encoded(v: InvitationView) -> Chars {
    "rowd1:"@ + base64_text(payload(v))
}

/// The invitation that a payload holds.
pub open spec fn parsed(b: Seq<u8>) -> Result<InvitationView, InvitationError> {
    let n = b.len() as int;
    let address_len = be_value(b.subrange(5, 7));
    let certificate_len = be_value(b.subrange(address_len + 71, address_len + 73));
    if n < 1 {
        Err(InvitationError::Truncated)
    } else if b[0] != 2 {
        Err(InvitationError::Layout)
    } else if n < 7 {
        Err(InvitationError::Truncated)
    } else if address_len > 2048 {
        Err(InvitationError::AddressLength)
    } else if n < address_len + 73 {
        Err(InvitationError::Truncated)
    } else if certificate_len > 8192 {
        Err(InvitationError::CertificateLength)
    } else if n < address_len + 73 + certificate_len {
        Err(InvitationError::Truncated)
    } else if n > address_len + 73 + certificate_len {
        Err(InvitationError::Trailing)
    } else if !valid_utf8(b.subrange(7, address_len + 7)) {
        Err(InvitationError::AddressText)
    } else {
        checked(
            InvitationView {
                version: be_value(b.subrange(1, 5)) as u32,
                address: decode_utf8(b.subrange(7, address_len + 7)),
                pair_id: hex_text(b.subrange(address_len + 7, address_len + 39)),
                cert_der: hex_text(b.subrange(address_len + 73, n)),
                secret: hex_text(b.subrange(address_len + 39, address_len + 71)),
            },
        )
    }
}

/// The invitation that a text stands for. `legacy` holds the fields of the
/// text as a JSON object, where it is one.
pub open spec fn decoded(text: Chars, legacy: Option<LegacyView>) -> Result<
    InvitationView,
    InvitationError,
> {
    let t = trimmed(text);
    if begins(t, "rowd1:"@) {
        match base64_bytes(t.skip(6)) {
            None => Err(InvitationError::Encoding),
            Some(b) => parsed(b),
        }
    } else {
        match legacy {
            None => Err(InvitationError::Unreadable),
            Some(old_form) => if old_form.version != VERSION {
                Err(InvitationError::LegacyVersion)
            } else if !valid_hash(old_form.folder_id) {
                Err(InvitationError::Hash)
            } else {
                checked(
                    InvitationView {
                        version: INVITATION_VERSION,
                        address: old_form.address,
                        pair_id: old_form.pair_id,
                        cert_der: old_form.cert_der,
                        secret: old_form.secret,
                    },
                )
            },
        }
    }
}

/// A result as a mathematical value.
pub open spec fn outcome(r: Result<Invitation, InvitationError>) -> Result<
    InvitationView,
    InvitationError,
> {
    match r {
        Ok(i) => Ok(i@),
        Err(e) => Err(e),
    }
}

/// The same invitation with its certificate in lower-case digits.
pub open spec fn normal(v: InvitationView) -> InvitationView {
    InvitationView { cert_der: hex_text(hex_bytes(v.cert_der)), ..v }
}

/// Lower-case digits are what their bytes are written as.
pub proof fn lemma_lower_hex(s: Chars)
    requires
        s.len() % 2 == 0,
        forall|i: int| 0 <= i < s.len() ==> lower_hex(#[trigger] s[i]),
    ensures
        is_hex(s),
        hex_text(hex_bytes(s)) == s,
{
    assert forall|i: int| 0 <= i < s.len() implies hex_value(#[trigger] s[i]) >= 0 by {
        assert(lower_hex(s[i]));
    }
    let t = hex_text(hex_bytes(s));
    assert(t.len() == s.len());
    assert forall|i: int| 0 <= i < s.len() implies t[i] == s[i] by {
        let h = i / 2;
        assert(0 <= h < s.len() / 2);
        assert(2 * h == i || 2 * h + 1 == i);
        assert(lower_hex(s[2 * h]) && lower_hex(s[2 * h + 1]));
        let a = hex_value(s[2 * h]);
        let b = hex_value(s[2 * h + 1]);
        assert(0 <= a < 16 && 0 <= b < 16);
        assert(hex_bytes(s)[h] == (16 * a + b) as u8);
        assert((16 * a + b) / 16 == a && (16 * a + b) % 16 == b);
    }
    assert(t =~= s);
}

/// The digest text of 32 bytes, read and written again.
proof fn lemma_hash_bytes(s: Chars)
    requires
        valid_hash(s),
    ensures
        is_hex(s),
        hex_bytes(s).len() == 32,
        hex_text(hex_bytes(s)) == s,
{
    assert forall|i: int| 0 <= i < s.len() implies lower_hex(#[trigger] s[i]) by {}
    lemma_lower_hex(s);
}

/// A character outside ASCII takes more than one byte, so digits count their
/// bytes.
proof fn lemma_hex_is_ascii(s: Chars)
    requires
        is_hex(s),
    ensures
        encode_utf8(s).len() == s.len(),
{
    assert(vstd::utf8::is_ascii_chars(s)) by {
        assert forall|i: int| 0 <= i < s.len() implies 0 <= (#[trigger] s[i]) as nat && (
        s[i]) as nat <= 127 by {
            assert(hex_value(s[i]) >= 0);
        }
    }
    vstd::utf8::is_ascii_chars_encode_utf8(s);
}

/// A payload reads back as the invitation it was made of.
pub proof fn law_payload_round_trip(v: InvitationView)
    requires
        invitation_fault(v) is None,
    ensures
        parsed(payload(v)) == Ok::<InvitationView, InvitationError>(normal(v)),
{
    let b = payload(v);
    let address = encode_utf8(v.address);
    let certificate = hex_bytes(v.cert_der);
    lemma_hash_bytes(v.pair_id);
    lemma_hash_bytes(v.secret);
    lemma_hex_is_ascii(v.cert_der);
    crate::primitives::lemma_be32(v.version as int);
    crate::primitives::lemma_be16(address.len() as int);
    crate::primitives::lemma_be16(certificate.len() as int);
    let n = address.len() as int;
    assert(b.len() == n + 73 + certificate.len());
    assert(b.subrange(1, 5) =~= be32(v.version as int));
    assert(b.subrange(5, 7) =~= be16(n));
    assert(b.subrange(7, n + 7) =~= address);
    assert(b.subrange(n + 7, n + 39) =~= hex_bytes(v.pair_id));
    assert(b.subrange(n + 39, n + 71) =~= hex_bytes(v.secret));
    assert(b.subrange(n + 71, n + 73) =~= be16(certificate.len() as int));
    assert(b.subrange(n + 73, b.len() as int) =~= certificate);
    vstd::utf8::encode_utf8_valid_utf8(v.address);
    vstd::utf8::encode_utf8_decode_utf8(v.address);
    crate::primitives::lemma_hex_round_trip(certificate);
    let w = normal(v);
    assert(w.cert_der.len() == v.cert_der.len());
    lemma_hex_is_ascii(w.cert_der);
    assert(invitation_fault(w) is None);
    assert(InvitationView {
        version: be_value(b.subrange(1, 5)) as u32,
        address: decode_utf8(b.subrange(7, n + 7)),
        pair_id: hex_text(b.subrange(n + 7, n + 39)),
        cert_der: hex_text(b.subrange(n + 73, b.len() as int)),
        secret: hex_text(b.subrange(n + 39, n + 71)),
    } == w);
}

impl Invitation {
    /// Refuses an invitation that no phone could use.
    pub fn validate(&self) -> (r: Result<(), InvitationError>)
        ensures
            r is Ok <==> invitation_fault(self@) is None,
            r is Err ==> Some(r->Err_0) == invitation_fault(self@),
    {
        if self.version != INVITATION_VERSION {
            return Err(InvitationError::Version);
        }
        if !is_hash(self.pair_id.as_str()) || !is_hash(self.secret.as_str()) {
            return Err(InvitationError::Hash);
        }
        let size: usize = self.address.as_str().as_bytes().len();
        if self.address.as_str().is_empty() || size > 2048 {
            return Err(InvitationError::Address);
        }
        let length: usize = self.cert_der.as_str().as_bytes().len();
        if length > 16_384 {
            return Err(InvitationError::CertificateTooLarge);
        }
        match hex_decode(self.cert_der.as_str()) {
            None => Err(InvitationError::CertificateText),
            Some(bytes) => {
                if bytes.len() == 0 {
                    Err(InvitationError::CertificateEmpty)
                } else {
                    Ok(())
                }
            },
        }
    }

    /// Writes an invitation as text. Decoding the text gives the invitation
    /// back, with the certificate in lower-case digits.
    pub fn encode(&self) -> (r: Result<String, InvitationError>)
        ensures
            r is Ok <==> invitation_fault(self@) is None,
            r is Err ==> Some(r->Err_0) == invitation_fault(self@),
            r is Ok ==> r->Ok_0@ == encoded(self@),
            r is Ok ==> forall|legacy: Option<LegacyView>| #[trigger]
                decoded(r->Ok_0@, legacy) == Ok::<InvitationView, InvitationError>(normal(self@)),
    {
        match self.validate() {
            Ok(()) => {},
            Err(e) => {
                return Err(e);
            },
        }
        proof {
            lemma_hash_bytes(self.pair_id@);
            lemma_hash_bytes(self.secret@);
            lemma_hex_is_ascii(self.cert_der@);
        }
        let address = self.address.as_str().as_bytes();
        let mut bytes: Vec<u8> = Vec::new();
        bytes.push(2);
        push_be32(&mut bytes, self.version);
        push_be16(&mut bytes, address.len() as u16);
        push_bytes(&mut bytes, address);
        match (
            hex_decode(self.pair_id.as_str()),
            hex_decode(self.secret.as_str()),
            hex_decode(self.cert_der.as_str()),
        ) {
            (Some(pair), Some(secret), Some(certificate)) => {
                push_bytes(&mut bytes, pair.as_slice());
                push_bytes(&mut bytes, secret.as_slice());
                push_be16(&mut bytes, certificate.len() as u16);
                push_bytes(&mut bytes, certificate.as_slice());
            },
            _ => {
                return Err(InvitationError::CertificateText);
            },
        }
        assert(bytes@ =~= payload(self@));
        let body = base64_encode(bytes.as_slice());
        let mut text = String::from_str("rowd1:");
        text.append(body.as_str());
        proof {
            law_payload_round_trip(self@);
            reveal_strlit("rowd1:");
            assert(text@ == encoded(self@));
            assert(text@[0] == 'r');
            assert(!white(text@[0]));
            assert(!white(text@.last())) by {
                if body@.len() > 0 {
                    assert(text@.last() == body@[body@.len() - 1]);
                    assert(base64_char(body@[body@.len() - 1]));
                } else {
                    assert(text@.last() == ':');
                }
            }
            assert(trimmed(text@) == text@);
            assert(text@.take(6) =~= "rowd1:"@);
            assert(text@.skip(6) =~= body@);
        }
        Ok(text)
    }

    /// Reads an invitation from text. `legacy` holds the fields of the trimmed
    /// text as a JSON object, where it is one.
    pub fn decode(text: &str, legacy: Option<LegacyInvitation>) -> (r: Result<Self, InvitationError>)
        ensures
            outcome(r) == decoded(
                text@,
                match legacy {
                    Some(l) => Some(l@),
                    None => None,
                },
            ),
    {
        let trimmed_text = trim(text);
        proof {
            reveal_strlit("rowd1:");
        }
        match strip_prefix(trimmed_text.as_str(), "rowd1:") {
            Some(body) => {
                match base64_decode(body.as_str()) {
                    None => Err(InvitationError::Encoding),
                    Some(bytes) => Self::parse(&bytes),
                }
            },
            None => {
                match legacy {
                    None => Err(InvitationError::Unreadable),
                    Some(fields) => {
                        if fields.version != VERSION {
                            return Err(InvitationError::LegacyVersion);
                        }
                        if !is_hash(fields.folder_id.as_str()) {
                            return Err(InvitationError::Hash);
                        }
                        let invite = Invitation {
                            version: INVITATION_VERSION,
                            address: fields.address,
                            pair_id: fields.pair_id,
                            cert_der: fields.cert_der,
                            secret: fields.secret,
                        };
                        match invite.validate() {
                            Ok(()) => Ok(invite),
                            Err(e) => Err(e),
                        }
                    },
                }
            },
        }
    }

    /// Reads the bytes of an invitation.
    pub fn parse(b: &Vec<u8>) -> (r: Result<Self, InvitationError>)
        ensures
            outcome(r) == parsed(b@),
    {
        let n: usize = b.len();
        if n < 1 {
            return Err(InvitationError::Truncated);
        }
        if b[0] != 2 {
            return Err(InvitationError::Layout);
        }
        if n < 7 {
            return Err(InvitationError::Truncated);
        }
        let version: u32 = read_be32(b.as_slice(), 1);
        let a: usize = read_be16(b.as_slice(), 5) as usize;
        if a > 2048 {
            return Err(InvitationError::AddressLength);
        }
        if n < a + 73 {
            return Err(InvitationError::Truncated);
        }
        let c: usize = read_be16(b.as_slice(), a + 71) as usize;
        if c > 8192 {
            return Err(InvitationError::CertificateLength);
        }
        if n < a + 73 + c {
            return Err(InvitationError::Truncated);
        }
        if n > a + 73 + c {
            return Err(InvitationError::Trailing);
        }
        match utf8_text(copy_bytes(b.as_slice(), 7, a + 7)) {
            None => Err(InvitationError::AddressText),
            Some(address) => {
                let invite = Invitation {
                    version,
                    address,
                    pair_id: hex_encode(copy_bytes(b.as_slice(), a + 7, a + 39).as_slice()),
                    cert_der: hex_encode(copy_bytes(b.as_slice(), a + 73, n).as_slice()),
                    secret: hex_encode(copy_bytes(b.as_slice(), a + 39, a + 71).as_slice()),
                };
                match invite.validate() {
                    Ok(()) => Ok(invite),
                    Err(e) => Err(e),
                }
            },
        }
    }

    /// The SHA-256 fingerprint of the certificate, in hexadecimal digits.
    pub fn fingerprint(&self) -> (r: Result<String, InvitationError>)
        ensures
            r is Ok <==> is_hex(self.cert_der@),
            r is Ok ==> r->Ok_0@ == hex_text(sha256_of(hex_bytes(self.cert_der@))),
            r is Err ==> r->Err_0 == InvitationError::CertificateText,
    {
        match hex_decode(self.cert_der.as_str()) {
            None => Err(InvitationError::CertificateText),
            Some(bytes) => Ok(hex_encode(sha256(bytes.as_slice()).as_slice())),
        }
    }
}

/// An invitation is sound exactly where it is of the present form, its
/// identities are, it has an address, and it has a certificate, neither too
/// large.
pub proof fn law_sound_invitation(v: InvitationView)
    ensures
        invitation_fault(v) is None <==> v.version == 2 && valid_hash(v.pair_id) && valid_hash(
            v.secret,
        ) && v.address.len() > 0 && encode_utf8(v.address).len() <= 2048 && v.cert_der.len() > 0
            && encode_utf8(v.cert_der).len() <= 16_384 && is_hex(v.cert_der),
{
}

/// A written invitation is read back as it was, but for the case of the
/// certificate's digits; one of the old form gives what it holds, in the
/// present form. What is neither is refused.
pub proof fn law_invitation_is_read_back(v: InvitationView, text: Chars, old_form: LegacyView)
    requires
        invitation_fault(v) is None,
    ensures
        trimmed(text) == encoded(v) && base64_bytes(base64_text(payload(v))) == Some(payload(v))
            ==> decoded(text, None) == Ok::<InvitationView, InvitationError>(normal(v)),
        !begins(trimmed(text), "rowd1:"@) ==> {
            &&& decoded(text, None) is Err
            &&& old_form.version == 1 && valid_hash(old_form.folder_id) && old_form.address == v.address
                && old_form.pair_id == v.pair_id && old_form.cert_der == v.cert_der
                && old_form.secret == v.secret ==> decoded(text, Some(old_form)) == Ok::<
                InvitationView,
                InvitationError,
            >(v)
            &&& old_form.version != 1 || !valid_hash(old_form.folder_id) || !valid_hash(
                old_form.pair_id,
            ) || !valid_hash(old_form.secret) ==> decoded(text, Some(old_form)) is Err
        },
{
    law_payload_round_trip(v);
    reveal_strlit("rowd1:");
    let t = encoded(v);
    assert(t.skip(6) =~= base64_text(payload(v)));
    assert(t.take(6) =~= "rowd1:"@);
}

proof fn lemma_be_positive(b: Seq<u8>)
    ensures
        be_value(b) >= 0,
    decreases b.len(),
{
    if b.len() > 0 {
        lemma_be_positive(b.drop_last());
    }
}

/// An invitation that is read is read to its last byte: the lengths that it
/// says are those of its address and its certificate, nothing is missing and
/// nothing is left over; and what is read is sound.
pub proof fn law_invitation_is_read_whole(b: Seq<u8>)
    requires
        parsed(b) is Ok,
    ensures
        ({
            let v = parsed(b)->Ok_0;
            let a = encode_utf8(v.address).len() as int;
            &&& b[0] == 2
            &&& be_value(b.subrange(5, 7)) == a
            &&& be_value(b.subrange(a + 71, a + 73)) * 2 == v.cert_der.len()
            &&& b.len() * 2 == 2 * (a + 73) + v.cert_der.len()
            &&& encode_utf8(v.address) == b.subrange(7, a + 7)
            &&& v.pair_id == hex_text(b.subrange(a + 7, a + 39))
            &&& v.secret == hex_text(b.subrange(a + 39, a + 71))
            &&& invitation_fault(v) is None
        }),
{
    let n = b.len() as int;
    let a = be_value(b.subrange(5, 7));
    lemma_be_positive(b.subrange(5, 7));
    lemma_be_positive(b.subrange(a + 71, a + 73));
    let text = b.subrange(7, a + 7);
    assert(text.len() == a);
    assert(b.subrange(a + 73, n).len() == be_value(b.subrange(a + 71, a + 73)));
    vstd::utf8::decode_utf8_encode_utf8(text);
    assert(encode_utf8(decode_utf8(text)) == text);
}

} // verus!
