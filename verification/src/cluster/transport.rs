//! What a transport owes and proves: length delimited frames, and the names and addresses a peer's
//! certificate vouches for.

use vstd::prelude::*;
use x509_parser::prelude::{FromDer, GeneralName, X509Certificate};

use crate::addr::IpAddr;
use crate::wire::{be_bytes, be_value, lemma_be_caps, lemma_be_len, lemma_be_reads_back, holds,
    put_be, take_be};

verus! {

/// A failed transport operation.
#[derive(Debug, Clone, PartialEq, Eq)]
pub enum TransportError {
    /// A frame beyond the maximum size.
    FrameTooLarge { len: usize, max: usize },
    /// Anything else, as the transport reports it.
    Other(String),
}

impl TransportError {
    /// Any error of a transport.
    pub fn other(error: &str) -> (e: Self)
        ensures
            e matches TransportError::Other(text) && text@ == error@,
    {
        TransportError::Other(error.to_owned())
    }
}

/// Beyond this size the copy into one assembled write outweighs the saved write call.
pub const ASSEMBLED_WRITE_LIMIT: usize = 4_096;

/// The length of a frame's header.
pub const HEADER_LEN: usize = 4;

/// The writes which put one frame onto a stream, in order.
#[derive(Debug)]
pub enum Writes {
    /// Header and frame in one write.
    Assembled(Vec<u8>),
    /// The header in a write of its own; the frame follows as it is.
    Split(Vec<u8>),
}

/// A frame on a stream: its length as four big endian bytes and then the frame.
pub open spec fn delimited(frame: Seq<u8>) -> Seq<u8> {
    be_bytes(frame.len(), 4) + frame
}

/// What ends up on the stream.
pub open spec fn written(writes: Writes, frame: Seq<u8>) -> Seq<u8> {
    match writes {
        Writes::Assembled(bytes) => bytes@,
        Writes::Split(header) => header@ + frame,
    }
}

/// How to write a frame, which fails beyond the length four bytes can name.
pub fn writes(frame: &[u8]) -> (r: Result<Writes, TransportError>)
    ensures
        r is Ok == (frame@.len() <= u32::MAX),
        r matches Ok(writes) ==> {
            &&& written(writes, frame@) == delimited(frame@)
            &&& writes is Assembled == (frame@.len() <= ASSEMBLED_WRITE_LIMIT)
        },
        r matches Err(e) ==> (e matches TransportError::Other(text) && text@
            == "out of range integral type conversion attempted"@),
{
    if frame.len() as u64 > u32::MAX as u64 {
        return Err(TransportError::other("out of range integral type conversion attempted"));
    }
    let mut bytes: Vec<u8> = Vec::new();
    put_be(frame.len() as u128, 4, &mut bytes);
    assert(bytes@ =~= be_bytes(frame@.len(), 4));
    if frame.len() > ASSEMBLED_WRITE_LIMIT {
        return Ok(Writes::Split(bytes));
    }
    let ghost header = bytes@;
    let mut i: usize = 0;
    assert(bytes@ =~= header + frame@.take(0));
    while i < frame.len()
        invariant
            i <= frame@.len(),
            bytes@ == header + frame@.take(i as int),
        decreases frame@.len() - i,
    {
        bytes.push(frame[i]);
        i = i + 1;
        assert(bytes@ =~= header + frame@.take(i as int));
    }
    assert(frame@.take(i as int) =~= frame@);
    Ok(Writes::Assembled(bytes))
}

/// The length the header announces, refused beyond the maximum before anything is allocated for it.
pub fn frame_len(header: &[u8], max_frame_size: usize) -> (r: Result<usize, TransportError>)
    requires
        header@.len() == HEADER_LEN,
    ensures
        match r {
            Ok(len) => len == be_value(header@) && len <= max_frame_size,
            Err(TransportError::FrameTooLarge { len, max }) => {
                len == be_value(header@) && max == max_frame_size && len > max
            },
            Err(TransportError::Other(text)) => be_value(header@) > usize::MAX && text@
                == "out of range integral type conversion attempted"@,
        },
{
    proof {
        lemma_be_caps();
        assert(header@.subrange(0, 4) =~= header@);
    }
    match take_be(header, 0, 4) {
        Ok((len, _)) => {
            if len > usize::MAX as u128 {
                return Err(TransportError::other("out of range integral type conversion attempted"));
            }
            let len: usize = len as usize;
            if len > max_frame_size {
                Err(TransportError::FrameTooLarge { len, max: max_frame_size })
            } else {
                Ok(len)
            }
        },
        Err(_) => Err(TransportError::other("incomplete header")),
    }
}

/// The header of a frame announces the frame's own length, so a stream of frames is taken apart
/// where it was put together.
pub proof fn a_header_names_its_frame(frame: Seq<u8>, rest: Seq<u8>)
    requires
        frame.len() <= u32::MAX,
    ensures
        ({
            let stream = delimited(frame) + rest;
            &&& be_value(stream.take(4)) == frame.len()
            &&& stream.subrange(4, 4int + frame.len()) == frame
            &&& stream.skip(4int + frame.len()) == rest
        }),
{
    let stream = delimited(frame) + rest;
    lemma_be_caps();
    lemma_be_len(frame.len(), 4);
    assert(holds(stream, 0, be_bytes(frame.len(), 4)));
    lemma_be_reads_back(stream, 0, frame.len(), 4);
    assert(stream.subrange(0, 4) =~= stream.take(4));
    assert(stream.subrange(4, 4int + frame.len()) =~= frame);
    assert(stream.skip(4int + frame.len()) =~= rest);
}

/// What a peer's certificate vouches for.
#[derive(Debug, Clone, PartialEq, Eq)]
pub struct PeerIdentity {
    pub dns_names: Vec<String>,
    pub ip_addresses: Vec<IpAddr>,
}

/// One subject alternative name of a certificate.
#[derive(Debug, Clone, PartialEq, Eq)]
pub enum SubjectName {
    Dns(String),
    Ip(Vec<u8>),
    Other,
}

#[verifier::ext_equal]
pub ghost enum SubjectNameModel {
    Dns(Seq<char>),
    Ip(Seq<u8>),
    Other,
}

impl View for SubjectName {
    type V = SubjectNameModel;

    open spec fn view(&self) -> SubjectNameModel {
        match *self {
            SubjectName::Dns(name) => SubjectNameModel::Dns(name@),
            SubjectName::Ip(octets) => SubjectNameModel::Ip(octets@),
            SubjectName::Other => SubjectNameModel::Other,
        }
    }
}

pub open spec fn subject_name_views(names: Seq<SubjectName>) -> Seq<SubjectNameModel> {
    names.map_values(|name: SubjectName| name@)
}

/// The subject alternative names of the certificate with the given encoding, none where it does not
/// parse or has no such extension.
pub uninterp spec fn certificate_names(der: Seq<u8>) -> Option<Seq<SubjectNameModel>>;

/// Calls `x509_parser`'s `X509Certificate::from_der` and `subject_alternative_name` and hands on the
/// general names in order. What is claimed is that they are a function of the encoding alone.
#[verifier::external_body]
fn subject_names(der: &[u8]) -> (names: Option<Vec<SubjectName>>)
    ensures
        names is Some == certificate_names(der@) is Some,
        names matches Some(n) ==> certificate_names(der@) == Some(subject_name_views(n@)),
{
    let (_, certificate) = X509Certificate::from_der(der).ok()?;
    let names = certificate.subject_alternative_name().ok()??;
    let convert = |name: &GeneralName<'_>| match name {
        GeneralName::DNSName(name) => SubjectName::Dns(name.to_string()),
        GeneralName::IPAddress(octets) => SubjectName::Ip(octets.to_vec()),
        _ => SubjectName::Other,
    };
    Some(names.value.general_names.iter().map(convert).collect())
}

/// Four octets are an IPv4 address and sixteen an IPv6 one; anything else is none.
pub open spec fn ip_of(octets: Seq<u8>) -> Option<IpAddr> {
    if octets.len() == 4 {
        Some(IpAddr::V4(be_value(octets) as u32))
    } else if octets.len() == 16 {
        Some(IpAddr::V6(be_value(octets) as u128))
    } else {
        None
    }
}

pub open spec fn dns_names_in(names: Seq<SubjectNameModel>) -> Seq<Seq<char>>
    decreases names.len(),
{
    if names.len() == 0 {
        Seq::empty()
    } else {
        match names.last() {
            SubjectNameModel::Dns(name) => dns_names_in(names.drop_last()).push(name),
            _ => dns_names_in(names.drop_last()),
        }
    }
}

pub open spec fn ip_addresses_in(names: Seq<SubjectNameModel>) -> Seq<IpAddr>
    decreases names.len(),
{
    if names.len() == 0 {
        Seq::empty()
    } else {
        match names.last() {
            SubjectNameModel::Ip(octets) => match ip_of(octets) {
                Some(ip) => ip_addresses_in(names.drop_last()).push(ip),
                None => ip_addresses_in(names.drop_last()),
            },
            _ => ip_addresses_in(names.drop_last()),
        }
    }
}

pub open spec fn texts(names: Seq<String>) -> Seq<Seq<char>> {
    names.map_values(|name: String| name@)
}

fn ip_from_octets(octets: &Vec<u8>) -> (ip: Option<IpAddr>)
    ensures
        ip == ip_of(octets@),
{
    proof {
        lemma_be_caps();
        assert(octets@.subrange(0, octets@.len() as int) =~= octets@);
    }
    if octets.len() == 4 {
        match take_be(octets.as_slice(), 0, 4) {
            Ok((v, _)) => Some(IpAddr::V4(v as u32)),
            Err(_) => None,
        }
    } else if octets.len() == 16 {
        match take_be(octets.as_slice(), 0, 16) {
            Ok((v, _)) => Some(IpAddr::V6(v)),
            Err(_) => None,
        }
    } else {
        None
    }
}

/// The DNS names and IP addresses among the names of a certificate.
pub fn identity_of(names: &Vec<SubjectName>) -> (identity: PeerIdentity)
    ensures
        texts(identity.dns_names@) == dns_names_in(subject_name_views(names@)),
        identity.ip_addresses@ == ip_addresses_in(subject_name_views(names@)),
{
    let ghost all = subject_name_views(names@);
    let mut dns_names: Vec<String> = Vec::new();
    let mut ip_addresses: Vec<IpAddr> = Vec::new();
    let mut i: usize = 0;
    assert(all.take(0) =~= Seq::<SubjectNameModel>::empty());
    assert(texts(dns_names@) =~= dns_names_in(all.take(0)));
    while i < names.len()
        invariant
            i <= names@.len(),
            all == subject_name_views(names@),
            texts(dns_names@) == dns_names_in(all.take(i as int)),
            ip_addresses@ == ip_addresses_in(all.take(i as int)),
        decreases names@.len() - i,
    {
        let ghost before = texts(dns_names@);
        proof {
            assert(all.take(i + 1).drop_last() =~= all.take(i as int));
            assert(all.take(i + 1).last() == names@[i as int]@);
        }
        match &names[i] {
            SubjectName::Dns(name) => {
                dns_names.push(name.clone());
                assert(texts(dns_names@) =~= before.push(name@));
            },
            SubjectName::Ip(octets) => {
                if let Some(ip) = ip_from_octets(octets) {
                    ip_addresses.push(ip);
                }
            },
            SubjectName::Other => {},
        }
        i = i + 1;
    }
    assert(all.take(i as int) =~= all);
    PeerIdentity { dns_names, ip_addresses }
}

pub open spec fn chain_names(certificates: Seq<Vec<u8>>) -> Seq<SubjectNameModel> {
    if certificates.len() == 0 {
        Seq::empty()
    } else {
        match certificate_names(certificates[0]@) {
            Some(names) => names,
            None => Seq::empty(),
        }
    }
}

/// The identity of a peer with the given certificate chain, whose first certificate is its own. An
/// unparsable certificate yields an empty identity, never a missing one, so it is refused.
pub fn parse_identity(certificates: &Vec<Vec<u8>>) -> (identity: PeerIdentity)
    ensures
        texts(identity.dns_names@) == dns_names_in(chain_names(certificates@)),
        identity.ip_addresses@ == ip_addresses_in(chain_names(certificates@)),
{
    if certificates.len() > 0 {
        if let Some(names) = subject_names(certificates[0].as_slice()) {
            return identity_of(&names);
        }
    }
    let identity = PeerIdentity { dns_names: Vec::new(), ip_addresses: Vec::new() };
    assert(texts(identity.dns_names@) =~= Seq::empty());
    identity
}

/// An identity names what its certificate does: every DNS name, and every IP address of four or
/// sixteen octets, read from the highest one down. Nothing else of the certificate counts.
pub proof fn an_identity_holds_what_is_named(
    names: &Vec<SubjectName>,
    identity: PeerIdentity,
    name: Seq<char>,
    ip: IpAddr,
)
    requires
        call_ensures(identity_of, (names,), identity),
    ensures
        texts(identity.dns_names@).contains(name) <==> exists|i: int|
            0 <= i < names@.len() && (#[trigger] names@[i])@ == SubjectNameModel::Dns(name),
        identity.ip_addresses@.contains(ip) <==> exists|i: int|
            0 <= i < names@.len() && ((#[trigger] names@[i])@ matches SubjectNameModel::Ip(octets)
                && ((octets.len() == 4 && ip == IpAddr::V4(be_value(octets) as u32)) || (
            octets.len() == 16 && ip == IpAddr::V6(be_value(octets) as u128)))),
{
    let models = subject_name_views(names@);
    lemma_named(models, name, ip);
    assert forall|i: int| 0 <= i < models.len() implies #[trigger] models[i] == names@[i]@ by {}
    if exists|i: int| 0 <= i < models.len() && #[trigger] models[i] == SubjectNameModel::Dns(name) {
        let i = choose|i: int|
            0 <= i < models.len() && #[trigger] models[i] == SubjectNameModel::Dns(name);
        assert(names@[i]@ == SubjectNameModel::Dns(name));
    }
    if exists|i: int|
        0 <= i < names@.len() && (#[trigger] names@[i])@ == SubjectNameModel::Dns(name) {
        let i = choose|i: int|
            0 <= i < names@.len() && (#[trigger] names@[i])@ == SubjectNameModel::Dns(name);
        assert(models[i] == SubjectNameModel::Dns(name));
    }
    if exists|i: int|
        0 <= i < models.len() && ((#[trigger] models[i]) matches SubjectNameModel::Ip(octets)
            && ip_of(octets) == Some(ip)) {
        let i = choose|i: int|
            0 <= i < models.len() && ((#[trigger] models[i]) matches SubjectNameModel::Ip(octets)
                && ip_of(octets) == Some(ip));
        assert(names@[i]@ == models[i]);
    }
    if exists|i: int|
        0 <= i < names@.len() && ((#[trigger] names@[i])@ matches SubjectNameModel::Ip(octets)
            && ip_of(octets) == Some(ip)) {
        let i = choose|i: int|
            0 <= i < names@.len() && ((#[trigger] names@[i])@ matches SubjectNameModel::Ip(octets)
                && ip_of(octets) == Some(ip));
        assert(models[i] == names@[i]@);
    }
}

proof fn lemma_named(models: Seq<SubjectNameModel>, name: Seq<char>, ip: IpAddr)
    ensures
        dns_names_in(models).contains(name) <==> exists|i: int|
            0 <= i < models.len() && #[trigger] models[i] == SubjectNameModel::Dns(name),
        ip_addresses_in(models).contains(ip) <==> exists|i: int|
            0 <= i < models.len() && ((#[trigger] models[i]) matches SubjectNameModel::Ip(octets)
                && ip_of(octets) == Some(ip)),
    decreases models.len(),
{
    if models.len() > 0 {
        let fewer = models.drop_last();
        let last = models.last();
        lemma_named(fewer, name, ip);
        assert(models[models.len() - 1] == last);
        assert forall|i: int| 0 <= i < fewer.len() implies #[trigger] fewer[i] == models[i] by {}
        if let SubjectNameModel::Dns(other) = last {
            crate::seqs::lemma_contains_push(dns_names_in(fewer), other, name);
        }
        if let SubjectNameModel::Ip(octets) = last {
            if let Some(other) = ip_of(octets) {
                crate::seqs::lemma_contains_push(ip_addresses_in(fewer), other, ip);
            }
        }
        if exists|i: int|
            0 <= i < fewer.len() && #[trigger] fewer[i] == SubjectNameModel::Dns(name) {
            let i = choose|i: int|
                0 <= i < fewer.len() && #[trigger] fewer[i] == SubjectNameModel::Dns(name);
            assert(models[i] == SubjectNameModel::Dns(name));
        }
        if exists|i: int|
            0 <= i < models.len() && #[trigger] models[i] == SubjectNameModel::Dns(name) {
            let i = choose|i: int|
                0 <= i < models.len() && #[trigger] models[i] == SubjectNameModel::Dns(name);
            if i < fewer.len() {
                assert(fewer[i] == SubjectNameModel::Dns(name));
            }
        }
        if exists|i: int|
            0 <= i < fewer.len() && ((#[trigger] fewer[i]) matches SubjectNameModel::Ip(octets)
                && ip_of(octets) == Some(ip)) {
            let i = choose|i: int|
                0 <= i < fewer.len() && ((#[trigger] fewer[i]) matches SubjectNameModel::Ip(octets)
                    && ip_of(octets) == Some(ip));
            assert(models[i] == fewer[i]);
        }
        if exists|i: int|
            0 <= i < models.len() && ((#[trigger] models[i]) matches SubjectNameModel::Ip(octets)
                && ip_of(octets) == Some(ip)) {
            let i = choose|i: int|
                0 <= i < models.len() && ((#[trigger] models[i]) matches SubjectNameModel::Ip(octets)
                    && ip_of(octets) == Some(ip));
            if i < fewer.len() {
                assert(fewer[i] == models[i]);
            }
        }
    }
}

/// A header is the frame's length, the highest byte first; one which announces more than the maximum
/// is refused with both lengths.
pub proof fn a_header_is_held_to_the_maximum(
    header: &[u8],
    max_frame_size: usize,
    r: Result<usize, TransportError>,
)
    requires
        header@.len() == 4,
        call_ensures(frame_len, (header, max_frame_size), r),
    ensures
        ({
            let len = header@[0] * 0x100_0000 + header@[1] * 0x1_0000 + header@[2] * 0x100
                + header@[3];
            &&& len <= max_frame_size ==> r == Ok::<usize, TransportError>(len as usize)
            &&& max_frame_size < len <= usize::MAX ==> r == Err::<usize, TransportError>(
                TransportError::FrameTooLarge { len: len as usize, max: max_frame_size },
            )
        }),
{
    reveal_with_fuel(be_value, 5);
    let s = header@;
    assert(s.drop_last().drop_last().drop_last().drop_last() =~= Seq::<u8>::empty());
    assert(be_value(s) == ((s[0] * 256 + s[1]) * 256 + s[2]) * 256 + s[3]);
}

/// Only the first certificate of a chain names its peer; without one, or with one which cannot be
/// read, nothing is named.
pub proof fn the_first_certificate_names_the_peer(certificates: Seq<Vec<u8>>)
    ensures
        certificates.len() == 0 ==> chain_names(certificates).len() == 0,
        certificates.len() > 0 ==> (match certificate_names(certificates[0]@) {
            Some(names) => chain_names(certificates) == names,
            None => chain_names(certificates).len() == 0,
        }),
{
}

} // verus!
