use vstd::prelude::*;

verus! {

/// How we should talk to a peer.
#[derive(Debug, Clone, Copy, PartialEq, Eq, Structural)]
pub enum ConnectivityMode {
    /// Plain UDP packets reach the peer.
    Direct,
    /// Both sides punch a hole at the same time.
    HolePunch,
    /// Traffic goes through the controller.
    Relay,
}

/// NAT classification.
#[derive(Debug, Clone, Copy, PartialEq, Eq, Structural)]
pub enum NatType {
    FullCone,
    RestrictedCone,
    PortRestrictedCone,
    Symmetric,
    Unknown,
}

/// The four octets of an IPv4 address, most significant first.
#[derive(Debug, Clone, Copy, PartialEq, Eq, Structural)]
pub struct Ipv4 {
    pub a: u8,
    pub b: u8,
    pub c: u8,
    pub d: u8,
}

/// An IPv4 address and port as a STUN server reports them.
#[derive(Debug, Clone, Copy, PartialEq, Eq, Structural)]
pub struct Endpoint {
    pub ip: Ipv4,
    pub port: u16,
}

/// The same mapping twice is a full cone, the same address with another
/// port is port-restricted, another address is symmetric. (Two observations
/// always fall in one of these, so probing never yields `Unknown`.)
pub open spec fn classify_spec(o1: Endpoint, o2: Endpoint) -> NatType {
    if o1 == o2 {
        NatType::FullCone
    } else if o1.ip == o2.ip {
        NatType::PortRestrictedCone
    } else {
        NatType::Symmetric
    }
}

/// Classifies a NAT from two observations of our public endpoint: the same
/// mapping twice is a full cone, the same address with another port is
/// port-restricted, another address is symmetric.
pub fn classify_nat(o1: Endpoint, o2: Endpoint) -> (r: NatType)
    ensures
        r == classify_spec(o1, o2),
{
    if o1 == o2 {
        NatType::FullCone
    } else if o1.ip == o2.ip && o1.port != o2.port {
        NatType::PortRestrictedCone
    } else {
        NatType::Symmetric
    }
}

/// Classification reads nothing but the two observations.
pub proof fn law_classify_pure(a1: Endpoint, a2: Endpoint, b1: Endpoint, b2: Endpoint)
    requires
        a1 == b1,
        a2 == b2,
    ensures
        classify_spec(a1, a2) == classify_spec(b1, b2),
        classify_spec(a1, a2) != NatType::Unknown,
{
}

pub open spec fn is_cone(t: NatType) -> bool {
    t == NatType::RestrictedCone || t == NatType::PortRestrictedCone
}

pub open spec fn mode_spec(ours: NatType, peer: NatType) -> ConnectivityMode {
    if ours == NatType::FullCone || peer == NatType::FullCone {
        ConnectivityMode::Direct
    } else if is_cone(ours) && is_cone(peer) {
        ConnectivityMode::HolePunch
    } else if ours == NatType::Symmetric || peer == NatType::Symmetric {
        ConnectivityMode::Relay
    } else {
        ConnectivityMode::HolePunch
    }
}

/// Picks how to reach a peer: direct when either side is a full cone, relay
/// when a symmetric NAT is involved, hole punching otherwise.
pub fn select_connectivity_mode(our_nat: &NatType, peer_nat: &NatType) -> (r: ConnectivityMode)
    ensures
        r == mode_spec(*our_nat, *peer_nat),
{
    let ours = *our_nat;
    let peer = *peer_nat;
    let ours_cone = ours == NatType::RestrictedCone || ours == NatType::PortRestrictedCone;
    let peer_cone = peer == NatType::RestrictedCone || peer == NatType::PortRestrictedCone;
    if ours == NatType::FullCone || peer == NatType::FullCone {
        ConnectivityMode::Direct
    } else if ours_cone && peer_cone {
        ConnectivityMode::HolePunch
    } else if ours == NatType::Symmetric || peer == NatType::Symmetric {
        ConnectivityMode::Relay
    } else {
        ConnectivityMode::HolePunch
    }
}

/// The base score of a NAT class, in thousandths.
pub open spec fn nat_base(t: NatType) -> nat {
    match t {
        NatType::FullCone => 1000,
        NatType::RestrictedCone => 800,
        NatType::PortRestrictedCone => 600,
        NatType::Symmetric => 200,
        NatType::Unknown => 400,
    }
}

/// `clamp(0.7 * base + 0.3 * (1 - rtt / 5000), 0, 1)` in millionths. The
/// sum is never above 1 (the RTT is not negative), so only the lower bound
/// can bite: `0.3 * rtt / 5000` is `60 * rtt` millionths.
pub open spec fn score_spec(t: NatType, rtt_ms: nat) -> nat {
    let v = 700 * nat_base(t) + 300_000 - 60 * rtt_ms;
    if v < 0 {
        0
    } else {
        v as nat
    }
}

/// The mesh score of a node, in millionths (`1_000_000` is 1.0), from its NAT
/// class and its round-trip time to the controller.
pub fn compute_score(nat_type: &NatType, rtt_ms: u64) -> (r: u32)
    ensures
        r == score_spec(*nat_type, rtt_ms as nat),
        r <= 1_000_000,
{
    let base: u64 = match nat_type {
        NatType::FullCone => 1000,
        NatType::RestrictedCone => 800,
        NatType::PortRestrictedCone => 600,
        NatType::Symmetric => 200,
        NatType::Unknown => 400,
    };
    let top: u64 = 700 * base + 300_000;
    // 60 * rtt reaches `top` (at most 1_000_000) once rtt passes 16_666
    if rtt_ms >= 16_667 {
        return 0;
    }
    let penalty: u64 = 60 * rtt_ms;
    if penalty >= top {
        0
    } else {
        (top - penalty) as u32
    }
}

/// The score stays within [0, 1] whatever the NAT class and RTT.
pub proof fn law_score_in_range(t: NatType, rtt_ms: nat)
    ensures
        0 <= score_spec(t, rtt_ms) <= 1_000_000,
{
}

/// The name a NAT class is published under.
pub open spec fn nat_name_spec(t: NatType) -> Seq<char> {
    match t {
        NatType::FullCone => "FullCone"@,
        NatType::RestrictedCone => "RestrictedCone"@,
        NatType::PortRestrictedCone => "PortRestrictedCone"@,
        NatType::Symmetric => "Symmetric"@,
        NatType::Unknown => "Unknown"@,
    }
}

pub fn nat_type_name(t: &NatType) -> (r: String)
    ensures
        r@ == nat_name_spec(*t),
{
    match t {
        NatType::FullCone => String::from_str("FullCone"),
        NatType::RestrictedCone => String::from_str("RestrictedCone"),
        NatType::PortRestrictedCone => String::from_str("PortRestrictedCone"),
        NatType::Symmetric => String::from_str("Symmetric"),
        NatType::Unknown => String::from_str("Unknown"),
    }
}

pub open spec fn nat_from_name_spec(s: Option<Seq<char>>) -> NatType {
    match s {
        Some(n) => if n == "FullCone"@ {
            NatType::FullCone
        } else if n == "RestrictedCone"@ {
            NatType::RestrictedCone
        } else if n == "PortRestrictedCone"@ {
            NatType::PortRestrictedCone
        } else if n == "Symmetric"@ {
            NatType::Symmetric
        } else {
            NatType::Unknown
        },
        None => NatType::Unknown,
    }
}

/// Reads a NAT class that a peer published; anything unrecognised is `Unknown`.
pub fn nat_type_from_name(s: &Option<String>) -> (r: NatType)
    ensures
        r == nat_from_name_spec(
            match s {
                Some(x) => Some(x@),
                None => None,
            },
        ),
{
    match s {
        None => NatType::Unknown,
        Some(n) => {
            if n.eq(&String::from_str("FullCone")) {
                NatType::FullCone
            } else if n.eq(&String::from_str("RestrictedCone")) {
                NatType::RestrictedCone
            } else if n.eq(&String::from_str("PortRestrictedCone")) {
                NatType::PortRestrictedCone
            } else if n.eq(&String::from_str("Symmetric")) {
                NatType::Symmetric
            } else {
                NatType::Unknown
            }
        },
    }
}

// ---------------------------------------------------------------------------
// STUN binding requests and responses (RFC 5389)
// ---------------------------------------------------------------------------

/// Message type, length and magic cookie of a binding request with no
/// attributes.
pub open spec fn stun_header() -> Seq<u8> {
    seq![0x00u8, 0x01u8, 0x00u8, 0x00u8, 0x21u8, 0x12u8, 0xA4u8, 0x42u8]
}

/// A binding request carrying transaction id `txid` (12 bytes).
pub fn binding_request(txid: &Vec<u8>) -> (r: Vec<u8>)
    requires
        txid@.len() == 12,
    ensures
        r@ == stun_header() + txid@,
{
    let mut r: Vec<u8> = vec![0x00u8, 0x01u8, 0x00u8, 0x00u8, 0x21u8, 0x12u8, 0xA4u8, 0x42u8];
    assert(r@ =~= stun_header());
    let mut i: usize = 0;
    while i < txid.len()
        invariant
            i <= txid@.len(),
            r@ == stun_header() + txid@.subrange(0, i as int),
        decreases txid@.len() - i,
    {
        r.push(txid[i]);
        i = i + 1;
        assert(r@ =~= stun_header() + txid@.subrange(0, i as int));
    }
    assert(txid@.subrange(0, txid@.len() as int) =~= txid@);
    r
}

/// Relies on getrandom::getrandom, which fills the buffer from the operating
/// system's random source or reports an error.
#[verifier::external_body]
pub(crate) fn random_bytes(n: usize) -> (r: Option<Vec<u8>>)
    ensures
        r matches Some(v) ==> v@.len() == n,
{
    let mut v = vec![0u8; n];
    match getrandom::getrandom(&mut v) {
        Ok(()) => Some(v),
        Err(_) => None,
    }
}

/// A binding request with a fresh random transaction id, or `None` when no
/// random bytes could be had.
pub fn new_binding_request() -> (r: Option<Vec<u8>>)
    ensures
        r matches Some(v) ==> v@.len() == 20 && v@.subrange(0, 8) == stun_header(),
{
    match random_bytes(12) {
        Some(txid) => {
            let r = binding_request(&txid);
            assert(r@.subrange(0, 8) =~= stun_header());
            Some(r)
        },
        None => None,
    }
}

#[derive(Debug, Clone, Copy, PartialEq, Eq, Structural)]
pub enum StunError {
    /// Shorter than a STUN header.
    TooShort,
    /// No XOR-MAPPED-ADDRESS attribute among the attributes.
    NoMapping,
    /// The mapped address is not IPv4.
    NotIpv4,
}

pub open spec fn be16(b: Seq<u8>, i: int) -> u16 {
    (b[i] as u16 * 256 + b[i + 1] as u16) as u16
}

/// Scans the attributes from offset `i` for an XOR-MAPPED-ADDRESS.
pub open spec fn scan_attrs(b: Seq<u8>, i: int) -> Result<Endpoint, StunError>
    decreases b.len() - i,
{
    if i < 0 || i + 4 > b.len() {
        Err(StunError::NoMapping)
    } else {
        let t = be16(b, i);
        let l = be16(b, i + 2) as int;
        let j = i + 4;
        if j + l > b.len() {
            Err(StunError::NoMapping)
        } else if t == 0x0020 && l >= 8 {
            if b[j + 1] != 0x01 {
                Err(StunError::NotIpv4)
            } else {
                Ok(
                    Endpoint {
                        ip: Ipv4 { a: b[j + 4] ^ 0x21u8, b: b[j + 5] ^ 0x12u8, c: b[j + 6] ^ 0xA4u8, d: b[j + 7] ^ 0x42u8 },
                        port: be16(b, j + 2) ^ 0x2112u16,
                    },
                )
            }
        } else {
            scan_attrs(b, j + l)
        }
    }
}

pub open spec fn response_spec(b: Seq<u8>) -> Result<Endpoint, StunError> {
    if b.len() < 20 {
        Err(StunError::TooShort)
    } else {
        scan_attrs(b, 20)
    }
}

/// Decodes the public endpoint from a binding response: the first
/// XOR-MAPPED-ADDRESS attribute, with the port XORed with 0x2112 and the
/// address with the magic cookie.
pub fn parse_binding_response(buf: &[u8]) -> (r: Result<Endpoint, StunError>)
    ensures
        r == response_spec(buf@),
{
    let size = buf.len();
    if size < 20 {
        return Err(StunError::TooShort);
    }
    let mut i: usize = 20;
    while size - i >= 4
        invariant
            size == buf@.len(),
            20 <= i <= size,
            scan_attrs(buf@, 20) == scan_attrs(buf@, i as int),
        decreases size - i,
    {
        let attr_type: u16 = (buf[i] as u16) * 256 + (buf[i + 1] as u16);
        let attr_len: usize = ((buf[i + 2] as u16) * 256 + (buf[i + 3] as u16)) as usize;
        assert(attr_type == be16(buf@, i as int));
        assert(attr_len == be16(buf@, i + 2) as int);
        let j = i + 4;
        if attr_len > size - j {
            return Err(StunError::NoMapping);
        }
        if attr_type == 0x0020 && attr_len >= 8 {
            if buf[j + 1] != 0x01 {
                return Err(StunError::NotIpv4);
            }
            let xor_port: u16 = (buf[j + 2] as u16) * 256 + (buf[j + 3] as u16);
            assert(xor_port == be16(buf@, j + 2));
            return Ok(
                Endpoint {
                    ip: Ipv4 {
                        a: buf[j + 4] ^ 0x21u8,
                        b: buf[j + 5] ^ 0x12u8,
                        c: buf[j + 6] ^ 0xA4u8,
                        d: buf[j + 7] ^ 0x42u8,
                    },
                    port: xor_port ^ 0x2112u16,
                },
            );
        }
        i = j + attr_len;
    }
    Err(StunError::NoMapping)
}

// ---------------------------------------------------------------------------
// Hole punching
// ---------------------------------------------------------------------------

/// The bytes of `junknas-holepunch`, the packet both sides of a hole punch
/// send.
pub open spec fn punch_spec() -> Seq<u8> {
    seq![
        0x6au8, 0x75u8, 0x6eu8, 0x6bu8, 0x6eu8, 0x61u8, 0x73u8, 0x2du8, 0x68u8, 0x6fu8, 0x6cu8,
        0x65u8, 0x70u8, 0x75u8, 0x6eu8, 0x63u8, 0x68u8,
    ]
}

pub fn punch_packet() -> (r: Vec<u8>)
    ensures
        r@ == punch_spec(),
{
    let r: Vec<u8> = vec![
        0x6au8, 0x75u8, 0x6eu8, 0x6bu8, 0x6eu8, 0x61u8, 0x73u8, 0x2du8, 0x68u8, 0x6fu8, 0x6cu8,
        0x65u8, 0x70u8, 0x75u8, 0x6eu8, 0x63u8, 0x68u8,
    ];
    assert(r@ =~= punch_spec());
    r
}

/// Whether a packet that came back from the peer's address completes the
/// hole punch: it must be the punch packet itself.
pub fn is_punch_reply(data: &[u8]) -> (r: bool)
    ensures
        r == (data@ == punch_spec()),
{
    let p = punch_packet();
    if data.len() != p.len() {
        return false;
    }
    let mut i: usize = 0;
    while i < p.len()
        invariant
            p@ == punch_spec(),
            data@.len() == p@.len(),
            i <= p@.len(),
            forall|j: int| 0 <= j < i ==> data@[j] == p@[j],
        decreases p@.len() - i,
    {
        if data[i] != p[i] {
            return false;
        }
        i = i + 1;
    }
    assert(data@ =~= p@);
    true
}

} // verus!
