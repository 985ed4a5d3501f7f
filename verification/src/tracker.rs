//! The tracker boundary: the request this client announces with, and
//! the compact peer list parsed out of the tracker's bencoded response.
use vstd::prelude::*;
use crate::bencode::{BencodeValue, SpecValue, ParseError, decode, spec_decode};
use crate::torrent::{spec_dict_get, dict_get};
use vstd::string::StringExecFns;

verus! {

/// The query parameters of a tracker announce, besides the info hash,
/// which is percent-encoded separately.
#[derive(Debug)]
pub struct TrackerRequest {
    pub peer_id: String,
    pub port: u16,
    pub uploaded: usize,
    pub downloaded: usize,
    pub left: usize,
    pub compact: u8,
}

impl TrackerRequest {
    /// The conventional announce for a fresh download of `length`
    /// bytes: nothing transferred yet, compact peer list requested.
    pub fn default(length: usize) -> (r: Self)
        ensures
            r.peer_id@ == "00112233445566778899"@,
            r.port == 6881,
            r.uploaded == 0,
            r.downloaded == 0,
            r.left == length,
            r.compact == 1,
    {
        TrackerRequest {
            peer_id: String::from_str("00112233445566778899"),
            port: 6881,
            uploaded: 0,
            downloaded: 0,
            left: length,
            compact: 1,
        }
    }
}

/// One peer: four IPv4 address bytes and a port.
#[derive(Debug, Clone, Copy, PartialEq, Eq)]
pub struct PeerAddress {
    pub ip: [u8; 4],
    pub port: u16,
}

impl View for PeerAddress {
    type V = (Seq<u8>, u16);

    open spec fn view(&self) -> (Seq<u8>, u16) {
        (self.ip@, self.port)
    }
}

/// The peers a tracker response lists, in response order.
#[derive(Debug)]
pub struct Peers {
    pub addresses: Vec<PeerAddress>,
}

impl View for Peers {
    type V = Seq<(Seq<u8>, u16)>;

    open spec fn view(&self) -> Seq<(Seq<u8>, u16)> {
        Seq::new(self.addresses@.len(), |i: int| self.addresses@[i]@)
    }
}

/// The part of the tracker's bencoded response this client consumes.
#[derive(Debug)]
pub struct TrackerResponse {
    pub peers: Peers,
}

impl View for TrackerResponse {
    type V = Seq<(Seq<u8>, u16)>;

    open spec fn view(&self) -> Seq<(Seq<u8>, u16)> {
        self.peers@
    }
}

/// Why a tracker response failed to parse.
#[derive(Debug, Clone, Copy, PartialEq, Eq, Structural)]
pub enum TrackerError {
    /// The response is not well-formed bencode.
    Syntax(ParseError),
    /// The top-level value is not a dictionary.
    NotADict,
    /// The `peers` field is absent.
    MissingPeers,
    /// The `peers` field is not a byte string.
    MistypedPeers,
    /// The `peers` byte string is not a whole number of 6-byte entries.
    PeersLength,
}

/// `peers`, as bytes.
pub open spec fn key_peers() -> Seq<u8> {
    seq![112u8, 101u8, 101u8, 114u8, 115u8]
}

/// The compact peer list cut into entries: four address bytes, then a
/// big-endian 16-bit port.
pub open spec fn spec_peers_of(pb: Seq<u8>) -> Seq<(Seq<u8>, u16)> {
    Seq::new(
        pb.len() / 6,
        |i: int| (pb.subrange(6 * i, 6 * i + 4), (pb[6 * i + 4] * 256 + pb[6 * i + 5]) as u16),
    )
}

/// What parsing a tracker response yields: the peer list of the first
/// bencoded value, or the error that rejects it.
pub open spec fn spec_parse_tracker(bytes: Seq<u8>) -> Result<Seq<(Seq<u8>, u16)>, TrackerError> {
    match spec_decode(bytes) {
        Err(e) => Err(TrackerError::Syntax(e)),
        Ok((SpecValue::Dict(entries), _)) => match spec_dict_get(entries, key_peers()) {
            None => Err(TrackerError::MissingPeers),
            Some(SpecValue::ByteString(pb)) => if pb.len() % 6 != 0 {
                Err(TrackerError::PeersLength)
            } else {
                Ok(spec_peers_of(pb))
            },
            Some(_) => Err(TrackerError::MistypedPeers),
        },
        Ok(_) => Err(TrackerError::NotADict),
    }
}

impl TrackerResponse {
    /// Parses a tracker's bencoded response, exactly as
    /// `spec_parse_tracker` says.
    pub fn from_bytes(bytes: &[u8]) -> (r: Result<TrackerResponse, TrackerError>)
        ensures
            match r {
                Ok(t) => spec_parse_tracker(bytes@) == Ok::<Seq<(Seq<u8>, u16)>, TrackerError>(t@),
                Err(e) => spec_parse_tracker(bytes@) == Err::<Seq<(Seq<u8>, u16)>, TrackerError>(
                    e,
                ),
            },
    {
        let v = match decode(bytes) {
            Err(e) => {
                return Err(TrackerError::Syntax(e));
            },
            Ok((v, _)) => v,
        };
        let entries = match v {
            BencodeValue::Dict(entries) => entries,
            _ => {
                return Err(TrackerError::NotADict);
            },
        };
        let peers_key: [u8; 5] = [112, 101, 101, 114, 115];
        proof {
            assert(peers_key@ =~= key_peers());
        }
        match dict_get(&entries, peers_key.as_slice()) {
            None => Err(TrackerError::MissingPeers),
            Some(BencodeValue::ByteString(pb)) => {
                if pb.len() % 6 != 0 {
                    return Err(TrackerError::PeersLength);
                }
                Ok(TrackerResponse { peers: parse_compact_peers(pb) })
            },
            Some(_) => Err(TrackerError::MistypedPeers),
        }
    }
}

/// Cuts a compact peer list whose length is a whole number of 6-byte
/// entries into peer addresses.
#[verifier::loop_isolation(false)]
fn parse_compact_peers(pb: &Vec<u8>) -> (r: Peers)
    requires
        pb@.len() % 6 == 0,
    ensures
        r@ == spec_peers_of(pb@),
{
    let cnt = pb.len() / 6;
    proof {
        vstd::arithmetic::div_mod::lemma_fundamental_div_mod(pb@.len() as int, 6);
        assert(pb@.len() == 6 * cnt);
    }
    let mut addresses: Vec<PeerAddress> = Vec::new();
    let mut j: usize = 0;
    while j < cnt
        invariant
            j <= cnt,
            addresses@.len() == j,
            forall|x: int|
                0 <= x < j ==> (#[trigger] addresses@[x])@ == (
                    pb@.subrange(6 * x, 6 * x + 4),
                    (pb@[6 * x + 4] * 256 + pb@[6 * x + 5]) as u16,
                ),
        decreases cnt - j,
    {
        let ip = [pb[6 * j], pb[6 * j + 1], pb[6 * j + 2], pb[6 * j + 3]];
        let port = (pb[6 * j + 4] as u16) * 256 + (pb[6 * j + 5] as u16);
        proof {
            assert(ip@ =~= pb@.subrange(6 * j as int, 6 * j as int + 4));
        }
        addresses.push(PeerAddress { ip, port });
        j = j + 1;
    }
    let r = Peers { addresses };
    proof {
        assert(r@ =~= spec_peers_of(pb@));
    }
    r
}

} // verus!
