//! The peer wire protocol: the fixed 68-byte handshake, message
//! identifiers and frames, and the per-connection flow-control state
//! machine (bitfield wait, interest, unchoke wait).
use vstd::prelude::*;

verus! {

/// Offset of the peer id inside the 68-byte handshake.
pub const HANDSHAKE_PEER_ID_BYTE_INDEX_START: usize = 48;

/// Offset of the info hash inside the 68-byte handshake.
pub const HANDSHAKE_INFO_HASH_BYTE_INDEX_START: usize = 28;

/// The handshake is always exactly this many bytes.
pub const HANDSHAKE_BYTE_BUFFER_SIZE: usize = 68;

/// The bytes of the literal `BitTorrent protocol`.
pub open spec fn spec_protocol() -> Seq<u8> {
    seq![
        66u8, 105u8, 116u8, 84u8, 111u8, 114u8, 114u8, 101u8, 110u8, 116u8, 32u8, 112u8, 114u8,
        111u8, 116u8, 111u8, 99u8, 111u8, 108u8,
    ]
}

/// The default peer id this client presents: the ASCII digits of
/// `00112233445566778899`.
pub open spec fn spec_default_peer_id() -> Seq<u8> {
    seq![
        48u8, 48u8, 49u8, 49u8, 50u8, 50u8, 51u8, 51u8, 52u8, 52u8, 53u8, 53u8, 54u8, 54u8, 55u8,
        55u8, 56u8, 56u8, 57u8, 57u8,
    ]
}

/// How a peer conversation fails.
#[derive(Debug, Clone, Copy, PartialEq, Eq, Structural)]
pub enum PeerError {
    /// The 68-byte handshake response does not echo our info hash.
    Handshake,
    /// A message with this id arrived where another was required.
    UnexpectedMessage(u8),
    /// A keep-alive arrived where the bitfield was required.
    UnexpectedKeepAlive,
    /// A `piece` message does not answer the outstanding request.
    UnexpectedBlock,
    /// The bounded wait elapsed.
    Timeout,
    /// The assembled piece fails its SHA-1 check.
    Integrity,
}

/// The fixed 68-byte opening message of a peer connection.
#[derive(Debug)]
pub struct Handshake {
    pub length: u8,
    pub protocol: [u8; 19],
    pub reserved: [u8; 8],
    pub info_hash: [u8; 20],
    pub peer_id: [u8; 20],
}

/// The wire layout of a handshake: length byte, protocol string, eight
/// reserved bytes, info hash, peer id.
pub open spec fn spec_handshake_bytes(h: Handshake) -> Seq<u8> {
    seq![h.length] + h.protocol@ + h.reserved@ + h.info_hash@ + h.peer_id@
}

impl Handshake {
    /// A handshake for `info_hash_bytes` with the protocol literal, zero
    /// reserved bytes and the default peer id.
    pub fn new(info_hash_bytes: [u8; 20]) -> (r: Self)
        ensures
            r.length == 19,
            r.protocol@ == spec_protocol(),
            r.reserved@ == Seq::new(8, |i: int| 0u8),
            r.info_hash@ == info_hash_bytes@,
            r.peer_id@ == spec_default_peer_id(),
    {
        let r = Handshake {
            length: 19,
            protocol: [
                66, 105, 116, 84, 111, 114, 114, 101, 110, 116, 32, 112, 114, 111, 116, 111, 99,
                111, 108,
            ],
            reserved: [0; 8],
            info_hash: info_hash_bytes,
            peer_id: [48, 48, 49, 49, 50, 50, 51, 51, 52, 52, 53, 53, 54, 54, 55, 55, 56, 56, 57,
                57],
        };
        proof {
            assert(r.protocol@ =~= spec_protocol());
            assert(r.reserved@ =~= Seq::new(8, |i: int| 0u8));
            assert(r.peer_id@ =~= spec_default_peer_id());
        }
        r
    }

    /// The 68 bytes this handshake puts on the wire.
    pub fn as_bytes(&self) -> (r: Vec<u8>)
        ensures
            r@ == spec_handshake_bytes(*self),
            r@.len() == 68,
    {
        let mut bytes: Vec<u8> = Vec::new();
        bytes.push(self.length);
        push_byte_slice(&mut bytes, self.protocol.as_slice());
        push_byte_slice(&mut bytes, self.reserved.as_slice());
        push_byte_slice(&mut bytes, self.info_hash.as_slice());
        push_byte_slice(&mut bytes, self.peer_id.as_slice());
        proof {
            assert(bytes@ =~= spec_handshake_bytes(*self));
        }
        bytes
    }
}

/// Appends all of `src` to `dst`.
fn push_byte_slice(dst: &mut Vec<u8>, src: &[u8])
    ensures
        final(dst)@ == old(dst)@ + src@,
{
    let mut i: usize = 0;
    while i < src.len()
        invariant
            i <= src@.len(),
            dst@ == old(dst)@ + src@.take(i as int),
        decreases src@.len() - i,
    {
        dst.push(src[i]);
        proof {
            assert(old(dst)@ + src@.take(i + 1int) =~= (old(dst)@ + src@.take(i as int)).push(
                src@[i as int],
            ));
        }
        i = i + 1;
    }
    proof {
        assert(src@.take(src@.len() as int) =~= src@);
    }
}

/// Checks a 68-byte handshake response: its bytes 28..48 must equal the
/// info hash this client sent; on success, the responder's peer id.
pub fn verify_handshake_response(resp: &[u8; 68], info_hash: &[u8; 20]) -> (r: Result<
    [u8; 20],
    PeerError,
>)
    ensures
        resp@.subrange(28, 48) == info_hash@ ==> (r matches Ok(pid) && pid@ == resp@.subrange(
            48,
            68,
        )),
        resp@.subrange(28, 48) != info_hash@ ==> r == Err::<[u8; 20], PeerError>(
            PeerError::Handshake,
        ),
{
    let mut i: usize = 0;
    while i < 20
        invariant
            i <= 20,
            forall|j: int| 0 <= j < i ==> resp@[28 + j] == info_hash@[j],
        decreases 20 - i,
    {
        if resp[28 + i] != info_hash[i] {
            proof {
                assert(resp@.subrange(28, 48)[i as int] != info_hash@[i as int]);
            }
            return Err(PeerError::Handshake);
        }
        i = i + 1;
    }
    proof {
        assert(resp@.subrange(28, 48) =~= info_hash@);
    }
    let mut pid = [0u8; 20];
    let mut j: usize = 0;
    while j < 20
        invariant
            j <= 20,
            forall|k: int| 0 <= k < j ==> pid@[k] == resp@[48 + k],
        decreases 20 - j,
    {
        pid[j] = resp[48 + j];
        j = j + 1;
    }
    proof {
        assert(pid@ =~= resp@.subrange(48, 68));
    }
    Ok(pid)
}

/// The nine known message kinds of the peer wire protocol.
#[derive(Debug, Clone, Copy, PartialEq, Eq, Structural)]
pub enum MessageType {
    Choke,
    Unchoke,
    Interested,
    NotInterested,
    Have,
    Bitfield,
    Request,
    Piece,
    Cancel,
}

/// The wire id of each message kind.
pub open spec fn spec_message_id(m: MessageType) -> u8 {
    match m {
        MessageType::Choke => 0,
        MessageType::Unchoke => 1,
        MessageType::Interested => 2,
        MessageType::NotInterested => 3,
        MessageType::Have => 4,
        MessageType::Bitfield => 5,
        MessageType::Request => 6,
        MessageType::Piece => 7,
        MessageType::Cancel => 8,
    }
}

/// The four big-endian bytes of a 32-bit value.
pub open spec fn spec_u32_be(x: u32) -> Seq<u8> {
    seq![
        (x / 0x1000000) as u8,
        ((x / 0x10000) % 256) as u8,
        ((x / 256) % 256) as u8,
        (x % 256) as u8,
    ]
}

/// The 32-bit value four big-endian bytes denote.
pub open spec fn spec_u32_from_be(b: Seq<u8>) -> u32
    recommends
        b.len() == 4,
{
    (b[0] as u32 * 0x1000000 + b[1] as u32 * 0x10000 + b[2] as u32 * 256 + b[3] as u32) as u32
}

/// Reading back the four big-endian bytes of `x` yields `x`.
pub proof fn lemma_u32_be_inverse(x: u32)
    ensures
        spec_u32_from_be(spec_u32_be(x)) == x,
{
}

/// Writes `x` as four big-endian bytes.
pub fn u32_to_be(x: u32) -> (r: [u8; 4])
    ensures
        r@ == spec_u32_be(x),
{
    let r = [(x / 0x1000000) as u8, ((x / 0x10000) % 256) as u8, ((x / 256) % 256) as u8, (x
        % 256) as u8];
    proof {
        assert(r@ =~= spec_u32_be(x));
    }
    r
}

/// Reads four big-endian bytes as a 32-bit value.
pub fn u32_from_be(b: &[u8; 4]) -> (r: u32)
    ensures
        r == spec_u32_from_be(b@),
{
    (b[0] as u32) * 0x1000000 + (b[1] as u32) * 0x10000 + (b[2] as u32) * 256 + (b[3] as u32)
}

/// The fixed 5-byte `interested` message: length one, id two.
pub open spec fn spec_interested_bytes() -> Seq<u8> {
    seq![0u8, 0u8, 0u8, 1u8, 2u8]
}

/// The 17-byte `request` message for one block: length thirteen, id
/// six, then piece index, block offset and block length, each as four
/// big-endian bytes.
pub open spec fn spec_request_bytes(piece: u32, offset: u32, length: u32) -> Seq<u8> {
    seq![0u8, 0u8, 0u8, 13u8, 6u8] + spec_u32_be(piece) + spec_u32_be(offset) + spec_u32_be(length)
}

impl MessageType {
    /// The wire id of this message kind.
    pub fn id(&self) -> (r: u8)
        ensures
            r == spec_message_id(*self),
    {
        match self {
            MessageType::Choke => 0,
            MessageType::Unchoke => 1,
            MessageType::Interested => 2,
            MessageType::NotInterested => 3,
            MessageType::Have => 4,
            MessageType::Bitfield => 5,
            MessageType::Request => 6,
            MessageType::Piece => 7,
            MessageType::Cancel => 8,
        }
    }

    /// The message kind a wire id denotes; ids above eight are unknown
    /// and yield `None`, never a panic.
    pub fn from_id(id: u8) -> (r: Option<MessageType>)
        ensures
            id <= 8 <==> r is Some,
            match r {
                Some(m) => spec_message_id(m) == id,
                None => id > 8,
            },
    {
        match id {
            0 => Some(MessageType::Choke),
            1 => Some(MessageType::Unchoke),
            2 => Some(MessageType::Interested),
            3 => Some(MessageType::NotInterested),
            4 => Some(MessageType::Have),
            5 => Some(MessageType::Bitfield),
            6 => Some(MessageType::Request),
            7 => Some(MessageType::Piece),
            8 => Some(MessageType::Cancel),
            _ => None,
        }
    }

    /// The bytes this kind puts on the wire: the fixed `interested`
    /// frame, a `request` frame for the values the closure supplies,
    /// and nothing for the kinds that carry no fixed frame here.
    pub fn get_write_buffer<F: Fn() -> (u32, u32, u32)>(&self, get_values: F) -> (r: Vec<u8>)
        requires
            *self is Request ==> call_requires(get_values, ()),
        ensures
            match *self {
                MessageType::Interested => r@ == spec_interested_bytes(),
                MessageType::Request => exists|t: (u32, u32, u32)|
                    #[trigger] call_ensures(get_values, (), t) && r@ == spec_request_bytes(
                        t.0,
                        t.1,
                        t.2,
                    ),
                _ => r@ == Seq::<u8>::empty(),
            },
    {
        match self {
            MessageType::Interested => {
                let r = vec![0u8, 0u8, 0u8, 1u8, 2u8];
                proof {
                    assert(r@ =~= spec_interested_bytes());
                }
                r
            },
            MessageType::Request => {
                let (piece, block_index, block_size) = get_values();
                build_request(piece, block_index, block_size)
            },
            _ => Vec::new(),
        }
    }
}

/// Builds the 17-byte `request` frame for one block.
pub fn build_request(piece: u32, offset: u32, length: u32) -> (r: Vec<u8>)
    ensures
        r@ == spec_request_bytes(piece, offset, length),
{
    let mut r = vec![0u8, 0u8, 0u8, 13u8, 6u8];
    push_byte_slice(&mut r, u32_to_be(piece).as_slice());
    push_byte_slice(&mut r, u32_to_be(offset).as_slice());
    push_byte_slice(&mut r, u32_to_be(length).as_slice());
    proof {
        assert(r@ =~= spec_request_bytes(piece, offset, length));
    }
    r
}

/// The flow-control states of one peer connection, after the handshake.
#[derive(Debug, Clone, Copy, PartialEq, Eq, Structural)]
pub enum EngineState {
    /// The first message must be the peer's bitfield.
    AwaitingBitfield,
    /// The peer has choked us; `interested` tells whether our interest
    /// message has been sent yet.
    Choked { interested: bool },
    /// The peer permits requests: data transfer may begin.
    Unchoked,
    /// The connection is finished and is not reused.
    Closed,
}

/// What one step of the engine observes.
#[derive(Debug, Clone, Copy, PartialEq, Eq, Structural)]
pub enum EngineEvent {
    /// A framed message arrived bearing this id byte.
    Message { id: u8 },
    /// A zero-length frame arrived: a keep-alive.
    KeepAlive,
    /// Our `interested` message was written to the peer.
    InterestedSent,
    /// The bounded wait elapsed without the awaited message.
    TimedOut,
}

/// What the caller must do after a step.
#[derive(Debug, Clone, Copy, PartialEq, Eq, Structural)]
pub enum EngineAction {
    /// Nothing to send: read on, or begin requesting when unchoked.
    NoAction,
    /// Send the fixed 5-byte `interested` message.
    SendInterested,
}

/// The transition table of the engine: from a state and an event to
/// the next state and the action owed, or the error that closes the
/// connection.
pub open spec fn spec_engine_step(s: EngineState, e: EngineEvent) -> Result<
    (EngineState, EngineAction),
    PeerError,
> {
    match s {
        EngineState::AwaitingBitfield => match e {
            EngineEvent::Message { id } => if id == 5 {
                Ok((EngineState::Choked { interested: false }, EngineAction::SendInterested))
            } else {
                Err(PeerError::UnexpectedMessage(id))
            },
            EngineEvent::KeepAlive => Err(PeerError::UnexpectedKeepAlive),
            EngineEvent::InterestedSent => Err(PeerError::UnexpectedMessage(2)),
            EngineEvent::TimedOut => Err(PeerError::Timeout),
        },
        EngineState::Choked { interested } => match e {
            EngineEvent::Message { id } => if id == 1 {
                Ok((EngineState::Unchoked, EngineAction::NoAction))
            } else {
                // Anything but `unchoke` is discarded while waiting.
                Ok((s, EngineAction::NoAction))
            },
            EngineEvent::KeepAlive => Ok((s, EngineAction::NoAction)),
            EngineEvent::InterestedSent => Ok(
                (EngineState::Choked { interested: true }, EngineAction::NoAction),
            ),
            EngineEvent::TimedOut => Err(PeerError::Timeout),
        },
        EngineState::Unchoked => match e {
            EngineEvent::TimedOut => Err(PeerError::Timeout),
            _ => Ok((EngineState::Unchoked, EngineAction::NoAction)),
        },
        EngineState::Closed => Ok((EngineState::Closed, EngineAction::NoAction)),
    }
}

/// Advances the engine by one observed event.
pub fn engine_step(s: EngineState, e: EngineEvent) -> (r: Result<
    (EngineState, EngineAction),
    PeerError,
>)
    ensures
        r == spec_engine_step(s, e),
{
    match s {
        EngineState::AwaitingBitfield => match e {
            EngineEvent::Message { id } => if id == 5 {
                Ok((EngineState::Choked { interested: false }, EngineAction::SendInterested))
            } else {
                Err(PeerError::UnexpectedMessage(id))
            },
            EngineEvent::KeepAlive => Err(PeerError::UnexpectedKeepAlive),
            EngineEvent::InterestedSent => Err(PeerError::UnexpectedMessage(2)),
            EngineEvent::TimedOut => Err(PeerError::Timeout),
        },
        EngineState::Choked { interested } => match e {
            EngineEvent::Message { id } => if id == 1 {
                Ok((EngineState::Unchoked, EngineAction::NoAction))
            } else {
                Ok((EngineState::Choked { interested }, EngineAction::NoAction))
            },
            EngineEvent::KeepAlive => Ok((EngineState::Choked { interested }, EngineAction::NoAction)),
            EngineEvent::InterestedSent => Ok(
                (EngineState::Choked { interested: true }, EngineAction::NoAction),
            ),
            EngineEvent::TimedOut => Err(PeerError::Timeout),
        },
        EngineState::Unchoked => match e {
            EngineEvent::TimedOut => Err(PeerError::Timeout),
            _ => Ok((EngineState::Unchoked, EngineAction::NoAction)),
        },
        EngineState::Closed => Ok((EngineState::Closed, EngineAction::NoAction)),
    }
}

/// The event for one received frame: a zero length prefix is a
/// keep-alive and is never an error; otherwise the first payload byte
/// is the message id.
pub fn event_for_frame(length: u32, first_byte: u8) -> (r: EngineEvent)
    ensures
        length == 0 ==> r == EngineEvent::KeepAlive,
        length != 0 ==> r == (EngineEvent::Message { id: first_byte }),
{
    if length == 0 {
        EngineEvent::KeepAlive
    } else {
        EngineEvent::Message { id: first_byte }
    }
}

/// Running the engine over a sequence of events, stopping at the first
/// error.
pub open spec fn spec_engine_run(s: EngineState, events: Seq<EngineEvent>) -> Result<
    EngineState,
    PeerError,
>
    decreases events.len(),
{
    if events.len() == 0 {
        Ok(s)
    } else {
        match spec_engine_step(s, events[0]) {
            Ok((s2, _)) => spec_engine_run(s2, events.drop_first()),
            Err(e) => Err(e),
        }
    }
}

/// Waiting for `unchoke`: while every arriving message is something
/// other than `unchoke` (or a keep-alive), the engine stays choked and
/// never errs; and when the bounded wait then elapses, the outcome is
/// `Timeout` — never success and never a hang.
pub proof fn lemma_unchoke_wait_times_out(interested: bool, events: Seq<EngineEvent>)
    requires
        forall|i: int|
            0 <= i < events.len() ==> ((#[trigger] events[i]) matches EngineEvent::Message { id }
                && id != 1 || events[i] is KeepAlive),
    ensures
        spec_engine_run(EngineState::Choked { interested }, events) == Ok::<
            EngineState,
            PeerError,
        >(EngineState::Choked { interested }),
        spec_engine_run(
            EngineState::Choked { interested },
            events.push(EngineEvent::TimedOut),
        ) == Err::<EngineState, PeerError>(PeerError::Timeout),
    decreases events.len(),
{
    if events.len() == 0 {
        assert(events.push(EngineEvent::TimedOut).drop_first() =~= Seq::<EngineEvent>::empty());
    } else {
        assert(events.push(EngineEvent::TimedOut).drop_first() =~= events.drop_first().push(
            EngineEvent::TimedOut,
        ));
        assert(events.push(EngineEvent::TimedOut)[0] == events[0]);
        lemma_unchoke_wait_times_out(interested, events.drop_first());
    }
}

} // verus!
