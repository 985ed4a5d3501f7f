//! The piece download algorithm: piece geometry, the 16 KiB block
//! partition, strict in-order assembly, and the final SHA-1 check.
use vstd::prelude::*;
use crate::torrent::{Info, SpecInfo, bytes_eq};
use crate::hashing::{sha1_of, sha1_digest};
use crate::peer::{PeerError, spec_u32_from_be};

verus! {

/// The size of every block but possibly the last, in bytes.
pub const BLOCK_MAX_SIZE: usize = 16384;

/// The byte length of piece `index`: the configured piece length for
/// all pieces except the last, which takes the remaining bytes.
pub open spec fn spec_piece_len(info: SpecInfo, index: nat) -> nat
    recommends
        info.wf(),
        index < info.pieces.len(),
{
    if index + 1 == info.pieces.len() {
        (info.length - info.piece_length * (info.pieces.len() - 1)) as nat
    } else {
        info.piece_length
    }
}

/// Piece lengths are positive, at most the configured piece length,
/// and the full pieces leave room for the last one.
pub proof fn lemma_piece_len_bounds(info: SpecInfo, index: nat)
    requires
        info.wf(),
        index < info.pieces.len(),
    ensures
        1 <= spec_piece_len(info, index) <= info.piece_length,
        info.piece_length * (info.pieces.len() - 1) <= info.length,
{
    let pl = info.piece_length as int;
    let len = info.length as int;
    let cnt = info.pieces.len() as int;
    // cnt >= 1, so the file is not empty and cnt - 1 == (len - 1) / pl.
    assert(len >= 1);
    vstd::arithmetic::div_mod::lemma_fundamental_div_mod(len - 1, pl);
    vstd::arithmetic::div_mod::lemma_mod_division_less_than_divisor(len - 1, pl);
    let q = (len - 1) / pl;
    let r = (len - 1) % pl;
    assert(len - 1 == q * pl + r);
    assert(cnt - 1 == q);
    assert(pl * (cnt - 1) == q * pl) by (nonlinear_arith)
        requires
            cnt - 1 == q,
    ;
    assert(pl * (cnt - 1) <= len - 1);
}

/// How many blocks a piece of `piece_len` bytes takes.
pub open spec fn spec_block_count(piece_len: nat) -> nat {
    crate::torrent::spec_ceil_div(piece_len, 16384)
}

/// The length of the block at index `i` of a piece of `piece_len`
/// bytes: the full 16384 except for a shorter final block.
pub open spec fn spec_block_len_at(piece_len: nat, i: nat) -> nat
    recommends
        i < spec_block_count(piece_len),
{
    if piece_len - 16384 * i < 16384 {
        (piece_len - 16384 * i) as nat
    } else {
        16384
    }
}

/// The block partition: a piece divisible by 16384 falls into exactly
/// `piece_len / 16384` full blocks; otherwise one more block follows,
/// of exactly the remainder, and no empty block ever trails.
pub proof fn lemma_block_partition(piece_len: nat)
    requires
        piece_len >= 1,
    ensures
        piece_len % 16384 == 0 ==> spec_block_count(piece_len) == piece_len / 16384,
        piece_len % 16384 != 0 ==> spec_block_count(piece_len) == piece_len / 16384 + 1,
        forall|i: nat|
            i + 1 < spec_block_count(piece_len) ==> #[trigger] spec_block_len_at(piece_len, i)
                == 16384,
        spec_block_count(piece_len) >= 1,
        spec_block_len_at(piece_len, (spec_block_count(piece_len) - 1) as nat) == (
        if piece_len % 16384 == 0 {
            16384 as nat
        } else {
            piece_len % 16384
        }),
        spec_block_len_at(piece_len, (spec_block_count(piece_len) - 1) as nat) >= 1,
{
    let b = 16384int;
    let n = piece_len as int;
    vstd::arithmetic::div_mod::lemma_fundamental_div_mod(n, b);
    vstd::arithmetic::div_mod::lemma_mod_division_less_than_divisor(n, b);
    let k = n / b;
    let r = n % b;
    assert(n == b * k + r);
    if r == 0 {
        vstd::arithmetic::div_mod::lemma_fundamental_div_mod_converse(n - 1, b, k - 1, b - 1);
        assert(spec_block_count(piece_len) == k);
        assert forall|i: nat| i + 1 < spec_block_count(piece_len) implies #[trigger] spec_block_len_at(
            piece_len,
            i,
        ) == 16384 by {
            assert(b * (i as int) <= b * (k - 2)) by (nonlinear_arith)
                requires
                    i as int <= k - 2,
                    b > 0,
            ;
        }
        assert(b * (k - 1) == n - b) by (nonlinear_arith)
            requires
                n == b * k,
        ;
    } else {
        vstd::arithmetic::div_mod::lemma_fundamental_div_mod_converse(n - 1, b, k, r - 1);
        assert(spec_block_count(piece_len) == k + 1);
        assert forall|i: nat| i + 1 < spec_block_count(piece_len) implies #[trigger] spec_block_len_at(
            piece_len,
            i,
        ) == 16384 by {
            assert(b * (i as int) <= b * (k - 1)) by (nonlinear_arith)
                requires
                    i as int <= k - 1,
                    b > 0,
            ;
        }
        assert(b * k == n - r) by (nonlinear_arith)
            requires
                n == b * k + r,
        ;
    }
}

/// The byte length of piece `index` of the file `info` describes.
pub fn piece_byte_length(info: &Info, index: usize) -> (r: usize)
    requires
        info@.wf(),
        index < info@.pieces.len(),
    ensures
        r as nat == spec_piece_len(info@, index as nat),
        1 <= r <= info.piece_length,
{
    proof {
        lemma_piece_len_bounds(info@, index as nat);
    }
    let cnt = info.pieces.0.len();
    if index + 1 == cnt {
        info.length - info.piece_length * (cnt - 1)
    } else {
        info.piece_length
    }
}

/// After `i` full blocks, the next request asks for exactly the
/// partition's block `i`.
pub proof fn lemma_next_block_matches_partition(piece_len: nat, i: nat)
    requires
        i < spec_block_count(piece_len),
    ensures
        spec_next_block_len(piece_len, 16384 * i) == spec_block_len_at(piece_len, i),
{
}

/// The length of the next block to request when `done` of `piece_len`
/// bytes have arrived.
pub open spec fn spec_next_block_len(piece_len: nat, done: nat) -> nat
    recommends
        done < piece_len,
{
    if piece_len - done < 16384 {
        (piece_len - done) as nat
    } else {
        16384
    }
}

/// One piece being assembled: blocks are requested and appended in
/// strictly increasing offset order, one at a time.
#[derive(Debug)]
pub struct PieceDownload {
    /// Which piece of the torrent this buffer is for.
    pub piece_index: u32,
    /// The full byte length this piece must reach.
    pub piece_len: usize,
    /// The bytes assembled so far: always a prefix of the piece.
    pub data: Vec<u8>,
}

impl PieceDownload {
    /// The assembly invariant: never longer than the piece, and small
    /// enough that every offset fits the 4-byte wire fields.
    pub open spec fn wf(self) -> bool {
        self.data@.len() <= self.piece_len && self.piece_len <= u32::MAX
    }

    /// An empty assembly buffer for one piece.
    pub fn new(piece_index: u32, piece_len: usize) -> (r: Self)
        requires
            piece_len <= u32::MAX,
        ensures
            r.wf(),
            r.piece_index == piece_index,
            r.piece_len == piece_len,
            r.data@ == Seq::<u8>::empty(),
    {
        PieceDownload { piece_index, piece_len, data: Vec::new() }
    }

    /// The next `request` to send: the offset where assembly stands and
    /// the block length owed there; `None` once the piece is complete.
    pub fn next_request(&self) -> (r: Option<(u32, u32)>)
        requires
            self.wf(),
        ensures
            match r {
                Some((off, len)) => self.data@.len() < self.piece_len && off as nat
                    == self.data@.len() && len as nat == spec_next_block_len(
                    self.piece_len as nat,
                    self.data@.len(),
                ) && 1 <= len <= 16384,
                None => self.data@.len() == self.piece_len,
            },
    {
        if self.data.len() == self.piece_len {
            return None;
        }
        let off = self.data.len();
        let remaining = self.piece_len - off;
        let len: usize = if remaining < BLOCK_MAX_SIZE {
            remaining
        } else {
            BLOCK_MAX_SIZE
        };
        Some((off as u32, len as u32))
    }

    /// Takes one `piece` response.  It must answer the outstanding
    /// request exactly — right piece, right offset, right length —
    /// else it is rejected as an unexpected block and nothing changes.
    pub fn accept_block(&mut self, piece_index: u32, offset: u32, block: &[u8]) -> (r: Result<
        (),
        PeerError,
    >)
        requires
            old(self).wf(),
        ensures
            final(self).wf(),
            final(self).piece_index == old(self).piece_index,
            final(self).piece_len == old(self).piece_len,
            ({
                let fits = piece_index == old(self).piece_index && old(self).data@.len() < old(
                    self,
                ).piece_len && offset as nat == old(self).data@.len() && block@.len()
                    == spec_next_block_len(old(self).piece_len as nat, old(self).data@.len());
                if fits {
                    r is Ok && final(self).data@ == old(self).data@ + block@
                } else {
                    r == Err::<(), PeerError>(PeerError::UnexpectedBlock) && final(self).data@
                        == old(self).data@
                }
            }),
    {
        if piece_index != self.piece_index {
            return Err(PeerError::UnexpectedBlock);
        }
        if self.data.len() == self.piece_len {
            return Err(PeerError::UnexpectedBlock);
        }
        if offset as u64 != self.data.len() as u64 {
            return Err(PeerError::UnexpectedBlock);
        }
        let remaining = self.piece_len - self.data.len();
        let expect: usize = if remaining < BLOCK_MAX_SIZE {
            remaining
        } else {
            BLOCK_MAX_SIZE
        };
        if block.len() != expect {
            return Err(PeerError::UnexpectedBlock);
        }
        let mut i: usize = 0;
        while i < block.len()
            invariant
                i <= block@.len(),
                self.data@ == old(self).data@ + block@.take(i as int),
                self.piece_index == old(self).piece_index,
                self.piece_len == old(self).piece_len,
                old(self).data@.len() + block@.len() <= self.piece_len,
            decreases block@.len() - i,
        {
            self.data.push(block[i]);
            proof {
                assert(old(self).data@ + block@.take(i + 1int) =~= (old(self).data@ + block@.take(
                    i as int,
                )).push(block@[i as int]));
            }
            i = i + 1;
        }
        proof {
            assert(block@.take(block@.len() as int) =~= block@);
        }
        Ok(())
    }

    /// Has every block of the piece arrived?
    pub fn is_complete(&self) -> (r: bool)
        ensures
            r == (self.data@.len() == self.piece_len),
    {
        self.data.len() == self.piece_len
    }

    /// The final integrity check: the assembled piece is released only
    /// if its SHA-1 digest equals the recorded hash; a mismatch yields
    /// the integrity error and no bytes.
    pub fn finish(self, expected_hash: &[u8; 20]) -> (r: Result<Vec<u8>, PeerError>)
        requires
            self.wf(),
            self.data@.len() == self.piece_len,
        ensures
            match r {
                Ok(d) => sha1_of(self.data@) == expected_hash@ && d@ == self.data@,
                Err(e) => e == PeerError::Integrity && sha1_of(self.data@) != expected_hash@,
            },
    {
        let digest = sha1_digest(self.data.as_slice());
        if bytes_eq(digest.as_slice(), expected_hash.as_slice()) {
            Ok(self.data)
        } else {
            Err(PeerError::Integrity)
        }
    }
}

/// Splits a received `piece` message (id byte included) into piece
/// index, block offset and block data; any other message id is a
/// protocol error, and a short `piece` frame is an unexpected block.
pub fn parse_piece_payload(payload: &[u8]) -> (r: Result<(u32, u32, Vec<u8>), PeerError>)
    ensures
        match r {
            Ok((idx, beg, d)) => payload@.len() >= 9 && payload@[0] == 7 && idx
                == spec_u32_from_be(payload@.subrange(1, 5)) && beg == spec_u32_from_be(
                payload@.subrange(5, 9),
            ) && d@ == payload@.skip(9),
            Err(e) => (payload@.len() == 0 && e == PeerError::UnexpectedKeepAlive) || (
            payload@.len() >= 1 && payload@[0] != 7 && e == PeerError::UnexpectedMessage(
                payload@[0],
            )) || (1 <= payload@.len() < 9 && payload@[0] == 7 && e == PeerError::UnexpectedBlock),
        },
{
    if payload.len() == 0 {
        return Err(PeerError::UnexpectedKeepAlive);
    }
    if payload[0] != 7 {
        return Err(PeerError::UnexpectedMessage(payload[0]));
    }
    if payload.len() < 9 {
        return Err(PeerError::UnexpectedBlock);
    }
    let idx = (payload[1] as u32) * 0x1000000 + (payload[2] as u32) * 0x10000 + (payload[3] as u32)
        * 256 + (payload[4] as u32);
    let beg = (payload[5] as u32) * 0x1000000 + (payload[6] as u32) * 0x10000 + (payload[7] as u32)
        * 256 + (payload[8] as u32);
    let mut d: Vec<u8> = Vec::new();
    let mut i: usize = 9;
    while i < payload.len()
        invariant
            9 <= i <= payload@.len(),
            d@ == payload@.subrange(9, i as int),
        decreases payload@.len() - i,
    {
        d.push(payload[i]);
        proof {
            assert(payload@.subrange(9, i + 1int) =~= payload@.subrange(9, i as int).push(
                payload@[i as int],
            ));
        }
        i = i + 1;
    }
    proof {
        assert(payload@.subrange(9, payload@.len() as int) =~= payload@.skip(9));
        assert(payload@.subrange(1, 5)[0] == payload@[1]);
        assert(payload@.subrange(1, 5)[1] == payload@[2]);
        assert(payload@.subrange(1, 5)[2] == payload@[3]);
        assert(payload@.subrange(1, 5)[3] == payload@[4]);
        assert(payload@.subrange(5, 9)[0] == payload@[5]);
        assert(payload@.subrange(5, 9)[1] == payload@[6]);
        assert(payload@.subrange(5, 9)[2] == payload@[7]);
        assert(payload@.subrange(5, 9)[3] == payload@[8]);
    }
    Ok((idx, beg, d))
}

} // verus!
