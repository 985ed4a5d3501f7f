//! The metainfo model: a typed, validated view over a decoded bencode
//! dictionary, and the content-addressed info hash derived from it.
use vstd::prelude::*;
use crate::bencode::{
    BencodeValue, SpecValue, ParseError, decode, spec_decode, view_entries, encode, spec_encode,
};
use crate::hashing::{sha1_of, sha1_digest, hex_of, hex_encode, hex_digit, string_from_utf8};
use vstd::utf8::{encode_utf8, valid_utf8};
use vstd::string::StringExecFns;

verus! {

/// The metainfo fields a decode error can name.
#[derive(Debug, Clone, Copy, PartialEq, Eq, Structural)]
pub enum FieldId {
    Announce,
    Info,
    Length,
    Name,
    PieceLength,
    Pieces,
}

/// Why metainfo bytes failed to yield a `Torrent`.
#[derive(Debug, Clone, Copy, PartialEq, Eq, Structural)]
pub enum DecodeError {
    /// The bytes are not well-formed bencode.
    Syntax(ParseError),
    /// The top-level value is not a dictionary.
    NotADict,
    /// A required field is absent.
    Missing(FieldId),
    /// A field has the wrong type, is not valid UTF-8, or is out of range.
    Mistyped(FieldId),
    /// The `pieces` byte string is not a whole number of 20-byte records.
    PiecesLength,
    /// The number of piece records does not match the file and piece sizes.
    PieceCount,
}

/// The 20-byte SHA-1 records of the pieces, in piece order.
#[derive(Debug)]
pub struct Hashes(pub Vec<[u8; 20]>);

impl View for Hashes {
    type V = Seq<Seq<u8>>;

    open spec fn view(&self) -> Seq<Seq<u8>> {
        Seq::new(self.0@.len(), |i: int| self.0@[i]@)
    }
}

/// The `info` dictionary: file size, name, piece size, piece hashes.
#[derive(Debug)]
pub struct Info {
    pub length: usize,
    pub name: String,
    pub piece_length: usize,
    pub pieces: Hashes,
}

/// The mathematical model of the `info` dictionary.
pub struct SpecInfo {
    pub length: nat,
    pub name: Seq<u8>,
    pub piece_length: nat,
    pub pieces: Seq<Seq<u8>>,
}

impl View for Info {
    type V = SpecInfo;

    open spec fn view(&self) -> SpecInfo {
        SpecInfo {
            length: self.length as nat,
            name: encode_utf8(self.name@),
            piece_length: self.piece_length as nat,
            pieces: self.pieces@,
        }
    }
}

/// A whole metainfo file: the tracker URL and the `info` dictionary.
#[derive(Debug)]
pub struct Torrent {
    pub announce: String,
    pub info: Info,
}

/// The mathematical model of a metainfo file.
pub struct SpecTorrent {
    pub announce: Seq<u8>,
    pub info: SpecInfo,
}

impl View for Torrent {
    type V = SpecTorrent;

    open spec fn view(&self) -> SpecTorrent {
        SpecTorrent { announce: encode_utf8(self.announce@), info: self.info@ }
    }
}

/// How many pieces a file of `len` bytes has at `piece_len` bytes each:
/// the quotient, rounded up.
pub open spec fn spec_ceil_div(len: nat, piece_len: nat) -> nat
    recommends
        piece_len >= 1,
{
    if len == 0 {
        0
    } else {
        (len - 1) as nat / piece_len + 1
    }
}

impl SpecInfo {
    /// The invariant the validating constructor establishes: a positive
    /// piece size, 20-byte records, one record per piece, and sizes
    /// that the codec's `i64` integers can carry.
    pub open spec fn wf(self) -> bool {
        &&& 1 <= self.piece_length <= i64::MAX
        &&& self.length <= i64::MAX
        &&& self.piece_length <= usize::MAX
        &&& self.length <= usize::MAX
        &&& self.pieces.len() == spec_ceil_div(self.length, self.piece_length)
        &&& forall|i: int| 0 <= i < self.pieces.len() ==> (#[trigger] self.pieces[i]).len() == 20
    }
}

/// The first value stored under `key`, in insertion order.
pub open spec fn spec_dict_get(entries: Seq<(Seq<u8>, SpecValue)>, key: Seq<u8>) -> Option<
    SpecValue,
>
    decreases entries.len(),
{
    if entries.len() == 0 {
        None
    } else if entries[0].0 == key {
        Some(entries[0].1)
    } else {
        spec_dict_get(entries.drop_first(), key)
    }
}

/// `announce`, as bytes.
pub open spec fn key_announce() -> Seq<u8> {
    seq![97u8, 110u8, 110u8, 111u8, 117u8, 110u8, 99u8, 101u8]
}

/// `info`, as bytes.
pub open spec fn key_info() -> Seq<u8> {
    seq![105u8, 110u8, 102u8, 111u8]
}

/// `length`, as bytes.
pub open spec fn key_length() -> Seq<u8> {
    seq![108u8, 101u8, 110u8, 103u8, 116u8, 104u8]
}

/// `name`, as bytes.
pub open spec fn key_name() -> Seq<u8> {
    seq![110u8, 97u8, 109u8, 101u8]
}

/// `piece length`, as bytes.
pub open spec fn key_piece_length() -> Seq<u8> {
    seq![112u8, 105u8, 101u8, 99u8, 101u8, 32u8, 108u8, 101u8, 110u8, 103u8, 116u8, 104u8]
}

/// `pieces`, as bytes.
pub open spec fn key_pieces() -> Seq<u8> {
    seq![112u8, 105u8, 101u8, 99u8, 101u8, 115u8]
}

/// The `pieces` byte string cut into its 20-byte records.
pub open spec fn spec_chunks20(pb: Seq<u8>) -> Seq<Seq<u8>> {
    Seq::new(pb.len() / 20, |i: int| pb.subrange(20 * i, 20 * i + 20))
}

/// Projecting and validating the `info` dictionary's entries.
pub open spec fn spec_project_info(entries: Seq<(Seq<u8>, SpecValue)>) -> Result<
    SpecInfo,
    DecodeError,
> {
    match spec_dict_get(entries, key_length()) {
        None => Err(DecodeError::Missing(FieldId::Length)),
        Some(SpecValue::Integer(len)) => if !(0 <= len <= usize::MAX as int && len
            <= i64::MAX as int) {
            Err(DecodeError::Mistyped(FieldId::Length))
        } else {
            match spec_dict_get(entries, key_name()) {
                None => Err(DecodeError::Missing(FieldId::Name)),
                Some(SpecValue::ByteString(nb)) => if !valid_utf8(nb) {
                    Err(DecodeError::Mistyped(FieldId::Name))
                } else {
                    match spec_dict_get(entries, key_piece_length()) {
                        None => Err(DecodeError::Missing(FieldId::PieceLength)),
                        Some(SpecValue::Integer(pl)) => if !(1 <= pl <= usize::MAX as int && pl
                            <= i64::MAX as int) {
                            Err(DecodeError::Mistyped(FieldId::PieceLength))
                        } else {
                            match spec_dict_get(entries, key_pieces()) {
                                None => Err(DecodeError::Missing(FieldId::Pieces)),
                                Some(SpecValue::ByteString(pb)) => if pb.len() % 20 != 0 {
                                    Err(DecodeError::PiecesLength)
                                } else if pb.len() as int / 20 != spec_ceil_div(
                                    len as nat,
                                    pl as nat,
                                ) {
                                    Err(DecodeError::PieceCount)
                                } else {
                                    Ok(
                                        SpecInfo {
                                            length: len as nat,
                                            name: nb,
                                            piece_length: pl as nat,
                                            pieces: spec_chunks20(pb),
                                        },
                                    )
                                },
                                Some(_) => Err(DecodeError::Mistyped(FieldId::Pieces)),
                            }
                        },
                        Some(_) => Err(DecodeError::Mistyped(FieldId::PieceLength)),
                    }
                },
                Some(_) => Err(DecodeError::Mistyped(FieldId::Name)),
            }
        },
        Some(_) => Err(DecodeError::Mistyped(FieldId::Length)),
    }
}

/// Projecting and validating the top-level dictionary's entries.
pub open spec fn spec_project_torrent(entries: Seq<(Seq<u8>, SpecValue)>) -> Result<
    SpecTorrent,
    DecodeError,
> {
    match spec_dict_get(entries, key_announce()) {
        None => Err(DecodeError::Missing(FieldId::Announce)),
        Some(SpecValue::ByteString(ab)) => if !valid_utf8(ab) {
            Err(DecodeError::Mistyped(FieldId::Announce))
        } else {
            match spec_dict_get(entries, key_info()) {
                None => Err(DecodeError::Missing(FieldId::Info)),
                Some(SpecValue::Dict(ie)) => match spec_project_info(ie) {
                    Ok(info) => Ok(SpecTorrent { announce: ab, info }),
                    Err(e) => Err(e),
                },
                Some(_) => Err(DecodeError::Mistyped(FieldId::Info)),
            }
        },
        Some(_) => Err(DecodeError::Mistyped(FieldId::Announce)),
    }
}

/// What parsing metainfo bytes yields: the validated model of the first
/// bencoded value, or the error that rejects it.  Bytes after that
/// value are ignored.
pub open spec fn spec_parse_torrent(bytes: Seq<u8>) -> Result<SpecTorrent, DecodeError> {
    match spec_decode(bytes) {
        Err(e) => Err(DecodeError::Syntax(e)),
        Ok((SpecValue::Dict(entries), _)) => spec_project_torrent(entries),
        Ok(_) => Err(DecodeError::NotADict),
    }
}

/// A successful parse establishes the metainfo invariant: in particular
/// the raw `pieces` byte string was a whole number of 20-byte records,
/// one per piece of the file.
pub proof fn lemma_parse_ok_wf(bytes: Seq<u8>, t: SpecTorrent)
    requires
        spec_parse_torrent(bytes) == Ok::<SpecTorrent, DecodeError>(t),
    ensures
        t.info.wf(),
{
}

/// Re-parsing identical metainfo bytes always yields an identical info
/// hash: the hash is a function of the bytes.
pub proof fn lemma_info_hash_deterministic(bytes: Seq<u8>, t1: SpecTorrent, t2: SpecTorrent)
    requires
        spec_parse_torrent(bytes) == Ok::<SpecTorrent, DecodeError>(t1),
        spec_parse_torrent(bytes) == Ok::<SpecTorrent, DecodeError>(t2),
    ensures
        spec_info_hash(t1.info) == spec_info_hash(t2.info),
{
}

/// The piece records concatenated back into one byte string.
pub open spec fn spec_concat_hashes(pieces: Seq<Seq<u8>>) -> Seq<u8>
    decreases pieces.len(),
{
    if pieces.len() == 0 {
        Seq::empty()
    } else {
        spec_concat_hashes(pieces.drop_last()) + pieces.last()
    }
}

/// The `info` dictionary rebuilt as a bencode value, keys in canonical
/// sorted order: `length`, `name`, `piece length`, `pieces`.
pub open spec fn spec_info_value(info: SpecInfo) -> SpecValue {
    SpecValue::Dict(
        seq![
            (key_length(), SpecValue::Integer(info.length as int)),
            (key_name(), SpecValue::ByteString(info.name)),
            (key_piece_length(), SpecValue::Integer(info.piece_length as int)),
            (key_pieces(), SpecValue::ByteString(spec_concat_hashes(info.pieces))),
        ],
    )
}

/// The info hash: SHA-1 over the canonical bencoding of the `info`
/// dictionary alone.
pub open spec fn spec_info_hash(info: SpecInfo) -> Seq<u8> {
    sha1_of(spec_encode(spec_info_value(info)))
}

/// Every byte of the hash rendered `%XX`, never left bare.
pub open spec fn spec_percent_encoded(data: Seq<u8>) -> Seq<char>
    decreases data.len(),
{
    if data.len() == 0 {
        Seq::empty()
    } else {
        spec_percent_encoded(data.drop_last()) + seq![
            '%',
            hex_digit(data.last() / 16),
            hex_digit(data.last() % 16),
        ]
    }
}

/// Do two byte slices hold the same bytes?
pub fn bytes_eq(a: &[u8], b: &[u8]) -> (r: bool)
    ensures
        r == (a@ == b@),
{
    if a.len() != b.len() {
        return false;
    }
    let mut i: usize = 0;
    while i < a.len()
        invariant
            i <= a@.len(),
            a@.len() == b@.len(),
            forall|j: int| 0 <= j < i ==> a@[j] == b@[j],
        decreases a@.len() - i,
    {
        if a[i] != b[i] {
            return false;
        }
        i = i + 1;
    }
    proof {
        assert(a@ =~= b@);
    }
    true
}

/// The first entry of `entries` stored under `key`, if any.
#[verifier::loop_isolation(false)]
pub(crate) fn dict_get<'a>(entries: &'a Vec<(Vec<u8>, BencodeValue)>, key: &[u8]) -> (r: Option<
    &'a BencodeValue,
>)
    ensures
        match r {
            Some(v) => spec_dict_get(view_entries(entries@), key@) == Some(v@),
            None => spec_dict_get(view_entries(entries@), key@) is None,
        },
{
    let ghost ve = view_entries(entries@);
    proof {
        crate::bencode::lemma_view_entries_len(entries@);
        assert(ve.skip(0) =~= ve);
    }
    let mut i: usize = 0;
    while i < entries.len()
        invariant
            i <= entries@.len(),
            spec_dict_get(ve, key@) == spec_dict_get(ve.skip(i as int), key@),
        decreases entries@.len() - i,
    {
        proof {
            crate::bencode::lemma_view_entries_index(entries@, i as int);
            assert(ve.skip(i as int)[0] == ve[i as int]);
            assert(ve.skip(i as int).drop_first() =~= ve.skip(i + 1int));
        }
        if bytes_eq(entries[i].0.as_slice(), key) {
            return Some(&entries[i].1);
        }
        i = i + 1;
    }
    proof {
        assert(ve.skip(ve.len() as int) =~= Seq::<(Seq<u8>, SpecValue)>::empty());
    }
    None
}

impl Torrent {
    /// Parses and validates metainfo bytes, exactly as
    /// `spec_parse_torrent` says: the model of the result is the model
    /// the spec assigns to the bytes, and the metainfo invariant holds.
    pub fn from_bytes(bytes: &[u8]) -> (r: Result<Torrent, DecodeError>)
        ensures
            match r {
                Ok(t) => spec_parse_torrent(bytes@) == Ok::<SpecTorrent, DecodeError>(t@)
                    && t@.info.wf(),
                Err(e) => spec_parse_torrent(bytes@) == Err::<SpecTorrent, DecodeError>(e),
            },
    {
        let v = match decode(bytes) {
            Err(e) => {
                return Err(DecodeError::Syntax(e));
            },
            Ok((v, _)) => v,
        };
        let entries = match v {
            BencodeValue::Dict(entries) => entries,
            _ => {
                return Err(DecodeError::NotADict);
            },
        };
        let announce_key: [u8; 8] = [97, 110, 110, 111, 117, 110, 99, 101];
        let info_key: [u8; 4] = [105, 110, 102, 111];
        proof {
            assert(announce_key@ =~= key_announce());
            assert(info_key@ =~= key_info());
        }
        let announce = match dict_get(&entries, announce_key.as_slice()) {
            None => {
                return Err(DecodeError::Missing(FieldId::Announce));
            },
            Some(BencodeValue::ByteString(ab)) => {
                match string_from_utf8(bytes_vec(ab.as_slice())) {
                    None => {
                        return Err(DecodeError::Mistyped(FieldId::Announce));
                    },
                    Some(s) => s,
                }
            },
            Some(_) => {
                return Err(DecodeError::Mistyped(FieldId::Announce));
            },
        };
        let info = match dict_get(&entries, info_key.as_slice()) {
            None => {
                return Err(DecodeError::Missing(FieldId::Info));
            },
            Some(BencodeValue::Dict(ie)) => {
                match Self::project_info(ie) {
                    Ok(info) => info,
                    Err(e) => {
                        return Err(e);
                    },
                }
            },
            Some(_) => {
                return Err(DecodeError::Mistyped(FieldId::Info));
            },
        };
        let t = Torrent { announce, info };
        proof {
            lemma_parse_ok_wf(bytes@, t@);
        }
        Ok(t)
    }

    /// Projects and validates the `info` dictionary.
    fn project_info(entries: &Vec<(Vec<u8>, BencodeValue)>) -> (r: Result<Info, DecodeError>)
        ensures
            match r {
                Ok(info) => spec_project_info(view_entries(entries@)) == Ok::<
                    SpecInfo,
                    DecodeError,
                >(info@),
                Err(e) => spec_project_info(view_entries(entries@)) == Err::<
                    SpecInfo,
                    DecodeError,
                >(e),
            },
    {
        let length_key: [u8; 6] = [108, 101, 110, 103, 116, 104];
        let name_key: [u8; 4] = [110, 97, 109, 101];
        let piece_length_key: [u8; 12] = [112, 105, 101, 99, 101, 32, 108, 101, 110, 103, 116, 104];
        let pieces_key: [u8; 6] = [112, 105, 101, 99, 101, 115];
        proof {
            assert(length_key@ =~= key_length());
            assert(name_key@ =~= key_name());
            assert(piece_length_key@ =~= key_piece_length());
            assert(pieces_key@ =~= key_pieces());
        }
        let length: usize = match dict_get(entries, length_key.as_slice()) {
            None => {
                return Err(DecodeError::Missing(FieldId::Length));
            },
            Some(BencodeValue::Integer(i)) => {
                if *i < 0 || (*i as u64) > (usize::MAX as u64) {
                    return Err(DecodeError::Mistyped(FieldId::Length));
                }
                *i as usize
            },
            Some(_) => {
                return Err(DecodeError::Mistyped(FieldId::Length));
            },
        };
        let name: String = match dict_get(entries, name_key.as_slice()) {
            None => {
                return Err(DecodeError::Missing(FieldId::Name));
            },
            Some(BencodeValue::ByteString(nb)) => {
                match string_from_utf8(bytes_vec(nb.as_slice())) {
                    None => {
                        return Err(DecodeError::Mistyped(FieldId::Name));
                    },
                    Some(s) => s,
                }
            },
            Some(_) => {
                return Err(DecodeError::Mistyped(FieldId::Name));
            },
        };
        let piece_length: usize = match dict_get(entries, piece_length_key.as_slice()) {
            None => {
                return Err(DecodeError::Missing(FieldId::PieceLength));
            },
            Some(BencodeValue::Integer(i)) => {
                if *i < 1 || (*i as u64) > (usize::MAX as u64) {
                    return Err(DecodeError::Mistyped(FieldId::PieceLength));
                }
                *i as usize
            },
            Some(_) => {
                return Err(DecodeError::Mistyped(FieldId::PieceLength));
            },
        };
        let pieces: Hashes = match dict_get(entries, pieces_key.as_slice()) {
            None => {
                return Err(DecodeError::Missing(FieldId::Pieces));
            },
            Some(BencodeValue::ByteString(pb)) => {
                if pb.len() % 20 != 0 {
                    return Err(DecodeError::PiecesLength);
                }
                let cnt = pb.len() / 20;
                let expect: usize = if length == 0 {
                    0
                } else {
                    proof {
                        vstd::arithmetic::div_mod::lemma_div_nonincreasing(
                            (length - 1) as int,
                            piece_length as int,
                        );
                    }
                    (length - 1) / piece_length + 1
                };
                proof {
                    assert(expect == spec_ceil_div(length as nat, piece_length as nat));
                }
                if cnt != expect {
                    return Err(DecodeError::PieceCount);
                }
                chunk_hashes(pb)
            },
            Some(_) => {
                return Err(DecodeError::Mistyped(FieldId::Pieces));
            },
        };
        Ok(Info { length, name, piece_length, pieces })
    }
}

/// The decimal digits of `n`, as characters, most significant first.
pub open spec fn spec_dec_chars(n: nat) -> Seq<char>
    decreases n,
{
    if n < 10 {
        seq![hex_digit(n as u8)]
    } else {
        spec_dec_chars(n / 10) + seq![hex_digit((n % 10) as u8)]
    }
}

/// Appends the decimal digit `d` as one character.
fn push_digit_char(out: &mut String, d: u8)
    requires
        d < 10,
    ensures
        final(out)@ == old(out)@ + seq![hex_digit(d)],
{
    proof {
        reveal_strlit("0");
        reveal_strlit("1");
        reveal_strlit("2");
        reveal_strlit("3");
        reveal_strlit("4");
        reveal_strlit("5");
        reveal_strlit("6");
        reveal_strlit("7");
        reveal_strlit("8");
        reveal_strlit("9");
    }
    if d == 0 {
        out.append("0");
    } else if d == 1 {
        out.append("1");
    } else if d == 2 {
        out.append("2");
    } else if d == 3 {
        out.append("3");
    } else if d == 4 {
        out.append("4");
    } else if d == 5 {
        out.append("5");
    } else if d == 6 {
        out.append("6");
    } else if d == 7 {
        out.append("7");
    } else if d == 8 {
        out.append("8");
    } else {
        out.append("9");
    }
    proof {
        assert(out@ =~= old(out)@ + seq![hex_digit(d)]);
    }
}

/// Appends the decimal rendering of `n`.
fn push_dec_chars(n: u64, out: &mut String)
    ensures
        final(out)@ == old(out)@ + spec_dec_chars(n as nat),
    decreases n,
{
    if n < 10 {
        push_digit_char(out, n as u8);
    } else {
        push_dec_chars(n / 10, out);
        push_digit_char(out, (n % 10) as u8);
    }
    proof {
        assert(out@ =~= old(out)@ + spec_dec_chars(n as nat));
    }
}

/// The piece hashes rendered one hex line each, newlines between lines
/// and none after the last.
pub open spec fn spec_hash_lines(pieces: Seq<Seq<u8>>) -> Seq<char>
    decreases pieces.len(),
{
    if pieces.len() == 0 {
        Seq::empty()
    } else if pieces.len() == 1 {
        hex_of(pieces[0])
    } else {
        spec_hash_lines(pieces.drop_last()) + "\n"@ + hex_of(pieces.last())
    }
}

/// The overview the `info` subcommand prints: tracker URL, length,
/// info hash, piece length, and one hex line per piece hash.
pub open spec fn spec_overview(t: Torrent) -> Seq<char> {
    "Tracker URL: "@ + t.announce@ + "\n"@ + "Length: "@ + spec_dec_chars(t.info.length as nat)
        + "\n"@ + "Info Hash: "@ + hex_of(spec_info_hash(t.info@)) + "\n"@ + "Piece Length: "@
        + spec_dec_chars(t.info.piece_length as nat) + "\n"@ + "Piece Hashes:"@ + "\n"@
        + spec_hash_lines(t.info.pieces@)
}

impl Torrent {
    /// Renders the overview as one string, exactly `spec_overview`.
    #[verifier::loop_isolation(false)]
    pub fn overview(&self) -> (r: String)
        requires
            self.info@.wf(),
        ensures
            r@ == spec_overview(*self),
    {
        let mut out = String::new();
        out.append("Tracker URL: ");
        out.append(self.announce.as_str());
        out.append("\n");
        out.append("Length: ");
        push_dec_chars(self.info.length as u64, &mut out);
        out.append("\n");
        out.append("Info Hash: ");
        let ih = self.info.info_hash_str();
        out.append(ih.as_str());
        out.append("\n");
        out.append("Piece Length: ");
        push_dec_chars(self.info.piece_length as u64, &mut out);
        out.append("\n");
        out.append("Piece Hashes:");
        out.append("\n");
        let ghost prefix = out@;
        let mut j: usize = 0;
        proof {
            assert(self.info.pieces@.take(0) =~= Seq::<Seq<u8>>::empty());
        }
        while j < self.info.pieces.0.len()
            invariant
                j <= self.info.pieces.0@.len(),
                out@ == prefix + spec_hash_lines(self.info.pieces@.take(j as int)),
            decreases self.info.pieces.0@.len() - j,
        {
            proof {
                assert(self.info.pieces@.take(j + 1int).drop_last() =~= self.info.pieces@.take(
                    j as int,
                ));
                assert(self.info.pieces@.take(j + 1int).last() == self.info.pieces.0@[j as int]@);
            }
            if j > 0 {
                out.append("\n");
            }
            let hx = hex_encode(self.info.pieces.0[j].as_slice());
            out.append(hx.as_str());
            j = j + 1;
        }
        proof {
            assert(self.info.pieces@.take(self.info.pieces.0@.len() as int)
                =~= self.info.pieces@);
            assert(out@ =~= spec_overview(*self));
        }
        out
    }
}

/// Appends all of `src` to `dst`.
fn push_bytes(dst: &mut Vec<u8>, src: &[u8])
    ensures
        final(dst)@ == old(dst)@ + src@,
{
    let mut i: usize = 0;
    while i < src.len()
        invariant
            i <= src@.len(),
            dst@ == old(dst)@ + src@.take(i as int),
        decreases src@.len() - i,
    {
        dst.push(src[i]);
        proof {
            assert(old(dst)@ + src@.take(i + 1int) =~= (old(dst)@ + src@.take(i as int)).push(
                src@[i as int],
            ));
        }
        i = i + 1;
    }
    proof {
        assert(src@.take(src@.len() as int) =~= src@);
    }
}

/// A fresh `Vec` holding the bytes of `src`.
fn bytes_vec(src: &[u8]) -> (r: Vec<u8>)
    ensures
        r@ == src@,
{
    let mut r: Vec<u8> = Vec::new();
    push_bytes(&mut r, src);
    proof {
        assert(Seq::<u8>::empty() + src@ =~= src@);
    }
    r
}

impl Info {
    /// The info hash: the 20 raw SHA-1 bytes over the canonical
    /// bencoding of the `info` dictionary alone.
    #[verifier::loop_isolation(false)]
    pub fn info_hash_bytes(&self) -> (r: [u8; 20])
        requires
            self@.wf(),
        ensures
            r@ == spec_info_hash(self@),
    {
        let mut pb: Vec<u8> = Vec::new();
        let mut j: usize = 0;
        proof {
            assert(self.pieces@.take(0) =~= Seq::<Seq<u8>>::empty());
        }
        while j < self.pieces.0.len()
            invariant
                j <= self.pieces.0@.len(),
                pb@ == spec_concat_hashes(self.pieces@.take(j as int)),
            decreases self.pieces.0@.len() - j,
        {
            proof {
                assert(self.pieces@.take(j + 1int).drop_last() =~= self.pieces@.take(j as int));
                assert(self.pieces@.take(j + 1int).last() == self.pieces.0@[j as int]@);
            }
            push_bytes(&mut pb, self.pieces.0[j].as_slice());
            j = j + 1;
        }
        proof {
            assert(self.pieces@.take(self.pieces.0@.len() as int) =~= self.pieces@);
        }
        let length_key: [u8; 6] = [108, 101, 110, 103, 116, 104];
        let name_key: [u8; 4] = [110, 97, 109, 101];
        let piece_length_key: [u8; 12] = [112, 105, 101, 99, 101, 32, 108, 101, 110, 103, 116, 104];
        let pieces_key: [u8; 6] = [112, 105, 101, 99, 101, 115];
        let mut entries: Vec<(Vec<u8>, BencodeValue)> = Vec::new();
        entries.push(
            (bytes_vec(length_key.as_slice()), BencodeValue::Integer(self.length as i64)),
        );
        entries.push(
            (
                bytes_vec(name_key.as_slice()),
                BencodeValue::ByteString(bytes_vec(self.name.as_str().as_bytes())),
            ),
        );
        entries.push(
            (
                bytes_vec(piece_length_key.as_slice()),
                BencodeValue::Integer(self.piece_length as i64),
            ),
        );
        entries.push((bytes_vec(pieces_key.as_slice()), BencodeValue::ByteString(pb)));
        let v = BencodeValue::Dict(entries);
        proof {
            assert(length_key@ =~= key_length());
            assert(name_key@ =~= key_name());
            assert(piece_length_key@ =~= key_piece_length());
            assert(pieces_key@ =~= key_pieces());
            reveal_with_fuel(view_entries, 6);
            assert(view_entries(entries@) =~= spec_info_value(self@)->Dict_0);
            assert(v@ == spec_info_value(self@));
        }
        let enc = encode(&v);
        sha1_digest(enc.as_slice())
    }

    /// Does this value satisfy the metainfo invariant `SpecInfo::wf`?
    /// Values built by `Torrent::from_bytes` always do; hand-built
    /// values can be tested with this before hashing.
    pub fn is_wf(&self) -> (r: bool)
        ensures
            r == self@.wf(),
    {
        proof {
            assert forall|i: int| 0 <= i < self@.pieces.len() implies (
            #[trigger] self@.pieces[i]).len() == 20 by {}
        }
        if !(self.piece_length >= 1 && (self.piece_length as u64) <= (i64::MAX as u64)) {
            return false;
        }
        if (self.length as u64) > (i64::MAX as u64) {
            return false;
        }
        let expect: usize = if self.length == 0 {
            0
        } else {
            proof {
                vstd::arithmetic::div_mod::lemma_div_nonincreasing(
                    (self.length - 1) as int,
                    self.piece_length as int,
                );
            }
            (self.length - 1) / self.piece_length + 1
        };
        self.pieces.0.len() == expect
    }

    /// The info hash rendered as forty lowercase hex digits.
    pub fn info_hash_str(&self) -> (r: String)
        requires
            self@.wf(),
        ensures
            r@ == hex_of(spec_info_hash(self@)),
    {
        let h = self.info_hash_bytes();
        hex_encode(h.as_slice())
    }

    /// The info hash with every byte rendered `%XX`: a generic URL
    /// encoder would leave some bytes bare, which trackers reject.
    #[verifier::loop_isolation(false)]
    pub fn info_hash_urlencoded(&self) -> (r: String)
        requires
            self@.wf(),
        ensures
            r@ == spec_percent_encoded(spec_info_hash(self@)),
    {
        let h = self.info_hash_bytes();
        let mut out = String::new();
        let mut j: usize = 0;
        proof {
            assert(h@.take(0) =~= Seq::<u8>::empty());
        }
        while j < 20
            invariant
                j <= 20,
                h@ == spec_info_hash(self@),
                out@ == spec_percent_encoded(h@.take(j as int)),
            decreases 20 - j,
        {
            out.append("%");
            let mut one: Vec<u8> = Vec::new();
            one.push(h[j]);
            let hx = hex_encode(one.as_slice());
            out.append(hx.as_str());
            proof {
                reveal_strlit("%");
                assert(seq![h@[j as int]].drop_last() =~= Seq::<u8>::empty());
                assert(hex_of(Seq::<u8>::empty()) =~= Seq::<char>::empty());
                assert(one@ =~= seq![h@[j as int]]);
                assert(h@.take(j + 1int).drop_last() =~= h@.take(j as int));
                assert(h@.take(j + 1int).last() == h@[j as int]);
                assert(out@ =~= spec_percent_encoded(h@.take(j + 1int)));
            }
            j = j + 1;
        }
        proof {
            assert(h@.take(20) =~= h@);
        }
        out
    }
}

/// Cuts a byte string whose length is a whole number of 20-byte records
/// into those records.
#[verifier::loop_isolation(false)]
fn chunk_hashes(pb: &Vec<u8>) -> (r: Hashes)
    requires
        pb@.len() % 20 == 0,
    ensures
        r@ == spec_chunks20(pb@),
{
    let cnt = pb.len() / 20;
    proof {
        vstd::arithmetic::div_mod::lemma_fundamental_div_mod(pb@.len() as int, 20);
        assert(pb@.len() == 20 * cnt);
    }
    let mut hs: Vec<[u8; 20]> = Vec::new();
    let mut j: usize = 0;
    while j < cnt
        invariant
            j <= cnt,
            cnt == pb@.len() / 20,
            pb@.len() % 20 == 0,
            hs@.len() == j,
            forall|x: int| 0 <= x < j ==> (#[trigger] hs@[x])@ == pb@.subrange(
                20 * x,
                20 * x + 20,
            ),
        decreases cnt - j,
    {
        let mut h = [0u8; 20];
        let mut t: usize = 0;
        while t < 20
            invariant
                t <= 20,
                j < cnt,
                cnt == pb@.len() / 20,
                pb@.len() % 20 == 0,
                forall|y: int| 0 <= y < t ==> h@[y] == pb@[20 * j + y],
            decreases 20 - t,
        {
            h[t] = pb[20 * j + t];
            t = t + 1;
        }
        proof {
            assert(h@ =~= pb@.subrange(20 * j as int, 20 * j as int + 20));
        }
        hs.push(h);
        j = j + 1;
    }
    let r = Hashes(hs);
    proof {
        assert(r@ =~= spec_chunks20(pb@));
    }
    r
}

} // verus!
