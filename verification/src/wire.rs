//! The encrypted channel between two devices.
//!
//! The handshake is Noise XX over a stream: each side learns the static key of
//! the other, and both get the same code to show, which is what tells their users
//! that nobody stands between them. After it, a message goes as a header with its
//! length and as many pieces as it takes, each of them encrypted and framed.

use crate::manifest::Manifest;
use crate::merge::{Applied, Changes};
use crate::text::{decimal, digits, padded_decimal, zero_padded};
use vstd::prelude::*;

verus! {

broadcast use vstd::string::group_string_axioms;

/// How two devices shake hands and encrypt.
pub const PARAMS: &'static str = "Noise_XX_25519_ChaChaPoly_BLAKE2s";

/// How much one encrypted piece can carry: the limit of Noise less its tag.
pub const MAX_NOISE_PAYLOAD: usize = 65519;

/// How long a message may be that comes in.
pub const MAX_MESSAGE: usize = 67108864;

/// How long an encrypted piece may be.
pub const MAX_FRAME: usize = 65535;

// ---------------------------------------------------------------------------
// Messages
// ---------------------------------------------------------------------------

/// A state of a server's library, to ask later whether it has changed since.
#[derive(Debug, Clone, Copy, PartialEq, Eq, Structural)]
pub struct Mark {
    pub revision: i64,
}

/// What two devices say to each other.
#[derive(Debug)]
pub enum Msg {
    /// The first message of a caller that is not paired yet.
    PairRequest { uid: String, name: String, platform: String, token: Option<String> },
    /// What the called side decided.
    PairResponse { accepted: bool },
    /// What the calling side decided. They are paired only if both accepted.
    PairAck { accepted: bool },
    /// What paired devices tell of themselves.
    Hello {
        uid: String,
        name: String,
        platform: String,
        tracks: i64,
        playlists: i64,
        clock_ms: i64,
    },
    /// The end of the session, with a reason to show.
    Reject { reason: String },
    /// The sender is no longer paired with the receiver.
    Unpair { uid: String },
    /// The sender does not know the receiver.
    NotPaired,
    /// The inventory of the library is asked for, and given.
    ManifestReq,
    ManifestData { manifest: Box<Manifest> },
    /// A file is asked for by its content; `offset` is where to go on.
    BlobReq { hash: String, offset: u64 },
    /// A file begins: `size` bytes are to come.
    BlobStart { size: u64 },
    /// A file ends; `hash` is that of the whole file.
    BlobEnd { hash: String },
    /// A file is sent without having been asked for.
    BlobPush {
        track_uid: String,
        hash: String,
        filename: String,
        size: u64,
        title: String,
        artist: String,
        album: String,
        genre: String,
        duration_ms: i64,
        bpm: Option<i64>,
        updated_at: i64,
    },
    /// What was asked for cannot be had.
    BlobError { reason: String },
    /// What the other side lacks of metadata, playlists and memberships.
    MetaPush { changes: Box<Changes> },
    /// How much of it changed something.
    MetaAck { applied: Applied },
    /// The caller wants to be told when the library is no longer at `since`.
    Watch { since: Option<Mark> },
    /// Nothing has changed.
    Ping { mark: Mark },
    /// The library has changed.
    Changed { mark: Mark },
    /// The end of the session.
    Bye,
}

// ---------------------------------------------------------------------------
// The code to compare
// ---------------------------------------------------------------------------

/// The number that some bytes are, the first byte first.
pub open spec fn big_endian(b: Seq<u8>) -> nat
    decreases b.len(),
{
    if b.len() == 0 {
        0
    } else {
        big_endian(b.drop_last()) * 256 + b.last() as nat
    }
}

proof fn big_endian_bound(b: Seq<u8>)
    requires
        b.len() <= 4,
    ensures
        b.len() == 0 ==> big_endian(b) == 0,
        b.len() == 1 ==> big_endian(b) < 256,
        b.len() == 2 ==> big_endian(b) < 65536,
        b.len() == 3 ==> big_endian(b) < 16777216,
        b.len() == 4 ==> big_endian(b) < 4294967296,
    decreases b.len(),
{
    if b.len() > 0 {
        big_endian_bound(b.drop_last());
    }
}

/// The code: six digits out of the first four bytes of the handshake's hash.
pub open spec fn code_of(hash: Seq<u8>) -> Seq<char> {
    let head = if hash.len() > 4 {
        hash.take(4)
    } else {
        hash
    };
    zero_padded(digits(big_endian(head) % 1000000), 6)
}

/// The code that both users compare. The hash depends on the keys of both sides:
/// whoever stands between them has two sessions, with two hashes, and cannot make
/// both screens show the same.
pub fn sas_code(handshake_hash: &[u8]) -> (r: String)
    ensures
        r@ == code_of(handshake_hash@),
{
    let n: usize = if handshake_hash.len() > 4 {
        4
    } else {
        handshake_hash.len()
    };
    let ghost head = handshake_hash@.take(n as int);
    let mut acc: u32 = 0;
    proof {
        assert(head.take(0) =~= Seq::empty());
    }
    for i in 0..n
        invariant
            n <= 4,
            n <= handshake_hash@.len(),
            head == handshake_hash@.take(n as int),
            acc == big_endian(head.take(i as int)),
    {
        proof {
            big_endian_bound(head.take(i as int));
            assert(head.take(i + 1).drop_last() =~= head.take(i as int));
            assert(head.take(i + 1).last() == handshake_hash@[i as int]);
        }
        acc = acc * 256 + handshake_hash[i] as u32;
    }
    proof {
        assert(head.take(n as int) =~= head);
        if handshake_hash@.len() <= 4 {
            assert(head =~= handshake_hash@);
        }
    }
    padded_decimal((acc % 1000000) as u64, 6)
}

/// The code has six digits, whatever the hash.
pub proof fn codes_have_six_digits(hash: Seq<u8>)
    ensures
        code_of(hash).len() == 6,
        crate::text::all_decimal(code_of(hash)),
{
    let head = if hash.len() > 4 {
        hash.take(4)
    } else {
        hash
    };
    let n = big_endian(head) % 1000000;
    short_numbers_have_few_digits(n);
    crate::text::decimals_are_read_back(n);
    padding_fills_up(digits(n), 6);
}

/// The code is the number that the first four bytes of the hash make, the first of them
/// weighing most, as far as six digits can hold it.
pub proof fn a_code_is_made_of_the_first_bytes(hash: Seq<u8>)
    requires
        hash.len() >= 4,
    ensures
        crate::text::digits_value(code_of(hash)) == (hash[0] * 0x100_0000 + hash[1] * 0x1_0000
            + hash[2] * 0x100 + hash[3]) % 1000000,
{
    let head = if hash.len() > 4 {
        hash.take(4)
    } else {
        hash
    };
    reveal_with_fuel(big_endian, 5);
    let h3 = head.drop_last();
    let h2 = h3.drop_last();
    let h1 = h2.drop_last();
    assert(h1.drop_last() =~= Seq::empty());
    assert(big_endian(head) == ((hash[0] * 256 + hash[1]) * 256 + hash[2]) * 256 + hash[3]);
    let n = big_endian(head) % 1000000;
    crate::text::decimals_are_read_back(n);
    crate::date_laws::padding_keeps_the_number(digits(n), 6);
}

proof fn short_numbers_have_few_digits(n: nat)
    requires
        n < 1000000,
    ensures
        digits(n).len() <= 6,
{
    reveal_with_fuel(digits, 6);
}

proof fn padding_fills_up(s: Seq<char>, width: nat)
    requires
        s.len() <= width,
        crate::text::all_decimal(s),
    ensures
        zero_padded(s, width).len() == width,
        crate::text::all_decimal(zero_padded(s, width)),
    decreases width - s.len(),
{
    if s.len() < width {
        let t = seq!['0'] + s;
        assert forall|i: int| 0 <= i < t.len() implies crate::text::is_decimal(#[trigger] t[i]) by {
            if i > 0 {
                assert(t[i] == s[i - 1]);
            }
        }
        padding_fills_up(t, width);
    }
}

// ---------------------------------------------------------------------------
// What goes wrong
// ---------------------------------------------------------------------------

/// Why a session cannot go on.
#[derive(Debug, PartialEq, Eq)]
pub enum WireError {
    /// The keys do not fit, a message is not what was encrypted, or the like.
    Noise { reason: String },
    /// The header of a message does not have four bytes.
    BadHeader { len: usize },
    /// A message is announced that is longer than any should be.
    TooLong { len: usize },
    /// A message ends before it is whole.
    Cut,
    /// A frame is announced that is longer than any can be.
    BadFrame { len: usize },
    /// The other side showed no key.
    NoPeerKey,
}

impl WireError {
    pub open spec fn text(self) -> Seq<char> {
        match self {
            WireError::Noise { reason } => reason@,
            WireError::BadHeader { len } => "cabecera invalida ("@ + digits(len as nat) + " bytes)"@,
            WireError::TooLong { len } => "mensaje demasiado grande ("@ + digits(len as nat)
                + " bytes)"@,
            WireError::Cut => "el peer corto el mensaje por la mitad"@,
            WireError::BadFrame { len } => "frame invalido ("@ + digits(len as nat) + " bytes)"@,
            WireError::NoPeerKey => "el peer no mando su clave estatica"@,
        }
    }

    /// What the user is told.
    pub fn message(self) -> (r: String)
        ensures
            r@ == self.text(),
    {
        match self {
            WireError::Noise { reason } => reason,
            WireError::BadHeader { len } => {
                let d: String = decimal(len as u64);
                crate::text::join3("cabecera invalida (", d.as_str(), " bytes)")
            },
            WireError::TooLong { len } => {
                let d: String = decimal(len as u64);
                crate::text::join3("mensaje demasiado grande (", d.as_str(), " bytes)")
            },
            WireError::Cut => "el peer corto el mensaje por la mitad".to_owned(),
            WireError::BadFrame { len } => {
                let d: String = decimal(len as u64);
                crate::text::join3("frame invalido (", d.as_str(), " bytes)")
            },
            WireError::NoPeerKey => "el peer no mando su clave estatica".to_owned(),
        }
    }
}

// ---------------------------------------------------------------------------
// Frames and pieces
// ---------------------------------------------------------------------------

/// A length as four bytes, the highest first. Of a greater number, the low 32 bits
/// are what is written.
pub open spec fn length_bytes(n: nat) -> Seq<u8> {
    let m = n % 4294967296;
    seq![
        (m / 16777216) as u8,
        (m / 65536 % 256) as u8,
        (m / 256 % 256) as u8,
        (m % 256) as u8,
    ]
}

/// Four bytes of a length give the length back.
pub proof fn lengths_are_read_back(n: nat)
    requires
        n < 4294967296,
    ensures
        big_endian(length_bytes(n)) == n,
        length_bytes(n).len() == 4,
{
    let b = length_bytes(n);
    let b3 = b.drop_last();
    let b2 = b3.drop_last();
    let b1 = b2.drop_last();
    assert(b1.drop_last() =~= Seq::empty());
    assert(big_endian(b1.drop_last()) == 0);
    assert(big_endian(b1) == b[0] as nat);
    assert(big_endian(b2) == b[0] as nat * 256 + b[1] as nat);
    assert(big_endian(b3) == (b[0] as nat * 256 + b[1] as nat) * 256 + b[2] as nat);
    assert(big_endian(b) == ((b[0] as nat * 256 + b[1] as nat) * 256 + b[2] as nat) * 256
        + b[3] as nat);
    assert(n / 16777216 < 256);
    assert(n == n / 16777216 * 16777216 + n / 65536 % 256 * 65536 + n / 256 % 256 * 256 + n % 256)
        by (nonlinear_arith);
}

fn push_length(out: &mut Vec<u8>, len: usize)
    ensures
        final(out)@ == old(out)@ + length_bytes(len as nat),
{
    let n: u64 = (len as u64) % 4294967296;
    let ghost start = out@;
    out.push((n / 16777216) as u8);
    out.push((n / 65536 % 256) as u8);
    out.push((n / 256 % 256) as u8);
    out.push((n % 256) as u8);
    proof {
        assert(out@ =~= start + length_bytes(len as nat));
    }
}

fn push_all(out: &mut Vec<u8>, data: &[u8], from: usize, to: usize)
    requires
        from <= to <= data@.len(),
    ensures
        final(out)@ == old(out)@ + data@.subrange(from as int, to as int),
{
    let ghost start = out@;
    for i in from..to
        invariant
            from <= i <= to <= data@.len(),
            out@ == start + data@.subrange(from as int, i as int),
    {
        out.push(data[i]);
        proof {
            assert(data@.subrange(from as int, i + 1) =~= data@.subrange(from as int, i as int).push(
                data@[i as int],
            ));
            assert(out@ =~= start + data@.subrange(from as int, i + 1));
        }
    }
    proof {
        assert(start + data@.subrange(from as int, from as int) =~= start);
    }
}

/// Bytes as they go over the stream: their length, and they.
pub open spec fn framed(data: Seq<u8>) -> Seq<u8> {
    length_bytes(data.len()) + data
}

/// Puts bytes in a frame.
pub fn frame(data: &[u8]) -> (r: Vec<u8>)
    ensures
        r@ == framed(data@),
{
    let mut r: Vec<u8> = Vec::new();
    push_length(&mut r, data.len());
    push_all(&mut r, data, 0, data.len());
    proof {
        assert(data@.subrange(0, data@.len() as int) =~= data@);
        assert(r@ =~= framed(data@));
    }
    r
}

/// The number that four bytes are.
pub fn read_length(b: [u8; 4]) -> (r: usize)
    ensures
        r == big_endian(b@),
        r < 4294967296,
{
    proof {
        let s = b@;
        assert(s.drop_last().drop_last().drop_last().drop_last() =~= Seq::empty());
        assert(big_endian(s.drop_last().drop_last().drop_last().drop_last()) == 0);
        assert(big_endian(s.drop_last().drop_last().drop_last()) == b[0] as nat);
        assert(big_endian(s.drop_last().drop_last()) == b[0] as nat * 256 + b[1] as nat);
        assert(big_endian(s.drop_last()) == (b[0] as nat * 256 + b[1] as nat) * 256 + b[2] as nat);
        big_endian_bound(s);
    }
    ((b[0] as usize * 256 + b[1] as usize) * 256 + b[2] as usize) * 256 + b[3] as usize
}

/// How many bytes follow the four of a frame's head. More than a frame can hold is
/// refused before anything is read.
pub fn frame_len(head: [u8; 4]) -> (r: Result<usize, WireError>)
    ensures
        r == if big_endian(head@) > MAX_FRAME {
            Err::<usize, WireError>(WireError::BadFrame { len: big_endian(head@) as usize })
        } else {
            Ok::<usize, WireError>(big_endian(head@) as usize)
        },
{
    let n: usize = read_length(head);
    if n > MAX_FRAME {
        Err(WireError::BadFrame { len: n })
    } else {
        Ok(n)
    }
}

/// The pieces of a message: its length first, then its bytes, in pieces as long as
/// they can be.
pub open spec fn pieces(data: Seq<u8>) -> Seq<Seq<u8>> {
    seq![length_bytes(data.len())] + chunks(data)
}

/// Bytes in pieces as long as they can be.
pub open spec fn chunks(data: Seq<u8>) -> Seq<Seq<u8>>
    decreases data.len(),
{
    if data.len() == 0 {
        Seq::empty()
    } else if data.len() <= MAX_NOISE_PAYLOAD {
        seq![data]
    } else {
        seq![data.take(MAX_NOISE_PAYLOAD as int)] + chunks(data.skip(MAX_NOISE_PAYLOAD as int))
    }
}

pub(crate) open spec fn byte_views(s: Seq<Vec<u8>>) -> Seq<Seq<u8>> {
    Seq::new(s.len(), |i: int| s[i]@)
}

/// Cuts a message into its pieces.
pub fn split_message(data: &[u8]) -> (r: Vec<Vec<u8>>)
    ensures
        r@.len() == pieces(data@).len(),
        forall|i: int| 0 <= i < r@.len() ==> (#[trigger] r@[i])@ == pieces(data@)[i],
        forall|i: int| 0 <= i < r@.len() ==> (#[trigger] r@[i])@.len() <= MAX_NOISE_PAYLOAD,
{
    let mut r: Vec<Vec<u8>> = Vec::new();
    let mut head: Vec<u8> = Vec::new();
    push_length(&mut head, data.len());
    let n: usize = data.len();
    proof {
        assert(head@ =~= length_bytes(data@.len()));
        assert(data@.skip(0) =~= data@);
    }
    r.push(head);
    let mut i: usize = 0;
    proof {
        assert(byte_views(r@) =~= seq![length_bytes(data@.len())]);
        assert(pieces(data@) =~= byte_views(r@) + chunks(data@.skip(0)));
    }
    while i < n
        invariant
            n == data@.len(),
            i <= n,
            pieces(data@) == byte_views(r@) + chunks(data@.skip(i as int)),
            forall|k: int| 0 <= k < r@.len() ==> (#[trigger] r@[k])@.len() <= MAX_NOISE_PAYLOAD,
        decreases n - i,
    {
        let end: usize = if n - i <= MAX_NOISE_PAYLOAD {
            n
        } else {
            i + MAX_NOISE_PAYLOAD
        };
        let mut piece: Vec<u8> = Vec::new();
        push_all(&mut piece, data, i, end);
        proof {
            let rest = data@.skip(i as int);
            assert(piece@ =~= data@.subrange(i as int, end as int));
            if n - i <= MAX_NOISE_PAYLOAD {
                assert(piece@ =~= rest);
                assert(data@.skip(end as int) =~= Seq::empty());
                assert(chunks(rest) =~= seq![piece@] + chunks(data@.skip(end as int)));
            } else {
                assert(piece@ =~= rest.take(MAX_NOISE_PAYLOAD as int));
                assert(data@.skip(end as int) =~= rest.skip(MAX_NOISE_PAYLOAD as int));
            }
            let before = byte_views(r@);
            assert(byte_views(r@.push(piece)) =~= before.push(piece@));
            assert(before + (seq![piece@] + chunks(data@.skip(end as int))) =~= before.push(piece@)
                + chunks(data@.skip(end as int)));
        }
        r.push(piece);
        i = end;
    }
    proof {
        assert(data@.skip(n as int) =~= Seq::empty());
        assert(pieces(data@) =~= byte_views(r@));
        assert forall|k: int| 0 <= k < r@.len() implies (#[trigger] r@[k])@ == pieces(data@)[k] by {
            assert(byte_views(r@)[k] == r@[k]@);
        }
    }
    r
}

/// A message that is coming in, piece by piece.
#[derive(Debug)]
pub struct Assembly {
    /// How long it will be, once its header is here.
    pub total: Option<usize>,
    pub bytes: Vec<u8>,
}

pub struct AssemblyView {
    pub total: Option<usize>,
    pub bytes: Seq<u8>,
}

impl View for Assembly {
    type V = AssemblyView;

    open spec fn view(&self) -> AssemblyView {
        AssemblyView { total: self.total, bytes: self.bytes@ }
    }
}

/// What a piece does to a message that is coming in, or why it is refused.
pub open spec fn piece_taken(a: AssemblyView, piece: Seq<u8>) -> Result<AssemblyView, WireError> {
    match a.total {
        None => if piece.len() != 4 {
            Err(WireError::BadHeader { len: piece.len() as usize })
        } else if big_endian(piece) > MAX_MESSAGE {
            Err(WireError::TooLong { len: big_endian(piece) as usize })
        } else {
            Ok(AssemblyView { total: Some(big_endian(piece) as usize), bytes: Seq::empty() })
        },
        Some(total) => if piece.len() == 0 {
            Err(WireError::Cut)
        } else {
            Ok(AssemblyView { total: Some(total), bytes: a.bytes + piece })
        },
    }
}

impl AssemblyView {
    /// All of the message is here.
    pub open spec fn is_whole(self) -> bool {
        self.total is Some && self.bytes.len() >= self.total->0
    }

    /// The message that is here.
    pub open spec fn message(self) -> Seq<u8> {
        self.bytes.take(self.total->0 as int)
    }

    /// Nothing is here yet.
    pub open spec fn fresh() -> AssemblyView {
        AssemblyView { total: None, bytes: Seq::empty() }
    }
}

impl Assembly {
    /// A message of which nothing is here yet.
    pub fn new() -> (r: Self)
        ensures
            r@ == AssemblyView::fresh(),
    {
        let r: Assembly = Assembly { total: None, bytes: Vec::new() };
        proof {
            assert(r@.bytes =~= Seq::empty());
        }
        r
    }

    /// Whether all of the message is here.
    pub fn is_whole(&self) -> (r: bool)
        ensures
            r == self@.is_whole(),
    {
        match self.total {
            Some(n) => self.bytes.len() >= n,
            None => false,
        }
    }

    /// Takes the next piece.
    pub fn take(&mut self, piece: &[u8]) -> (r: Result<(), WireError>)
        requires
            !old(self)@.is_whole(),
        ensures
            match piece_taken(old(self)@, piece@) {
                Ok(a) => r is Ok && final(self)@ == a,
                Err(e) => r == Err::<(), WireError>(e) && final(self)@ == old(self)@,
            },
    {
        match self.total {
            None => {
                if piece.len() != 4 {
                    return Err(WireError::BadHeader { len: piece.len() });
                }
                let head: [u8; 4] = [piece[0], piece[1], piece[2], piece[3]];
                proof {
                    assert(head@ =~= piece@);
                }
                let total: usize = read_length(head);
                if total > MAX_MESSAGE {
                    return Err(WireError::TooLong { len: total });
                }
                self.total = Some(total);
                self.bytes = Vec::new();
                proof {
                    assert(self@.bytes =~= Seq::empty());
                }
                Ok(())
            },
            Some(_) => {
                if piece.len() == 0 {
                    return Err(WireError::Cut);
                }
                push_all(&mut self.bytes, piece, 0, piece.len());
                proof {
                    assert(piece@.subrange(0, piece@.len() as int) =~= piece@);
                }
                Ok(())
            },
        }
    }

    /// The message, once it is whole. What came beyond its length is dropped.
    pub fn finish(self) -> (r: Vec<u8>)
        requires
            self@.is_whole(),
        ensures
            r@ == self@.message(),
    {
        let total: usize = match self.total {
            Some(n) => n,
            None => 0,
        };
        let mut bytes: Vec<u8> = self.bytes;
        bytes.truncate(total);
        proof {
            assert(bytes@ =~= self@.message());
        }
        bytes
    }
}

/// What is left of a message once some pieces were taken one after another, or the
/// first refusal.
pub open spec fn all_pieces_taken(
    a: AssemblyView,
    parts: Seq<Seq<u8>>,
) -> Result<AssemblyView, WireError>
    decreases parts.len(),
{
    if parts.len() == 0 {
        Ok(a)
    } else {
        match piece_taken(a, parts[0]) {
            Ok(b) => all_pieces_taken(b, parts.drop_first()),
            Err(e) => Err(e),
        }
    }
}

proof fn chunks_add_up(a: AssemblyView, data: Seq<u8>)
    requires
        a.total is Some,
    ensures
        all_pieces_taken(a, chunks(data)) == Ok::<AssemblyView, WireError>(
            AssemblyView { total: a.total, bytes: a.bytes + data },
        ),
    decreases data.len(),
{
    let parts = chunks(data);
    if data.len() == 0 {
        assert(a.bytes + data =~= a.bytes);
    } else if data.len() <= MAX_NOISE_PAYLOAD {
        assert(parts.drop_first() =~= Seq::empty());
        let b = AssemblyView { total: a.total, bytes: a.bytes + data };
        assert(piece_taken(a, parts[0]) == Ok::<AssemblyView, WireError>(b));
        assert(all_pieces_taken(b, parts.drop_first()) == Ok::<AssemblyView, WireError>(b));
    } else {
        let head = data.take(MAX_NOISE_PAYLOAD as int);
        let rest = data.skip(MAX_NOISE_PAYLOAD as int);
        assert(parts.drop_first() =~= chunks(rest));
        let b = AssemblyView { total: a.total, bytes: a.bytes + head };
        chunks_add_up(b, rest);
        assert(a.bytes + head + rest =~= a.bytes + data);
    }
}

/// What is sent is what arrives: the pieces of a message, taken in their order,
/// give the message back, and not before the last of them. A message of more than
/// the greatest length is refused instead.
pub proof fn pieces_give_the_message_back(data: Seq<u8>)
    requires
        data.len() < 4294967296,
    ensures
        data.len() <= MAX_MESSAGE ==> ({
            let r = all_pieces_taken(AssemblyView::fresh(), pieces(data));
            r is Ok && r->Ok_0.is_whole() && r->Ok_0.message() == data
        }),
        data.len() > MAX_MESSAGE ==> all_pieces_taken(AssemblyView::fresh(), pieces(data)) == Err::<
            AssemblyView,
            WireError,
        >(WireError::TooLong { len: data.len() as usize }),
{
    let parts = pieces(data);
    lengths_are_read_back(data.len());
    assert(parts.drop_first() =~= chunks(data));
    if data.len() <= MAX_MESSAGE {
        let a = AssemblyView { total: Some(data.len() as usize), bytes: Seq::empty() };
        chunks_add_up(a, data);
        assert(Seq::<u8>::empty() + data =~= data);
        assert(data.take(data.len() as int) =~= data);
    }
}

/// A frame gives back what was put in it, if that is not longer than a frame can
/// hold.
pub proof fn frames_give_the_bytes_back(data: Seq<u8>)
    requires
        data.len() <= MAX_FRAME,
    ensures
        big_endian(framed(data).take(4)) == data.len(),
        framed(data).skip(4) == data,
{
    lengths_are_read_back(data.len());
    assert(framed(data).take(4) =~= length_bytes(data.len()));
    assert(framed(data).skip(4) =~= data);
}

// ---------------------------------------------------------------------------
// Keys and the encrypted session
// ---------------------------------------------------------------------------

#[verifier::external_type_specification]
#[verifier::external_body]
pub struct ExNoiseError(snow::Error);

#[verifier::external_type_specification]
#[verifier::external_body]
pub struct ExHandshakeState(snow::HandshakeState);

#[verifier::external_type_specification]
#[verifier::external_body]
pub struct ExTransportState(snow::TransportState);

/// What an error of a session says.
pub uninterp spec fn error_text(e: snow::Error) -> Seq<char>;

/// `snow::Error` written out with `to_string`: a function of the error alone.
#[verifier::external_body]
fn noise_error_text(e: snow::Error) -> (r: String)
    ensures
        r@ == error_text(e),
{
    e.to_string()
}

/// The error is one of the encrypted channel, in its own words.
pub open spec fn is_noise_error(e: WireError) -> bool {
    exists|x: snow::Error|
        (e matches WireError::Noise { reason } && reason@ == #[trigger] error_text(x))
}

fn failed(e: snow::Error) -> (r: WireError)
    ensures
        is_noise_error(r),
{
    let ghost x = e;
    let reason: String = noise_error_text(e);
    assert(reason@ == error_text(x));
    WireError::Noise { reason }
}

/// The public key that belongs to a private one.
pub uninterp spec fn public_key_of(private: Seq<u8>) -> Seq<u8>;

/// `snow::Builder::generate_keypair`: a new private key and the public key that
/// belongs to it, of 32 bytes each. The private key is random; nothing else is known
/// of it.
#[verifier::external_body]
fn noise_keypair(params: &str) -> (r: Result<(Vec<u8>, Vec<u8>), snow::Error>)
    requires
        params@ == PARAMS@,
    ensures
        r is Ok ==> r->Ok_0.0@.len() == 32 && r->Ok_0.1@.len() == 32,
        r is Ok ==> r->Ok_0.1@ == public_key_of(r->Ok_0.0@),
{
    let kp = snow::Builder::new(params.parse()?).generate_keypair()?;
    Ok((kp.private, kp.public))
}

/// The parameters with which a handshake is made, where nothing else was set besides
/// them and the private key.
pub uninterp spec fn params_of(hs: snow::HandshakeState) -> Seq<char>;

/// The private key with which a handshake is made.
pub uninterp spec fn local_key_of(hs: snow::HandshakeState) -> Seq<u8>;

/// This is the calling side of a handshake.
pub uninterp spec fn is_calling(hs: snow::HandshakeState) -> bool;

/// The messages of a handshake so far, those of both sides in their order.
pub uninterp spec fn transcript_of(hs: snow::HandshakeState) -> Seq<Seq<u8>>;

/// `snow::Builder::build_initiator`: the calling side of a handshake, with that
/// private key. No message has been written or read. With these parameters and such a
/// key nothing is lacking, so there always is one.
#[verifier::external_body]
fn noise_initiator(params: &str, private_key: &[u8]) -> (r: Result<
    snow::HandshakeState,
    snow::Error,
>)
    requires
        params@ == PARAMS@,
        private_key@.len() == 32,
    ensures
        r is Ok,
        params_of(r->Ok_0) == params@,
        local_key_of(r->Ok_0) == private_key@ && is_calling(r->Ok_0),
        transcript_of(r->Ok_0) == Seq::<Seq<u8>>::empty(),
{
    snow::Builder::new(params.parse()?).local_private_key(private_key)?.build_initiator()
}

/// `snow::Builder::build_responder`: the called side of a handshake, with that
/// private key. No message has been written or read. With these parameters and such a
/// key nothing is lacking, so there always is one.
#[verifier::external_body]
fn noise_responder(params: &str, private_key: &[u8]) -> (r: Result<
    snow::HandshakeState,
    snow::Error,
>)
    requires
        params@ == PARAMS@,
        private_key@.len() == 32,
    ensures
        r is Ok,
        params_of(r->Ok_0) == params@,
        local_key_of(r->Ok_0) == private_key@ && !is_calling(r->Ok_0),
        transcript_of(r->Ok_0) == Seq::<Seq<u8>>::empty(),
{
    snow::Builder::new(params.parse()?).local_private_key(private_key)?.build_responder()
}

/// The key that the other side of a handshake showed, if it showed one.
pub uninterp spec fn remote_static_of(hs: snow::HandshakeState) -> Option<Seq<u8>>;

/// A handshake once it has taken in a message of the other side; nothing where it
/// refuses the message.
pub uninterp spec fn reading(
    hs: snow::HandshakeState,
    message: Seq<u8>,
) -> Option<snow::HandshakeState>;

/// `HandshakeState::write_message` with no payload: the next message of the
/// handshake, which fits in a frame, and is then one of its messages. Its bytes come
/// from keys made for this handshake, so nothing is said of them. The first two
/// messages take new random keys, which may fail; the caller's last one takes none,
/// and can always be had once the answer was read. What the other side showed stays.
#[verifier::external_body]
fn noise_write_handshake(hs: &mut snow::HandshakeState) -> (r: Result<Vec<u8>, snow::Error>)
    requires
        params_of(*old(hs)) == PARAMS@,
    ensures
        is_calling(*old(hs)) && transcript_of(*old(hs)).len() == 2 ==> r is Ok,
        r is Ok ==> r->Ok_0@.len() <= MAX_FRAME,
        r is Ok ==> transcript_of(*final(hs)) == transcript_of(*old(hs)).push(r->Ok_0@),
        remote_static_of(*final(hs)) == remote_static_of(*old(hs)),
        params_of(*final(hs)) == params_of(*old(hs)),
        local_key_of(*final(hs)) == local_key_of(*old(hs)),
        is_calling(*final(hs)) == is_calling(*old(hs)),
{
    let mut buf = vec![0u8; 65535];
    let n = hs.write_message(&[], &mut buf)?;
    buf.truncate(n);
    Ok(buf)
}

/// `HandshakeState::read_message`: takes in a message of the other side, whose
/// payload is dropped, and which is then one of its messages. Whether it is taken,
/// and what the handshake then is, follows from what it was and from the message. A
/// message longer than a frame can hold is refused.
#[verifier::external_body]
fn noise_read_handshake(hs: &mut snow::HandshakeState, message: &[u8]) -> (r: Result<
    (),
    snow::Error,
>)
    ensures
        message@.len() > MAX_FRAME ==> r is Err,
        match r {
            Ok(_) => reading(*old(hs), message@) == Some(*final(hs)),
            Err(_) => reading(*old(hs), message@) is None,
        },
        r is Ok ==> transcript_of(*final(hs)) == transcript_of(*old(hs)).push(message@),
        params_of(*final(hs)) == params_of(*old(hs)),
        local_key_of(*final(hs)) == local_key_of(*old(hs)),
        is_calling(*final(hs)) == is_calling(*old(hs)),
{
    let mut buf = vec![0u8; 65535];
    hs.read_message(message, &mut buf)?;
    Ok(())
}

/// The hash of the messages of a handshake.
pub uninterp spec fn hash_of(messages: Seq<Seq<u8>>) -> Seq<u8>;

/// `HandshakeState::get_handshake_hash`: the hash of all that was exchanged. It is
/// made of the parameters and of the bytes of the messages, alike on the side that
/// wrote a message and on the side that read it.
#[verifier::external_body]
fn noise_handshake_hash(hs: &snow::HandshakeState) -> (r: Vec<u8>)
    requires
        params_of(*hs) == PARAMS@,
    ensures
        r@ == hash_of(transcript_of(*hs)),
{
    hs.get_handshake_hash().to_vec()
}

/// `HandshakeState::get_remote_static`: the key that the other side showed, if it
/// showed one.
#[verifier::external_body]
fn noise_remote_static(hs: &snow::HandshakeState) -> (r: Option<Vec<u8>>)
    ensures
        match r {
            Some(k) => remote_static_of(*hs) == Some(k@),
            None => remote_static_of(*hs) is None,
        },
{
    hs.get_remote_static().map(|k| k.to_vec())
}

/// The parameters of the handshake that a session comes from.
pub uninterp spec fn session_params(t: snow::TransportState) -> Seq<char>;

/// The key under which a session encrypts.
pub uninterp spec fn send_key(t: snow::TransportState) -> Seq<u8>;

/// How many messages a session has encrypted.
pub uninterp spec fn sent(t: snow::TransportState) -> nat;

/// The key under which a session decrypts.
pub uninterp spec fn receive_key(t: snow::TransportState) -> Seq<u8>;

/// How many messages a session has decrypted.
pub uninterp spec fn received(t: snow::TransportState) -> nat;

/// A payload encrypted under a key, as the message of that number.
pub uninterp spec fn sealed_with(key: Seq<u8>, number: nat, payload: Seq<u8>) -> Seq<u8>;

/// The key under which the session that a handshake leads to encrypts.
pub uninterp spec fn send_key_from(hs: snow::HandshakeState) -> Seq<u8>;

/// The key under which the session that a handshake leads to decrypts.
pub uninterp spec fn receive_key_from(hs: snow::HandshakeState) -> Seq<u8>;

/// What an encrypted message holds: the one payload that gives it.
pub open spec fn opens_as(key: Seq<u8>, number: nat, message: Seq<u8>, payload: Seq<u8>) -> bool {
    &&& message == sealed_with(key, number, payload)
    &&& forall|other: Seq<u8>| #[trigger]
        sealed_with(key, number, other) == message ==> other == payload
}

/// A message is a payload that was encrypted under that key, with that number, and
/// such a payload as can be.
pub open spec fn is_sealed(key: Seq<u8>, number: nat, message: Seq<u8>, payload: Seq<u8>) -> bool {
    &&& message == sealed_with(key, number, payload)
    &&& payload.len() <= MAX_NOISE_PAYLOAD
}

/// `HandshakeState::into_transport_mode`: the session that a finished handshake
/// leads to, with nothing encrypted or decrypted yet. A handshake with these
/// parameters is finished after three messages. The keys of the session follow from
/// the handshake. That the two sides get keys that fit is not said here: it rests on
/// what both of them exchanged.
#[verifier::external_body]
fn noise_transport(hs: snow::HandshakeState) -> (r: Result<snow::TransportState, snow::Error>)
    requires
        params_of(hs) == PARAMS@,
    ensures
        r is Ok <==> transcript_of(hs).len() == 3,
        r is Ok ==> session_params(r->Ok_0) == params_of(hs),
        r is Ok ==> sent(r->Ok_0) == 0 && received(r->Ok_0) == 0,
        r is Ok ==> send_key(r->Ok_0) == send_key_from(hs),
        r is Ok ==> receive_key(r->Ok_0) == receive_key_from(hs),
{
    hs.into_transport_mode()
}

/// `TransportState::write_message`: the payload encrypted as the next message of the
/// session, sixteen bytes longer than it was. It is refused only when the numbers of
/// messages are used up.
#[verifier::external_body]
fn noise_encrypt(noise: &mut snow::TransportState, payload: &[u8]) -> (r: Result<
    Vec<u8>,
    snow::Error,
>)
    requires
        session_params(*old(noise)) == PARAMS@,
        payload@.len() <= MAX_NOISE_PAYLOAD,
    ensures
        r is Ok <==> sent(*old(noise)) < u64::MAX,
        r is Ok ==> r->Ok_0@ == sealed_with(send_key(*old(noise)), sent(*old(noise)), payload@),
        r is Ok ==> r->Ok_0@.len() == payload@.len() + 16,
        r is Ok ==> sent(*final(noise)) == sent(*old(noise)) + 1,
        r is Err ==> sent(*final(noise)) == sent(*old(noise)),
        session_params(*final(noise)) == session_params(*old(noise)),
        send_key(*final(noise)) == send_key(*old(noise)),
        receive_key(*final(noise)) == receive_key(*old(noise)),
        received(*final(noise)) == received(*old(noise)),
{
    let mut buf = vec![0u8; 65535];
    let n = noise.write_message(payload, &mut buf)?;
    buf.truncate(n);
    Ok(buf)
}

/// `TransportState::read_message`: the payload of an encrypted message, sixteen
/// bytes shorter. What was encrypted under the key of the other side, as the next
/// message of this session, is taken, as long as the numbers of messages are not used
/// up; what was not is refused, and so is what is too short or too long to be one.
/// Decrypting undoes encrypting: no other payload gives that message.
#[verifier::external_body]
fn noise_decrypt(noise: &mut snow::TransportState, message: &[u8]) -> (r: Result<
    Vec<u8>,
    snow::Error,
>)
    requires
        session_params(*old(noise)) == PARAMS@,
    ensures
        forall|p: Seq<u8>|
            received(*old(noise)) < u64::MAX && #[trigger] is_sealed(
                receive_key(*old(noise)),
                received(*old(noise)),
                message@,
                p,
            ) ==> r is Ok,
        r is Ok ==> received(*old(noise)) < u64::MAX,
        r is Ok ==> 16 <= message@.len() <= MAX_FRAME && r->Ok_0@.len() == message@.len() - 16,
        r is Ok ==> opens_as(
            receive_key(*old(noise)),
            received(*old(noise)),
            message@,
            r->Ok_0@,
        ),
        r is Ok ==> received(*final(noise)) == received(*old(noise)) + 1,
        r is Err ==> received(*final(noise)) == received(*old(noise)),
        session_params(*final(noise)) == session_params(*old(noise)),
        receive_key(*final(noise)) == receive_key(*old(noise)),
        send_key(*final(noise)) == send_key(*old(noise)),
        sent(*final(noise)) == sent(*old(noise)),
{
    let mut buf = vec![0u8; 65535];
    let n = noise.read_message(message, &mut buf)?;
    buf.truncate(n);
    Ok(buf)
}

/// A new private key, and the public key that belongs to it.
pub fn generate_keypair() -> (r: Result<(Vec<u8>, Vec<u8>), WireError>)
    ensures
        r is Ok ==> r->Ok_0.0@.len() == 32 && r->Ok_0.1@.len() == 32,
        r is Ok ==> r->Ok_0.1@ == public_key_of(r->Ok_0.0@),
        r is Err ==> is_noise_error(r->Err_0),
{
    match noise_keypair(PARAMS) {
        Ok(k) => Ok(k),
        Err(e) => Err(failed(e)),
    }
}

/// A handshake that is under way. It takes three messages: the caller's, the
/// answer, and the caller's again.
pub struct Handshake {
    pub hs: snow::HandshakeState,
}

/// An encrypted session.
pub struct Session {
    pub noise: snow::TransportState,
    /// The static key of the other side, as the handshake showed it.
    pub peer_pubkey: Vec<u8>,
    /// The code to show; both sides work out the same.
    pub code: String,
}

/// A session has the code, the key of the other side and the keys to encrypt and
/// decrypt that a handshake came to, and nothing has been sent or received in it.
pub open spec fn is_session_of(s: Session, hs: snow::HandshakeState) -> bool {
    &&& s.wf()
    &&& s.code@ == code_of(hash_of(transcript_of(hs)))
    &&& remote_static_of(hs) == Some(s.peer_pubkey@)
    &&& send_key(s.noise) == send_key_from(hs)
    &&& receive_key(s.noise) == receive_key_from(hs)
    &&& sent(s.noise) == 0
    &&& received(s.noise) == 0
}

/// A handshake is another one that went on with a message of its own: of the same
/// side, with the same keys.
pub open spec fn wrote(
    hs: snow::HandshakeState,
    from: snow::HandshakeState,
    message: Seq<u8>,
) -> bool {
    &&& transcript_of(hs) == transcript_of(from).push(message)
    &&& params_of(hs) == params_of(from)
    &&& local_key_of(hs) == local_key_of(from)
    &&& is_calling(hs) == is_calling(from)
    &&& remote_static_of(hs) == remote_static_of(from)
}

/// The message that a handshake came to last.
pub open spec fn last_message(hs: snow::HandshakeState) -> Seq<u8> {
    transcript_of(hs).last()
}

/// A session is that of a handshake that wrote its last message, which is in that
/// frame.
pub open spec fn concludes(s: Session, from: snow::HandshakeState, bytes: Seq<u8>) -> bool {
    exists|hs: snow::HandshakeState| #[trigger]
        is_session_of(s, hs) && wrote(hs, from, last_message(hs)) && bytes == framed(
            last_message(hs),
        ) && last_message(hs).len() <= MAX_FRAME
}

proof fn one_concludes(
    s: Session,
    hs: snow::HandshakeState,
    from: snow::HandshakeState,
    bytes: Seq<u8>,
)
    requires
        is_session_of(s, hs),
        wrote(hs, from, last_message(hs)),
        bytes == framed(last_message(hs)),
        last_message(hs).len() <= MAX_FRAME,
    ensures
        concludes(s, from, bytes),
{
}

/// A handshake took in a message when nothing had been said yet, and answered.
pub open spec fn answered(hs: snow::HandshakeState, first: Seq<u8>) -> bool {
    exists|fresh: snow::HandshakeState|
        (#[trigger] reading(fresh, first)) is Some && wrote(
            hs,
            reading(fresh, first)->0,
            last_message(hs),
        ) && transcript_of(fresh) == Seq::<Seq<u8>>::empty()
}

proof fn one_answered(hs: snow::HandshakeState, fresh: snow::HandshakeState, first: Seq<u8>)
    requires
        reading(fresh, first) is Some,
        wrote(hs, reading(fresh, first)->0, last_message(hs)),
        transcript_of(fresh) == Seq::<Seq<u8>>::empty(),
    ensures
        answered(hs, first),
{
}

impl Handshake {
    /// It is one of these devices' own.
    pub open spec fn wf(&self) -> bool {
        params_of(self.hs) == PARAMS@
    }

    /// Begins as the caller; the message to send first, in its frame. It is the
    /// first message of the handshake.
    pub fn call(private_key: &[u8]) -> (r: Result<(Handshake, Vec<u8>), WireError>)
        requires
            private_key@.len() == 32,
        ensures
            r is Ok ==> r->Ok_0.0.wf(),
            r is Ok ==> transcript_of(r->Ok_0.0.hs).len() == 1 && last_message(
                r->Ok_0.0.hs,
            ).len() <= MAX_FRAME && r->Ok_0.1@ == framed(last_message(r->Ok_0.0.hs)),
            r is Ok ==> local_key_of(r->Ok_0.0.hs) == private_key@ && is_calling(r->Ok_0.0.hs),
            r is Err ==> is_noise_error(r->Err_0),
    {
        let mut hs: snow::HandshakeState = match noise_initiator(PARAMS, private_key) {
            Ok(hs) => hs,
            Err(e) => {
                return Err(failed(e));
            },
        };
        match noise_write_handshake(&mut hs) {
            Ok(m) => Ok((Handshake { hs }, frame(m.as_slice()))),
            Err(e) => Err(failed(e)),
        }
    }

    /// Goes on as the caller with the answer that came in a frame; the last message
    /// to send, in its frame, and the session. For a caller who sent its first message
    /// there is one exactly if the answer fits the handshake and shows a key.
    pub fn conclude(self, answer: &[u8]) -> (r: Result<(Vec<u8>, Session), WireError>)
        requires
            self.wf(),
        ensures
            match reading(self.hs, answer@) {
                None => r is Err && is_noise_error(r->Err_0),
                Some(read) => {
                    &&& answer@.len() <= MAX_FRAME
                    &&& transcript_of(read) == transcript_of(self.hs).push(answer@)
                    &&& is_calling(self.hs) && transcript_of(self.hs).len() == 1 ==> (r is Ok
                        <==> remote_static_of(read) is Some)
                    &&& r is Ok ==> transcript_of(self.hs).len() == 1 && concludes(
                        r->Ok_0.1,
                        read,
                        r->Ok_0.0@,
                    ) && remote_static_of(read) == Some(r->Ok_0.1.peer_pubkey@)
                    &&& is_calling(self.hs) && transcript_of(self.hs).len() == 1
                        && remote_static_of(read) is None ==> r->Err_0 == WireError::NoPeerKey
                    &&& r is Err ==> is_noise_error(r->Err_0) || (r->Err_0 == WireError::NoPeerKey
                        && remote_static_of(read) is None)
                },
            },
    {
        let mut hs: snow::HandshakeState = self.hs;
        if let Err(e) = noise_read_handshake(&mut hs, answer) {
            return Err(failed(e));
        }
        let ghost read = hs;
        let last: Vec<u8> = match noise_write_handshake(&mut hs) {
            Ok(m) => frame(m.as_slice()),
            Err(e) => {
                return Err(failed(e));
            },
        };
        let ghost done = hs;
        match Session::from_handshake(hs) {
            Ok(s) => {
                proof {
                    one_concludes(s, done, read, last@);
                }
                Ok((last, s))
            },
            Err(e) => Err(e),
        }
    }

    /// Begins as the side that is called, with the message that came in a frame;
    /// the answer to send, in its frame. It is the second message of the handshake.
    pub fn answer(private_key: &[u8], first: &[u8]) -> (r: Result<(Handshake, Vec<u8>), WireError>)
        requires
            private_key@.len() == 32,
        ensures
            r is Ok ==> r->Ok_0.0.wf(),
            r is Ok ==> first@.len() <= MAX_FRAME && answered(r->Ok_0.0.hs, first@),
            r is Ok ==> transcript_of(r->Ok_0.0.hs) == seq![first@, last_message(r->Ok_0.0.hs)]
                && last_message(r->Ok_0.0.hs).len() <= MAX_FRAME && r->Ok_0.1@ == framed(
                last_message(r->Ok_0.0.hs),
            ),
            r is Ok ==> local_key_of(r->Ok_0.0.hs) == private_key@ && !is_calling(r->Ok_0.0.hs),
            r is Err ==> is_noise_error(r->Err_0),
    {
        let mut hs: snow::HandshakeState = match noise_responder(PARAMS, private_key) {
            Ok(hs) => hs,
            Err(e) => {
                return Err(failed(e));
            },
        };
        let ghost fresh = hs;
        if let Err(e) = noise_read_handshake(&mut hs, first) {
            return Err(failed(e));
        }
        match noise_write_handshake(&mut hs) {
            Ok(m) => {
                proof {
                    one_answered(hs, fresh, first@);
                    assert(transcript_of(hs) =~= seq![first@, m@]);
                }
                Ok((Handshake { hs }, frame(m.as_slice())))
            },
            Err(e) => Err(failed(e)),
        }
    }

    /// Goes on as the side that was called with the last message that came in a
    /// frame; the session. There is one exactly if the message fits the handshake,
    /// shows a key, and is the third.
    pub fn accept(self, last: &[u8]) -> (r: Result<Session, WireError>)
        requires
            self.wf(),
        ensures
            match reading(self.hs, last@) {
                None => r is Err && is_noise_error(r->Err_0),
                Some(hs) => {
                    &&& last@.len() <= MAX_FRAME
                    &&& transcript_of(hs) == transcript_of(self.hs).push(last@)
                    &&& match remote_static_of(hs) {
                        None => r is Err && r->Err_0 == WireError::NoPeerKey,
                        Some(_) => if transcript_of(self.hs).len() == 2 {
                            r is Ok && is_session_of(r->Ok_0, hs)
                        } else {
                            r is Err && is_noise_error(r->Err_0)
                        },
                    }
                },
            },
    {
        let mut hs: snow::HandshakeState = self.hs;
        if let Err(e) = noise_read_handshake(&mut hs, last) {
            return Err(failed(e));
        }
        Session::from_handshake(hs)
    }
}

/// Encrypted pieces as they go over the stream.
pub open spec fn all_framed(sealed: Seq<Seq<u8>>) -> Seq<u8>
    decreases sealed.len(),
{
    if sealed.len() == 0 {
        Seq::empty()
    } else {
        all_framed(sealed.drop_last()) + framed(sealed.last())
    }
}

/// Pieces of a message encrypted, from the message of that number on.
pub open spec fn all_sealed(key: Seq<u8>, number: nat, parts: Seq<Seq<u8>>) -> Seq<Seq<u8>> {
    Seq::new(parts.len(), |i: int| sealed_with(key, (number + i) as nat, parts[i]))
}

impl Session {
    /// It is one between these devices.
    pub open spec fn wf(&self) -> bool {
        session_params(self.noise) == PARAMS@
    }

    /// The session that a handshake leads to: there is one exactly if the other side
    /// showed its key and all three messages were exchanged.
    pub fn from_handshake(hs: snow::HandshakeState) -> (r: Result<Session, WireError>)
        requires
            params_of(hs) == PARAMS@,
        ensures
            match remote_static_of(hs) {
                None => r is Err && r->Err_0 == WireError::NoPeerKey,
                Some(_) => if transcript_of(hs).len() == 3 {
                    r is Ok && is_session_of(r->Ok_0, hs)
                } else {
                    r is Err && is_noise_error(r->Err_0)
                },
            },
    {
        // The hash is read before the handshake gives way to the session.
        let hash: Vec<u8> = noise_handshake_hash(&hs);
        let code: String = sas_code(hash.as_slice());
        let peer_pubkey: Vec<u8> = match noise_remote_static(&hs) {
            Some(k) => k,
            None => {
                return Err(WireError::NoPeerKey);
            },
        };
        match noise_transport(hs) {
            Ok(noise) => Ok(Session { noise, peer_pubkey, code }),
            Err(e) => Err(failed(e)),
        }
    }

    /// The bytes that send a message: its pieces, each encrypted and framed. There are
    /// some until the numbers of messages are used up.
    pub fn seal(&mut self, data: &[u8]) -> (r: Result<Vec<u8>, WireError>)
        requires
            old(self).wf(),
        ensures
            r is Ok <==> sent(old(self).noise) + pieces(data@).len() <= u64::MAX,
            r is Ok ==> r->Ok_0@ == all_framed(
                all_sealed(send_key(old(self).noise), sent(old(self).noise), pieces(data@)),
            ),
            r is Ok ==> sent(final(self).noise) == sent(old(self).noise) + pieces(data@).len(),
            r is Err ==> is_noise_error(r->Err_0),
            final(self).wf(),
            send_key(final(self).noise) == send_key(old(self).noise),
            receive_key(final(self).noise) == receive_key(old(self).noise),
            received(final(self).noise) == received(old(self).noise),
            final(self).peer_pubkey == old(self).peer_pubkey,
            final(self).code == old(self).code,
    {
        let parts: Vec<Vec<u8>> = split_message(data);
        let mut out: Vec<u8> = Vec::new();
        let ghost all = pieces(data@);
        let ghost key = send_key(self.noise);
        let ghost first = sent(self.noise);
        let ghost sealed = all_sealed(key, first, all);
        proof {
            assert(sealed.take(0) =~= Seq::empty());
            assert(out@ =~= all_framed(sealed.take(0)));
        }
        for i in 0..parts.len()
            invariant
                all == pieces(data@),
                sealed == all_sealed(key, first, all),
                key == send_key(old(self).noise),
                first == sent(old(self).noise),
                parts@.len() == all.len(),
                forall|k: int| 0 <= k < parts@.len() ==> (#[trigger] parts@[k])@ == all[k],
                forall|k: int|
                    0 <= k < parts@.len() ==> (#[trigger] parts@[k])@.len() <= MAX_NOISE_PAYLOAD,
                out@ == all_framed(sealed.take(i as int)),
                send_key(self.noise) == key,
                sent(self.noise) == first + i,
                i > 0 ==> first + i <= u64::MAX,
                self.wf(),
                receive_key(self.noise) == receive_key(old(self).noise),
                received(self.noise) == received(old(self).noise),
                self.peer_pubkey == old(self).peer_pubkey,
                self.code == old(self).code,
        {
            match noise_encrypt(&mut self.noise, parts[i].as_slice()) {
                Ok(c) => {
                    let f: Vec<u8> = frame(c.as_slice());
                    push_all(&mut out, f.as_slice(), 0, f.len());
                    proof {
                        assert(f@.subrange(0, f@.len() as int) =~= f@);
                        assert(sealed[i as int] == c@);
                        assert(sealed.take(i + 1).drop_last() =~= sealed.take(i as int));
                        assert(sealed.take(i + 1).last() == c@);
                    }
                },
                Err(e) => {
                    return Err(failed(e));
                },
            }
        }
        proof {
            assert(sealed.take(sealed.len() as int) =~= sealed);
        }
        Ok(out)
    }

    /// Decrypts what came in a frame and adds it to the message that is coming in;
    /// whether that is whole now. What the other side encrypted as its next message
    /// is taken as far as it fits the message; anything else is refused.
    pub fn open(&mut self, assembly: &mut Assembly, sealed: &[u8]) -> (r: Result<bool, WireError>)
        requires
            old(self).wf(),
            !old(assembly)@.is_whole(),
        ensures
            forall|piece: Seq<u8>|
                received(old(self).noise) < u64::MAX && #[trigger] is_sealed(
                    receive_key(old(self).noise),
                    received(old(self).noise),
                    sealed@,
                    piece,
                ) ==> is_outcome(r, final(assembly)@, old(assembly)@, piece) && received(
                    final(self).noise,
                ) == received(old(self).noise) + 1,
            (exists|piece: Seq<u8>| #[trigger]
                opens_as(
                    receive_key(old(self).noise),
                    received(old(self).noise),
                    sealed@,
                    piece,
                ) && is_outcome(r, final(assembly)@, old(assembly)@, piece)) || (r is Err
                && is_noise_error(r->Err_0) && final(assembly)@ == old(assembly)@),
            r is Ok ==> 16 <= sealed@.len() <= MAX_FRAME && received(final(self).noise) == received(
                old(self).noise,
            ) + 1,
            final(self).wf(),
            receive_key(final(self).noise) == receive_key(old(self).noise),
            send_key(final(self).noise) == send_key(old(self).noise),
            sent(final(self).noise) == sent(old(self).noise),
            final(self).peer_pubkey == old(self).peer_pubkey,
            final(self).code == old(self).code,
    {
        let ghost key = receive_key(self.noise);
        let ghost number = received(self.noise);
        match noise_decrypt(&mut self.noise, sealed) {
            Ok(piece) => {
                assert(opens_as(key, number, sealed@, piece@));
                match assembly.take(piece.as_slice()) {
                    Ok(_) => Ok(assembly.is_whole()),
                    Err(e) => Err(e),
                }
            },
            Err(e) => Err(failed(e)),
        }
    }
}

/// What opening a piece of a message that is coming in gives: whether the message is
/// whole then, or why the piece is refused.
pub open spec fn is_outcome(
    r: Result<bool, WireError>,
    after: AssemblyView,
    before: AssemblyView,
    piece: Seq<u8>,
) -> bool {
    match piece_taken(before, piece) {
        Ok(a) => after == a && r == Ok::<bool, WireError>(a.is_whole()),
        Err(e) => after == before && r == Err::<bool, WireError>(e),
    }
}

/// One more piece is one more step.
proof fn pieces_step(a: AssemblyView, parts: Seq<Seq<u8>>, i: int)
    requires
        0 <= i < parts.len(),
        all_pieces_taken(a, parts.take(i)) is Ok,
    ensures
        all_pieces_taken(a, parts.take(i + 1)) == piece_taken(
            all_pieces_taken(a, parts.take(i))->Ok_0,
            parts[i],
        ),
    decreases i,
{
    let more = parts.take(i + 1);
    if i == 0 {
        assert(more.drop_first() =~= Seq::empty());
        if let Ok(b) = piece_taken(a, parts[0]) {
            assert(all_pieces_taken(b, more.drop_first()) == Ok::<AssemblyView, WireError>(b));
        }
    } else {
        let rest = parts.drop_first();
        assert(parts.take(i).drop_first() =~= rest.take(i - 1));
        assert(more.drop_first() =~= rest.take(i));
        assert(parts.take(i)[0] == parts[0]);
        assert(more[0] == parts[0]);
        assert(rest[i - 1] == parts[i]);
        if let Ok(b) = piece_taken(a, parts[0]) {
            pieces_step(b, rest, i - 1);
        }
    }
}

/// Pieces of bytes are taken one by one, and are not all of the bytes before the
/// last of them.
proof fn chunks_come_short(a: AssemblyView, data: Seq<u8>, k: int)
    requires
        a.total is Some,
        0 <= k <= chunks(data).len(),
    ensures
        ({
            let r = all_pieces_taken(a, chunks(data).take(k));
            &&& r is Ok
            &&& r->Ok_0.total == a.total
            &&& k < chunks(data).len() ==> r->Ok_0.bytes.len() < a.bytes.len() + data.len()
        }),
        forall|i: int|
            0 <= i < chunks(data).len() ==> 0 < (#[trigger] chunks(data)[i]).len()
                <= MAX_NOISE_PAYLOAD,
    decreases data.len(),
{
    let parts = chunks(data);
    if data.len() > MAX_NOISE_PAYLOAD {
        let head = data.take(MAX_NOISE_PAYLOAD as int);
        let rest = data.skip(MAX_NOISE_PAYLOAD as int);
        let b = AssemblyView { total: a.total, bytes: a.bytes + head };
        assert(parts.drop_first() =~= chunks(rest));
        chunks_come_short(b, rest, if k > 0 { k - 1 } else { 0 });
        assert forall|i: int| 0 <= i < parts.len() implies 0 < (#[trigger] parts[i]).len()
            <= MAX_NOISE_PAYLOAD by {
            if i > 0 {
                assert(parts[i] == chunks(rest)[i - 1]);
            }
        }
        if k > 0 {
            assert(parts.take(k).drop_first() =~= chunks(rest).take(k - 1));
            assert(piece_taken(a, parts[0]) == Ok::<AssemblyView, WireError>(b));
        }
    } else if data.len() > 0 && k == 1 {
        let b = AssemblyView { total: a.total, bytes: a.bytes + data };
        assert(parts.take(1).drop_first() =~= Seq::empty());
        assert(piece_taken(a, parts.take(1)[0]) == Ok::<AssemblyView, WireError>(b));
        assert(all_pieces_taken(b, parts.take(1).drop_first()) == Ok::<AssemblyView, WireError>(b));
    }
}

/// A message is whole only once its last piece is here, and its pieces are such as
/// can be encrypted.
proof fn whole_only_at_the_end(data: Seq<u8>, i: int)
    requires
        data.len() <= MAX_MESSAGE,
        0 <= i < pieces(data).len(),
    ensures
        after_pieces(data, i) is Ok,
        !after_pieces(data, i)->Ok_0.is_whole(),
        pieces(data)[i].len() <= MAX_NOISE_PAYLOAD,
{
    let parts = pieces(data);
    lengths_are_read_back(data.len());
    let a = AssemblyView { total: Some(data.len() as usize), bytes: Seq::empty() };
    chunks_come_short(a, data, if i > 0 { i - 1 } else { 0 });
    if i == 0 {
        assert(parts.take(0) =~= Seq::empty());
    } else {
        assert(parts.take(i).drop_first() =~= chunks(data).take(i - 1));
        assert(parts.take(i)[0] == length_bytes(data.len()));
        assert(piece_taken(AssemblyView::fresh(), parts[0]) == Ok::<AssemblyView, WireError>(a));
        assert(parts[i] == chunks(data)[i - 1]);
    }
}

/// Once the first pieces of a message were taken.
pub open spec fn after_pieces(data: Seq<u8>, n: int) -> Result<AssemblyView, WireError> {
    all_pieces_taken(AssemblyView::fresh(), pieces(data).take(n))
}

/// A message that one side sealed is what the other side opens: under the same key,
/// from the same number on, every piece that was sealed is one that has to be opened,
/// none comes when the message is whole already, and together they give the message.
pub proof fn what_was_sealed_is_opened(key: Seq<u8>, number: nat, data: Seq<u8>)
    requires
        data.len() <= MAX_MESSAGE,
    ensures
        ({
            let parts = pieces(data);
            let sealed = all_sealed(key, number, parts);
            let n = parts.len() as int;
            &&& sealed.len() == n
            &&& forall|i: int|
                0 <= i < n ==> is_sealed(key, (number + i) as nat, #[trigger] sealed[i], parts[i])
            &&& forall|i: int|
                0 <= i < n ==> (#[trigger] after_pieces(data, i)) is Ok && !after_pieces(
                    data,
                    i,
                )->Ok_0.is_whole() && piece_taken(after_pieces(data, i)->Ok_0, parts[i])
                    == after_pieces(data, i + 1)
            &&& after_pieces(data, n) is Ok
            &&& after_pieces(data, n)->Ok_0.is_whole()
            &&& after_pieces(data, n)->Ok_0.message() == data
        }),
{
    let parts = pieces(data);
    let n = parts.len() as int;
    let sealed = all_sealed(key, number, parts);
    pieces_give_the_message_back(data);
    crate::seqs::take_all(parts);
    assert forall|i: int| 0 <= i < n implies is_sealed(
        key,
        (number + i) as nat,
        #[trigger] sealed[i],
        parts[i],
    ) by {
        whole_only_at_the_end(data, i);
    }
    assert forall|i: int| 0 <= i < n implies (#[trigger] after_pieces(data, i)) is Ok
        && !after_pieces(data, i)->Ok_0.is_whole() && piece_taken(
        after_pieces(data, i)->Ok_0,
        parts[i],
    ) == after_pieces(data, i + 1) by {
        whole_only_at_the_end(data, i);
        pieces_step(AssemblyView::fresh(), parts, i);
    }
}

/// Two sides that exchanged the same messages show the same code.
pub proof fn both_sides_show_the_same_code(
    a: Session,
    b: Session,
    x: snow::HandshakeState,
    y: snow::HandshakeState,
)
    requires
        is_session_of(a, x),
        is_session_of(b, y),
        transcript_of(x) == transcript_of(y),
    ensures
        a.code@ == b.code@,
{
}

/// Where each side got what the other sent, they show the same code: the caller, who
/// sent its first message, got an answer and sent its last one, and the side that was
/// called, which answered that first message and got that last one.
pub proof fn a_handshake_gives_both_the_same_code(
    caller: Session,
    called: Session,
    call: snow::HandshakeState,
    answer: snow::HandshakeState,
    last: Seq<u8>,
)
    requires
        transcript_of(call).len() == 1,
        transcript_of(answer) == seq![last_message(call), last_message(answer)],
        reading(call, last_message(answer)) is Some,
        transcript_of(reading(call, last_message(answer))->0) == transcript_of(call).push(
            last_message(answer),
        ),
        concludes(caller, reading(call, last_message(answer))->0, framed(last)),
        reading(answer, last) is Some,
        transcript_of(reading(answer, last)->0) == transcript_of(answer).push(last),
        is_session_of(called, reading(answer, last)->0),
        last.len() <= MAX_FRAME,
    ensures
        caller.code@ == called.code@,
{
    let from = reading(call, last_message(answer))->0;
    let hs = choose|hs: snow::HandshakeState| #[trigger]
        is_session_of(caller, hs) && wrote(hs, from, last_message(hs)) && framed(last) == framed(
            last_message(hs),
        ) && last_message(hs).len() <= MAX_FRAME;
    frames_give_the_bytes_back(last);
    frames_give_the_bytes_back(last_message(hs));
    assert(last_message(hs) == last);
    assert(transcript_of(hs) =~= transcript_of(reading(answer, last)->0));
    both_sides_show_the_same_code(caller, called, hs, reading(answer, last)->0);
}

} // verus!
