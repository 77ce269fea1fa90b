//! Assembly and decoding of the sensor's range frames.
use vstd::prelude::*;

verus! {

/// Byte that opens every range frame (`R`).
pub const START_MARKER: u8 = 82;

/// Byte that closes every range frame (carriage return).
pub const TERMINATOR: u8 = 13;

/// Length of a complete payload: the start marker and four digits.
pub const PAYLOAD_LEN: usize = 5;

/// Size of the scratch buffer that one read of the serial stream fills.
pub const READ_CHUNK_LEN: usize = 6;

/// Why a complete payload could not be turned into a distance.
#[derive(Clone, Copy, Debug, PartialEq, Eq, Structural)]
pub enum FrameError {
    /// The payload bytes are not valid UTF-8 text.
    InvalidText,
    /// The payload is text but not the start marker followed by four decimal digits.
    InvalidNumber,
}

pub open spec fn is_digit(b: u8) -> bool {
    48 <= b <= 57
}

pub open spec fn is_ascii(s: Seq<u8>) -> bool {
    forall|i: int| 0 <= i < s.len() ==> s[i] < 128
}

/// The number written by the decimal digits `s`, most significant first.
pub open spec fn digits_value(s: Seq<u8>) -> nat
    decreases s.len(),
{
    if s.len() == 0 {
        0
    } else {
        digits_value(s.drop_last()) * 10 + (s.last() - 48) as nat
    }
}

/// A payload that encodes a distance: the start marker, then four decimal digits.
pub open spec fn is_frame_payload(p: Seq<u8>) -> bool {
    &&& p.len() == PAYLOAD_LEN
    &&& p[0] == START_MARKER
    &&& forall|i: int| 1 <= i < p.len() ==> is_digit(p[i])
}

/// Whether `b` is valid UTF-8, as the standard library decides it.
pub uninterp spec fn utf8_valid(b: Seq<u8>) -> bool;

/// Whether a payload is text: ASCII bytes always are, others as UTF-8 decides.
pub open spec fn payload_is_text(p: Seq<u8>) -> bool {
    is_ascii(p) || utf8_valid(p)
}

/// What a payload decodes to, given whether its bytes are text.
pub open spec fn decode_spec(p: Seq<u8>, is_text: bool) -> Result<u16, FrameError> {
    if !is_text {
        Err(FrameError::InvalidText)
    } else if is_frame_payload(p) {
        Ok(digits_value(p.drop_first()) as u16)
    } else {
        Err(FrameError::InvalidNumber)
    }
}

/// The partial frame after one more byte `b` arrives on top of `acc`.
///
/// A start marker always opens a fresh frame, dropping any fragment before it;
/// a terminator ends the frame in progress, which is then too short and is
/// dropped; any other byte extends a frame in progress and is ignored outside
/// one.
pub open spec fn scan_byte(acc: Seq<u8>, b: u8) -> Seq<u8> {
    if b == START_MARKER {
        seq![START_MARKER]
    } else if b == TERMINATOR {
        Seq::empty()
    } else if acc.len() == 0 {
        acc
    } else {
        acc.push(b)
    }
}

/// Reads the bytes `c` one by one on top of `acc`, stopping at the first byte
/// that completes a payload. Returns the bytes then accumulated (cleared once a
/// payload is complete) and the decoding of the completed payload, if any.
pub open spec fn scan(acc: Seq<u8>, c: Seq<u8>) -> (Seq<u8>, Option<Result<u16, FrameError>>)
    decreases c.len(),
{
    if c.len() == 0 {
        (acc, None)
    } else {
        let next = scan_byte(acc, c[0]);
        if next.len() == PAYLOAD_LEN {
            (Seq::empty(), Some(decode_spec(next, payload_is_text(next))))
        } else {
            scan(next, c.drop_first())
        }
    }
}

/// What reading `chunk` on top of `acc` yields: the decoding of the first
/// payload that the chunk completes, or nothing yet.
pub open spec fn feed_outcome(acc: Seq<u8>, chunk: Seq<u8>) -> Option<Result<u16, FrameError>> {
    scan(acc, chunk).1
}

/// The accumulated bytes after reading `chunk` on top of `acc`.
pub open spec fn feed_rest(acc: Seq<u8>, chunk: Seq<u8>) -> Seq<u8> {
    scan(acc, chunk).0
}

/// A partial frame: shorter than a payload, opened by the start marker, and
/// free of terminators.
pub open spec fn is_partial_frame(s: Seq<u8>) -> bool {
    &&& s.len() < PAYLOAD_LEN
    &&& s.len() > 0 ==> s[0] == START_MARKER
    &&& forall|i: int| 0 <= i < s.len() ==> s[i] != TERMINATOR
}

/// Relies on std::str::from_utf8: whether the bytes are valid UTF-8, which
/// ASCII bytes always are.
#[verifier::external_body]
fn is_utf8(b: &[u8]) -> (r: bool)
    ensures
        r == utf8_valid(b@),
        is_ascii(b@) ==> r,
{
    std::str::from_utf8(b).is_ok()
}

/// Whether the payload bytes are text.
pub fn is_text(p: &[u8]) -> (r: bool)
    ensures
        r == payload_is_text(p@),
{
    let mut i: usize = 0;
    while i < p.len()
        invariant
            0 <= i <= p@.len(),
            forall|j: int| 0 <= j < i ==> p@[j] < 128,
        decreases p@.len() - i,
    {
        if p[i] >= 128 {
            let r = is_utf8(p);
            return r;
        }
        i = i + 1;
    }
    true
}

/// Decodes a payload whose text-ness is already known.
pub fn parse_payload(p: &[u8], is_text: bool) -> (r: Result<u16, FrameError>)
    ensures
        r == decode_spec(p@, is_text),
{
    if !is_text {
        return Err(FrameError::InvalidText);
    }
    if p.len() != PAYLOAD_LEN || p[0] != START_MARKER {
        return Err(FrameError::InvalidNumber);
    }
    let mut value: u16 = 0;
    let mut i: usize = 1;
    while i < p.len()
        invariant
            is_text,
            p@.len() == PAYLOAD_LEN,
            p@[0] == START_MARKER,
            1 <= i <= p@.len(),
            forall|j: int| 1 <= j < i ==> is_digit(p@[j]),
            value as nat == digits_value(p@.subrange(1, i as int)),
            value < pow10((i - 1) as nat),
        decreases p@.len() - i,
    {
        let b = p[i];
        if b < 48 || b > 57 {
            assert(!is_digit(p@[i as int]));
            return Err(FrameError::InvalidNumber);
        }
        proof {
            let s = p@.subrange(1, i as int + 1);
            assert(s.drop_last() =~= p@.subrange(1, i as int));
            lemma_pow10_small();
        }
        value = value * 10 + (b - 48) as u16;
        i = i + 1;
    }
    assert(p@.subrange(1, 5) =~= p@.drop_first());
    Ok(value)
}

/// Decodes a complete payload into a distance.
pub fn decode_payload(p: &[u8]) -> (r: Result<u16, FrameError>)
    ensures
        r == decode_spec(p@, payload_is_text(p@)),
{
    let text = is_text(p);
    parse_payload(p, text)
}

/// Collects the bytes of one frame across reads of arbitrary size.
pub struct FrameAssembler {
    buf: Vec<u8>,
}

impl View for FrameAssembler {
    type V = Seq<u8>;

    closed spec fn view(&self) -> Seq<u8> {
        self.buf@
    }
}

impl FrameAssembler {
    /// An assembler with nothing accumulated.
    pub fn new() -> (r: FrameAssembler)
        ensures
            r@ == Seq::<u8>::empty(),
    {
        FrameAssembler { buf: Vec::with_capacity(PAYLOAD_LEN) }
    }

    /// Number of bytes accumulated so far.
    pub fn len(&self) -> (r: usize)
        ensures
            r == self@.len(),
    {
        self.buf.len()
    }

    /// Takes in the bytes of one read. Returns the decoded distance or the
    /// decoding error of the first payload the read completes, and clears the
    /// accumulated bytes then (the rest of the read is dropped); returns `None`
    /// while the frame is still partial.
    pub fn feed(&mut self, chunk: &[u8]) -> (r: Option<Result<u16, FrameError>>)
        requires
            is_partial_frame(old(self)@),
        ensures
            r == feed_outcome(old(self)@, chunk@),
            final(self)@ == feed_rest(old(self)@, chunk@),
            is_partial_frame(final(self)@),
    {
        let ghost acc = self@;
        let ghost c = chunk@;
        let n = chunk.len();
        let mut i: usize = 0;
        assert(c.subrange(0, n as int) =~= c);
        while i < n
            invariant
                0 <= i <= n,
                n == c.len(),
                c == chunk@,
                acc == old(self)@,
                is_partial_frame(self@),
                scan(acc, c) == scan(self@, c.subrange(i as int, n as int)),
            decreases n - i,
        {
            let b = chunk[i];
            let ghost prev = self@;
            proof {
                let rest = c.subrange(i as int, n as int);
                assert(rest[0] == b);
                assert(rest.drop_first() =~= c.subrange(i as int + 1, n as int));
            }
            if b == START_MARKER {
                self.buf.clear();
                self.buf.push(b);
                assert(self@ =~= seq![START_MARKER]);
            } else if b == TERMINATOR {
                self.buf.clear();
                assert(self@ =~= Seq::<u8>::empty());
            } else if self.buf.len() > 0 {
                self.buf.push(b);
                assert(scan_byte(prev, b) == self@);
                if self.buf.len() == PAYLOAD_LEN {
                    let ghost full = self@;
                    let r = decode_payload(self.buf.as_slice());
                    assert(scan(prev, c.subrange(i as int, n as int)) == (
                        Seq::<u8>::empty(),
                        Some(decode_spec(full, payload_is_text(full))),
                    ));
                    self.buf.clear();
                    assert(self@ =~= Seq::<u8>::empty());
                    return Some(r);
                }
            }
            i = i + 1;
        }
        assert(c.subrange(n as int, n as int) =~= Seq::<u8>::empty());
        None
    }
}

/// Ten to the power `n`.
pub open spec fn pow10(n: nat) -> nat
    decreases n,
{
    if n == 0 {
        1
    } else {
        10 * pow10((n - 1) as nat)
    }
}

proof fn lemma_pow10_small()
    ensures
        pow10(0) == 1,
        pow10(1) == 10,
        pow10(2) == 100,
        pow10(3) == 1000,
        pow10(4) == 10000,
{
    reveal_with_fuel(pow10, 5);
}

} // verus!
