//! What the frame assembler makes of a whole byte stream, however the stream
//! is split into reads.
use crate::frame::{
    decode_spec, digits_value, feed_outcome, feed_rest, is_digit, is_frame_payload,
    is_partial_frame, payload_is_text, scan, scan_byte, FrameError, PAYLOAD_LEN, START_MARKER,
    TERMINATOR,
};
use vstd::prelude::*;

verus! {

/// The first outcome that feeding `chunks` one after another on top of `acc`
/// produces; `None` when every chunk leaves the frame partial.
pub open spec fn drive(acc: Seq<u8>, chunks: Seq<Seq<u8>>) -> Option<Result<u16, FrameError>>
    decreases chunks.len(),
{
    if chunks.len() == 0 {
        None
    } else {
        match feed_outcome(acc, chunks[0]) {
            Some(r) => Some(r),
            None => drive(feed_rest(acc, chunks[0]), chunks.drop_first()),
        }
    }
}

/// Whether `b` ends a run of payload bytes: a start marker or a terminator.
pub open spec fn is_boundary(b: u8) -> bool {
    b == START_MARKER || b == TERMINATOR
}

/// The number of bytes at the front of `s` before its first start marker or
/// terminator.
pub open spec fn run_len(s: Seq<u8>) -> nat
    decreases s.len(),
{
    if s.len() == 0 || is_boundary(s[0]) {
        0
    } else {
        1 + run_len(s.drop_first())
    }
}

/// Every start marker in `g` opens at most a truncated frame: fewer than four
/// bytes follow it before the next start marker, terminator or the end of `g`.
pub open spec fn only_truncated_frames(g: Seq<u8>) -> bool {
    forall|i: int|
        #![trigger g[i]]
        0 <= i < g.len() && g[i] == START_MARKER ==> run_len(g.subrange(i + 1, g.len() as int)) < 4
}

proof fn lemma_scan_append(acc: Seq<u8>, x: Seq<u8>, y: Seq<u8>)
    ensures
        scan(acc, x + y) == if scan(acc, x).1 is Some {
            scan(acc, x)
        } else {
            scan(scan(acc, x).0, y)
        },
    decreases x.len(),
{
    if x.len() == 0 {
        assert(x + y =~= y);
    } else {
        assert((x + y)[0] == x[0]);
        assert((x + y).drop_first() =~= x.drop_first() + y);
        let next = scan_byte(acc, x[0]);
        if next.len() != PAYLOAD_LEN {
            lemma_scan_append(next, x.drop_first(), y);
        }
    }
}

/// However a stream is cut into reads, the assembler yields the same first
/// outcome as when the bytes are read one by one; in particular the same as
/// when the whole stream arrives in a single read.
pub proof fn lemma_split_invariant(acc: Seq<u8>, chunks: Seq<Seq<u8>>)
    ensures
        drive(acc, chunks) == scan(acc, chunks.flatten()).1,
        drive(acc, chunks) == drive(acc, seq![chunks.flatten()]),
    decreases chunks.len(),
{
    if chunks.len() > 0 {
        let c = chunks[0];
        assert(chunks.first() == c);
        lemma_scan_append(acc, c, chunks.drop_first().flatten());
        lemma_split_invariant(scan(acc, c).0, chunks.drop_first());
    }
    let one = seq![chunks.flatten()];
    assert(one.drop_first() =~= Seq::<Seq<u8>>::empty());
    assert(one[0] == chunks.flatten());
    assert(one.flatten() =~= chunks.flatten()) by {
        assert(one.first() == chunks.flatten());
        assert(one.drop_first().flatten() =~= Seq::<u8>::empty());
        assert(chunks.flatten() + Seq::<u8>::empty() =~= chunks.flatten());
    }
    assert(drive(feed_rest(acc, one[0]), one.drop_first()) == None::<Result<u16, FrameError>>);
    assert(scan(scan(acc, chunks.flatten()).0, Seq::<u8>::empty()).1 == None::<
        Result<u16, FrameError>,
    >);
}

/// Reading garbage that holds only truncated frames completes no payload, and
/// leaves a partial frame.
proof fn lemma_quiet(acc: Seq<u8>, g: Seq<u8>)
    requires
        is_partial_frame(acc),
        only_truncated_frames(g),
        acc.len() > 0 ==> acc.len() + run_len(g) < 5,
    ensures
        scan(acc, g).1 is None,
        is_partial_frame(scan(acc, g).0),
    decreases g.len(),
{
    if g.len() > 0 {
        let b = g[0];
        let rest = g.drop_first();
        let next = scan_byte(acc, b);
        assert forall|i: int| 0 <= i < rest.len() && rest[i] == START_MARKER implies run_len(
            rest.subrange(i + 1, rest.len() as int),
        ) < 4 by {
            assert(g[i + 1] == rest[i]);
            assert(rest.subrange(i + 1, rest.len() as int) =~= g.subrange(i + 2, g.len() as int));
        }
        if b == START_MARKER {
            assert(g[0] == START_MARKER);
            assert(g.subrange(1, g.len() as int) =~= rest);
            assert(next =~= seq![START_MARKER]);
        } else if b == TERMINATOR {
        } else if acc.len() > 0 {
            assert(next.len() == acc.len() + 1);
        }
        lemma_quiet(next, rest);
    }
}

/// From a non-empty partial frame, `k` bytes that are neither start marker nor
/// terminator complete the payload.
proof fn lemma_scan_extend(acc: Seq<u8>, y: Seq<u8>, k: int)
    requires
        acc.len() > 0,
        acc.len() + k == PAYLOAD_LEN,
        1 <= k <= y.len(),
        forall|i: int| 0 <= i < k ==> !is_boundary(y[i]),
    ensures
        scan(acc, y) == (
            Seq::<u8>::empty(),
            Some(decode_spec(acc + y.take(k), payload_is_text(acc + y.take(k)))),
        ),
    decreases k,
{
    let next = acc.push(y[0]);
    assert(!is_boundary(y[0]));
    assert(scan_byte(acc, y[0]) == next);
    if k == 1 {
        assert(next =~= acc + y.take(k));
    } else {
        lemma_scan_extend(next, y.drop_first(), k - 1);
        assert(next + y.drop_first().take(k - 1) =~= acc + y.take(k));
    }
}

/// A start marker followed by four bytes that are neither start marker nor
/// terminator completes a payload, whatever was accumulated before.
proof fn lemma_scan_frame(acc: Seq<u8>, x: Seq<u8>, tail: Seq<u8>)
    requires
        x.len() == 4,
        forall|i: int| 0 <= i < x.len() ==> !is_boundary(x[i]),
    ensures
        scan(acc, seq![START_MARKER] + x + tail) == (
            Seq::<u8>::empty(),
            Some(decode_spec(seq![START_MARKER] + x, payload_is_text(seq![START_MARKER] + x))),
        ),
{
    let f = seq![START_MARKER] + x + tail;
    assert(f[0] == START_MARKER);
    assert(f.drop_first() =~= x + tail);
    assert(scan_byte(acc, f[0]) =~= seq![START_MARKER]);
    lemma_scan_extend(seq![START_MARKER], x + tail, 4);
    assert((x + tail).take(4) =~= x);
}

/// Digits that fit a frame give a value below ten thousand.
proof fn lemma_four_digits(digits: Seq<u8>)
    requires
        digits.len() == 4,
        forall|i: int| 0 <= i < digits.len() ==> is_digit(digits[i]),
    ensures
        digits_value(digits) <= 9999,
{
    let d3 = digits.drop_last();
    let d2 = d3.drop_last();
    let d1 = d2.drop_last();
    let d0 = d1.drop_last();
    assert(d0.len() == 0);
    assert(digits_value(d0) == 0);
    assert(digits_value(d1) <= 9) by {
        assert(d1.last() == digits[0]);
    }
    assert(digits_value(d2) <= 99) by {
        assert(d2.last() == digits[1]);
    }
    assert(digits_value(d3) <= 999) by {
        assert(d3.last() == digits[2]);
    }
}

/// Whatever garbage comes first, truncated frames among it (a start marker
/// and fewer than four digits, ended by a terminator or a fresh start marker)
/// included, and however the stream is cut into reads, the assembler yields
/// exactly the value of the first complete frame, as a single read of the
/// whole stream does.
pub proof fn lemma_first_frame_wins(
    garbage: Seq<u8>,
    digits: Seq<u8>,
    tail: Seq<u8>,
    chunks: Seq<Seq<u8>>,
)
    requires
        only_truncated_frames(garbage),
        digits.len() == 4,
        forall|i: int| 0 <= i < digits.len() ==> is_digit(digits[i]),
        chunks.flatten() == garbage + seq![START_MARKER] + digits + seq![TERMINATOR] + tail,
    ensures
        digits_value(digits) <= 9999,
        drive(Seq::empty(), chunks) == Some(Ok::<u16, FrameError>(digits_value(digits) as u16)),
        drive(Seq::empty(), chunks) == drive(Seq::empty(), seq![chunks.flatten()]),
{
    let empty = Seq::<u8>::empty();
    let frame = seq![START_MARKER] + digits;
    let after = seq![START_MARKER] + digits + (seq![TERMINATOR] + tail);
    lemma_four_digits(digits);
    lemma_split_invariant(empty, chunks);
    assert(chunks.flatten() =~= garbage + after);
    lemma_scan_append(empty, garbage, after);
    lemma_quiet(empty, garbage);
    lemma_scan_frame(scan(empty, garbage).0, digits, seq![TERMINATOR] + tail);
    assert(frame.drop_first() =~= digits);
    assert forall|i: int| 0 <= i < frame.len() implies frame[i] < 128 by {
        if i > 0 {
            assert(frame[i] == digits[i - 1]);
        }
    }
    assert(is_frame_payload(frame));
}

/// A complete payload whose four bytes after the start marker are not all
/// digits (a letter among them, say) ends in an error and leaves nothing
/// accumulated, so a well-formed frame in later reads is still decoded
/// correctly.
pub proof fn lemma_bad_payload_recovers(
    acc: Seq<u8>,
    x: Seq<u8>,
    rest: Seq<u8>,
    garbage: Seq<u8>,
    digits: Seq<u8>,
    tail: Seq<u8>,
    chunks: Seq<Seq<u8>>,
)
    requires
        x.len() == 4,
        forall|i: int| 0 <= i < x.len() ==> !is_boundary(x[i]),
        exists|i: int| 0 <= i < x.len() && !is_digit(x[i]),
        only_truncated_frames(garbage),
        digits.len() == 4,
        forall|i: int| 0 <= i < digits.len() ==> is_digit(digits[i]),
        chunks.flatten() == garbage + seq![START_MARKER] + digits + seq![TERMINATOR] + tail,
    ensures
        feed_outcome(acc, seq![START_MARKER] + x + rest) matches Some(Err(e)) && (e
            == FrameError::InvalidText || e == FrameError::InvalidNumber),
        feed_rest(acc, seq![START_MARKER] + x + rest) == Seq::<u8>::empty(),
        drive(feed_rest(acc, seq![START_MARKER] + x + rest), chunks) == Some(
            Ok::<u16, FrameError>(digits_value(digits) as u16),
        ),
{
    lemma_scan_frame(acc, x, rest);
    let p = seq![START_MARKER] + x;
    let i = choose|i: int| 0 <= i < x.len() && !is_digit(x[i]);
    assert(p[i + 1] == x[i]);
    assert(!is_frame_payload(p));
    lemma_first_frame_wins(garbage, digits, tail, chunks);
}

/// Whether `s` holds a complete frame payload, start marker and four digits in
/// a row, that encodes `v`.
pub open spec fn holds_payload_of(s: Seq<u8>, v: u16) -> bool {
    exists|i: int|
        0 <= i && i + PAYLOAD_LEN <= s.len() && is_frame_payload(#[trigger] s.subrange(i, i + 5))
            && v as nat == digits_value(s.subrange(i, i + 5).drop_first())
}

proof fn lemma_scan_source(h: Seq<u8>, acc: Seq<u8>, c: Seq<u8>)
    requires
        acc.len() <= h.len(),
        acc == h.subrange(h.len() - acc.len(), h.len() as int),
        acc.len() < PAYLOAD_LEN,
    ensures
        scan(acc, c).1 matches Some(Ok(v)) ==> holds_payload_of(h + c, v),
    decreases c.len(),
{
    if c.len() > 0 {
        let b = c[0];
        let h2 = h.push(b);
        let next = scan_byte(acc, b);
        assert(h + c =~= h2 + c.drop_first());
        if b == START_MARKER {
            assert(next =~= h2.subrange(h2.len() - 1, h2.len() as int));
        } else if b == TERMINATOR || acc.len() == 0 {
            assert(next =~= h2.subrange(h2.len() as int, h2.len() as int));
        } else {
            assert(next =~= h2.subrange(h2.len() - next.len(), h2.len() as int));
        }
        if next.len() == PAYLOAD_LEN {
            let i = h2.len() - 5;
            assert((h + c).subrange(i, i + 5) =~= next);
            if is_frame_payload(next) {
                let d = next.drop_first();
                assert forall|j: int| 0 <= j < d.len() implies is_digit(d[j]) by {
                    assert(d[j] == next[j + 1]);
                }
                lemma_four_digits(d);
                assert(is_frame_payload((h + c).subrange(i, i + 5)));
            }
        } else {
            lemma_scan_source(h2, next, c.drop_first());
        }
    }
}

/// A distance is only ever produced from a complete frame payload that stands
/// in the stream: a start marker and four digits in a row, whose value it is.
/// Bytes of different frames are never joined into one value.
pub proof fn lemma_value_from_real_frame(chunks: Seq<Seq<u8>>, v: u16)
    requires
        drive(Seq::empty(), chunks) == Some(Ok::<u16, FrameError>(v)),
    ensures
        holds_payload_of(chunks.flatten(), v),
{
    let empty = Seq::<u8>::empty();
    lemma_split_invariant(empty, chunks);
    assert(empty + chunks.flatten() =~= chunks.flatten());
    assert(empty =~= empty.subrange(0, 0));
    lemma_scan_source(empty, empty, chunks.flatten());
}

} // verus!
