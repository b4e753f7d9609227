//! The wire format: every message is its length in decimal digits, a colon,
//! and then that many bytes. Also the splice that puts the state beside a
//! move in one JSON object.
use vstd::prelude::*;

verus! {

/// What one byte of a length prefix does to the length read so far.
#[derive(Clone, Copy, Debug, PartialEq, Eq, Structural)]
pub enum LengthStep {
    /// A digit: the length read so far is now this.
    More(usize),
    /// The colon: the prefix ends, and this is the length.
    Done(usize),
    /// A byte that is neither a digit nor a colon.
    BadByte,
    /// The length no longer fits in a `usize`.
    Overflow,
}

/// Whether `b` is an ASCII decimal digit.
pub open spec fn is_digit(b: u8) -> bool {
    48 <= b <= 57
}

/// What reading `byte` does after `length` has been read: the length so
/// far is first multiplied by ten (overflowing when it is past
/// `usize::MAX / 10`); a colon then ends the prefix with the length before
/// the multiplication, and a digit adds its value.
pub open spec fn spec_length_step(length: usize, byte: u8) -> LengthStep {
    if length > usize::MAX / 10 {
        LengthStep::Overflow
    } else if byte == 58 {
        LengthStep::Done(length)
    } else if is_digit(byte) {
        if length * 10 + (byte - 48) > usize::MAX {
            LengthStep::Overflow
        } else {
            LengthStep::More((length * 10 + (byte - 48)) as usize)
        }
    } else {
        LengthStep::BadByte
    }
}

/// Reads one byte of a length prefix.
pub fn length_step(length: usize, byte: u8) -> (r: LengthStep)
    ensures
        r == spec_length_step(length, byte),
{
    if length > usize::MAX / 10 {
        return LengthStep::Overflow;
    }
    let shifted = length * 10;
    if byte == 58u8 {
        LengthStep::Done(length)
    } else if 48u8 <= byte && byte <= 57u8 {
        let digit = (byte - 48u8) as usize;
        if shifted > usize::MAX - digit {
            LengthStep::Overflow
        } else {
            LengthStep::More(shifted + digit)
        }
    } else {
        LengthStep::BadByte
    }
}

/// The decimal digits of `n`, most significant first, without leading zeros.
pub open spec fn decimal(n: nat) -> Seq<u8>
    decreases n,
{
    if n < 10 {
        seq![(48 + n) as u8]
    } else {
        decimal(n / 10).push((48 + n % 10) as u8)
    }
}

/// `bytes` framed: its length in decimal, a colon, and the bytes.
pub open spec fn spec_frame(bytes: Seq<u8>) -> Seq<u8> {
    decimal(bytes.len()) + seq![58u8] + bytes
}

fn push_decimal(out: &mut Vec<u8>, n: usize)
    ensures
        final(out)@ == old(out)@ + decimal(n as nat),
    decreases n,
{
    if n >= 10 {
        push_decimal(out, n / 10);
    }
    out.push(48u8 + (n % 10) as u8);
    proof {
        if n >= 10 {
            assert(old(out)@ + decimal(n as nat) == (old(out)@ + decimal((n / 10) as nat)).push((48 + n % 10) as u8));
        } else {
            assert(old(out)@ + decimal(n as nat) == old(out)@.push((48 + n) as u8));
        }
    }
}

/// Frames a message for the wire: its length in bytes, in decimal, then a
/// colon, then the message.
pub fn frame(bytes: &[u8]) -> (out: Vec<u8>)
    ensures
        out@ == spec_frame(bytes@),
{
    let mut out: Vec<u8> = Vec::new();
    push_decimal(&mut out, bytes.len());
    out.push(58u8);
    let ghost prefix = out@;
    for i in 0..bytes.len()
        invariant
            out@ == prefix + bytes@.take(i as int),
    {
        out.push(bytes[i]);
        assert(bytes@.take(i + 1) == bytes@.take(i as int).push(bytes@[i as int]));
    }
    assert(bytes@.take(bytes@.len() as int) == bytes@);
    assert(prefix == decimal(bytes@.len()) + seq![58u8]);
    out
}

/// Runs the length reader over `bytes` from `length`: the outcome of the
/// first step that is not `More`, or `More` with the length read when the
/// bytes run out.
pub open spec fn read_length(length: usize, bytes: Seq<u8>) -> LengthStep
    decreases bytes.len(),
{
    if bytes.len() == 0 {
        LengthStep::More(length)
    } else {
        match spec_length_step(length, bytes[0]) {
            LengthStep::More(next) => read_length(next, bytes.drop_first()),
            other => other,
        }
    }
}

/// The value of a string of decimal digits.
pub open spec fn digits_value(s: Seq<u8>) -> nat
    decreases s.len(),
{
    if s.len() == 0 {
        0
    } else {
        digits_value(s.drop_last()) * 10 + (s.last() - 48) as nat
    }
}

proof fn lemma_read_concat(p: usize, a: Seq<u8>, b: Seq<u8>)
    ensures
        read_length(p, a + b) == match read_length(p, a) {
            LengthStep::More(q) => read_length(q, b),
            other => other,
        },
    decreases a.len(),
{
    if a.len() > 0 {
        assert((a + b)[0] == a[0]);
        assert((a + b).drop_first() == a.drop_first() + b);
        match spec_length_step(p, a[0]) {
            LengthStep::More(next) => {
                lemma_read_concat(next, a.drop_first(), b);
            },
            _ => {},
        }
    } else {
        assert(a + b == b);
    }
}

proof fn lemma_read_digits(s: Seq<u8>)
    requires
        forall|i: int| 0 <= i < s.len() ==> is_digit(#[trigger] s[i]),
        digits_value(s) <= usize::MAX,
    ensures
        read_length(0, s) == LengthStep::More(digits_value(s) as usize),
    decreases s.len(),
{
    if s.len() > 0 {
        let p = s.drop_last();
        let d = s.last();
        assert forall|i: int| 0 <= i < p.len() implies is_digit(#[trigger] p[i]) by {
            assert(p[i] == s[i]);
        }
        assert(is_digit(s[s.len() - 1]));
        assert(digits_value(s) == digits_value(p) * 10 + (d - 48) as nat);
        lemma_read_digits(p);
        assert(s == p + seq![d]);
        lemma_read_concat(0, p, seq![d]);
        let q = digits_value(p) as usize;
        assert(q <= usize::MAX / 10);
        assert(spec_length_step(q, d) == LengthStep::More(digits_value(s) as usize));
        assert(seq![d][0] == d);
        assert(seq![d].drop_first() == Seq::<u8>::empty());
        assert(read_length(digits_value(s) as usize, Seq::<u8>::empty()) == LengthStep::More(digits_value(s) as usize));
    }
}

proof fn lemma_decimal_value(n: nat)
    ensures
        forall|i: int| 0 <= i < decimal(n).len() ==> is_digit(#[trigger] decimal(n)[i]),
        digits_value(decimal(n)) == n,
    decreases n,
{
    if n < 10 {
        assert(decimal(n).drop_last() == Seq::<u8>::empty());
        assert(decimal(n).last() == (48 + n) as u8);
        assert(((48 + n) as u8) as int == 48 + n);
        assert(digits_value(decimal(n)) == digits_value(decimal(n).drop_last()) * 10 + (decimal(n).last() - 48) as nat);
    } else {
        lemma_decimal_value(n / 10);
        let p = decimal(n / 10);
        assert(decimal(n).drop_last() == p);
        assert(decimal(n).last() == (48 + n % 10) as u8);
        assert(((48 + n % 10) as u8) as int == 48 + n % 10);
        assert(digits_value(decimal(n)) == digits_value(decimal(n).drop_last()) * 10 + (decimal(n).last() - 48) as nat);
        assert(n == (n / 10) * 10 + n % 10);
        assert forall|i: int| 0 <= i < decimal(n).len() implies is_digit(#[trigger] decimal(n)[i]) by {
            if i < p.len() {
                assert(decimal(n)[i] == p[i]);
            }
        }
    }
}

/// Reading back a framed message gives its length: the length reader,
/// run over the frame from zero, stops at the colon with the number of
/// bytes in the message. (Lengths past `usize::MAX / 10` make the reader
/// overflow when it meets the colon.)
pub proof fn lemma_frame_length_roundtrip(bytes: Seq<u8>)
    requires
        bytes.len() <= usize::MAX / 10,
    ensures
        read_length(0, spec_frame(bytes)) == LengthStep::Done(bytes.len() as usize),
{
    let n = bytes.len();
    lemma_decimal_value(n);
    lemma_read_digits(decimal(n));
    assert(spec_frame(bytes) == decimal(n) + (seq![58u8] + bytes));
    lemma_read_concat(0, decimal(n), seq![58u8] + bytes);
    assert((seq![58u8] + bytes)[0] == 58u8);
}

/// The splice that sends our move and the state in one JSON object: the
/// move's object loses its closing brace and gains `, "state": ` then the
/// state and a closing brace.
pub open spec fn spec_merge(move_json: Seq<u8>, state_json: Seq<u8>) -> Seq<u8> {
    move_json.take(move_json.len() - 1) + seq![44u8, 32u8, 34u8, 115u8, 116u8, 97u8, 116u8, 101u8, 34u8, 58u8, 32u8]
        + state_json + seq![125u8]
}

/// Puts the state into the JSON object of our move, under the key `state`.
pub fn merge_move_and_state(move_json: &[u8], state_json: &[u8]) -> (out: Vec<u8>)
    requires
        move_json@.len() > 0,
    ensures
        out@ == spec_merge(move_json@, state_json@),
{
    let mut out: Vec<u8> = Vec::new();
    let keep = move_json.len() - 1;
    for i in 0..keep
        invariant
            keep == move_json@.len() - 1,
            out@ == move_json@.take(i as int),
    {
        out.push(move_json[i]);
        assert(move_json@.take(i + 1) == move_json@.take(i as int).push(move_json@[i as int]));
    }
    out.push(44u8);
    out.push(32u8);
    out.push(34u8);
    out.push(115u8);
    out.push(116u8);
    out.push(97u8);
    out.push(116u8);
    out.push(101u8);
    out.push(34u8);
    out.push(58u8);
    out.push(32u8);
    let ghost head = out@;
    for i in 0..state_json.len()
        invariant
            out@ == head + state_json@.take(i as int),
    {
        out.push(state_json[i]);
        assert(state_json@.take(i + 1) == state_json@.take(i as int).push(state_json@[i as int]));
    }
    assert(state_json@.take(state_json@.len() as int) == state_json@);
    out.push(125u8);
    assert(out@ =~= spec_merge(move_json@, state_json@));
    out
}

} // verus!
