use vstd::prelude::*;
use crate::error::BraError;
use crate::read_util::{ReadUtil, SliceReader};

verus! {

/// Flag bit `i` of a control byte, counting from the most significant bit.
pub open spec fn flag_bit(ctrl: u8, i: int) -> bool {
    (ctrl >> (7 - i) as u8) & 1 == 1
}

/// The length and raw 16-bit offset that a back-reference pair encodes under
/// `method`, or `None` for a method the codec does not know.
pub open spec fn pair_params(method: u8, v1: u8, v2: u8) -> Option<(int, int)> {
    if method == 4 {
        Some(((v2 >> 3u8) as int + 2, 0xF800 + (v2 & 0x7) as int * 0x100 + v1 as int))
    } else if method == 8 {
        Some(((v2 >> 4u8) as int + 2, 0xF000 + (v2 & 0xF) as int * 0x100 + v1 as int))
    } else if method == 0xC {
        Some(((v2 >> 5u8) as int + 2, 0xE000 + (v2 & 0x1F) as int * 0x100 + v1 as int))
    } else if method == 0 {
        Some(((v2 >> 6u8) as int + 2, 0xC000 + (v2 & 0x3F) as int * 0x100 + v1 as int))
    } else {
        None
    }
}

/// Whether `method` is one of the four methods the codec knows.
pub open spec fn known_method(method: u8) -> bool {
    method == 0 || method == 4 || method == 8 || method == 0xC
}

/// A 16-bit value read as a two's-complement signed number.
pub open spec fn as_signed16(raw: int) -> int {
    if raw >= 0x8000 {
        raw - 0x1_0000
    } else {
        raw
    }
}

/// `out` followed by `len` bytes, each a copy of the byte `d` places before it.
pub open spec fn repeat_back(out: Seq<u8>, d: int, len: int) -> Seq<u8> {
    Seq::new(
        (out.len() + len) as nat,
        |n: int|
            if n < out.len() {
                out[n]
            } else {
                out[out.len() - d + (n - out.len()) % d]
            },
    )
}

/// What a back-reference with signed distance `dist` and length `len` makes
/// of the output so far, or `None` where it points at no byte.
pub open spec fn back_reference(out: Seq<u8>, dist: int, len: int) -> Option<Seq<u8>> {
    if dist >= 0 {
        if dist < out.len() {
            Some(out + Seq::new(len as nat, |k: int| out[dist]))
        } else {
            None
        }
    } else if out.len() + dist == 0 {
        Some(out + Seq::new(len as nat, |k: int| 0u8))
    } else if out.len() + dist < 0 {
        None
    } else {
        Some(repeat_back(out, -dist, len))
    }
}

/// The codec run from a given state to the end of `src`.
///
/// `pos` is the next byte to read, `ctrl` the current control byte and `bit`
/// the next of its flag bits; `bit >= 8` means a control byte comes next,
/// and `awaiting` that it is a method-select byte. `out` is the output so far.
pub open spec fn run(
    src: Seq<u8>,
    pos: int,
    ctrl: u8,
    bit: int,
    method: u8,
    awaiting: bool,
    out: Seq<u8>,
) -> Result<Seq<u8>, BraError>
    decreases src.len() - pos,
{
    if pos < 0 || pos > src.len() {
        Err(BraError::TruncatedCompressedStream)
    } else if bit >= 8 {
        if pos >= src.len() {
            Ok(out)
        } else if awaiting {
            if known_method(src[pos] >> 4u8) {
                run(src, pos + 1, src[pos], 4, src[pos] >> 4u8, false, out)
            } else {
                Err(BraError::UnknownMethod)
            }
        } else {
            run(src, pos + 1, src[pos], 0, method, false, out)
        }
    } else if flag_bit(ctrl, bit) {
        if pos >= src.len() {
            Err(BraError::TruncatedCompressedStream)
        } else {
            run(src, pos + 1, ctrl, bit + 1, method, false, out.push(src[pos]))
        }
    } else if pos + 2 > src.len() {
        Err(BraError::TruncatedCompressedStream)
    } else if src[pos] == 0xFF && src[pos + 1] == 0xFF {
        run(src, pos + 2, ctrl, 8, method, true, out)
    } else {
        match pair_params(method, src[pos], src[pos + 1]) {
            None => Err(BraError::UnknownMethod),
            Some((len, raw)) => match back_reference(out, as_signed16(raw), len) {
                None => Err(BraError::InvalidBackReference),
                Some(next) => run(src, pos + 2, ctrl, bit + 1, method, false, next),
            },
        }
    }
}

/// The decompressed form of a whole compressed region.
pub open spec fn decompressed(src: Seq<u8>) -> Result<Seq<u8>, BraError> {
    run(src, 0, 0, 8, 0, true, Seq::empty())
}

fn decode_pair(method: u8, v1: u8, v2: u8) -> (r: Option<(u8, u16)>)
    ensures
        match pair_params(method, v1, v2) {
            None => r.is_none(),
            Some((len, raw)) => r.is_some() && r.unwrap().0 as int == len && r.unwrap().1 as int
                == raw,
        },
{
    if method == 4 {
        assert(v2 >> 3u8 <= 31 && (v2 & 0x7) <= 7) by (bit_vector);
        Some(((v2 >> 3u8) + 2, 0xF800 + (v2 & 0x7) as u16 * 0x100 + v1 as u16))
    } else if method == 8 {
        assert(v2 >> 4u8 <= 15 && (v2 & 0xF) <= 15) by (bit_vector);
        Some(((v2 >> 4u8) + 2, 0xF000 + (v2 & 0xF) as u16 * 0x100 + v1 as u16))
    } else if method == 0xC {
        assert(v2 >> 5u8 <= 7 && (v2 & 0x1F) <= 31) by (bit_vector);
        Some(((v2 >> 5u8) + 2, 0xE000 + (v2 & 0x1F) as u16 * 0x100 + v1 as u16))
    } else if method == 0 {
        assert(v2 >> 6u8 <= 3 && (v2 & 0x3F) <= 63) by (bit_vector);
        Some(((v2 >> 6u8) + 2, 0xC000 + (v2 & 0x3F) as u16 * 0x100 + v1 as u16))
    } else {
        None
    }
}

fn flag_set(ctrl: u8, bit: u8) -> (r: bool)
    requires
        bit < 8,
    ensures
        r == flag_bit(ctrl, bit as int),
{
    (ctrl >> (7 - bit)) & 1 == 1
}

/// Appends the bytes of a back-reference to `out`.
fn apply_back_reference(out: &mut Vec<u8>, raw: u16, len: u8) -> (ok: bool)
    ensures
        match back_reference(old(out)@, as_signed16(raw as int), len as int) {
            None => !ok && final(out)@ == old(out)@,
            Some(next) => ok && final(out)@ == next,
        },
{
    let dist: i32 = if raw >= 0x8000 {
        raw as i32 - 0x1_0000
    } else {
        raw as i32
    };
    let n = out.len();
    if dist >= 0 {
        let at = dist as usize;
        if at >= n {
            return false;
        }
        let b = out[at];
        let ghost start = out@;
        let mut k: u8 = 0;
        while k < len
            invariant
                k <= len,
                start.len() == n,
                b == start[at as int],
                out@ == start + Seq::new(k as nat, |j: int| start[at as int]),
            decreases len - k,
        {
            out.push(b);
            k = k + 1;
            assert(out@ =~= start + Seq::new(k as nat, |j: int| start[at as int]));
        }
        true
    } else {
        let d: usize = (-dist) as usize;
        if d > n {
            return false;
        }
        let ghost start = out@;
        let mut k: u8 = 0;
        if d == n {
            while k < len
                invariant
                    k <= len,
                    out@ == start + Seq::new(k as nat, |j: int| 0u8),
                decreases len - k,
            {
                out.push(0);
                k = k + 1;
                assert(out@ =~= start + Seq::new(k as nat, |j: int| 0u8));
            }
        } else {
            assert(out@ =~= repeat_back(start, d as int, 0));
            while k < len
                invariant
                    k <= len,
                    0 < d < n,
                    start.len() == n,
                    n <= out.len(),
                    out@ == repeat_back(start, d as int, k as int),
                decreases len - k,
            {
                let cur = out.len();
                let b = out[cur - d];
                proof {
                    let kk = k as int;
                    if kk >= d {
                        assert((kk - d) % (d as int) == kk % (d as int)) by (nonlinear_arith)
                            requires kk >= d, d > 0;
                    } else {
                        assert(kk % (d as int) == kk) by (nonlinear_arith)
                            requires 0 <= kk < d;
                    }
                }
                out.push(b);
                k = k + 1;
                assert(out@ =~= repeat_back(start, d as int, k as int));
            }
        }
        true
    }
}

proof fn lemma_skip_more(s: Seq<u8>, p: int, k: int)
    requires
        0 <= p <= s.len(),
        0 <= k,
    ensures
        p + k <= s.len() ==> s.skip(p).skip(k) == s.skip(p + k),
        p + k <= s.len() ==> forall|i: int| 0 <= i < k ==> s.skip(p)[i] == s[p + i],
{
    if p + k <= s.len() {
        assert(s.skip(p).skip(k) =~= s.skip(p + k));
    }
}

/// Expands one frame's compressed payload.
pub fn decompress(src: &[u8]) -> (r: Result<Vec<u8>, BraError>)
    ensures
        match decompressed(src@) {
            Ok(bytes) => r.is_ok() && r.unwrap()@ == bytes,
            Err(e) => r == Err::<Vec<u8>, BraError>(e),
        },
{
    let mut comp = SliceReader::new(src);
    let mut decomp: Vec<u8> = Vec::new();
    let mut awaiting = true;
    let mut method: u8 = 0;
    let mut ctrl: u8 = 0;
    let mut bit: u8 = 8;
    assert(src@.skip(0) =~= src@);
    loop
        invariant
            comp.remaining().len() <= src@.len(),
            comp.remaining() == src@.skip(src@.len() - comp.remaining().len()),
            bit <= 8,
            bit < 8 ==> !awaiting,
            run(src@, src@.len() - comp.remaining().len(), ctrl, bit as int, method, awaiting, decomp@)
                == decompressed(src@),
        decreases comp.remaining().len(),
    {
        let ghost pos = src@.len() - comp.remaining().len();
        proof {
            lemma_skip_more(src@, pos, 1);
            lemma_skip_more(src@, pos, 2);
        }
        if bit >= 8 {
            match comp.read_u8() {
                None => {
                    return Ok(decomp);
                },
                Some(byte) => {
                    ctrl = byte;
                    if awaiting {
                        method = byte >> 4u8;
                        if !(method == 0 || method == 4 || method == 8 || method == 0xC) {
                            return Err(BraError::UnknownMethod);
                        }
                        bit = 4;
                        awaiting = false;
                    } else {
                        bit = 0;
                    }
                },
            }
        } else if flag_set(ctrl, bit) {
            match comp.read_u8() {
                None => {
                    return Err(BraError::TruncatedCompressedStream);
                },
                Some(val) => {
                    decomp.push(val);
                    bit = bit + 1;
                },
            }
        } else {
            let v1 = match comp.read_u8() {
                None => {
                    return Err(BraError::TruncatedCompressedStream);
                },
                Some(v) => v,
            };
            let v2 = match comp.read_u8() {
                None => {
                    return Err(BraError::TruncatedCompressedStream);
                },
                Some(v) => v,
            };
            if v1 == 0xFF && v2 == 0xFF {
                awaiting = true;
                bit = 8;
            } else {
                match decode_pair(method, v1, v2) {
                    None => {
                        return Err(BraError::UnknownMethod);
                    },
                    Some((len, raw)) => {
                        if !apply_back_reference(&mut decomp, raw, len) {
                            return Err(BraError::InvalidBackReference);
                        }
                        bit = bit + 1;
                    },
                }
            }
        }
    }
}


/// A back-reference that reaches `d` bytes back into output of more than
/// `d` bytes keeps that output and appends a periodic run: each new byte
/// equals the byte `d` places before it, so a run longer than `d` repeats
/// the last `d` bytes.
pub proof fn lemma_back_reference_repeats(out: Seq<u8>, d: int, len: int)
    requires
        0 < d < out.len(),
        0 <= len,
    ensures
        back_reference(out, -d, len).is_some(),
        back_reference(out, -d, len).unwrap().len() == out.len() + len,
        back_reference(out, -d, len).unwrap().subrange(0, out.len() as int) == out,
        forall|n: int|
            out.len() <= n < out.len() + len ==> #[trigger] back_reference(
                out,
                -d,
                len,
            ).unwrap()[n] == back_reference(out, -d, len).unwrap()[n - d],
{
    let r = back_reference(out, -d, len).unwrap();
    assert(r == repeat_back(out, d, len));
    assert(r.subrange(0, out.len() as int) =~= out);
    assert forall|n: int| out.len() <= n < out.len() + len implies #[trigger] r[n] == r[n - d] by {
        let k = n - out.len();
        if k < d {
            assert(k % d == k) by (nonlinear_arith)
                requires
                    0 <= k < d,
            ;
        } else {
            assert((k - d) % d == k % d) by (nonlinear_arith)
                requires
                    k >= d,
                    d > 0,
            ;
        }
    }
}

/// A terminator pair ends the current control byte whatever flag bits it
/// had left: the byte after the pair is read as a method-select byte, whose
/// high four bits become the method (or fail as unknown) and whose low four
/// bits are the next flags.
pub proof fn lemma_terminator_selects_method(
    src: Seq<u8>,
    pos: int,
    ctrl: u8,
    bit: int,
    method: u8,
    out: Seq<u8>,
)
    requires
        0 <= bit < 8,
        !flag_bit(ctrl, bit),
        0 <= pos,
        pos + 2 <= src.len(),
        src[pos] == 0xFF,
        src[pos + 1] == 0xFF,
    ensures
        pos + 2 < src.len() && known_method(src[pos + 2] >> 4u8) ==> run(
            src,
            pos,
            ctrl,
            bit,
            method,
            false,
            out,
        ) == run(src, pos + 3, src[pos + 2], 4, src[pos + 2] >> 4u8, false, out),
        pos + 2 < src.len() && !known_method(src[pos + 2] >> 4u8) ==> run(
            src,
            pos,
            ctrl,
            bit,
            method,
            false,
            out,
        ) == Err::<Seq<u8>, BraError>(BraError::UnknownMethod),
        pos + 2 == src.len() ==> run(src, pos, ctrl, bit, method, false, out) == Ok::<
            Seq<u8>,
            BraError,
        >(out),
{
    assert(run(src, pos, ctrl, bit, method, false, out) == run(
        src,
        pos + 2,
        ctrl,
        8,
        method,
        true,
        out,
    ));
}

/// A control byte's flag bits from `bit` on are all literals: the bytes
/// they stand for are copied as they are.
proof fn lemma_literal_flags(
    src: Seq<u8>,
    pos: int,
    ctrl: u8,
    bit: int,
    method: u8,
    out: Seq<u8>,
)
    requires
        0 <= bit <= 8,
        0 <= pos,
        pos + 8 - bit <= src.len(),
        forall|i: int| bit <= i < 8 ==> #[trigger] flag_bit(ctrl, i),
    ensures
        run(src, pos, ctrl, bit, method, false, out) == run(
            src,
            pos + 8 - bit,
            ctrl,
            8,
            method,
            false,
            out + src.subrange(pos, pos + 8 - bit),
        ),
    decreases 8 - bit,
{
    if bit < 8 {
        assert(flag_bit(ctrl, bit));
        lemma_literal_flags(src, pos + 1, ctrl, bit + 1, method, out.push(src[pos]));
        assert(out.push(src[pos]) + src.subrange(pos + 1, pos + 8 - bit) =~= out + src.subrange(
            pos,
            pos + 8 - bit,
        ));
    } else {
        assert(out + src.subrange(pos, pos) =~= out);
    }
}

/// Groups of eight literal bytes, each led by a control byte whose flag bits
/// are all set.
pub open spec fn literal_groups(data: Seq<u8>) -> Seq<u8>
    decreases data.len(),
{
    if data.len() < 8 {
        Seq::empty()
    } else {
        seq![0xFFu8] + data.take(8) + literal_groups(data.skip(8))
    }
}

/// A stream in which every flag bit is a literal: a method-select byte
/// `first` of a known method whose low four bits are set, the first four bytes of `data`, then
/// the rest of `data` in literal groups.
pub open spec fn literal_stream(first: u8, data: Seq<u8>) -> Seq<u8> {
    seq![first] + data.take(4) + literal_groups(data.skip(4))
}

proof fn lemma_all_set_flags()
    ensures
        forall|i: int| 0 <= i < 8 ==> #[trigger] flag_bit(0xFF, i),
{
    assert forall|i: int| 0 <= i < 8 implies #[trigger] flag_bit(0xFF, i) by {
        let k = (7 - i) as u8;
        assert(k < 8 ==> (0xFFu8 >> k) & 1 == 1) by (bit_vector);
    }
}

proof fn lemma_literal_groups(src: Seq<u8>, pos: int, ctrl: u8, method: u8, out: Seq<u8>, rest: Seq<u8>)
    requires
        0 <= pos <= src.len(),
        src.skip(pos) == literal_groups(rest),
        rest.len() % 8 == 0,
    ensures
        run(src, pos, ctrl, 8, method, false, out) == Ok::<Seq<u8>, BraError>(out + rest),
    decreases rest.len(),
{
    if rest.len() < 8 {
        assert(rest.len() == 0);
        assert(out + rest =~= out);
        assert(src.skip(pos).len() == 0);
    } else {
        let tail = rest.skip(8);
        assert(src.skip(pos)[0] == 0xFFu8);
        assert(src.skip(pos).len() == 9 + literal_groups(tail).len());
        lemma_all_set_flags();
        lemma_literal_flags(src, pos + 1, 0xFF, 0, method, out);
        let g = src.skip(pos);
        let head = seq![0xFFu8] + rest.take(8);
        assert(g == head + literal_groups(tail));
        assert(src.subrange(pos + 1, pos + 9) =~= g.subrange(1, 9));
        assert(g.subrange(1, 9) =~= rest.take(8));
        assert(src.skip(pos + 9) =~= g.skip(9));
        assert(g.skip(9) =~= literal_groups(tail));
        lemma_literal_groups(src, pos + 9, 0xFF, method, out + rest.take(8), tail);
        assert(out + rest.take(8) + tail =~= out + rest);
    }
}

/// A stream whose flag bits are all literals decompresses to its literal
/// bytes, byte for byte.
pub proof fn lemma_literal_stream(first: u8, data: Seq<u8>)
    requires
        known_method(first >> 4u8),
        first & 0x0F == 0x0F,
        data.len() >= 4,
        (data.len() - 4) % 8 == 0,
    ensures
        decompressed(literal_stream(first, data)) == Ok::<Seq<u8>, BraError>(data),
{
    let src = literal_stream(first, data);
    let m = first >> 4u8;
    assert(src[0] == first);
    assert forall|i: int| 4 <= i < 8 implies #[trigger] flag_bit(first, i) by {
        let k = (7 - i) as u8;
        assert(first & 0x0F == 0x0F && k < 4 ==> (first >> k) & 1 == 1) by (bit_vector);
    }
    lemma_literal_flags(src, 1, first, 4, m, Seq::empty());
    assert(src.subrange(1, 5) =~= data.take(4));
    assert(src.skip(5) =~= literal_groups(data.skip(4)));
    lemma_literal_groups(src, 5, first, m, Seq::empty() + data.take(4), data.skip(4));
    assert(Seq::empty() + data.take(4) + data.skip(4) =~= data);
}

} // verus!
