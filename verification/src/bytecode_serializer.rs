use vstd::prelude::*;
use vstd::slice::slice_index_get;
use vstd::arithmetic::div_mod::{lemma_fundamental_div_mod, lemma_div_pos_is_pos};
use vstd::bytes::{u32_to_le_bytes, u32_from_le_bytes, spec_u32_to_le_bytes, spec_u32_from_le_bytes};
use vstd::slice::{slice_subrange, slice_to_vec};
use vstd::string::StrSliceExecFns;
use vstd::utf8::{encode_utf8, decode_utf8, valid_utf8};
use crate::errors::BytecodeSerializerError;
use crate::operation::{Op, op_code, op_timestamp, op_key, op_value, op_tuple};

verus! {

/// 128^n, the weight of the n-th varint digit.
pub open spec fn pow128(n: nat) -> nat
    decreases n,
{
    if n == 0 {
        1
    } else {
        128 * pow128((n - 1) as nat)
    }
}

/// Unsigned little-endian base-128 encoding: the low seven bits of each byte
/// carry a digit, the high bit marks a continuation. Zero encodes to one
/// `0x00` byte and no redundant trailing digits are emitted.
pub open spec fn spec_varint(n: nat) -> Seq<u8>
    decreases n,
{
    if n < 128 {
        seq![n as u8]
    } else {
        seq![(n % 128 + 128) as u8] + spec_varint(n / 128)
    }
}

/// Reads digits up to and including the first byte without the continuation
/// bit; yields the value and the count of bytes read. `None` when every byte
/// carries the continuation bit.
pub open spec fn spec_varint_decode(bytes: Seq<u8>) -> Option<(nat, int)>
    decreases bytes.len(),
{
    if bytes.len() == 0 {
        None
    } else if bytes[0] < 128 {
        Some((bytes[0] as nat, 1int))
    } else {
        match spec_varint_decode(bytes.drop_first()) {
            Some(vc) => Some((((bytes[0] - 128) + 128 * vc.0) as nat, vc.1 + 1)),
            None => None,
        }
    }
}

/// What the executable varint decoder returns: the decoded value while it
/// fits in 64 bits and needs no digit past the tenth; `VarintOverflow` once a
/// digit would need a shift past bit 63; `Truncated` when the input ends
/// inside a varint.
pub open spec fn vd_cap(bytes: Seq<u8>) -> Result<(nat, int), BytecodeSerializerError> {
    match spec_varint_decode(bytes) {
        Some(vc) => if vc.0 < 0x1_0000_0000_0000_0000 && vc.1 <= 10 {
            Ok(vc)
        } else {
            Err(BytecodeSerializerError::VarintOverflow)
        },
        None => if bytes.len() >= 10 {
            Err(BytecodeSerializerError::VarintOverflow)
        } else {
            Err(BytecodeSerializerError::Truncated)
        },
    }
}

pub struct BytecodeSerializer;

impl BytecodeSerializer {
    /// The canonical varint encoding of `number`.
    pub fn convert_to_varint(number: u64) -> (r: Vec<u8>)
        ensures
            r@ == spec_varint(number as nat),
    {
        let mut result: Vec<u8> = Vec::new();
        if number == 0 {
            result.push(0);
            assert(result@ =~= spec_varint(0));
            return result;
        }
        let mut cur: u64 = number;
        while cur != 0
            invariant
                cur > 0 ==> spec_varint(number as nat) == result@ + spec_varint(cur as nat),
                cur == 0 ==> spec_varint(number as nat) == result@,
            decreases cur,
        {
            let ghost prev = cur as nat;
            let ghost old_result = result@;
            let byte: u8 = (cur % 128) as u8;
            let next: u64 = cur / 128;
            if next != 0 {
                result.push(byte + 128);
            } else {
                result.push(byte);
            }
            proof {
                if prev < 128 {
                    assert(next == 0);
                    assert(spec_varint(prev) =~= seq![byte]);
                    assert(result@ =~= old_result + spec_varint(prev));
                } else {
                    assert(next > 0) by {
                        lemma_div_pos_is_pos(prev as int, 128);
                    }
                    assert(spec_varint(prev) == seq![(prev % 128 + 128) as u8] + spec_varint(
                        prev / 128,
                    ));
                    assert(result@ + spec_varint(next as nat) =~= old_result + spec_varint(prev));
                }
            }
            cur = next;
        }
        result
    }

    /// Decodes one varint from the front of `bytes`, with the shift capped at
    /// bit 63 as the format demands.
    pub fn convert_from_varint(bytes: &[u8]) -> (r: Result<(u64, usize), BytecodeSerializerError>)
        ensures
            match vd_cap(bytes@) {
                Ok(vc) => r matches Ok(p) && p.0 == vc.0 && p.1 == vc.1,
                Err(e) => r == Err::<(u64, usize), BytecodeSerializerError>(e),
            },
    {
        let mut acc: u64 = 0;
        let mut index: usize = 0;
        let mut mul: u64 = 1;
        proof {
            assert(bytes@.skip(0) =~= bytes@);
            match spec_varint_decode(bytes@) {
                Some(vc) => {
                    assert(1 * vc.0 == vc.0);
                },
                None => {},
            }
        }
        loop
            invariant
                0 <= index <= 9,
                index <= bytes@.len(),
                mul == pow128(index as nat),
                acc < mul,
                mul <= 0x8000_0000_0000_0000,
                spec_varint_decode(bytes@) == match spec_varint_decode(
                    bytes@.skip(index as int),
                ) {
                    Some(vc) => Some(
                        ((acc + mul * vc.0) as nat, index + vc.1),
                    ),
                    None => None::<(nat, int)>,
                },
            decreases bytes@.len() - index,
        {
            if index >= bytes.len() {
                assert(bytes@.skip(index as int).len() == 0);
                assert(spec_varint_decode(bytes@) is None);
                assert(bytes@.len() < 10);
                return Err(BytecodeSerializerError::Truncated);
            }
            let b = *slice_index_get(bytes, index);
            assert(bytes@.skip(index as int)[0] == b);
            assert(bytes@.skip(index as int).drop_first() =~= bytes@.skip(index as int + 1));
            if b < 128 {
                assert(spec_varint_decode(bytes@.skip(index as int)) == Some((b as nat, 1int)));
                if index == 9 && b >= 2 {
                    assert(pow128(9) == 0x8000_0000_0000_0000) by {
                        reveal_with_fuel(pow128, 11);
                    }
                    assert(acc + mul * (b as nat) >= 0x1_0000_0000_0000_0000) by {
                        assert(mul * (b as nat) >= mul * 2) by (nonlinear_arith)
                            requires b >= 2, mul > 0;
                    }
                    return Err(BytecodeSerializerError::VarintOverflow);
                }
                assert(acc + mul * (b as nat) < 0x1_0000_0000_0000_0000) by {
                    if index < 9 {
                        assert(pow128(index as nat) <= pow128(8)) by {
                            lemma_pow128_increases(index as nat, 8);
                        }
                        assert(pow128(8) == 0x100_0000_0000_0000) by {
                            reveal_with_fuel(pow128, 10);
                        }
                        assert(mul * (b as nat) <= mul * 127) by (nonlinear_arith)
                            requires b <= 127, mul > 0;
                        assert(mul * 127 <= 0x100_0000_0000_0000 * 127) by (nonlinear_arith)
                            requires mul <= 0x100_0000_0000_0000;
                    } else {
                        assert(pow128(9) == 0x8000_0000_0000_0000) by {
                            reveal_with_fuel(pow128, 11);
                        }
                        assert(mul * (b as nat) <= mul * 1) by (nonlinear_arith)
                            requires b <= 1, mul > 0;
                    }
                }
                let value: u64 = acc + mul * (b as u64);
                return Ok((value, index + 1));
            }
            let digit: u64 = (b - 128) as u64;
            if index == 9 {
                proof {
                    match spec_varint_decode(bytes@.skip(9)) {
                        Some(vc) => {
                            lemma_varint_decode_consumed(bytes@.skip(10));
                            assert(vc.1 >= 2);
                            assert(spec_varint_decode(bytes@) matches Some(w) && w.1 >= 11);
                        },
                        None => {
                            assert(spec_varint_decode(bytes@) is None);
                            assert(bytes@.len() >= 10);
                        },
                    }
                }
                return Err(BytecodeSerializerError::VarintOverflow);
            }
            proof {
                assert(mul <= pow128(8)) by {
                    lemma_pow128_increases(index as nat, 8);
                }
                assert(pow128(8) == 0x100_0000_0000_0000) by {
                    reveal_with_fuel(pow128, 10);
                }
                assert(acc + mul * (digit as nat) < mul * 128) by (nonlinear_arith)
                    requires acc < mul, digit <= 127, mul > 0;
                assert(mul * 128 <= 0x100_0000_0000_0000 * 128) by (nonlinear_arith)
                    requires mul <= 0x100_0000_0000_0000;
                match spec_varint_decode(bytes@.skip(index as int + 1)) {
                    Some(vc) => {
                        assert(spec_varint_decode(bytes@.skip(index as int)) == Some(
                            (((digit as nat) + 128 * vc.0) as nat, vc.1 + 1),
                        ));
                        assert((acc + mul * (digit as nat)) + (mul * 128) * vc.0 == acc + mul * (
                        (digit as nat) + 128 * vc.0)) by (nonlinear_arith);
                    },
                    None => {
                        assert(spec_varint_decode(bytes@.skip(index as int)) is None);
                    },
                }
            }
            acc = acc + mul * digit;
            mul = mul * 128;
            index = index + 1;
        }
    }
}

/// One step at a time, the splitter's scan: at each index where four bytes
/// fit, a start magic records the position after it, an end magic with a
/// pending start emits the bytes between them and clears the start.
pub open spec fn spec_scan(b: Seq<u8>, i: int, start: Option<int>, acc: Seq<Seq<u8>>) -> Seq<
    Seq<u8>,
>
    decreases b.len() - i,
{
    if i < 0 || i + 4 > b.len() {
        acc
    } else if b.subrange(i, i + 4) == start_magic() {
        spec_scan(b, i + 1, Some(i + 4), acc)
    } else if b.subrange(i, i + 4) == end_magic() && start is Some && start->0 <= i {
        spec_scan(b, i + 1, None, acc.push(b.subrange(start->0, i)))
    } else {
        spec_scan(b, i + 1, start, acc)
    }
}

/// The payloads found between each start magic and the next end magic, in
/// order of appearance.
pub open spec fn spec_split(b: Seq<u8>) -> Seq<Seq<u8>> {
    spec_scan(b, 0, None::<int>, Seq::<Seq<u8>>::empty())
}

/// The outcome of decoding a sequence of stripped frame bodies in order,
/// stopping at the first body that does not parse.
pub open spec fn spec_recover(chunks: Seq<Seq<u8>>) -> Result<
    Seq<(u8, i64, Seq<char>, Option<Seq<char>>)>,
    BytecodeSerializerError,
>
    decreases chunks.len(),
{
    if chunks.len() == 0 {
        Ok(Seq::empty())
    } else {
        match spec_parse(chunks[0]) {
            Err(e) => Err(e),
            Ok(t) => match spec_recover(chunks.drop_first()) {
                Err(e) => Err(e),
                Ok(rest) => Ok(seq![t] + rest),
            },
        }
    }
}

impl BytecodeSerializer {
    /// Scans a buffer and recovers the payload between each start magic and
    /// the next end magic. An input shorter than four bytes yields nothing.
    pub fn split_to_chunks(bytes: &[u8]) -> (chunks: Vec<Vec<u8>>)
        ensures
            chunks.deep_view() == spec_split(bytes@),
    {
        let mut chunks: Vec<Vec<u8>> = Vec::new();
        if bytes.len() < 4 {
            assert(chunks.deep_view() =~= spec_split(bytes@));
            return chunks;
        }
        let mut start: Option<usize> = None;
        let mut index: usize = 0;
        proof {
            assert(chunks.deep_view() =~= Seq::<Seq<u8>>::empty());
        }
        while index <= bytes.len() - 4
            invariant
                bytes@.len() >= 4,
                0 <= index <= bytes@.len() - 3,
                match start {
                    Some(s) => 4 <= s <= bytes@.len() && s <= index + 3 && bytes@.subrange(
                        s - 4,
                        s as int,
                    ) == start_magic(),
                    None => true,
                },
                spec_split(bytes@) == spec_scan(
                    bytes@,
                    index as int,
                    match start {
                        Some(s) => Some(s as int),
                        None => None::<int>,
                    },
                    chunks.deep_view(),
                ),
            decreases bytes@.len() - index,
        {
            let w0 = *slice_index_get(bytes, index);
            let w1 = *slice_index_get(bytes, index + 1);
            let w2 = *slice_index_get(bytes, index + 2);
            let w3 = *slice_index_get(bytes, index + 3);
            let ghost win = bytes@.subrange(index as int, index as int + 4);
            proof {
                assert(win.len() == 4);
                assert(win[0] == w0 && win[1] == w1 && win[2] == w2 && win[3] == w3);
            }
            if w0 == 0xed && w1 == 0xc8 && w2 == 0xfe && w3 == 0xde {
                proof {
                    assert(win =~= start_magic());
                }
                start = Some(index + 4);
            } else {
                proof {
                    assert(win != start_magic());
                }
                let is_end = w0 == 0xe5 && w1 == 0xb1 && w2 == 0x00 && w3 == 0x0b;
                proof {
                    if is_end {
                        assert(win =~= end_magic());
                    } else {
                        assert(win != end_magic());
                    }
                }
                if is_end {
                    match start {
                        Some(s) => {
                            proof {
                                let sb = s as int;
                                if sb > index as int {
                                    let k = index as int - (sb - 4);
                                    assert(bytes@[index as int] == bytes@.subrange(
                                        sb - 4,
                                        sb,
                                    )[k]);
                                    assert(bytes@[index as int] == win[0]);
                                    assert(start_magic()[k] == end_magic()[0]);
                                    assert(false);
                                }
                            }
                            let ghost old_chunks = chunks.deep_view();
                            let chunk = slice_to_vec(slice_subrange(bytes, s, index));
                            let ghost chunk_view = chunk@;
                            chunks.push(chunk);
                            proof {
                                assert(chunks.deep_view() =~~= old_chunks.push(chunk_view));
                            }
                            start = None;
                        },
                        None => {},
                    }
                }
            }
            index = index + 1;
        }
        chunks
    }

    /// Decodes each chunk in order; the first chunk that does not parse
    /// aborts the recovery with its error.
    pub fn recover_from_chunks(chunks: Vec<Vec<u8>>) -> (r: Result<
        Vec<Op>,
        BytecodeSerializerError,
    >)
        ensures
            match spec_recover(chunks.deep_view()) {
                Ok(ts) => r matches Ok(ops) && ops@.len() == ts.len() && (forall|j: int|
                    0 <= j < ts.len() ==> op_tuple(#[trigger] ops@[j]) == ts[j]),
                Err(e) => r == Err::<Vec<Op>, BytecodeSerializerError>(e),
            },
    {
        let ghost dv = chunks.deep_view();
        let mut ops: Vec<Op> = Vec::new();
        let mut i: usize = 0;
        proof {
            assert(dv.skip(0) =~= dv);
        }
        while i < chunks.len()
            invariant
                dv == chunks.deep_view(),
                0 <= i <= dv.len(),
                chunks@.len() == dv.len(),
                ops@.len() == i,
                forall|j: int| 0 <= j < dv.len() ==> #[trigger] dv[j] == chunks@[j]@,
                match spec_recover(dv.skip(i as int)) {
                    Ok(rest) => spec_recover(dv) == Ok::<
                        Seq<(u8, i64, Seq<char>, Option<Seq<char>>)>,
                        BytecodeSerializerError,
                    >(ops@.map_values(|o: Op| op_tuple(o)) + rest),
                    Err(e) => spec_recover(dv) == Err::<
                        Seq<(u8, i64, Seq<char>, Option<Seq<char>>)>,
                        BytecodeSerializerError,
                    >(e),
                },
            decreases dv.len() - i,
        {
            proof {
                assert(dv.skip(i as int)[0] == dv[i as int]);
                assert(dv.skip(i as int).drop_first() =~= dv.skip(i as int + 1));
            }
            let ghost old_map = ops@.map_values(|o: Op| op_tuple(o));
            let chunk = slice_to_vec(chunks[i].as_slice());
            let op = match Self::op_from_bytes(chunk) {
                Ok(o) => o,
                Err(e) => {
                    return Err(e);
                },
            };
            let ghost t = spec_parse(dv[i as int])->Ok_0;
            ops.push(op);
            i = i + 1;
            proof {
                assert(ops@.map_values(|o: Op| op_tuple(o)) =~= old_map.push(t));
                match spec_recover(dv.skip(i as int)) {
                    Ok(rest) => {
                        assert(spec_recover(dv.skip(i as int - 1)) == Ok::<
                            Seq<(u8, i64, Seq<char>, Option<Seq<char>>)>,
                            BytecodeSerializerError,
                        >(seq![t] + rest));
                        assert(old_map + (seq![t] + rest) =~= old_map.push(t) + rest);
                    },
                    Err(_) => {},
                }
            }
        }
        proof {
            assert(dv.skip(i as int) =~= Seq::<Seq<u8>>::empty());
            assert(ops@.map_values(|o: Op| op_tuple(o)) + Seq::<
                (u8, i64, Seq<char>, Option<Seq<char>>),
            >::empty() =~= ops@.map_values(|o: Op| op_tuple(o)));
        }
        Ok(ops)
    }

    /// Splits a raw buffer into frames and decodes each in order.
    pub fn recover_from_bytes(bytes: &[u8]) -> (r: Result<Vec<Op>, BytecodeSerializerError>)
        ensures
            match spec_recover(spec_split(bytes@)) {
                Ok(ts) => r matches Ok(ops) && ops@.len() == ts.len() && (forall|j: int|
                    0 <= j < ts.len() ==> op_tuple(#[trigger] ops@[j]) == ts[j]),
                Err(e) => r == Err::<Vec<Op>, BytecodeSerializerError>(e),
            },
    {
        let chunks = Self::split_to_chunks(bytes);
        Self::recover_from_chunks(chunks)
    }
}

/// A payload with no occurrence of either magic as a subsequence of four
/// bytes. Every frame whose payload is magic-free is recovered faithfully
/// by the splitter; a payload that happens to contain a magic can confuse
/// the left-to-right scan.
pub open spec fn magic_free(p: Seq<u8>) -> bool {
    forall|i: int|
        0 <= i <= p.len() - 4 ==> #[trigger] p.subrange(i, i + 4) != start_magic() && p.subrange(
            i,
            i + 4,
        ) != end_magic()
}

/// A frame around the payload `p`.
pub open spec fn frame_of(p: Seq<u8>) -> Seq<u8> {
    start_magic() + p + end_magic()
}

/// The frames of the payloads, concatenated without padding, as a WAL
/// segment holds them.
pub open spec fn concat_frames(ps: Seq<Seq<u8>>) -> Seq<u8>
    decreases ps.len(),
{
    if ps.len() == 0 {
        Seq::empty()
    } else {
        frame_of(ps[0]) + concat_frames(ps.drop_first())
    }
}

/// The scan only appends to its accumulator.
proof fn lemma_scan_acc(b: Seq<u8>, i: int, start: Option<int>, acc: Seq<Seq<u8>>)
    ensures
        spec_scan(b, i, start, acc) == acc + spec_scan(b, i, start, Seq::<Seq<u8>>::empty()),
    decreases b.len() - i,
{
    if i < 0 || i + 4 > b.len() {
        assert(acc + Seq::<Seq<u8>>::empty() =~= acc);
    } else if b.subrange(i, i + 4) == start_magic() {
        lemma_scan_acc(b, i + 1, Some(i + 4), acc);
        lemma_scan_acc(b, i + 1, Some(i + 4), Seq::<Seq<u8>>::empty());
    } else if b.subrange(i, i + 4) == end_magic() && start is Some && start->0 <= i {
        let c = b.subrange(start->0, i);
        lemma_scan_acc(b, i + 1, None, acc.push(c));
        lemma_scan_acc(b, i + 1, None, Seq::<Seq<u8>>::empty().push(c));
        assert(acc.push(c) + spec_scan(b, i + 1, None, Seq::<Seq<u8>>::empty()) =~= acc + (Seq::<
            Seq<u8>,
        >::empty().push(c) + spec_scan(b, i + 1, None, Seq::<Seq<u8>>::empty())));
    } else {
        lemma_scan_acc(b, i + 1, start, acc);
        lemma_scan_acc(b, i + 1, start, Seq::<Seq<u8>>::empty());
    }
}

/// Once the scan is past a prefix, with no pending start reaching into it,
/// it behaves as a scan of the suffix alone.
proof fn lemma_scan_shift(a: Seq<u8>, b: Seq<u8>, i: int, start: Option<int>, acc: Seq<Seq<u8>>)
    requires
        0 <= i,
        match start {
            Some(s) => 0 <= s,
            None => true,
        },
    ensures
        spec_scan(
            a + b,
            a.len() + i,
            match start {
                Some(s) => Some(a.len() + s),
                None => None::<int>,
            },
            acc,
        ) == spec_scan(b, i, start, acc),
    decreases b.len() - i,
{
    let ab = a + b;
    let ai = a.len() + i;
    if i + 4 > b.len() {
        assert(ai + 4 > ab.len());
    } else {
        assert(ab.subrange(ai, ai + 4) =~= b.subrange(i, i + 4));
        if b.subrange(i, i + 4) == start_magic() {
            lemma_scan_shift(a, b, i + 1, Some(i + 4), acc);
        } else if b.subrange(i, i + 4) == end_magic() && start is Some && start->0 <= i {
            let s = start->0;
            assert(ab.subrange(a.len() + s, ai) =~= b.subrange(s, i));
            lemma_scan_shift(a, b, i + 1, None, acc.push(b.subrange(s, i)));
        } else {
            lemma_scan_shift(a, b, i + 1, start, acc);
        }
    }
}

/// Over a stretch with no magic in any window, the scan just walks on.
proof fn lemma_scan_stretch(b: Seq<u8>, i: int, j: int, start: Option<int>, acc: Seq<Seq<u8>>)
    requires
        0 <= i <= j,
        forall|k: int|
            i <= k < j && k + 4 <= b.len() ==> #[trigger] b.subrange(k, k + 4) != start_magic()
                && b.subrange(k, k + 4) != end_magic(),
    ensures
        spec_scan(b, i, start, acc) == spec_scan(b, j, start, acc),
    decreases j - i,
{
    if i < j {
        if i + 4 > b.len() {
            assert(j + 4 > b.len());
        } else {
            lemma_scan_stretch(b, i + 1, j, start, acc);
        }
    }
}

/// Scanning one well-formed frame from its start magic emits exactly its
/// payload and arrives just past its end magic with no start pending.
proof fn lemma_scan_frame(p: Seq<u8>, rest: Seq<u8>, acc: Seq<Seq<u8>>)
    requires
        magic_free(p),
    ensures
        spec_scan(frame_of(p) + rest, 0, None::<int>, acc) == spec_scan(
            frame_of(p) + rest,
            p.len() as int + 8,
            None::<int>,
            acc.push(p),
        ),
{
    let b = frame_of(p) + rest;
    let plen = p.len() as int;
    assert(b.subrange(0, 4) =~= start_magic());
    assert(spec_scan(b, 0, None::<int>, acc) == spec_scan(b, 1, Some(4), acc));
    assert forall|k: int|
        1 <= k < 4 + plen && k + 4 <= b.len() implies #[trigger] b.subrange(k, k + 4)
        != start_magic() && b.subrange(k, k + 4) != end_magic() by {
        let w = b.subrange(k, k + 4);
        if k < 4 {
            assert(w[0] == start_magic()[k]);
            assert(w[0] != 0xedu8 && w[0] != 0xe5u8);
        } else if k + 4 <= 4 + plen {
            assert(w =~= p.subrange(k - 4, k - 4 + 4));
            assert(p.subrange(k - 4, k - 4 + 4) != start_magic() && p.subrange(
                k - 4,
                k - 4 + 4,
            ) != end_magic());
        } else {
            let e = 4 + plen - k;
            assert(0 <= e < 4);
            assert(w[e] == end_magic()[0]);
            if w == start_magic() {
                assert(start_magic()[e] == 0xe5u8);
                assert(false);
            }
            if w == end_magic() {
                assert(end_magic()[e] == 0xe5u8);
                assert(false);
            }
        }
    }
    lemma_scan_stretch(b, 1, 4 + plen, Some(4), acc);
    assert(b.subrange(4 + plen, 8 + plen) =~= end_magic());
    assert(b.subrange(4, 4 + plen) =~= p);
    assert(spec_scan(b, 4 + plen, Some(4), acc) == spec_scan(b, 5 + plen, None::<int>, acc.push(
        p,
    )));
    assert forall|k: int|
        5 + plen <= k < 8 + plen && k + 4 <= b.len() implies #[trigger] b.subrange(k, k + 4)
        != start_magic() && b.subrange(k, k + 4) != end_magic() by {
        let w = b.subrange(k, k + 4);
        assert(w[0] == end_magic()[k - (4 + plen)]);
        assert(w[0] != 0xedu8 && w[0] != 0xe5u8);
    }
    lemma_scan_stretch(b, 5 + plen, 8 + plen, None::<int>, acc.push(p));
}

/// The splitter recovers a concatenation of frames exactly: one chunk per
/// frame, each equal to its payload, in the original order. Payloads must
/// be magic-free, as every payload between two magics is.
pub proof fn lemma_split_concat_frames(ps: Seq<Seq<u8>>)
    requires
        forall|k: int| 0 <= k < ps.len() ==> magic_free(#[trigger] ps[k]),
    ensures
        spec_split(concat_frames(ps)) == ps,
    decreases ps.len(),
{
    if ps.len() == 0 {
        assert(spec_split(concat_frames(ps)) =~= ps);
    } else {
        let p = ps[0];
        let rest = concat_frames(ps.drop_first());
        let b = frame_of(p) + rest;
        assert(concat_frames(ps) == b);
        lemma_scan_frame(p, rest, Seq::<Seq<u8>>::empty());
        assert(frame_of(p).len() == p.len() + 8);
        lemma_scan_shift(
            frame_of(p),
            rest,
            0,
            None::<int>,
            Seq::<Seq<u8>>::empty().push(p),
        );
        lemma_scan_acc(rest, 0, None::<int>, Seq::<Seq<u8>>::empty().push(p));
        lemma_split_concat_frames(ps.drop_first());
        assert(spec_split(b) == Seq::<Seq<u8>>::empty().push(p) + ps.drop_first());
        assert(Seq::<Seq<u8>>::empty().push(p) + ps.drop_first() =~= ps);
    }
}

/// WAL round trip: a segment built by concatenating the encoded frames of
/// any operations splits and decodes back to exactly those operations, in
/// order. Each frame body must be magic-free and each key and value must
/// fit the varint space.
pub proof fn lemma_wal_round_trip(ops: Seq<Op>)
    requires
        forall|i: int| 0 <= i < ops.len() ==> magic_free(spec_body_crc(#[trigger] ops[i])),
        forall|i: int|
            0 <= i < ops.len() ==> encode_utf8(op_key(#[trigger] ops[i])).len()
                < 0x1_0000_0000_0000_0000,
        forall|i: int|
            0 <= i < ops.len() ==> (op_value(#[trigger] ops[i]) matches Some(v) ==> encode_utf8(
                v,
            ).len() < 0x1_0000_0000_0000_0000),
    ensures
        spec_recover(
            spec_split(concat_frames(ops.map_values(|o: Op| spec_body_crc(o)))),
        ) == Ok::<Seq<(u8, i64, Seq<char>, Option<Seq<char>>)>, BytecodeSerializerError>(
            ops.map_values(|o: Op| op_tuple(o)),
        ),
{
    let bodies = ops.map_values(|o: Op| spec_body_crc(o));
    lemma_split_concat_frames(bodies);
    lemma_recover_bodies(ops);
}

/// Decoding the encoded bodies of a sequence of operations yields their
/// contents, in order.
proof fn lemma_recover_bodies(ops: Seq<Op>)
    requires
        forall|i: int|
            0 <= i < ops.len() ==> encode_utf8(op_key(#[trigger] ops[i])).len()
                < 0x1_0000_0000_0000_0000,
        forall|i: int|
            0 <= i < ops.len() ==> (op_value(#[trigger] ops[i]) matches Some(v) ==> encode_utf8(
                v,
            ).len() < 0x1_0000_0000_0000_0000),
    ensures
        spec_recover(ops.map_values(|o: Op| spec_body_crc(o))) == Ok::<
            Seq<(u8, i64, Seq<char>, Option<Seq<char>>)>,
            BytecodeSerializerError,
        >(ops.map_values(|o: Op| op_tuple(o))),
    decreases ops.len(),
{
    let bodies = ops.map_values(|o: Op| spec_body_crc(o));
    let tuples = ops.map_values(|o: Op| op_tuple(o));
    if ops.len() == 0 {
        assert(tuples =~= Seq::<(u8, i64, Seq<char>, Option<Seq<char>>)>::empty());
    } else {
        lemma_parse_body(ops[0]);
        assert(bodies[0] == spec_body_crc(ops[0]));
        assert(bodies.drop_first() =~= ops.drop_first().map_values(
            |o: Op| spec_body_crc(o),
        ));
        lemma_recover_bodies(ops.drop_first());
        assert(seq![op_tuple(ops[0])] + ops.drop_first().map_values(|o: Op| op_tuple(o))
            =~= tuples);
    }
}

/// A decoded varint always consumes at least one byte and no more than the
/// whole input.
pub proof fn lemma_varint_decode_consumed(bytes: Seq<u8>)
    ensures
        spec_varint_decode(bytes) matches Some(vc) ==> 1 <= vc.1 <= bytes.len(),
    decreases bytes.len(),
{
    if bytes.len() > 0 && bytes[0] >= 128 {
        lemma_varint_decode_consumed(bytes.drop_first());
    }
}

proof fn lemma_pow128_increases(a: nat, b: nat)
    requires
        a <= b,
    ensures
        pow128(a) <= pow128(b),
    decreases b,
{
    if a < b {
        lemma_pow128_increases(a, (b - 1) as nat);
        assert(pow128(b) == 128 * pow128((b - 1) as nat));
        assert(pow128((b - 1) as nat) <= 128 * pow128((b - 1) as nat)) by (nonlinear_arith)
            requires pow128((b - 1) as nat) >= 0;
    }
}

/// Decoding an encoded varint from the front of any buffer yields the
/// encoded number and consumes exactly the encoding.
pub proof fn lemma_varint_decode_encode(n: nat, rest: Seq<u8>)
    ensures
        spec_varint_decode(spec_varint(n) + rest) == Some((n, spec_varint(n).len() as int)),
    decreases n,
{
    let enc = spec_varint(n);
    if n < 128 {
        assert((enc + rest)[0] == n as u8);
    } else {
        let first = (n % 128 + 128) as u8;
        assert((enc + rest)[0] == first);
        assert((enc + rest).drop_first() =~= spec_varint(n / 128) + rest);
        lemma_varint_decode_encode(n / 128, rest);
        lemma_fundamental_div_mod(n as int, 128);
    }
}

/// Bounds that pin the length of a varint encoding: the encoded number is
/// below the weight of the first unused digit, and an encoding of `k` digits
/// is only used for numbers of at least `128^(k-1)`.
pub proof fn lemma_varint_len(n: nat)
    ensures
        1 <= spec_varint(n).len(),
        n < pow128(spec_varint(n).len()),
        spec_varint(n).len() >= 2 ==> n >= pow128((spec_varint(n).len() - 1) as nat),
    decreases n,
{
    if n < 128 {
    } else {
        lemma_varint_len(n / 128);
        let inner = spec_varint(n / 128).len();
        assert(spec_varint(n).len() == 1 + inner);
        assert(pow128(1 + inner) == 128 * pow128(inner));
        lemma_fundamental_div_mod(n as int, 128);
        assert(n < 128 * pow128(inner)) by (nonlinear_arith)
            requires
                n / 128 < pow128(inner),
                n == 128 * (n / 128) + n % 128,
                0 <= n % 128 < 128,
        ;
        if inner == 1 {
            assert(pow128(1) == 128);
        } else {
            assert(n >= 128 * pow128((inner - 1) as nat)) by (nonlinear_arith)
                requires
                    n / 128 >= pow128((inner - 1) as nat),
                    n == 128 * (n / 128) + n % 128,
                    0 <= n % 128,
            ;
        }
    }
}

/// Varint round trip: decoding the encoding of any 64-bit number returns
/// that number together with the length of its encoding.
pub proof fn lemma_varint_round_trip(n: u64)
    ensures
        vd_cap(spec_varint(n as nat)) == Ok::<(nat, int), BytecodeSerializerError>(
            (n as nat, spec_varint(n as nat).len() as int),
        ),
{
    lemma_varint_decode_encode(n as nat, Seq::<u8>::empty());
    assert(spec_varint(n as nat) + Seq::<u8>::empty() =~= spec_varint(n as nat));
    lemma_varint_len(n as nat);
    let len = spec_varint(n as nat).len();
    if len >= 11 {
        assert(pow128(10) == 0x4000_0000_0000_0000_0000) by {
            reveal_with_fuel(pow128, 12);
        }
        lemma_pow128_increases(10, (len - 1) as nat);
        assert(false);
    }
}

/// The capped decoder accepts the encoding of every 64-bit number, in
/// front of any suffix.
pub proof fn lemma_vd_cap_encode(n: u64, rest: Seq<u8>)
    ensures
        vd_cap(spec_varint(n as nat) + rest) == Ok::<(nat, int), BytecodeSerializerError>(
            (n as nat, spec_varint(n as nat).len() as int),
        ),
{
    lemma_varint_decode_encode(n as nat, rest);
    lemma_varint_len(n as nat);
    let len = spec_varint(n as nat).len();
    if len >= 11 {
        assert(pow128(10) == 0x4000_0000_0000_0000_0000) by {
            reveal_with_fuel(pow128, 12);
        }
        lemma_pow128_increases(10, (len - 1) as nat);
        assert(false);
    }
}

/// Frame round trip: parsing the body-with-trailer that the encoder
/// produces for any operation yields exactly that operation's code,
/// timestamp, key and value. Key and value may be any UTF-8 strings whose
/// byte lengths fit the varint space.
#[verifier::rlimit(100)]
pub proof fn lemma_parse_body(op: Op)
    requires
        encode_utf8(op_key(op)).len() < 0x1_0000_0000_0000_0000,
        op_value(op) matches Some(v) ==> encode_utf8(v).len() < 0x1_0000_0000_0000_0000,
    ensures
        spec_parse(spec_body_crc(op)) == Ok::<
            (u8, i64, Seq<char>, Option<Seq<char>>),
            BytecodeSerializerError,
        >(op_tuple(op)),
{
    broadcast use vstd::utf8::encode_utf8_valid_utf8;
    broadcast use vstd::utf8::encode_utf8_decode_utf8;

    let code = op_code(op);
    let tsu: u64 = op_timestamp(op) as u64;
    let tse = spec_varint(tsu as nat);
    let kb = encode_utf8(op_key(op));
    let kle = spec_varint(kb.len());
    let tail = match op_value(op) {
        Some(v) => spec_varint(encode_utf8(v).len()) + encode_utf8(v),
        None => Seq::<u8>::empty(),
    };
    let body = spec_body(op);
    assert(body == seq![code] + tse + kle + kb + tail);
    let crc = spec_crc32(body);
    let full = spec_body_crc(op);
    assert(full == body + seq![4u8] + spec_u32_to_le_bytes(crc));
    vstd::bytes::lemma_auto_spec_u32_to_from_le_bytes();
    assert(spec_u32_to_le_bytes(crc).len() == 4);

    assert(full[0] == code);
    assert(code % 16 == code);
    assert(full.len() >= 1);

    // timestamp varint
    let r1 = kle + kb + tail + seq![4u8] + spec_u32_to_le_bytes(crc);
    assert(full.skip(1) =~= tse + r1);
    lemma_vd_cap_encode(tsu, r1);
    assert(vd_cap(full.skip(1)) == Ok::<(nat, int), BytecodeSerializerError>(
        (tsu as nat, tse.len() as int),
    ));
    let ts_orig = op_timestamp(op);
    assert(((ts_orig as u64) as i64) == ts_orig) by (bit_vector);

    // key length varint
    let i1 = 1 + tse.len() as int;
    let r2 = kb + tail + seq![4u8] + spec_u32_to_le_bytes(crc);
    assert(full.skip(i1) =~= kle + r2);
    lemma_vd_cap_encode(kb.len() as u64, r2);
    assert((kb.len() as u64) as nat == kb.len());

    // key bytes
    let i2 = i1 + kle.len() as int;
    assert(i2 + kb.len() <= full.len());
    assert(full.subrange(i2, i2 + kb.len() as int) =~= kb);
    assert(valid_utf8(kb));
    assert(decode_utf8(kb) == op_key(op));

    let i3 = i2 + kb.len() as int;
    match op_value(op) {
        Some(v) => {
            let vb = encode_utf8(v);
            let vle = spec_varint(vb.len());
            assert(code == 1);
            let r3 = vb + seq![4u8] + spec_u32_to_le_bytes(crc);
            assert(full.skip(i3) =~= vle + r3);
            lemma_vd_cap_encode(vb.len() as u64, r3);
            let i4 = i3 + vle.len() as int;
            assert(i4 + vb.len() <= full.len());
            assert(full.subrange(i4, i4 + vb.len() as int) =~= vb);
            assert(valid_utf8(vb));
            assert(decode_utf8(vb) == v);
            let i5 = i4 + vb.len() as int;
            assert(i5 == body.len());
            lemma_parse_crc_of_encoded(full, body, crc);
        },
        None => {
            assert(code == 2 || code == 4);
            assert(i3 == body.len());
            lemma_parse_crc_of_encoded(full, body, crc);
        },
    }
}

/// The integrity trailer that the encoder appends always checks out.
proof fn lemma_parse_crc_of_encoded(full: Seq<u8>, body: Seq<u8>, crc: u32)
    requires
        full == body + seq![4u8] + spec_u32_to_le_bytes(crc),
        crc == spec_crc32(body),
    ensures
        spec_parse_crc(full, body.len() as int) == Ok::<(), BytecodeSerializerError>(()),
{
    vstd::bytes::lemma_auto_spec_u32_to_from_le_bytes();
    let i = body.len() as int;
    assert(spec_u32_to_le_bytes(crc).len() == 4);
    assert(full.skip(i) =~= seq![4u8] + spec_u32_to_le_bytes(crc));
    assert(full.skip(i)[0] == 4u8);
    assert(spec_varint_decode(full.skip(i)) == Some((4nat, 1int)));
    let j = i + 1;
    assert(j + 4 == full.len());
    assert(full.subrange(j, j + 4) =~= spec_u32_to_le_bytes(crc));
    assert(spec_u32_from_le_bytes(spec_u32_to_le_bytes(crc)) == crc);
    assert(full.subrange(0, i) =~= body);
}

/// One round of the reflected CRC-32 shift register with the IEEE
/// polynomial.
pub open spec fn crc32_round(x: u32) -> u32 {
    if x % 2 == 1 {
        0xEDB8_8320u32 ^ (x / 2)
    } else {
        x / 2
    }
}

pub open spec fn crc32_rounds(x: u32, k: nat) -> u32
    decreases k,
{
    if k == 0 {
        x
    } else {
        crc32_rounds(crc32_round(x), (k - 1) as nat)
    }
}

/// Folding one byte into the running CRC: mix the byte into the register
/// and run eight shift rounds.
pub open spec fn crc32_update(crc: u32, b: u8) -> u32 {
    crc32_rounds(crc ^ (b as u32), 8)
}

pub open spec fn crc32_fold(crc: u32, s: Seq<u8>) -> u32
    decreases s.len(),
{
    if s.len() == 0 {
        crc
    } else {
        crc32_fold(crc32_update(crc, s[0]), s.drop_first())
    }
}

/// CRC-32/IEEE (reflected, polynomial 0xEDB88320) of a byte sequence.
pub open spec fn spec_crc32(s: Seq<u8>) -> u32 {
    crc32_fold(0xFFFF_FFFFu32, s) ^ 0xFFFF_FFFFu32
}

/// One shift round is linear over exclusive or.
proof fn lemma_round_linear(x: u32, y: u32)
    ensures
        crc32_round(x ^ y) == crc32_round(x) ^ crc32_round(y),
{
    assert((if (x ^ y) % 2 == 1 {
        0xEDB8_8320u32 ^ ((x ^ y) / 2)
    } else {
        (x ^ y) / 2
    }) == (if x % 2 == 1 {
        0xEDB8_8320u32 ^ (x / 2)
    } else {
        x / 2
    }) ^ (if y % 2 == 1 {
        0xEDB8_8320u32 ^ (y / 2)
    } else {
        y / 2
    })) by (bit_vector);
}

/// A shift round sends only zero to zero.
proof fn lemma_round_zero(d: u32)
    requires
        crc32_round(d) == 0,
    ensures
        d == 0,
{
    assert(d == 0) by (bit_vector)
        requires
            (if d % 2 == 1 {
                0xEDB8_8320u32 ^ (d / 2)
            } else {
                d / 2
            }) == 0,
    ;
}

/// So is any number of rounds linear,
proof fn lemma_rounds_linear(x: u32, y: u32, k: nat)
    ensures
        crc32_rounds(x ^ y, k) == crc32_rounds(x, k) ^ crc32_rounds(y, k),
    decreases k,
{
    if k > 0 {
        lemma_round_linear(x, y);
        lemma_rounds_linear(crc32_round(x), crc32_round(y), (k - 1) as nat);
    }
}

/// and any number of rounds sends only zero to zero.
proof fn lemma_rounds_zero(d: u32, k: nat)
    requires
        crc32_rounds(d, k) == 0,
    ensures
        d == 0,
    decreases k,
{
    if k == 0 {
    } else {
        lemma_rounds_zero(crc32_round(d), (k - 1) as nat);
        lemma_round_zero(d);
    }
}

/// Rounds compose.
proof fn lemma_rounds_add(x: u32, a: nat, b: nat)
    ensures
        crc32_rounds(x, a + b) == crc32_rounds(crc32_rounds(x, a), b),
    decreases a,
{
    if a > 0 {
        lemma_rounds_add(crc32_round(x), (a - 1) as nat, b);
    }
}

/// Folding the same bytes into two registers keeps their difference
/// rotating through the rounds.
proof fn lemma_fold_diff(c1: u32, c2: u32, s: Seq<u8>)
    ensures
        crc32_fold(c1, s) ^ crc32_fold(c2, s) == crc32_rounds(c1 ^ c2, 8 * s.len()),
    decreases s.len(),
{
    if s.len() == 0 {
        assert(c1 ^ c2 == crc32_rounds(c1 ^ c2, 0));
    } else {
        let b = s[0];
        let x1 = crc32_update(c1, b);
        let x2 = crc32_update(c2, b);
        assert((c1 ^ (b as u32)) ^ (c2 ^ (b as u32)) == c1 ^ c2) by (bit_vector);
        lemma_rounds_linear(c1 ^ (b as u32), c2 ^ (b as u32), 8);
        assert(x1 ^ x2 == crc32_rounds(c1 ^ c2, 8));
        lemma_fold_diff(x1, x2, s.drop_first());
        lemma_rounds_add(c1 ^ c2, 8, 8 * (s.len() - 1) as nat);
        assert(8 * s.len() == 8 + 8 * (s.len() - 1));
    }
}

/// Folding two byte strings that differ in exactly one byte from the same
/// register leaves different registers.
proof fn lemma_fold_change(c: u32, s1: Seq<u8>, s2: Seq<u8>, j: int)
    requires
        s1.len() == s2.len(),
        0 <= j < s1.len(),
        forall|i: int| 0 <= i < s1.len() && i != j ==> s1[i] == s2[i],
        s1[j] != s2[j],
    ensures
        crc32_fold(c, s1) != crc32_fold(c, s2),
    decreases s1.len(),
{
    if j == 0 {
        let b1 = s1[0];
        let b2 = s2[0];
        let x1 = crc32_update(c, b1);
        let x2 = crc32_update(c, b2);
        assert((c ^ (b1 as u32)) ^ (c ^ (b2 as u32)) == (b1 as u32) ^ (b2 as u32))
            by (bit_vector);
        assert((b1 as u32) ^ (b2 as u32) != 0) by (bit_vector)
            requires
                b1 != b2,
        ;
        lemma_rounds_linear(c ^ (b1 as u32), c ^ (b2 as u32), 8);
        assert(x1 ^ x2 == crc32_rounds((b1 as u32) ^ (b2 as u32), 8));
        if x1 == x2 {
            assert(x1 ^ x2 == 0) by (bit_vector)
                requires
                    x1 == x2,
            ;
            lemma_rounds_zero((b1 as u32) ^ (b2 as u32), 8);
            assert(false);
        }
        assert(s1.drop_first() =~= s2.drop_first());
        lemma_fold_diff(x1, x2, s1.drop_first());
        if crc32_fold(x1, s1.drop_first()) == crc32_fold(x2, s1.drop_first()) {
            let g1 = crc32_fold(x1, s1.drop_first());
            let g2 = crc32_fold(x2, s1.drop_first());
            assert(g1 ^ g2 == 0) by (bit_vector)
                requires
                    g1 == g2,
            ;
            lemma_rounds_zero(x1 ^ x2, 8 * s1.drop_first().len());
            assert(x1 == x2) by (bit_vector)
                requires
                    x1 ^ x2 == 0,
            ;
            assert(false);
        }
    } else {
        assert(s1[0] == s2[0]);
        let x = crc32_update(c, s1[0]);
        assert(forall|i: int|
            0 <= i < s1.drop_first().len() && i != j - 1 ==> #[trigger] s1.drop_first()[i]
                == s2.drop_first()[i]);
        assert(s1.drop_first()[j - 1] != s2.drop_first()[j - 1]);
        lemma_fold_change(x, s1.drop_first(), s2.drop_first(), j - 1);
    }
}

/// The CRC detects any corruption of a single byte — in particular any
/// single flipped bit — of the bytes it covers.
pub proof fn lemma_crc_detects_byte_change(s1: Seq<u8>, s2: Seq<u8>, j: int)
    requires
        s1.len() == s2.len(),
        0 <= j < s1.len(),
        forall|i: int| 0 <= i < s1.len() && i != j ==> s1[i] == s2[i],
        s1[j] != s2[j],
    ensures
        spec_crc32(s1) != spec_crc32(s2),
{
    lemma_fold_change(0xFFFF_FFFFu32, s1, s2, j);
    let f1 = crc32_fold(0xFFFF_FFFFu32, s1);
    let f2 = crc32_fold(0xFFFF_FFFFu32, s2);
    assert(f1 ^ 0xFFFF_FFFFu32 != f2 ^ 0xFFFF_FFFFu32) by (bit_vector)
        requires
            f1 != f2,
    ;
}

/// The four bytes that open every frame: 0xDEFEC8ED, little endian.
pub open spec fn start_magic() -> Seq<u8> {
    seq![0xedu8, 0xc8u8, 0xfeu8, 0xdeu8]
}

/// The four bytes that close every frame: 0x0B00B1E5, little endian.
pub open spec fn end_magic() -> Seq<u8> {
    seq![0xe5u8, 0xb1u8, 0x00u8, 0x0bu8]
}

/// The frame body: header byte (protocol 0 in the upper nibble, operation
/// code in the lower), varint timestamp (unsigned bit pattern), varint
/// key length and key bytes, then for `SET` the varint value length and
/// value bytes.
pub open spec fn spec_body(op: Op) -> Seq<u8> {
    seq![op_code(op)] + spec_varint((op_timestamp(op) as u64) as nat) + spec_varint(
        encode_utf8(op_key(op)).len(),
    ) + encode_utf8(op_key(op)) + match op_value(op) {
        Some(v) => spec_varint(encode_utf8(v).len()) + encode_utf8(v),
        None => Seq::<u8>::empty(),
    }
}

/// The body followed by its integrity trailer: varint CRC length (always
/// 4) and the CRC-32 of the body, little endian.
pub open spec fn spec_body_crc(op: Op) -> Seq<u8> {
    spec_body(op) + seq![4u8] + spec_u32_to_le_bytes(spec_crc32(spec_body(op)))
}

/// The complete self-delimited frame of one operation.
pub open spec fn spec_frame(op: Op) -> Seq<u8> {
    start_magic() + spec_body_crc(op) + end_magic()
}

/// Checks the integrity trailer of a stripped frame whose payload ends at
/// position `i`: a varint CRC length that must be 4, then four CRC bytes
/// that must match the CRC-32 of `bytes[0..i]`.
pub open spec fn spec_parse_crc(bytes: Seq<u8>, i: int) -> Result<(), BytecodeSerializerError> {
    match vd_cap(bytes.skip(i)) {
        Err(e) => Err(e),
        Ok(cl) => if cl.0 != 4 {
            Err(BytecodeSerializerError::BadCrcLen)
        } else {
            let j = i + cl.1;
            if j + 4 > bytes.len() {
                Err(BytecodeSerializerError::Truncated)
            } else if spec_u32_from_le_bytes(bytes.subrange(j, j + 4)) != spec_crc32(
                bytes.subrange(0, i),
            ) {
                Err(BytecodeSerializerError::BadCrc)
            } else {
                Ok(())
            }
        },
    }
}

/// Parses a frame body (a frame with both magics stripped). The operation
/// code is checked first; the protocol nibble is accepted as it stands.
/// Yields the code, the timestamp, the key, and for `SET` the value.
pub open spec fn spec_parse(bytes: Seq<u8>) -> Result<
    (u8, i64, Seq<char>, Option<Seq<char>>),
    BytecodeSerializerError,
> {
    if bytes.len() < 1 {
        Err(BytecodeSerializerError::Truncated)
    } else {
        let code = bytes[0] % 16;
        if code != 1 && code != 2 && code != 4 {
            Err(BytecodeSerializerError::UnknownOpcode)
        } else {
            match vd_cap(bytes.skip(1)) {
                Err(e) => Err(e),
                Ok(ts) => {
                    let ts_val = (ts.0 as u64) as i64;
                    let i1 = 1 + ts.1;
                    match vd_cap(bytes.skip(i1)) {
                        Err(e) => Err(e),
                        Ok(kl) => {
                            let i2 = i1 + kl.1;
                            if i2 + kl.0 > bytes.len() {
                                Err(BytecodeSerializerError::Truncated)
                            } else {
                                let kbytes = bytes.subrange(i2, i2 + kl.0);
                                if !valid_utf8(kbytes) {
                                    Err(BytecodeSerializerError::BadUtf8)
                                } else {
                                    let i3 = i2 + kl.0;
                                    if code == 1 {
                                        match vd_cap(bytes.skip(i3)) {
                                            Err(e) => Err(e),
                                            Ok(vl) => {
                                                let i4 = i3 + vl.1;
                                                if i4 + vl.0 > bytes.len() {
                                                    Err(BytecodeSerializerError::Truncated)
                                                } else {
                                                    let vbytes = bytes.subrange(i4, i4 + vl.0);
                                                    if !valid_utf8(vbytes) {
                                                        Err(BytecodeSerializerError::BadUtf8)
                                                    } else {
                                                        match spec_parse_crc(bytes, i4 + vl.0) {
                                                            Err(e) => Err(e),
                                                            Ok(_) => Ok(
                                                                (
                                                                    code,
                                                                    ts_val,
                                                                    decode_utf8(kbytes),
                                                                    Some(decode_utf8(vbytes)),
                                                                ),
                                                            ),
                                                        }
                                                    }
                                                }
                                            },
                                        }
                                    } else {
                                        match spec_parse_crc(bytes, i3) {
                                            Err(e) => Err(e),
                                            Ok(_) => Ok(
                                                (code, ts_val, decode_utf8(kbytes), None),
                                            ),
                                        }
                                    }
                                }
                            }
                        },
                    }
                },
            }
        }
    }
}

/// Relies on String::from_utf8: it succeeds exactly on valid UTF-8 input
/// and returns the string whose characters are the UTF-8 decoding of the
/// bytes.
#[verifier::external_body]
pub(crate) fn string_from_utf8(bytes: Vec<u8>) -> (r: Option<String>)
    ensures
        r is Some <==> valid_utf8(bytes@),
        r matches Some(s) ==> s@ == decode_utf8(bytes@),
{
    String::from_utf8(bytes).ok()
}

impl BytecodeSerializer {
    /// Encodes one operation as a complete frame. Never fails.
    pub fn op_to_bytes(operation: &Op) -> (r: Vec<u8>)
        ensures
            r@ == spec_frame(*operation),
    {
        let mut body: Vec<u8> = Vec::new();
        match operation {
            Op::SET { timestamp, key, value } => {
                body.push(1u8);
                let mut ts = Self::convert_to_varint(*timestamp as u64);
                body.append(&mut ts);
                let kb = key.as_str().as_bytes_vec();
                let mut klen = Self::convert_to_varint(kb.len() as u64);
                body.append(&mut klen);
                let mut kb = kb;
                body.append(&mut kb);
                let vb = value.as_str().as_bytes_vec();
                let mut vlen = Self::convert_to_varint(vb.len() as u64);
                body.append(&mut vlen);
                let mut vb = vb;
                body.append(&mut vb);
            },
            Op::GET { timestamp, key } => {
                body.push(2u8);
                let mut ts = Self::convert_to_varint(*timestamp as u64);
                body.append(&mut ts);
                let kb = key.as_str().as_bytes_vec();
                let mut klen = Self::convert_to_varint(kb.len() as u64);
                body.append(&mut klen);
                let mut kb = kb;
                body.append(&mut kb);
            },
            Op::DEL { timestamp, key } => {
                body.push(4u8);
                let mut ts = Self::convert_to_varint(*timestamp as u64);
                body.append(&mut ts);
                let kb = key.as_str().as_bytes_vec();
                let mut klen = Self::convert_to_varint(kb.len() as u64);
                body.append(&mut klen);
                let mut kb = kb;
                body.append(&mut kb);
            },
        }
        proof {
            assert(body@ =~= spec_body(*operation));
        }
        let crc = Self::calculate_crc32(body.as_slice());
        let mut result: Vec<u8> = Vec::new();
        result.push(0xed);
        result.push(0xc8);
        result.push(0xfe);
        result.push(0xde);
        result.append(&mut body);
        result.push(4u8);
        let mut crcb = u32_to_le_bytes(crc);
        result.append(&mut crcb);
        result.push(0xe5);
        result.push(0xb1);
        result.push(0x00);
        result.push(0x0b);
        proof {
            assert(result@ =~= spec_frame(*operation));
        }
        result
    }

    /// CRC-32/IEEE over `bytes`.
    pub fn calculate_crc32(bytes: &[u8]) -> (r: u32)
        ensures
            r == spec_crc32(bytes@),
    {
        let mut crc: u32 = 0xFFFF_FFFF;
        let mut i: usize = 0;
        proof {
            assert(bytes@.skip(0) =~= bytes@);
        }
        while i < bytes.len()
            invariant
                0 <= i <= bytes@.len(),
                crc32_fold(0xFFFF_FFFFu32, bytes@) == crc32_fold(crc, bytes@.skip(i as int)),
            decreases bytes@.len() - i,
        {
            let b = *slice_index_get(bytes, i);
            let mut x: u32 = crc ^ (b as u32);
            let mut k: usize = 0;
            while k < 8
                invariant
                    0 <= k <= 8,
                    crc32_rounds(crc ^ (b as u32), 8) == crc32_rounds(x, (8 - k) as nat),
                decreases 8 - k,
            {
                if x % 2 == 1 {
                    x = 0xEDB8_8320u32 ^ (x / 2);
                } else {
                    x = x / 2;
                }
                k = k + 1;
            }
            proof {
                assert(bytes@.skip(i as int)[0] == b);
                assert(bytes@.skip(i as int).drop_first() =~= bytes@.skip(i as int + 1));
            }
            crc = x;
            i = i + 1;
        }
        crc ^ 0xFFFF_FFFF
    }

    /// Checks a stored CRC against the one computed over `bytes`.
    pub fn validate_crc32(bytes: &[u8], crc: u32) -> (r: Result<(), BytecodeSerializerError>)
        ensures
            crc == spec_crc32(bytes@) ==> r == Ok::<(), BytecodeSerializerError>(()),
            crc != spec_crc32(bytes@) ==> r == Err::<(), BytecodeSerializerError>(
                BytecodeSerializerError::BadCrc,
            ),
    {
        let crc_calculated = Self::calculate_crc32(bytes);
        if crc != crc_calculated {
            return Err(BytecodeSerializerError::BadCrc);
        }
        Ok(())
    }

    /// Reads and checks the integrity trailer that begins at `i`.
    fn check_crc_at(b: &[u8], i: usize) -> (r: Result<(), BytecodeSerializerError>)
        requires
            i <= b@.len(),
        ensures
            r == spec_parse_crc(b@, i as int),
    {
        proof {
            assert(b@.subrange(i as int, b@.len() as int) =~= b@.skip(i as int));
        }
        let (cl, cl_c) = match Self::convert_from_varint(slice_subrange(b, i, b.len())) {
            Ok(p) => p,
            Err(e) => {
                return Err(e);
            },
        };
        if cl != 4 {
            return Err(BytecodeSerializerError::BadCrcLen);
        }
        proof {
            lemma_varint_decode_consumed(b@.skip(i as int));
        }
        let j = i + cl_c;
        if b.len() - j < 4 {
            return Err(BytecodeSerializerError::Truncated);
        }
        let crc = u32_from_le_bytes(slice_subrange(b, j, j + 4));
        let expected = Self::calculate_crc32(slice_subrange(b, 0, i));
        if crc != expected {
            return Err(BytecodeSerializerError::BadCrc);
        }
        Ok(())
    }

    /// Decodes one stripped frame body back into an operation. Fails, with
    /// the kind that names the first problem found, on an unknown operation
    /// code, a truncated input, an overlong varint, a key or value that is
    /// not UTF-8, a CRC length other than 4, or a CRC mismatch.
    pub fn op_from_bytes(bytes: Vec<u8>) -> (r: Result<Op, BytecodeSerializerError>)
        ensures
            match spec_parse(bytes@) {
                Ok(t) => r matches Ok(o) && op_tuple(o) == t,
                Err(e) => r == Err::<Op, BytecodeSerializerError>(e),
            },
    {
        let b = bytes.as_slice();
        if b.len() < 1 {
            return Err(BytecodeSerializerError::Truncated);
        }
        let header = *slice_index_get(b, 0);
        let code = header % 16;
        if !(code == 1 || code == 2 || code == 4) {
            return Err(BytecodeSerializerError::UnknownOpcode);
        }
        proof {
            assert(b@.subrange(1, b@.len() as int) =~= b@.skip(1));
        }
        let (ts_u, ts_c) = match Self::convert_from_varint(slice_subrange(b, 1, b.len())) {
            Ok(p) => p,
            Err(e) => {
                return Err(e);
            },
        };
        proof {
            lemma_varint_decode_consumed(b@.skip(1));
        }
        let i1 = 1 + ts_c;
        proof {
            assert(b@.subrange(i1 as int, b@.len() as int) =~= b@.skip(i1 as int));
        }
        let (kl, kl_c) = match Self::convert_from_varint(slice_subrange(b, i1, b.len())) {
            Ok(p) => p,
            Err(e) => {
                return Err(e);
            },
        };
        proof {
            lemma_varint_decode_consumed(b@.skip(i1 as int));
        }
        let i2 = i1 + kl_c;
        if kl > (b.len() - i2) as u64 {
            return Err(BytecodeSerializerError::Truncated);
        }
        let kl_s = kl as usize;
        let kvec = slice_to_vec(slice_subrange(b, i2, i2 + kl_s));
        let key = match string_from_utf8(kvec) {
            Some(k) => k,
            None => {
                return Err(BytecodeSerializerError::BadUtf8);
            },
        };
        let i3 = i2 + kl_s;
        if code == 1 {
            proof {
                assert(b@.subrange(i3 as int, b@.len() as int) =~= b@.skip(i3 as int));
            }
            let (vl, vl_c) = match Self::convert_from_varint(slice_subrange(b, i3, b.len())) {
                Ok(p) => p,
                Err(e) => {
                    return Err(e);
                },
            };
            proof {
                lemma_varint_decode_consumed(b@.skip(i3 as int));
            }
            let i4 = i3 + vl_c;
            if vl > (b.len() - i4) as u64 {
                return Err(BytecodeSerializerError::Truncated);
            }
            let vl_s = vl as usize;
            let vvec = slice_to_vec(slice_subrange(b, i4, i4 + vl_s));
            let value = match string_from_utf8(vvec) {
                Some(v) => v,
                None => {
                    return Err(BytecodeSerializerError::BadUtf8);
                },
            };
            let i5 = i4 + vl_s;
            match Self::check_crc_at(b, i5) {
                Ok(_) => {},
                Err(e) => {
                    return Err(e);
                },
            }
            let ts = ts_u as i64;
            Ok(Op::SET { timestamp: ts, key, value })
        } else {
            match Self::check_crc_at(b, i3) {
                Ok(_) => {},
                Err(e) => {
                    return Err(e);
                },
            }
            let ts = ts_u as i64;
            if code == 2 {
                Ok(Op::GET { timestamp: ts, key })
            } else {
                Ok(Op::DEL { timestamp: ts, key })
            }
        }
    }
}

} // verus!
