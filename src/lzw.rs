//! LZW compression of palette indices into a GIF image-data payload.
use vstd::prelude::*;

verus! {

/// The variable-width LZW code stream (least significant bit first, with a
/// clear code at the start and an end-of-information code at the end) that
/// GIF uses for `data` at minimum code size `min_code_size`.
pub uninterp spec fn lzw_stream(min_code_size: u8, data: Seq<u8>) -> Seq<u8>;

/// Relies on weezl's `encode::Encoder::new(BitOrder::Lsb, size)` (which
/// panics unless `2 <= size <= 12`) and `IntoVec::encode_all`, which appends
/// the complete code stream of `data` to `out` and leaves what was there
/// (it stops early, with an error, only on a symbol that does not fit in
/// `size` bits).
#[verifier::external_body]
fn lzw_append(min_code_size: u8, data: &[u8], out: &mut Vec<u8>)
    requires
        2 <= min_code_size <= 12,
        forall|i: int| 0 <= i < data@.len() ==> data@[i] < vstd::arithmetic::power2::pow2(min_code_size as nat),
    ensures
        final(out)@ == old(out)@ + lzw_stream(min_code_size, data@),
{
    let mut encoder = weezl::encode::Encoder::new(weezl::BitOrder::Lsb, min_code_size);
    encoder.into_vec(out).encode_all(data);
}

/// The largest value in `s`, or 0 when `s` is empty.
pub open spec fn seq_max(s: Seq<u8>) -> u8
    decreases s.len(),
{
    if s.len() == 0 {
        0
    } else {
        let m = seq_max(s.drop_last());
        if s.last() > m {
            s.last()
        } else {
            m
        }
    }
}

/// The smallest `k` with `from <= k <= 8` and `m < 2^k`, or 8 when there is none.
pub open spec fn code_size_from(m: int, from: int) -> u8
    decreases 8 - from,
{
    if from >= 8 || m < vstd::arithmetic::power2::pow2(from as nat) {
        if from >= 8 { 8 } else { from as u8 }
    } else {
        code_size_from(m, from + 1)
    }
}

/// The LZW minimum code size for palette indices up to `m`: the smallest
/// `k >= 2` with `m < 2^k`, capped at 8.
pub open spec fn code_size_for(m: int) -> u8 {
    code_size_from(m, 2)
}

/// The minimum code size chosen for a sequence of indices.
pub open spec fn min_code_size_of(data: Seq<u8>) -> u8 {
    code_size_for(seq_max(data) as int)
}

/// A compressed image payload: the minimum code size, then the code stream.
pub open spec fn lzw_payload(data: Seq<u8>) -> Seq<u8> {
    seq![min_code_size_of(data)] + lzw_stream(min_code_size_of(data), data)
}

/// `seq_max` is an element of a non-empty sequence and bounds every element.
pub proof fn lemma_seq_max_is_max(s: Seq<u8>)
    ensures
        forall|i: int| 0 <= i < s.len() ==> s[i] <= seq_max(s),
        s.len() > 0 ==> exists|i: int| 0 <= i < s.len() && s[i] == seq_max(s),
    decreases s.len(),
{
    if s.len() > 0 {
        lemma_seq_max_is_max(s.drop_last());
        assert forall|i: int| 0 <= i < s.len() implies s[i] <= seq_max(s) by {
            if i < s.len() - 1 {
                assert(s[i] == s.drop_last()[i]);
            }
        }
        if s.last() <= seq_max(s.drop_last()) && s.len() > 1 {
            let j = choose|j: int| 0 <= j < s.drop_last().len() && s.drop_last()[j] == seq_max(s.drop_last());
            assert(s[j] == seq_max(s));
        }
    }
}

proof fn lemma_seq_max_push(s: Seq<u8>, b: u8)
    ensures
        seq_max(s.push(b)) == if b > seq_max(s) { b } else { seq_max(s) },
{
    assert(s.push(b).drop_last() =~= s);
}

/// The minimum code size is 2 for indices below 4, 3 below 8, and so on up
/// to 7 below 128; any larger index gets 8.
pub proof fn lemma_code_size_values(m: int)
    requires
        0 <= m <= 255,
    ensures
        code_size_for(m) == (if m < 4 { 2u8 } else if m < 8 { 3u8 } else if m < 16 { 4u8 }
            else if m < 32 { 5u8 } else if m < 64 { 6u8 } else if m < 128 { 7u8 } else { 8u8 }),
{
    vstd::arithmetic::power2::lemma2_to64();
    reveal_with_fuel(code_size_from, 8);
}

/// For any sequence of indices the chosen minimum code size lies in `2..=8`,
/// and when the largest index is at least 4 every index is below `2^size`.
pub proof fn lemma_min_code_size_bounds(data: Seq<u8>)
    ensures
        2 <= min_code_size_of(data) <= 8,
        forall|i: int| 0 <= i < data.len()
            ==> data[i] < vstd::arithmetic::power2::pow2(min_code_size_of(data) as nat),
{
    vstd::arithmetic::power2::lemma2_to64();
    lemma_seq_max_is_max(data);
    lemma_code_size_values(seq_max(data) as int);
}

/// Appends the minimum code size for `data` and then the LZW code stream of
/// `data` to `buffer`.
pub fn lzw_encode(data: &[u8], buffer: &mut Vec<u8>)
    ensures
        final(buffer)@ == old(buffer)@ + lzw_payload(data@),
{
    let mut max_byte: u8 = 0;
    let mut i: usize = 0;
    while i < data.len() && max_byte <= 127
        invariant
            i <= data@.len(),
            max_byte == seq_max(data@.take(i as int)),
        decreases data@.len() - i,
    {
        let byte = data[i];
        proof {
            assert(data@.take(i as int + 1) =~= data@.take(i as int).push(byte));
            lemma_seq_max_push(data@.take(i as int), byte);
        }
        if byte > max_byte {
            max_byte = byte;
        }
        i = i + 1;
    }
    proof {
        lemma_code_size_values(max_byte as int);
        lemma_code_size_values(seq_max(data@) as int);
        lemma_seq_max_is_max(data@);
        lemma_seq_max_is_max(data@.take(i as int));
        if i == data@.len() {
            assert(data@.take(i as int) =~= data@);
        } else {
            let j = choose|j: int| 0 <= j < data@.take(i as int).len() && data@.take(i as int)[j] == max_byte;
            assert(data@[j] == data@.take(i as int)[j]);
        }
    }
    let palette_min_len: u32 = max_byte as u32 + 1;
    let mut min_code_size: u8 = 2;
    let mut cap: u32 = 4;
    proof {
        vstd::arithmetic::power2::lemma2_to64();
    }
    while min_code_size < 8 && cap < palette_min_len
        invariant
            2 <= min_code_size <= 8,
            cap as nat == vstd::arithmetic::power2::pow2(min_code_size as nat),
            palette_min_len == max_byte as u32 + 1,
            code_size_from(max_byte as int, min_code_size as int) == code_size_for(max_byte as int),
        decreases 8 - min_code_size,
    {
        proof {
            vstd::arithmetic::power2::lemma2_to64();
        }
        min_code_size = min_code_size + 1;
        cap = cap * 2;
        proof {
            vstd::arithmetic::power2::lemma2_to64();
        }
    }
    assert(min_code_size == code_size_for(max_byte as int));
    proof {
        lemma_min_code_size_bounds(data@);
    }
    buffer.push(min_code_size);
    lzw_append(min_code_size, data, buffer);
    assert(final(buffer)@ =~= old(buffer)@ + lzw_payload(data@));
}

} // verus!
