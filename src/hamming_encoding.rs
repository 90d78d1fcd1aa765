use vstd::arithmetic::div_mod::{lemma_div_denominator, lemma_mod_breakdown, lemma_small_mod};
use vstd::prelude::*;
use vstd::string::StringExecFns;

verus! {

/// A single bit of data, of a codeword or of a disk.
pub type Bit = bool;

/// What the decoder found in a codeword.
pub enum HammingDecodeResult {
    /// Every check held; the payload as stored.
    NoError { decoded_bits: Vec<Bit> },
    /// One bit was wrong; it has been inverted back, and this is the corrected payload.
    OneError {
        /// The codeword position that was wrong.
        position: usize,
        decoded_bits: Vec<Bit>,
    },
    /// The error cannot be corrected (two bits or more were wrong).
    DoubleError,
}

/// `2^k`.
pub open spec fn two_pow(k: nat) -> nat
    decreases k,
{
    if k == 0 {
        1
    } else {
        2 * two_pow((k - 1) as nat)
    }
}

/// Codeword positions that are exact powers of two hold Hamming parity bits.
pub open spec fn is_parity_position(j: int) -> bool {
    exists|k: nat| two_pow(k) == j
}

/// The payload carried by a codeword: the bits at positions `1..len` that are
/// not powers of two, in ascending order.
pub open spec fn payload(c: Seq<bool>) -> Seq<bool>
    decreases c.len(),
{
    if c.len() <= 1 {
        Seq::empty()
    } else if is_parity_position(c.len() - 1) {
        payload(c.drop_last())
    } else {
        payload(c.drop_last()).push(c.last())
    }
}

proof fn lemma_two_pow_pos(k: nat)
    ensures
        two_pow(k) >= 1,
    decreases k,
{
    if k > 0 {
        lemma_two_pow_pos((k - 1) as nat);
    }
}

proof fn lemma_two_pow_strict(a: nat, b: nat)
    requires
        a < b,
    ensures
        two_pow(a) < two_pow(b),
    decreases b,
{
    lemma_two_pow_pos((b - 1) as nat);
    if a < b - 1 {
        lemma_two_pow_strict(a, (b - 1) as nat);
    }
}

/// A position strictly between two consecutive powers of two is a payload position.
proof fn lemma_between_powers(j: int, k: nat)
    requires
        k >= 1,
        two_pow((k - 1) as nat) < j < two_pow(k),
    ensures
        !is_parity_position(j),
{
    if is_parity_position(j) {
        let m = choose|m: nat| two_pow(m) == j;
        if m < k - 1 {
            lemma_two_pow_strict(m, (k - 1) as nat);
        } else if m > k {
            lemma_two_pow_strict(k, m);
        }
    }
}

/// Whether the Hamming parity bit `2^k` covers codeword position `j`: bit `k`
/// of `j` is set.
pub open spec fn covers(k: nat, j: int) -> bool {
    (j / two_pow(k) as int) % 2 == 1
}

/// The XOR of all bits of `c` at positions covered by parity bit `2^k`.
/// It is `false` exactly when that parity check holds.
pub open spec fn parity_check(c: Seq<bool>, k: nat) -> bool
    decreases c.len(),
{
    if c.len() == 0 {
        false
    } else {
        parity_check(c.drop_last(), k) ^ (covers(k, c.len() - 1) && c.last())
    }
}

/// The XOR of every bit of `c`.
pub open spec fn overall_parity(c: Seq<bool>) -> bool
    decreases c.len(),
{
    if c.len() == 0 {
        false
    } else {
        overall_parity(c.drop_last()) ^ c.last()
    }
}

/// `r` is the least number of Hamming parity bits for `n` payload bits:
/// the least `r` with `n + r + 1 <= 2^r`.
pub open spec fn parity_bits_for(n: nat, r: nat) -> bool {
    &&& n + r + 1 <= two_pow(r)
    &&& (r == 0 || two_pow((r - 1) as nat) < n + r)
}

/// `c` is the extended Hamming codeword of `data`: it has the least number of
/// parity bits, carries `data` as payload, satisfies every parity check and
/// has even overall parity.
pub open spec fn is_codeword_for(data: Seq<bool>, c: Seq<bool>) -> bool {
    &&& c.len() > data.len()
    &&& parity_bits_for(data.len(), (c.len() - 1 - data.len()) as nat)
    &&& payload(c) == data
    &&& forall|k: nat| k < c.len() - 1 - data.len() ==> !#[trigger] parity_check(c, k)
    &&& !overall_parity(c)
}

proof fn lemma_two_pow_adds(a: nat, b: nat)
    ensures
        two_pow(a + b) == two_pow(a) * two_pow(b),
    decreases a,
{
    if a > 0 {
        let a1 = (a - 1) as nat;
        lemma_two_pow_adds(a1, b);
        assert(two_pow(a + b) == 2 * two_pow(a1 + b));
        assert(two_pow(a) == 2 * two_pow(a1));
        assert(two_pow(a) * two_pow(b) == 2 * (two_pow(a1) * two_pow(b))) by (nonlinear_arith)
            requires
                two_pow(a) == 2 * two_pow(a1),
        ;
    } else {
        assert(two_pow(a) == 1);
    }
}

proof fn lemma_two_pow_ge_double(k: nat)
    ensures
        two_pow(k) >= 2 * k,
    decreases k,
{
    if k > 0 {
        lemma_two_pow_ge_double((k - 1) as nat);
    }
}

/// Parity bit `2^k` covers its own position and no other parity position.
proof fn lemma_covers_power(k: nat, m: nat)
    ensures
        covers(k, two_pow(m) as int) == (k == m),
{
    lemma_two_pow_pos(k);
    lemma_two_pow_pos(m);
    if m < k {
        lemma_two_pow_strict(m, k);
        assert((two_pow(m) as int / two_pow(k) as int) == 0) by (nonlinear_arith)
            requires
                0 <= two_pow(m) < two_pow(k),
        ;
    } else {
        let d = (m - k) as nat;
        lemma_two_pow_adds(d, k);
        lemma_two_pow_pos(d);
        assert((two_pow(m) as int / two_pow(k) as int) == two_pow(d)) by (nonlinear_arith)
            requires
                two_pow(m) == two_pow(d) * two_pow(k),
                two_pow(k) > 0,
        ;
        if d > 0 {
            assert(two_pow(d) == 2 * two_pow((d - 1) as nat));
        }
    }
}

proof fn lemma_covers_zero(k: nat)
    ensures
        !covers(k, 0),
{
    lemma_two_pow_pos(k);
}

proof fn lemma_parity_check_update(c: Seq<bool>, p: int, b: bool, k: nat)
    requires
        0 <= p < c.len(),
    ensures
        parity_check(c.update(p, b), k) == (parity_check(c, k) ^ (covers(k, p) && c[p] != b)),
    decreases c.len(),
{
    let u = c.update(p, b);
    if p == c.len() - 1 {
        assert(u.drop_last() == c.drop_last());
    } else {
        assert(u.drop_last() == c.drop_last().update(p, b));
        lemma_parity_check_update(c.drop_last(), p, b, k);
    }
}

proof fn lemma_overall_parity_update(c: Seq<bool>, p: int, b: bool)
    requires
        0 <= p < c.len(),
    ensures
        overall_parity(c.update(p, b)) == (overall_parity(c) ^ (c[p] != b)),
    decreases c.len(),
{
    let u = c.update(p, b);
    if p == c.len() - 1 {
        assert(u.drop_last() == c.drop_last());
    } else {
        assert(u.drop_last() == c.drop_last().update(p, b));
        lemma_overall_parity_update(c.drop_last(), p, b);
    }
}

/// Changing position 0 or a parity position leaves the payload alone.
proof fn lemma_payload_update(c: Seq<bool>, p: int, b: bool)
    requires
        0 <= p < c.len(),
        p == 0 || is_parity_position(p),
    ensures
        payload(c.update(p, b)) == payload(c),
    decreases c.len(),
{
    let u = c.update(p, b);
    if c.len() <= 1 {
    } else if p == c.len() - 1 {
        assert(u.drop_last() == c.drop_last());
    } else {
        assert(u.drop_last() == c.drop_last().update(p, b));
        lemma_payload_update(c.drop_last(), p, b);
    }
}

/// The sum of `2^k` over the failing parity checks `k < r`: the binary index
/// of the faulty position when exactly one bit is wrong.
pub open spec fn syndrome(c: Seq<bool>, r: nat) -> nat
    decreases r,
{
    if r == 0 {
        0
    } else {
        syndrome(c, (r - 1) as nat) + if parity_check(c, (r - 1) as nat) {
            two_pow((r - 1) as nat)
        } else {
            0
        }
    }
}

/// The number of parity checks a decoder runs on a word of `len` bits: the
/// least `r` with `len <= 2^r`.
pub open spec fn check_count(len: nat) -> nat
    decreases len,
{
    if len <= 1 {
        0
    } else {
        check_count(((len + 1) / 2) as nat) + 1
    }
}

/// The position that the failing parity checks of `c` point at.
pub open spec fn error_position(c: Seq<bool>) -> nat {
    syndrome(c, check_count(c.len()))
}

/// `c` with the bit at position `p` inverted.
pub open spec fn flip(c: Seq<bool>, p: int) -> Seq<bool> {
    c.update(p, !c[p])
}

/// Whether the decoder can recover a payload from `c`: either every check
/// holds, or the overall parity is odd and the checks point inside the word.
pub open spec fn is_correctable(c: Seq<bool>) -> bool {
    if overall_parity(c) {
        error_position(c) < c.len()
    } else {
        error_position(c) == 0
    }
}

proof fn lemma_check_count(len: nat)
    ensures
        len <= two_pow(check_count(len)),
        check_count(len) == 0 || two_pow((check_count(len) - 1) as nat) < len,
    decreases len,
{
    if len > 1 {
        let m = ((len + 1) / 2) as nat;
        lemma_check_count(m);
        let r = check_count(m);
        if r > 0 {
            assert(two_pow(r) == 2 * two_pow((r - 1) as nat));
        }
    }
}

proof fn lemma_check_count_unique(len: nat, r: nat)
    requires
        len <= two_pow(r),
        r == 0 || two_pow((r - 1) as nat) < len,
    ensures
        check_count(len) == r,
{
    lemma_check_count(len);
    let r0 = check_count(len);
    if r < r0 {
        if r < r0 - 1 {
            lemma_two_pow_strict(r, (r0 - 1) as nat);
        }
    } else if r > r0 {
        if r0 < r - 1 {
            lemma_two_pow_strict(r0, (r - 1) as nat);
        }
    }
}

/// When every check below `r` agrees with the bits of `p`, the syndrome spells `p`.
proof fn lemma_syndrome_spells(c: Seq<bool>, r: nat, p: int)
    requires
        p >= 0,
        forall|k: nat| k < r ==> #[trigger] parity_check(c, k) == covers(k, p),
    ensures
        syndrome(c, r) == p % two_pow(r) as int,
    decreases r,
{
    if r > 0 {
        let r1 = (r - 1) as nat;
        let t = two_pow(r1) as int;
        lemma_syndrome_spells(c, r1, p);
        lemma_two_pow_pos(r1);
        lemma_mod_breakdown(p, t, 2);
        assert(two_pow(r) == t * 2);
        assert(parity_check(c, r1) == covers(r1, p));
        let b = (p / t) % 2;
        assert(p / t >= 0) by (nonlinear_arith)
            requires
                p >= 0,
                t > 0,
        ;
        assert(t * b == if b == 1 {
            t
        } else {
            0
        }) by (nonlinear_arith)
            requires
                0 <= b < 2,
        ;
    } else {
        assert(two_pow(0) == 1);
    }
}

proof fn lemma_syndrome_positive(c: Seq<bool>, r: nat, k: nat)
    requires
        k < r,
        parity_check(c, k),
    ensures
        syndrome(c, r) > 0,
    decreases r,
{
    lemma_two_pow_pos(k);
    if k < r - 1 {
        lemma_syndrome_positive(c, (r - 1) as nat, k);
    }
}

/// Two distinct positions below `2^r` differ in some bit below `r`.
proof fn lemma_positions_differ(p: int, q: int, r: nat) -> (k: nat)
    requires
        0 <= p < two_pow(r),
        0 <= q < two_pow(r),
        p != q,
    ensures
        k < r,
        covers(k, p) != covers(k, q),
    decreases r,
{
    assert(two_pow(0) == 1);
    if p % 2 != q % 2 {
        0
    } else {
        if r == 0 {
            assert(p == 0 && q == 0);
        }
        let r1 = (r - 1) as nat;
        assert(two_pow(r) == 2 * two_pow(r1));
        assert(p / 2 != q / 2);
        let k1 = lemma_positions_differ(p / 2, q / 2, r1);
        lemma_two_pow_pos(k1);
        lemma_div_denominator(p, 2, two_pow(k1) as int);
        lemma_div_denominator(q, 2, two_pow(k1) as int);
        assert(two_pow(k1 + 1) == 2 * two_pow(k1));
        k1 + 1
    }
}

/// For a codeword, the decoder's checks are exactly the encoder's.
proof fn lemma_codeword_check_count(data: Seq<bool>, c: Seq<bool>)
    requires
        is_codeword_for(data, c),
    ensures
        check_count(c.len()) == c.len() - 1 - data.len(),
{
    lemma_check_count_unique(c.len(), (c.len() - 1 - data.len()) as nat);
}

/// Decoding an intact codeword reports no error and yields the encoded data.
pub proof fn lemma_round_trip(data: Seq<bool>, c: Seq<bool>)
    requires
        is_codeword_for(data, c),
    ensures
        !overall_parity(c),
        error_position(c) == 0,
        payload(c) == data,
{
    lemma_codeword_check_count(data, c);
    let r = check_count(c.len());
    assert forall|k: nat| k < r implies #[trigger] parity_check(c, k) == covers(k, 0) by {
        lemma_covers_zero(k);
    }
    lemma_syndrome_spells(c, r, 0);
    lemma_two_pow_pos(r);
}

/// Inverting any one bit of a codeword is located exactly, and inverting it
/// back restores the codeword and its data.
pub proof fn lemma_single_error_corrected(data: Seq<bool>, c: Seq<bool>, p: int)
    requires
        is_codeword_for(data, c),
        0 <= p < c.len(),
    ensures
        overall_parity(flip(c, p)),
        error_position(flip(c, p)) == p,
        flip(flip(c, p), p) == c,
        payload(c) == data,
{
    let e = flip(c, p);
    lemma_codeword_check_count(data, c);
    let r = check_count(c.len());
    lemma_overall_parity_update(c, p, !c[p]);
    assert forall|k: nat| k < r implies #[trigger] parity_check(e, k) == covers(k, p) by {
        lemma_parity_check_update(c, p, !c[p], k);
    }
    lemma_syndrome_spells(e, r, p);
    lemma_check_count(c.len());
    lemma_small_mod(p as nat, two_pow(r));
    assert(flip(e, p) == c);
}

/// Inverting any two distinct bits of a codeword is detected as an error that
/// cannot be corrected.
pub proof fn lemma_double_error_detected(data: Seq<bool>, c: Seq<bool>, p: int, q: int)
    requires
        is_codeword_for(data, c),
        0 <= p < c.len(),
        0 <= q < c.len(),
        p != q,
    ensures
        !overall_parity(flip(flip(c, p), q)),
        error_position(flip(flip(c, p), q)) != 0,
        !is_correctable(flip(flip(c, p), q)),
{
    let e1 = flip(c, p);
    let e2 = flip(e1, q);
    lemma_codeword_check_count(data, c);
    let r = check_count(c.len());
    lemma_overall_parity_update(c, p, !c[p]);
    lemma_overall_parity_update(e1, q, !e1[q]);
    let k = lemma_positions_differ(p, q, r);
    lemma_parity_check_update(c, p, !c[p], k);
    lemma_parity_check_update(e1, q, !e1[q], k);
    lemma_syndrome_positive(e2, r, k);
}

/// Encodes `bits` as an extended Hamming codeword: position 0 holds the overall
/// parity, positions that are powers of two hold the Hamming parity bits, and
/// the remaining positions hold `bits` in order. The length bound keeps the
/// codeword, with its parity bits, within what a `Vec` can hold.
pub fn encode(bits: &Vec<Bit>) -> (encoded_data: Vec<Bit>)
    requires
        bits@.len() <= usize::MAX / 8,
    ensures
        is_codeword_for(bits@, encoded_data@),
{
    let data_len = bits.len();
    let mut encoded_data: Vec<Bit> = vec![false];
    let mut whole_block_parity = false;
    let mut extra_bits: usize = 0;
    let mut next_parity: usize = 1;
    let mut data_index: usize = 0;
    assert(encoded_data@.drop_last() == Seq::<bool>::empty());
    assert(!overall_parity(Seq::<bool>::empty()));

    // Lay out the payload, reserving the power-of-two positions
    while data_index < data_len
        invariant
            data_len == bits@.len() <= usize::MAX / 8,
            data_index <= data_len,
            encoded_data@.len() == 1 + data_index + extra_bits,
            extra_bits <= data_index + 2,
            next_parity == two_pow(extra_bits as nat),
            encoded_data@.len() <= next_parity,
            extra_bits == 0 || two_pow((extra_bits - 1) as nat) < encoded_data@.len(),
            data_index == data_len && data_len > 0 ==> extra_bits == 0 || two_pow(
                (extra_bits - 1) as nat,
            ) < encoded_data@.len() - 1,
            data_len == 0 ==> extra_bits == 0,
            encoded_data@[0] == false,
            forall|k: nat| k < extra_bits ==> #[trigger] two_pow(k) < encoded_data@.len(),
            forall|k: nat| k < extra_bits ==> encoded_data@[two_pow(k) as int] == false,
            payload(encoded_data@) == bits@.subrange(0, data_index as int),
            whole_block_parity == overall_parity(encoded_data@),
        decreases 2 * (data_len - data_index) + (data_index + 2 - extra_bits),
    {
        let ghost prev = encoded_data@;
        let position = encoded_data.len();
        if position == next_parity {
            encoded_data.push(false);
            proof {
                assert(encoded_data@.drop_last() == prev);
                assert(is_parity_position(position as int)) by {
                    assert(two_pow(extra_bits as nat) == position);
                }
                lemma_two_pow_ge_double(extra_bits as nat);
                assert forall|k: nat| k < extra_bits + 1 implies encoded_data@[two_pow(k) as int]
                    == false && #[trigger] two_pow(k) < encoded_data@.len() by {
                    if k < extra_bits {
                        lemma_two_pow_strict(k, extra_bits as nat);
                    }
                }
            }
            next_parity = next_parity * 2;
            extra_bits = extra_bits + 1;
        } else {
            let new_bit = bits[data_index];
            encoded_data.push(new_bit);
            whole_block_parity = whole_block_parity ^ new_bit;
            proof {
                assert(encoded_data@.drop_last() == prev);
                lemma_between_powers(position as int, extra_bits as nat);
                assert(bits@.subrange(0, data_index + 1) == bits@.subrange(
                    0,
                    data_index as int,
                ).push(new_bit));
                assert forall|k: nat| k < extra_bits implies encoded_data@[two_pow(k) as int]
                    == false by {
                    assert(two_pow(k) < prev.len());
                }
            }
            data_index = data_index + 1;
        }
    }
    assert(bits@.subrange(0, data_len as int) == bits@);
    assert(forall|k: nat| k < extra_bits ==> encoded_data@[#[trigger] two_pow(k) as int] == false);
    let total_len = encoded_data.len();

    // Fill in the Hamming parity bits
    let mut i: usize = 0;
    let mut mask: usize = 1;
    while i < extra_bits
        invariant
            total_len == encoded_data@.len() == 1 + data_len + extra_bits,
            total_len <= usize::MAX / 2,
            data_len == bits@.len(),
            parity_bits_for(data_len as nat, extra_bits as nat),
            i <= extra_bits,
            mask == two_pow(i as nat),
            encoded_data@[0] == false,
            forall|k: nat| k < extra_bits ==> #[trigger] two_pow(k) < total_len,
            forall|k: nat| i <= k < extra_bits ==> encoded_data@[two_pow(k) as int] == false,
            forall|k: nat| k < i ==> !#[trigger] parity_check(encoded_data@, k),
            payload(encoded_data@) == bits@,
            whole_block_parity == overall_parity(encoded_data@),
        decreases extra_bits - i,
    {
        proof {
            if i + 1 < extra_bits {
                lemma_two_pow_strict(i as nat, (extra_bits - 1) as nat);
            }
            assert(mask < total_len);
            lemma_two_pow_pos(i as nat);
            assert(encoded_data@.subrange(0, 1).drop_last() == Seq::<bool>::empty());
            lemma_covers_zero(i as nat);
            assert(!parity_check(Seq::<bool>::empty(), i as nat));
        }
        let mut parity_bit = false;
        let mut j: usize = 1;
        while j < total_len
            invariant
                total_len == encoded_data@.len(),
                1 <= j <= total_len,
                mask == two_pow(i as nat),
                mask > 0,
                parity_bit == parity_check(encoded_data@.subrange(0, j as int), i as nat),
            decreases total_len - j,
        {
            proof {
                assert(encoded_data@.subrange(0, j + 1).drop_last() == encoded_data@.subrange(
                    0,
                    j as int,
                ));
            }
            if (j / mask) % 2 == 1 {
                parity_bit = parity_bit ^ encoded_data[j];
            }
            j = j + 1;
        }
        proof {
            assert(encoded_data@.subrange(0, total_len as int) == encoded_data@);
        }
        let ghost prev = encoded_data@;
        encoded_data.set(mask, parity_bit);
        whole_block_parity = whole_block_parity ^ parity_bit;
        proof {
            assert(encoded_data@ == prev.update(mask as int, parity_bit));
            lemma_overall_parity_update(prev, mask as int, parity_bit);
            assert(is_parity_position(mask as int)) by {
                assert(two_pow(i as nat) == mask);
            }
            lemma_payload_update(prev, mask as int, parity_bit);
            assert forall|k: nat| k < i + 1 implies !#[trigger] parity_check(
                encoded_data@,
                k,
            ) by {
                lemma_parity_check_update(prev, mask as int, parity_bit, k);
                lemma_covers_power(k, i as nat);
            }
            assert forall|k: nat| i + 1 <= k < extra_bits implies encoded_data@[two_pow(
                k,
            ) as int] == false by {
                lemma_two_pow_strict(i as nat, k);
            }
        }
        mask = mask * 2;
        i = i + 1;
    }

    // Set the bit for the whole block parity
    let ghost prev = encoded_data@;
    encoded_data.set(0, whole_block_parity);
    proof {
        lemma_overall_parity_update(prev, 0, whole_block_parity);
        lemma_payload_update(prev, 0, whole_block_parity);
        assert forall|k: nat| k < extra_bits implies !#[trigger] parity_check(
            encoded_data@,
            k,
        ) by {
            lemma_parity_check_update(prev, 0, whole_block_parity, k);
            lemma_covers_zero(k);
        }
    }
    encoded_data
}

/// Decodes an extended Hamming codeword, inverting back in place the single
/// wrong bit if the checks locate one. With even overall parity and a failing
/// check, or with odd overall parity and checks that point past the end of
/// the word, the error is reported as uncorrectable and `bits` is left alone.
/// The length bound is the largest `Vec` that can be allocated.
pub fn decode(bits: &mut Vec<Bit>) -> (result: HammingDecodeResult)
    requires
        old(bits)@.len() <= usize::MAX / 2,
    ensures
        ({
            let c = old(bits)@;
            match result {
                HammingDecodeResult::NoError { decoded_bits } => {
                    &&& !overall_parity(c)
                    &&& error_position(c) == 0
                    &&& decoded_bits@ == payload(c)
                    &&& final(bits)@ == c
                },
                HammingDecodeResult::OneError { position, decoded_bits } => {
                    &&& overall_parity(c)
                    &&& position == error_position(c)
                    &&& position < c.len()
                    &&& final(bits)@ == flip(c, position as int)
                    &&& decoded_bits@ == payload(flip(c, position as int))
                },
                HammingDecodeResult::DoubleError => {
                    &&& !is_correctable(c)
                    &&& final(bits)@ == c
                },
            }
        }),
{
    let ghost c = bits@;
    let len = bits.len();

    // Count the parity checks
    let mut parity_bits_number: usize = 0;
    let mut mask: usize = 1;
    while mask < len
        invariant
            len == c.len() <= usize::MAX / 2,
            mask == two_pow(parity_bits_number as nat),
            parity_bits_number < mask,
            parity_bits_number == 0 || two_pow((parity_bits_number - 1) as nat) < len,
        decreases len - parity_bits_number,
    {
        mask = mask * 2;
        parity_bits_number = parity_bits_number + 1;
    }
    proof {
        lemma_check_count_unique(len as nat, parity_bits_number as nat);
        if parity_bits_number > 0 {
            lemma_two_pow_ge_double((parity_bits_number - 1) as nat);
        }
    }

    let mut block_parity = false;
    let mut i: usize = 0;
    while i < len
        invariant
            len == c.len() == bits@.len(),
            c == bits@,
            i <= len,
            block_parity == overall_parity(c.subrange(0, i as int)),
        decreases len - i,
    {
        assert(c.subrange(0, i + 1).drop_last() == c.subrange(0, i as int));
        block_parity = block_parity ^ bits[i];
        i = i + 1;
    }
    assert(c.subrange(0, len as int) == c);

    // Add up the failing checks
    let mut position: usize = 0;
    let mut k: usize = 0;
    let mut mask: usize = 1;
    while k < parity_bits_number
        invariant
            len == c.len() == bits@.len() <= usize::MAX / 2,
            c == bits@,
            k <= parity_bits_number,
            parity_bits_number == check_count(len as nat),
            len <= two_pow(parity_bits_number as nat),
            parity_bits_number == 0 || two_pow((parity_bits_number - 1) as nat) < len,
            mask == two_pow(k as nat),
            position == syndrome(c, k as nat),
            position < mask,
        decreases parity_bits_number - k,
    {
        proof {
            lemma_two_pow_pos(k as nat);
            if k + 1 < parity_bits_number {
                lemma_two_pow_strict(k as nat, (parity_bits_number - 1) as nat);
            }
            assert(c.subrange(0, 1).drop_last() == Seq::<bool>::empty());
            assert(!parity_check(Seq::<bool>::empty(), k as nat));
            lemma_covers_zero(k as nat);
        }
        let mut parity_bits_sum = false;
        let mut j: usize = 1;
        if len > 0 {
            while j < len
                invariant
                    len == c.len() == bits@.len(),
                    c == bits@,
                    1 <= j <= len,
                    mask == two_pow(k as nat),
                    mask > 0,
                    parity_bits_sum == parity_check(c.subrange(0, j as int), k as nat),
                decreases len - j,
            {
                assert(c.subrange(0, j + 1).drop_last() == c.subrange(0, j as int));
                if (j / mask) % 2 == 1 && bits[j] {
                    parity_bits_sum = !parity_bits_sum;
                }
                j = j + 1;
            }
            assert(c.subrange(0, len as int) == c);
        } else {
            assert(c == Seq::<bool>::empty());
        }
        if parity_bits_sum {
            position = position + mask;
        }
        mask = mask * 2;
        k = k + 1;
    }

    let decoded_bits = len - parity_bits_number;
    if !block_parity && position == 0 {
        let decoded_bits = get_inner_data(bits, decoded_bits);
        HammingDecodeResult::NoError { decoded_bits }
    } else if block_parity && position < len {
        // One mistake
        let wrong = bits[position];
        bits.set(position, !wrong);
        let decoded_bits = get_inner_data(bits, decoded_bits);
        HammingDecodeResult::OneError { position, decoded_bits }
    } else {
        // Two mistakes
        HammingDecodeResult::DoubleError
    }
}

/// Collects the payload bits of a codeword.
fn get_inner_data(encoded_bits: &Vec<Bit>, decoded_size: usize) -> (inner_data: Vec<Bit>)
    requires
        encoded_bits@.len() <= usize::MAX / 2,
    ensures
        inner_data@ == payload(encoded_bits@),
{
    let ghost c = encoded_bits@;
    let mut inner_data: Vec<Bit> = Vec::with_capacity(decoded_size);
    let ghost mut power_counter: nat = 0;
    let mut next_power: usize = 1;
    if encoded_bits.len() <= 1 {
        return inner_data;
    }
    let mut i: usize = 1;
    while i < encoded_bits.len()
        invariant
            c == encoded_bits@,
            c.len() <= usize::MAX / 2,
            1 <= i <= c.len(),
            next_power == two_pow(power_counter),
            i <= next_power,
            power_counter == 0 || two_pow((power_counter - 1) as nat) < i,
            inner_data@ == payload(c.subrange(0, i as int)),
        decreases c.len() - i,
    {
        let ghost before = c.subrange(0, i as int);
        assert(c.subrange(0, i + 1).drop_last() == before);
        if next_power == i {
            assert(is_parity_position(i as int)) by {
                assert(two_pow(power_counter) == i);
            }
            next_power = next_power * 2;
            proof {
                power_counter = power_counter + 1;
            }
        } else {
            proof {
                lemma_between_powers(i as int, power_counter);
            }
            inner_data.push(encoded_bits[i]);
        }
        i = i + 1;
    }
    assert(c.subrange(0, c.len() as int) == c);
    inner_data
}

/// Bit `j` of byte `b`, counting from the most significant bit (`j == 0`).
pub open spec fn byte_bit(b: u8, j: int) -> bool {
    (b as int / two_pow((7 - j) as nat) as int) % 2 == 1
}

/// The bits of `bytes`, eight per byte, most significant bit first.
pub open spec fn bits_of_bytes(bytes: Seq<u8>) -> Seq<bool> {
    Seq::new(8 * bytes.len(), |i: int| byte_bit(bytes[i / 8], i % 8))
}

/// The number that `s` spells in binary, most significant bit first.
pub open spec fn bits_value(s: Seq<bool>) -> nat
    decreases s.len(),
{
    if s.len() == 0 {
        0
    } else {
        2 * bits_value(s.drop_last()) + if s.last() {
            1nat
        } else {
            0
        }
    }
}

/// The bytes that `bits` spells, eight bits per byte, most significant bit
/// first. A trailing group of fewer than eight bits gives a zero byte.
pub open spec fn bytes_of_bits(bits: Seq<bool>) -> Seq<u8> {
    Seq::new(
        (bits.len() + 7) / 8,
        |k: int|
            if 8 * k + 8 <= bits.len() {
                bits_value(bits.subrange(8 * k, 8 * k + 8)) as u8
            } else {
                0u8
            },
    )
}

/// The text of `bits`: one character `'0'` or `'1'` per bit.
pub open spec fn bits_text(bits: Seq<bool>) -> Seq<char> {
    Seq::new(
        bits.len(),
        |i: int|
            if bits[i] {
                '1'
            } else {
                '0'
            },
    )
}

proof fn lemma_two_pow_byte()
    ensures
        two_pow(3) == 8,
        two_pow(4) == 16,
        two_pow(7) == 128,
        two_pow(8) == 256,
{
    assert(two_pow(0) == 1);
    assert(two_pow(1) == 2);
    assert(two_pow(2) == 4);
    assert(two_pow(3) == 8);
    assert(two_pow(4) == 16);
    assert(two_pow(5) == 32);
    assert(two_pow(6) == 64);
}

/// The codeword of a byte has thirteen bits: four Hamming parity bits and
/// the overall parity bit besides the eight payload bits.
pub(crate) proof fn lemma_byte_codeword_len(data: Seq<bool>, c: Seq<bool>)
    requires
        data.len() == 8,
        is_codeword_for(data, c),
    ensures
        c.len() == 13,
{
    let r = (c.len() - 9) as nat;
    lemma_two_pow_byte();
    if r < 4 {
        if r < 3 {
            lemma_two_pow_strict(r, 3);
        }
    } else if r > 4 {
        lemma_two_pow_ge_double((r - 1) as nat);
        lemma_two_pow_strict(4, (r - 1) as nat);
    }
}

proof fn lemma_payload_len(c: Seq<bool>)
    requires
        c.len() >= 1,
    ensures
        payload(c).len() == c.len() - 1 - check_count(c.len()),
    decreases c.len(),
{
    lemma_check_count(c.len());
    if c.len() >= 2 {
        let len = c.len();
        let k = check_count(len);
        let d = c.drop_last();
        lemma_payload_len(d);
        if len - 1 == two_pow((k - 1) as nat) {
            assert(is_parity_position(len - 1));
            if k >= 2 {
                lemma_two_pow_strict((k - 2) as nat, (k - 1) as nat);
            }
            lemma_check_count_unique(d.len(), (k - 1) as nat);
        } else {
            lemma_between_powers(len - 1, k);
            lemma_check_count_unique(d.len(), k);
        }
    }
}

/// A word of thirteen bits carries eight payload bits.
pub(crate) proof fn lemma_word_payload_len(c: Seq<bool>)
    requires
        c.len() == 13,
    ensures
        payload(c).len() == 8,
{
    lemma_two_pow_byte();
    lemma_check_count_unique(13, 4);
    lemma_payload_len(c);
}

proof fn lemma_bits_value_bound(s: Seq<bool>)
    ensures
        bits_value(s) < two_pow(s.len()),
    decreases s.len(),
{
    if s.len() > 0 {
        lemma_bits_value_bound(s.drop_last());
    }
}

/// The first `m` bits of a byte spell the byte shifted right by `8 - m`.
proof fn lemma_byte_prefix_value(b: u8, m: nat)
    requires
        m <= 8,
    ensures
        bits_value(Seq::new(m, |j: int| byte_bit(b, j))) == b as int / two_pow(
            (8 - m) as nat,
        ) as int,
    decreases m,
{
    let s = Seq::new(m, |j: int| byte_bit(b, j));
    let x = b as int;
    if m == 0 {
        lemma_two_pow_byte();
    } else {
        let m1 = (m - 1) as nat;
        lemma_byte_prefix_value(b, m1);
        assert(s.drop_last() == Seq::new(m1, |j: int| byte_bit(b, j)));
        let e = (8 - m) as nat;
        let t = two_pow(e) as int;
        lemma_two_pow_pos(e);
        assert(two_pow((8 - m1) as nat) == 2 * two_pow(e));
        lemma_div_denominator(x, t, 2);
        assert(x / t >= 0) by (nonlinear_arith)
            requires
                x >= 0,
                t > 0,
        ;
        let y = x / t;
        assert(2 * (y / 2) + y % 2 == y);
        assert(t * 2 == 2 * t);
    }
}

/// The eight bits of a byte spell the byte.
pub(crate) proof fn lemma_byte_value(b: u8)
    ensures
        bits_value(Seq::new(8, |j: int| byte_bit(b, j))) == b,
{
    lemma_byte_prefix_value(b, 8);
    assert(two_pow((8 - 8) as nat) == 1);
}

/// Spelling bytes as bits and reading them back gives the same bytes.
pub proof fn lemma_bytes_round_trip(bytes: Seq<u8>)
    ensures
        bytes_of_bits(bits_of_bytes(bytes)) == bytes,
{
    let bits = bits_of_bytes(bytes);
    let back = bytes_of_bits(bits);
    assert(back.len() == bytes.len());
    assert forall|k: int| 0 <= k < bytes.len() implies back[k] == bytes[k] by {
        let chunk = bits.subrange(8 * k, 8 * k + 8);
        assert forall|j: int| 0 <= j < 8 implies chunk[j] == byte_bit(bytes[k], j) by {
            assert((8 * k + j) / 8 == k);
            assert((8 * k + j) % 8 == j);
        }
        assert(chunk == Seq::new(8, |j: int| byte_bit(bytes[k], j)));
        lemma_byte_value(bytes[k]);
    }
    assert(back == bytes);
}

/// Spells `bytes` as bits, eight per byte, most significant bit first.
pub fn bit_vector_from_bytes(bytes: &Vec<u8>) -> (bits: Vec<Bit>)
    requires
        8 * bytes@.len() <= usize::MAX,
    ensures
        bits@ == bits_of_bytes(bytes@),
{
    let mut bits: Vec<Bit> = Vec::new();
    let mut i: usize = 0;
    while i < bytes.len()
        invariant
            8 * bytes@.len() <= usize::MAX,
            i <= bytes@.len(),
            bits@ == bits_of_bytes(bytes@.subrange(0, i as int)),
        decreases bytes@.len() - i,
    {
        let byte = bytes[i];
        let ghost start = bits@;
        let mut divisor: u8 = 128;
        let mut j: usize = 0;
        proof {
            lemma_two_pow_byte();
        }
        while j < 8
            invariant
                j <= 8,
                divisor as int == two_pow((7 - j) as nat) || (j == 8 && divisor == 0),
                bits@.len() == start.len() + j,
                bits@.subrange(0, start.len() as int) == start,
                forall|m: int| 0 <= m < j ==> bits@[start.len() + m] == byte_bit(byte, m),
            decreases 8 - j,
        {
            proof {
                lemma_two_pow_byte();
                if j < 7 {
                    assert(two_pow((7 - j) as nat) == 2 * two_pow((7 - j - 1) as nat));
                }
                lemma_two_pow_pos((7 - j) as nat);
            }
            bits.push((byte / divisor) % 2 == 1);
            divisor = divisor / 2;
            j = j + 1;
            proof {
                if j == 8 {
                    assert(two_pow(0) == 1);
                }
            }
        }
        proof {
            let next = bytes@.subrange(0, i + 1);
            assert forall|p: int| 0 <= p < 8 * next.len() implies bits@[p] == byte_bit(
                next[p / 8],
                p % 8,
            ) by {
                if p < start.len() {
                    assert(bytes@.subrange(0, i as int)[p / 8] == next[p / 8]);
                    assert(start[p] == bits@[p]);
                } else {
                    assert(p / 8 == i);
                    assert(bits@[start.len() + (p - start.len())] == byte_bit(byte, p % 8));
                }
            }
            assert(bits@ == bits_of_bytes(next));
        }
        i = i + 1;
    }
    assert(bytes@.subrange(0, bytes@.len() as int) == bytes@);
    bits
}

/// Reads `bits` back as bytes, eight bits per byte, most significant bit
/// first; a trailing group of fewer than eight bits gives a zero byte.
pub fn bit_vector_to_bytes(bits: &Vec<Bit>) -> (byte_vector: Vec<u8>)
    ensures
        byte_vector@ == bytes_of_bits(bits@),
{
    let ghost s = bits@;
    let len = bits.len();
    let bytes_number = len / 8 + if len % 8 > 0 {
        1
    } else {
        0
    };
    let mut byte_vector: Vec<u8> = vec![0; bytes_number];
    let mut byte: u8 = 0;
    let mut i: usize = 0;
    while i < len
        invariant
            len == s.len() == bits@.len(),
            s == bits@,
            bytes_number == (len + 7) / 8,
            i <= len,
            byte_vector@.len() == bytes_number,
            byte as int == bits_value(s.subrange(i - i % 8, i as int)),
            forall|k: int|
                0 <= k < bytes_number ==> #[trigger] byte_vector@[k] == if 8 * k + 8 <= i {
                    bits_value(s.subrange(8 * k, 8 * k + 8)) as u8
                } else {
                    0u8
                },
        decreases len - i,
    {
        let ghost start = i - i % 8;
        proof {
            assert(s.subrange(start, i + 1).drop_last() == s.subrange(start, i as int));
            lemma_bits_value_bound(s.subrange(start, i as int));
            assert(i % 8 < 8);
            assert(two_pow((i % 8) as nat) <= 128) by {
                lemma_two_pow_byte();
                if i % 8 < 7 {
                    lemma_two_pow_strict((i % 8) as nat, 7);
                }
            }
        }
        byte = byte * 2 + if bits[i] {
            1
        } else {
            0
        };
        if (i + 1) % 8 == 0 {
            byte_vector.set(i / 8, byte);
            byte = 0;
            proof {
                assert(s.subrange(i + 1, i + 1) == Seq::<bool>::empty());
            }
        }
        i = i + 1;
    }
    assert(byte_vector@ == bytes_of_bits(s));
    byte_vector
}

/// Writes `bits` as text, `'1'` for a set bit and `'0'` for a clear one.
pub fn bit_vector_to_string(bits: &Vec<Bit>) -> (text: String)
    ensures
        text@ == bits_text(bits@),
{
    let mut text = String::new();
    let mut i: usize = 0;
    proof {
        reveal_strlit("1");
        reveal_strlit("0");
    }
    while i < bits.len()
        invariant
            i <= bits@.len(),
            text@ == bits_text(bits@.subrange(0, i as int)),
        decreases bits@.len() - i,
    {
        proof {
            reveal_strlit("1");
            reveal_strlit("0");
        }
        if bits[i] {
            text.append("1");
        } else {
            text.append("0");
        }
        i = i + 1;
        assert(text@ == bits_text(bits@.subrange(0, i as int)));
    }
    assert(bits@.subrange(0, bits@.len() as int) == bits@);
    text
}

} // verus!
