//! Aggregate statistics over bitstring count tables: parsing binary-digit
//! labels, population counts, and the weighted magnetization sums of a
//! measurement record.

use vstd::prelude::*;

use crate::tensor::fits_i64;

verus! {

/// The number of set bits among the low `w` bits of `v`.
pub open spec fn pop_bits(v: u64, w: nat) -> nat
    decreases w,
{
    if w == 0 {
        0nat
    } else {
        ((v & 1) as nat) + pop_bits(v >> 1, (w - 1) as nat)
    }
}

/// The number of set bits of `v` (its population count).
pub open spec fn popcount(v: u64) -> nat {
    pop_bits(v, 64)
}

/// Counts the set bits of `value`.
pub fn count_set_bits(value: u64) -> (r: u64)
    ensures
        r == popcount(value),
        r <= 64,
{
    let mut acc: u64 = 0;
    let mut v: u64 = value;
    let mut w: u64 = 0;
    while w < 64
        invariant
            w <= 64,
            acc <= w,
            acc + pop_bits(v, (64 - w) as nat) == popcount(value),
        decreases 64 - w,
    {
        proof {
            assert((v & 1) <= 1) by (bit_vector);
        }
        acc = acc + (v & 1);
        v = v >> 1;
        w = w + 1;
    }
    acc
}

/// Whether `ch` is a binary digit.
pub open spec fn is_bit_char(ch: char) -> bool {
    ch == '0' || ch == '1'
}

/// Whether every character of `s` is a binary digit.
pub open spec fn all_bit_chars(s: Seq<char>) -> bool {
    forall|i: int| 0 <= i < s.len() ==> is_bit_char(#[trigger] s[i])
}

/// The value of `s` read as a big-endian binary numeral.
pub open spec fn binary_value(s: Seq<char>) -> nat
    decreases s.len(),
{
    if s.len() == 0 {
        0nat
    } else {
        2 * binary_value(s.drop_last()) + (if s.last() == '1' {
            1nat
        } else {
            0nat
        })
    }
}

/// Whether `s` is a label that parses: nonempty, made of binary digits,
/// with a value that fits 64 bits.
pub open spec fn valid_bitstring(s: Seq<char>) -> bool {
    s.len() >= 1 && all_bit_chars(s) && binary_value(s) < 0x10000000000000000
}

/// The 64-bit two's-complement reading of an unsigned value below 2^64.
pub open spec fn wrap_to_i64(v: nat) -> int {
    if v < 0x8000000000000000 {
        v as int
    } else {
        v - 0x10000000000000000
    }
}

/// A longer prefix of a numeral never has a smaller value.
proof fn lemma_binary_value_prefix(s: Seq<char>, j: int)
    requires
        0 <= j <= s.len(),
    ensures
        binary_value(s.take(j)) <= binary_value(s),
    decreases s.len() - j,
{
    if j < s.len() {
        assert(s.take(j + 1).drop_last() =~= s.take(j));
        lemma_binary_value_prefix(s, j + 1);
    } else {
        assert(s.take(j) =~= s);
    }
}

/// Casting to `i64` and back restores a 64-bit value.
proof fn lemma_i64_round_trip(a: u64)
    ensures
        ((a as i64) as u64) == a,
        (a as i64) as int == wrap_to_i64(a as nat),
{
    assert(((a as i64) as u64) == a) by (bit_vector);
    assert(a < 0x8000000000000000 ==> (a as i64) == a) by (bit_vector);
    assert(a >= 0x8000000000000000 ==> (a as i64) as int == a - 0x10000000000000000)
        by (bit_vector);
}

/// Parses a label of binary digits into the signed 64-bit value with the
/// same bit pattern.  Fails on an empty label, a character other than a
/// binary digit, or a value that does not fit 64 bits, and succeeds on
/// every other input.
pub fn bitstring_to_int(bitstring: &str) -> (r: Result<i64, String>)
    ensures
        r is Ok <==> valid_bitstring(bitstring@),
        r matches Ok(v) ==> v as int == wrap_to_i64(binary_value(bitstring@)),
{
    let len = bitstring.unicode_len();
    if len == 0 {
        return Err("Invalid bitstring: cannot parse integer from empty string".to_owned());
    }
    let mut acc: u64 = 0;
    let mut k: usize = 0;
    while k < len
        invariant
            k <= len,
            len == bitstring@.len(),
            all_bit_chars(bitstring@.take(k as int)),
            acc == binary_value(bitstring@.take(k as int)),
        decreases len - k,
    {
        let ch = bitstring.get_char(k);
        if !(ch == '0' || ch == '1') {
            return Err("Invalid bitstring: invalid digit found in string".to_owned());
        }
        let d: u64 = if ch == '1' {
            1
        } else {
            0
        };
        proof {
            assert(bitstring@.take(k as int + 1).drop_last() =~= bitstring@.take(k as int));
            assert(bitstring@.take(k as int + 1).last() == bitstring@[k as int]);
        }
        if acc >= 0x8000000000000000 {
            proof {
                lemma_binary_value_prefix(bitstring@, k as int + 1);
            }
            return Err("Invalid bitstring: number too large to fit in target type".to_owned());
        }
        acc = acc * 2 + d;
        k = k + 1;
    }
    proof {
        assert(bitstring@.take(len as int) =~= bitstring@);
        lemma_i64_round_trip(acc);
    }
    Ok(acc as i64)
}

/// The magnetization contribution of one bit pattern seen `cnt` times:
/// each set bit counts +1, each clear bit of the `size`-bit record counts
/// -1, weighted by the occurrence count.
pub open spec fn magnetization_term(size: int, bits: u64, cnt: int) -> int {
    (2 * popcount(bits) - size) * cnt
}

/// The magnetization contribution of `count` occurrences of the pattern
/// `bitstring` in records of `size` bits.
pub fn partial_magnetization(size: i64, bitstring: i64, count: i64) -> (r: i64)
    requires
        fits_i64(2 * popcount(bitstring as u64) - size),
        fits_i64(magnetization_term(size as int, bitstring as u64, count as int)),
    ensures
        r as int == magnetization_term(size as int, bitstring as u64, count as int),
{
    let p = count_set_bits(bitstring as u64);
    let inner: i64 = 2 * (p as i64) - size;
    inner * count
}

/// A table of measurement outcomes: the number of bits per record and, for
/// each observed bit pattern, how many times it occurred.
#[derive(Debug, PartialEq)]
pub struct Measurement {
    /// The number of bits of each recorded pattern.
    pub bitstring_size: i64,
    /// Observed patterns, as labels of binary digits, with their counts.
    pub counts: Vec<(String, i64)>,
}

/// Whether every label of the table parses as a bit pattern.
pub open spec fn all_keys_valid(entries: Seq<(String, i64)>) -> bool {
    forall|i: int| 0 <= i < entries.len() ==> valid_bitstring(#[trigger] entries[i].0@)
}

/// The magnetization sum of the first `k` entries.
pub open spec fn magnetization_sum(size: int, entries: Seq<(String, i64)>, k: int) -> int
    decreases k,
{
    if k <= 0 {
        0
    } else {
        magnetization_sum(size, entries, k - 1) + magnetization_term(
            size,
            binary_value(entries[k - 1].0@) as u64,
            entries[k - 1].1 as int,
        )
    }
}

/// The total occurrence count of the first `k` entries.
pub open spec fn occurrence_sum(entries: Seq<(String, i64)>, k: int) -> int
    decreases k,
{
    if k <= 0 {
        0
    } else {
        occurrence_sum(entries, k - 1) + entries[k - 1].1 as int
    }
}

/// The machine-size side condition of the magnetization fold: every
/// partial sum and every per-entry term fits an `i64`.
pub open spec fn sums_fit(size: int, entries: Seq<(String, i64)>) -> bool {
    &&& forall|k: int|
        0 <= k <= entries.len() ==> fits_i64(#[trigger] magnetization_sum(size, entries, k))
    &&& forall|k: int| 0 <= k <= entries.len() ==> fits_i64(#[trigger] occurrence_sum(entries, k))
    &&& forall|k: int|
        0 <= k < entries.len() ==> fits_i64(
            2 * popcount(binary_value(#[trigger] entries[k].0@) as u64) - size,
        ) && fits_i64(
            magnetization_term(size, binary_value(entries[k].0@) as u64, entries[k].1 as int),
        )
}

impl Measurement {
    /// Builds a table from a record size and labelled counts.
    pub fn new(bitstring_size: i64, counts: Vec<(String, i64)>) -> (m: Measurement)
        ensures
            m.bitstring_size == bitstring_size,
            m.counts == counts,
    {
        Measurement { bitstring_size, counts }
    }

    /// The summed magnetization of the table together with the total
    /// occurrence count (their quotient is the average magnetization).
    /// Fails exactly when some label does not parse as a bit pattern, and
    /// fails before accumulating anything.
    #[verifier::loop_isolation(false)]
    pub fn total_magnetization(&self) -> (r: Result<(i64, i64), String>)
        requires
            all_keys_valid(self.counts@) ==> sums_fit(self.bitstring_size as int, self.counts@),
        ensures
            r is Ok <==> all_keys_valid(self.counts@),
            r matches Ok(p) ==> p.0 as int == magnetization_sum(
                self.bitstring_size as int,
                self.counts@,
                self.counts@.len() as int,
            ) && p.1 as int == occurrence_sum(self.counts@, self.counts@.len() as int),
    {
        let n_entries = self.counts.len();
        let mut vals: Vec<i64> = Vec::new();
        let mut k: usize = 0;
        while k < n_entries
            invariant
                k <= n_entries,
                vals@.len() == k,
                forall|j: int| 0 <= j < k ==> valid_bitstring(#[trigger] self.counts@[j].0@),
                forall|j: int|
                    0 <= j < k ==> #[trigger] vals@[j] as int == wrap_to_i64(
                        binary_value(self.counts@[j].0@),
                    ),
            decreases n_entries - k,
        {
            let parsed = bitstring_to_int(self.counts[k].0.as_str());
            match parsed {
                Err(e) => {
                    return Err(e);
                },
                Ok(v) => {
                    vals.push(v);
                },
            }
            k = k + 1;
        }
        let ghost size = self.bitstring_size as int;
        let mut total_mag: i64 = 0;
        let mut total_counts: i64 = 0;
        let mut t: usize = 0;
        while t < n_entries
            invariant
                t <= n_entries,
                total_mag as int == magnetization_sum(size, self.counts@, t as int),
                total_counts as int == occurrence_sum(self.counts@, t as int),
            decreases n_entries - t,
        {
            let v = vals[t];
            let cnt = self.counts[t].1;
            proof {
                let bv = binary_value(self.counts@[t as int].0@);
                lemma_i64_round_trip(bv as u64);
                assert(v == (bv as u64) as i64);
                assert(v as u64 == bv as u64);
            }
            let pm = partial_magnetization(self.bitstring_size, v, cnt);
            proof {
                let entries = self.counts@;
                let bv = binary_value(entries[t as int].0@);
                assert(all_keys_valid(entries));
                assert(magnetization_sum(size, entries, t as int + 1) == magnetization_sum(
                    size,
                    entries,
                    t as int,
                ) + magnetization_term(size, bv as u64, entries[t as int].1 as int));
                assert(fits_i64(magnetization_sum(size, entries, t as int + 1)));
                assert(occurrence_sum(entries, t as int + 1) == occurrence_sum(entries, t as int)
                    + entries[t as int].1 as int);
                assert(fits_i64(occurrence_sum(entries, t as int + 1)));
            }
            total_mag = total_mag + pm;
            total_counts = total_counts + cnt;
            t = t + 1;
        }
        Ok((total_mag, total_counts))
    }
}

} // verus!
