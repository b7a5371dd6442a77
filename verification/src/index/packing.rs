//! Packing of residuals: bucket numbers to bits, bits to bytes.

use vstd::prelude::*;

verus! {

/// All elements are zero or one.
pub open spec fn are_bits(bits: Seq<u8>) -> bool {
    forall|i: int| 0 <= i < bits.len() ==> #[trigger] bits[i] <= 1
}

/// The byte of eight bits from position `i` on, the first bit being the highest.
pub open spec fn byte_at(bits: Seq<u8>, i: int) -> int {
    128 * bits[i] + 64 * bits[i + 1] + 32 * bits[i + 2] + 16 * bits[i + 3] + 8 * bits[i + 4] + 4
        * bits[i + 5] + 2 * bits[i + 6] + bits[i + 7]
}

/// The bytes of all bits, eight to a byte.
pub open spec fn packed(bits: Seq<u8>) -> Seq<u8> {
    Seq::new(bits.len() / 8, |i: int| byte_at(bits, 8 * i) as u8)
}

/// Packs bits into bytes, eight to a byte, the first bit being the highest.
pub fn packbits(bits: &Vec<u8>) -> (r: Vec<u8>)
    requires
        bits@.len() % 8 == 0,
        are_bits(bits@),
    ensures
        r@ == packed(bits@),
{
    let mut r: Vec<u8> = Vec::new();
    let n: usize = bits.len() / 8;
    let mut i: usize = 0;
    while i < n
        invariant
            i <= n,
            n == bits@.len() / 8,
            bits@.len() % 8 == 0,
            bits@.len() <= usize::MAX,
            are_bits(bits@),
            r@ == packed(bits@).take(i as int),
        decreases n - i,
    {
        let b: usize = 8 * i;
        let byte: u8 = 128 * bits[b] + 64 * bits[b + 1] + 32 * bits[b + 2] + 16 * bits[b + 3] + 8
            * bits[b + 4] + 4 * bits[b + 5] + 2 * bits[b + 6] + bits[b + 7];
        r.push(byte);
        i += 1;
        assert(r@ =~= packed(bits@).take(i as int));
    }
    assert(packed(bits@).take(n as int) =~= packed(bits@));
    r
}

/// The weight of a bit in its byte.
pub open spec fn weight(j: int) -> int {
    if j == 0 {
        128
    } else if j == 1 {
        64
    } else if j == 2 {
        32
    } else if j == 3 {
        16
    } else if j == 4 {
        8
    } else if j == 5 {
        4
    } else if j == 6 {
        2
    } else {
        1
    }
}

/// Every bit can be read back from its byte.
pub proof fn packed_bits_read_back(bits: Seq<u8>, i: int, j: int)
    requires
        bits.len() % 8 == 0,
        are_bits(bits),
        0 <= j < 8,
        0 <= 8 * i + j < bits.len(),
    ensures
        0 <= i < packed(bits).len(),
        (packed(bits)[i] as int / weight(j)) % 2 == bits[8 * i + j],
{
    let b = 8 * i;
    assert(bits[b] <= 1 && bits[b + 1] <= 1 && bits[b + 2] <= 1 && bits[b + 3] <= 1 && bits[b + 4]
        <= 1 && bits[b + 5] <= 1 && bits[b + 6] <= 1 && bits[b + 7] <= 1);
    assert(packed(bits)[i] == byte_at(bits, b));
    assert(j == 0 || j == 1 || j == 2 || j == 3 || j == 4 || j == 5 || j == 6 || j == 7);
}

/// The bits of a bucket number that the shifts select.
pub open spec fn value_bits(value: i64, shifts: Seq<u32>) -> Seq<u8> {
    shifts.map_values(|s: u32| ((value >> s) & 1) as u8)
}

/// The bits of the first `n` bucket numbers.
pub open spec fn row_bits(row: Seq<i64>, shifts: Seq<u32>, n: int) -> Seq<u8>
    decreases n,
{
    if n <= 0 {
        Seq::empty()
    } else {
        row_bits(row, shifts, n - 1) + value_bits(row[n - 1], shifts)
    }
}

proof fn row_bits_are_bits(row: Seq<i64>, shifts: Seq<u32>, n: int)
    requires
        0 <= n,
    ensures
        are_bits(row_bits(row, shifts, n)),
        row_bits(row, shifts, n).len() == n * shifts.len(),
    decreases n,
{
    if 0 < n {
        row_bits_are_bits(row, shifts, n - 1);
        let last = value_bits(row[n - 1], shifts);
        assert forall|i: int| 0 <= i < last.len() implies #[trigger] last[i] <= 1 by {
            let (v, s) = (row[n - 1], shifts[i]);
            assert(((v >> s) & 1) as u8 <= 1) by (bit_vector);
        }
        let all = row_bits(row, shifts, n);
        let before = row_bits(row, shifts, n - 1);
        assert forall|i: int| 0 <= i < all.len() implies #[trigger] all[i] <= 1 by {
            if i < before.len() {
                assert(all[i] == before[i]);
            } else {
                assert(all[i] == last[i - before.len()]);
            }
        }
        assert(n * shifts.len() == (n - 1) * shifts.len() + shifts.len()) by (nonlinear_arith);
    } else {
        assert(n * shifts.len() == 0) by (nonlinear_arith)
            requires
                n == 0,
        ;
    }
}

/// Bit `j` of bucket number `d` stands at its place among the bits of the row.
proof fn row_bit_place(row: Seq<i64>, shifts: Seq<u32>, n: int, d: int, j: int)
    requires
        0 <= d < n,
        0 <= j < shifts.len(),
    ensures
        0 <= d * shifts.len() + j < row_bits(row, shifts, n).len(),
        row_bits(row, shifts, n)[d * shifts.len() + j] == ((row[d] >> shifts[j]) & 1) as u8,
    decreases n,
{
    row_bits_are_bits(row, shifts, n);
    row_bits_are_bits(row, shifts, n - 1);
    let before = row_bits(row, shifts, n - 1);
    let w = shifts.len() as int;
    assert(0 <= d * w && d * w + w <= n * w) by (nonlinear_arith)
        requires
            0 <= d < n,
            0 <= w,
    ;
    if d < n - 1 {
        row_bit_place(row, shifts, n - 1, d, j);
        assert(row_bits(row, shifts, n)[d * w + j] == before[d * w + j]);
    } else {
        assert(value_bits(row[d], shifts)[j] == ((row[d] >> shifts[j]) & 1) as u8);
        assert(row_bits(row, shifts, n)[d * w + j] == value_bits(row[d], shifts)[j]);
    }
}

/// Packing loses nothing. Of bucket number `row[d]`, the bit that shift `shifts[j]`
/// selects is bit `d * shifts.len() + j` of the packed row, where the bits of a byte
/// are counted from the highest.
pub proof fn packed_row_holds_buckets(row: Seq<i64>, shifts: Seq<u32>, d: int, j: int)
    requires
        row.len() * shifts.len() % 8 == 0,
        0 <= d < row.len(),
        0 <= j < shifts.len(),
    ensures
        ({
            let bytes = packed(row_bits(row, shifts, row.len() as int));
            let at = d * shifts.len() + j;
            &&& bytes.len() == row.len() * shifts.len() / 8
            &&& 0 <= at / 8 < bytes.len()
            &&& (bytes[at / 8] >> (7 - at % 8) as u8) & 1 == (row[d] >> shifts[j]) & 1
        }),
{
    let bits = row_bits(row, shifts, row.len() as int);
    let at = d * shifts.len() + j;
    row_bits_are_bits(row, shifts, row.len() as int);
    row_bit_place(row, shifts, row.len() as int, d, j);
    let i = at / 8;
    let p = at % 8;
    packed_bits_read_back(bits, i, p);
    let byte = packed(bits)[i];
    let s = (7 - p) as u8;
    assert((byte >> s) & 1 == (byte as int / weight(p)) % 2) by {
        assert(byte >> 0u8 == byte && byte >> 1u8 == byte / 2 && byte >> 2u8 == byte / 4 && byte
            >> 3u8 == byte / 8 && byte >> 4u8 == byte / 16 && byte >> 5u8 == byte / 32 && byte
            >> 6u8 == byte / 64 && byte >> 7u8 == byte / 128) by (bit_vector);
        let shifted = byte >> s;
        assert(shifted & 1 == shifted % 2) by (bit_vector);
        assert(p == 0 || p == 1 || p == 2 || p == 3 || p == 4 || p == 5 || p == 6 || p == 7);
    }
    let (v, t) = (row[d], shifts[j]);
    assert(((v >> t) & 1) as u8 == (v >> t) & 1) by (bit_vector);
}

/// The bits from `m` on agree where those from `n` on do and those between.
proof fn equal_from_bit(a: i64, b: i64, m: u32, n: u32)
    requires
        m <= n < 63,
        a >> n == b >> n,
        forall|j: u32| m <= j < n ==> #[trigger] (a >> j) & 1 == (b >> j) & 1,
    ensures
        a >> m == b >> m,
    decreases n - m,
{
    if m < n {
        let next = (m + 1) as u32;
        equal_from_bit(a, b, next, n);
        assert((a >> m) & 1 == (b >> m) & 1);
        assert(a >> m == b >> m) by (bit_vector)
            requires
                m < 63,
                next == m + 1,
                a >> next == b >> next,
                (a >> m) & 1 == (b >> m) & 1,
        ;
    }
}

/// Embeddings can be read back: where every bit below `nbits` is packed, rows whose
/// bucket numbers fit into `nbits` bits pack to the same bytes only if they are the
/// same.
pub proof fn packing_is_lossless(a: Seq<i64>, b: Seq<i64>, shifts: Seq<u32>, nbits: u32)
    requires
        nbits < 63,
        shifts.len() == nbits,
        forall|j: int| 0 <= j < nbits ==> #[trigger] shifts[j] == j,
        a.len() == b.len(),
        a.len() * nbits % 8 == 0,
        forall|d: int| 0 <= d < a.len() ==> 0 <= #[trigger] a[d] < (1i64 << nbits),
        forall|d: int| 0 <= d < b.len() ==> 0 <= #[trigger] b[d] < (1i64 << nbits),
        packed(row_bits(a, shifts, a.len() as int)) == packed(row_bits(b, shifts, b.len() as int)),
    ensures
        a == b,
{
    assert forall|d: int| 0 <= d < a.len() implies a[d] == b[d] by {
        let (x, y) = (a[d], b[d]);
        assert(0 <= x < (1i64 << nbits) && 0 <= y < (1i64 << nbits));
        assert(x >> nbits == y >> nbits) by (bit_vector)
            requires
                nbits < 63,
                0 <= x < (1i64 << nbits),
                0 <= y < (1i64 << nbits),
        ;
        assert forall|j: u32| 0 <= j < nbits implies #[trigger] (x >> j) & 1 == (y >> j) & 1 by {
            assert(shifts[j as int] == j);
            packed_row_holds_buckets(a, shifts, d, j as int);
            packed_row_holds_buckets(b, shifts, d, j as int);
        }
        equal_from_bit(x, y, 0, nbits);
        assert(x >> 0u32 == x && y >> 0u32 == y) by (bit_vector);
    }
    assert(a =~= b);
}

/// Packs the bucket numbers of one embedding.
pub fn pack_row(row: &Vec<i64>, shifts: &Vec<u32>) -> (r: Vec<u8>)
    requires
        row@.len() * shifts@.len() % 8 == 0,
        forall|b: int| 0 <= b < shifts@.len() ==> #[trigger] shifts@[b] < 64,
    ensures
        r@ == packed(row_bits(row@, shifts@, row@.len() as int)),
{
    let mut bits: Vec<u8> = Vec::new();
    let mut i: usize = 0;
    while i < row.len()
        invariant
            i <= row@.len(),
            forall|b: int| 0 <= b < shifts@.len() ==> #[trigger] shifts@[b] < 64,
            bits@ == row_bits(row@, shifts@, i as int),
        decreases row@.len() - i,
    {
        let ghost before = bits@;
        let ghost own = value_bits(row@[i as int], shifts@);
        let mut b: usize = 0;
        assert(before + own.take(0) =~= before);
        while b < shifts.len()
            invariant
                b <= shifts@.len(),
                i < row@.len(),
                forall|b: int| 0 <= b < shifts@.len() ==> #[trigger] shifts@[b] < 64,
                own == value_bits(row@[i as int], shifts@),
                bits@ == before + own.take(b as int),
            decreases shifts@.len() - b,
        {
            let bit: u8 = ((row[i] >> shifts[b]) & 1) as u8;
            bits.push(bit);
            assert(own[b as int] == bit);
            b += 1;
            assert(bits@ =~= before + own.take(b as int));
        }
        assert(own.take(shifts@.len() as int) =~= own);
        i += 1;
    }
    proof {
        row_bits_are_bits(row@, shifts@, row@.len() as int);
    }
    packbits(&bits)
}

/// The packed residuals of many embeddings.
pub open spec fn packed_rows(rows: Seq<Vec<i64>>, shifts: Seq<u32>) -> Seq<Seq<u8>> {
    rows.map_values(|row: Vec<i64>| packed(row_bits(row@, shifts, row@.len() as int)))
}

/// Every embedding is packed, in its place, and every bit of its bucket numbers that
/// the shifts select is in its own packed row.
pub proof fn packed_rows_hold_buckets(
    rows: Seq<Vec<i64>>,
    shifts: Seq<u32>,
    i: int,
    d: int,
    j: int,
)
    requires
        0 <= i < rows.len(),
        rows[i]@.len() * shifts.len() % 8 == 0,
        0 <= d < rows[i]@.len(),
        0 <= j < shifts.len(),
    ensures
        packed_rows(rows, shifts).len() == rows.len(),
        ({
            let bytes = packed_rows(rows, shifts)[i];
            let at = d * shifts.len() + j;
            &&& bytes.len() == rows[i]@.len() * shifts.len() / 8
            &&& 0 <= at / 8 < bytes.len()
            &&& (bytes[at / 8] >> (7 - at % 8) as u8) & 1 == (rows[i]@[d] >> shifts[j]) & 1
        }),
{
    packed_row_holds_buckets(rows[i]@, shifts, d, j);
}

/// Packs the bucket numbers of every embedding, `dim` to a row.
pub fn pack_residuals(rows: &Vec<Vec<i64>>, shifts: &Vec<u32>, dim: usize) -> (r: Vec<Vec<u8>>)
    requires
        dim * shifts@.len() % 8 == 0,
        forall|i: int| 0 <= i < rows@.len() ==> (#[trigger] rows@[i])@.len() == dim,
        forall|b: int| 0 <= b < shifts@.len() ==> #[trigger] shifts@[b] < 64,
    ensures
        r@.map_values(|row: Vec<u8>| row@) == packed_rows(rows@, shifts@),
        forall|i: int| 0 <= i < r@.len() ==> (#[trigger] r@[i])@.len() == dim * shifts@.len() / 8,
{
    let mut r: Vec<Vec<u8>> = Vec::new();
    let mut i: usize = 0;
    while i < rows.len()
        invariant
            i <= rows@.len(),
            dim * shifts@.len() % 8 == 0,
            forall|j: int| 0 <= j < rows@.len() ==> (#[trigger] rows@[j])@.len() == dim,
            forall|b: int| 0 <= b < shifts@.len() ==> #[trigger] shifts@[b] < 64,
            r@.len() == i,
            forall|j: int|
                0 <= j < i ==> (#[trigger] r@[j])@ == packed(
                    row_bits(rows@[j]@, shifts@, rows@[j]@.len() as int),
                ),
            forall|j: int|
                0 <= j < i ==> (#[trigger] r@[j])@.len() == dim * shifts@.len() / 8,
        decreases rows@.len() - i,
    {
        assert(rows@[i as int]@.len() == dim);
        let row = pack_row(&rows[i], shifts);
        proof {
            row_bits_are_bits(rows@[i as int]@, shifts@, dim as int);
        }
        r.push(row);
        i += 1;
    }
    assert(r@.map_values(|row: Vec<u8>| row@) =~= packed_rows(rows@, shifts@));
    r
}

} // verus!
