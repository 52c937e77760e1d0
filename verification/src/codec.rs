//! A compact binary form for reduced Latin squares: each row after the shared leading rows
//! is stored as a number in base N - 1, written in as few little-endian bytes as every
//! row of that order needs.
use vstd::prelude::*;
use crate::latin_square::{LatinSquare, is_latin, is_reduced_grid, row_has, col_has, lemma_full_row_distinct, seq_has};
use crate::bitset::BitSet16;
use crate::set_util::{set_min, lemma_set_min_unique};

verus! {

/// b to the power e.
pub open spec fn power(b: int, e: nat) -> int
    decreases e,
{
    if e == 0 {
        1
    } else {
        b * power(b, (e - 1) as nat)
    }
}

/// The number of bits that hold every number below `p`: the least k with 2^k >= p.
pub open spec fn bits_for(p: int) -> nat {
    choose|k: nat| #[trigger] power(2, k) >= p && (k == 0 || power(2, (k - 1) as nat) < p)
}

/// The number of bytes a coded row of a square of order n takes.
pub open spec fn row_len(n: nat) -> nat {
    (bits_for(power(n - 1, (n - 2) as nat)) + 7) / 8
}

proof fn lemma_pow_positive(b: int, e: nat)
    requires
        b >= 1,
    ensures
        power(b, e) >= 1,
    decreases e,
{
    if e > 0 {
        lemma_pow_positive(b, (e - 1) as nat);
        assert(b * power(b, (e - 1) as nat) >= power(b, (e - 1) as nat)) by (nonlinear_arith)
            requires
                b >= 1,
                power(b, (e - 1) as nat) >= 1,
        ;
    }
}

proof fn lemma_pow2_monotone(a: nat, b: nat)
    requires
        a <= b,
    ensures
        power(2, a) <= power(2, b),
    decreases b,
{
    if a < b {
        lemma_pow2_monotone(a, (b - 1) as nat);
        lemma_pow_positive(2, (b - 1) as nat);
    }
}

/// At most one k is the least with 2^k >= p.
proof fn lemma_bits_unique(p: int, k: nat)
    requires
        power(2, k) >= p,
        k == 0 || power(2, (k - 1) as nat) < p,
    ensures
        bits_for(p) == k,
{
    let j = bits_for(p);
    assert(power(2, j) >= p && (j == 0 || power(2, (j - 1) as nat) < p));
    if j < k {
        lemma_pow2_monotone(j, (k - 1) as nat);
    } else if j > k {
        lemma_pow2_monotone(k, (j - 1) as nat);
    }
}

/// The powers the size bounds below rest on.
proof fn lemma_pow_constants()
    ensures
        power(15, 14) == 29192926025390625,
        power(2, 63) == 9223372036854775808,
        power(2, 55) == 36028797018963968,
{
    reveal_with_fuel(power, 64);
}

/// The number of bytes a coded row of a square of order N takes: enough bits for
/// (N - 1)^(N - 2), rounded up to whole bytes.
pub fn row_size<const N: usize>() -> (r: usize)
    requires
        2 <= N <= 16,
    ensures
        r == row_len(N as nat),
        r <= 8,
{
    let b: u64 = (N - 1) as u64;
    let mut p: u64 = 1;
    let mut e: usize = 0;
    while e < N - 2
        invariant
            2 <= N <= 16,
            b == N - 1,
            e <= N - 2,
            p == power(b as int, e as nat),
            p <= power(15, e as nat),
        decreases N - 2 - e,
    {
        proof {
            lemma_pow_positive(15, e as nat);
            assert(power(15, (e + 1) as nat) == 15 * power(15, e as nat));
            lemma_pow_constants();
            lemma_pow_mono_15((e + 1) as nat);
            assert(p * b <= power(15, (e + 1) as nat)) by (nonlinear_arith)
                requires
                    p <= power(15, e as nat),
                    b <= 15,
                    power(15, (e + 1) as nat) == 15 * power(15, e as nat),
            ;
        }
        proof {
            assert(power(b as int, (e + 1) as nat) == b * power(b as int, e as nat));
            assert(p * b == b * p) by (nonlinear_arith);
        }
        p = p * b;
        e += 1;
    }
    proof {
        lemma_pow_positive(b as int, e as nat);
        lemma_pow_mono_15(e as nat);
        lemma_pow_constants();
    }
    let mut k: u32 = 0;
    let mut w: u64 = 1;
    while w < p
        invariant
            k <= 63,
            w == power(2, k as nat),
            p <= 29192926025390625,
            p >= 1,
            k == 0 || power(2, (k - 1) as nat) < p,
        decreases 64 - k,
    {
        proof {
            if k == 63 {
                lemma_pow_constants();
                assert(false);
            }
            assert(power(2, (k + 1) as nat) == 2 * power(2, k as nat));
        }
        w = w * 2;
        k += 1;
    }
    proof {
        lemma_bits_unique(p as int, k as nat);
        assert(k <= 55) by {
            if k > 55 {
                lemma_pow2_monotone(55, (k - 1) as nat);
                lemma_pow_constants();
            }
        }
    }
    ((k + 7) / 8) as usize
}

proof fn lemma_pow_mono_15(a: nat)
    requires
        a <= 14,
    ensures
        power(15, a) <= power(15, 14),
    decreases 14 - a,
{
    if a < 14 {
        lemma_pow_mono_15(a + 1);
        lemma_pow_positive(15, a);
        assert(power(15, a + 1) == 15 * power(15, a));
    }
}

/// The digit that cell j of a row stands for: its value, less one when it is above the
/// value in column 0.
pub open spec fn digit_of(row: Seq<u8>, j: int) -> int {
    if row[j] > row[0] {
        row[j] - 1
    } else {
        row[j] as int
    }
}

/// Cells 1..=m of the row read as the digits of a number in base b, cell 1 first.
pub open spec fn code_prefix(row: Seq<u8>, b: int, m: nat) -> int
    decreases m,
{
    if m == 0 {
        0
    } else {
        code_prefix(row, b, (m - 1) as nat) * b + digit_of(row, m as int)
    }
}

/// The number a row of a square of order n is coded as: cells 1..n - 2 as digits in base
/// n - 1 (cell 0 and the last cell follow from the others).
pub open spec fn row_code(row: Seq<u8>, n: nat) -> int {
    code_prefix(row, n - 1, (n - 2) as nat)
}

/// The len low bytes of x, least significant first.
pub open spec fn le_bytes(x: int, len: nat) -> Seq<u8>
    decreases len,
{
    if len == 0 {
        Seq::empty()
    } else {
        seq![(x % 256) as u8] + le_bytes(x / 256, (len - 1) as nat)
    }
}

/// The coded rows from..n - 2 of a square (the last row follows from the others).
pub open spec fn coded_rows(s: Seq<Seq<u8>>, from: int, n: nat) -> Seq<u8>
    decreases n - from,
{
    if from >= n - 1 {
        Seq::empty()
    } else {
        le_bytes(row_code(s[from], n), row_len(n)) + coded_rows(s, from + 1, n)
    }
}

/// The number of leading rows, from row k on, in which the two grids agree.
pub open spec fn leading_same(a: Seq<Seq<u8>>, b: Seq<Seq<u8>>, n: nat, k: int) -> int
    decreases n - k,
{
    if k >= n || a[k] != b[k] {
        k
    } else {
        leading_same(a, b, n, k + 1)
    }
}

/// The rows a square shares with the one coded before it.
pub open spec fn shared_rows<const N: usize>(sq: LatinSquare<N>, prev: Option<LatinSquare<N>>) -> int {
    match prev {
        Some(p) => leading_same(sq@, p@, N as nat, 0),
        None => 0,
    }
}

/// A count of leading equal rows is the one `leading_same` gives.
proof fn lemma_leading_same(a: Seq<Seq<u8>>, b: Seq<Seq<u8>>, n: nat, k: int, r: int)
    requires
        0 <= k <= r <= n,
        forall|i: int| k <= i < r ==> #[trigger] a[i] == b[i],
        r < n ==> a[r] != b[r],
    ensures
        leading_same(a, b, n, k) == r,
    decreases n - k,
{
    if k < r {
        lemma_leading_same(a, b, n, k + 1, r);
    }
}

/// A row's code is below b^m when its digits are below b.
proof fn lemma_code_bound(row: Seq<u8>, b: int, m: nat)
    requires
        b >= 1,
        forall|j: int| 1 <= j <= m ==> 0 <= #[trigger] digit_of(row, j) < b,
    ensures
        0 <= code_prefix(row, b, m) < power(b, m),
    decreases m,
{
    if m > 0 {
        lemma_code_bound(row, b, (m - 1) as nat);
        let c = code_prefix(row, b, (m - 1) as nat);
        let d = digit_of(row, m as int);
        assert(c * b + d < b * power(b, (m - 1) as nat)) by (nonlinear_arith)
            requires
                0 <= c < power(b, (m - 1) as nat),
                0 <= d < b,
        ;
        assert(c * b + d >= 0) by (nonlinear_arith)
            requires
                0 <= c,
                0 <= d,
                b >= 1,
        ;
    }
}

/// The digits of a row of a reduced Latin square are below n - 1.
proof fn lemma_digits_small(row: Seq<u8>, n: nat)
    requires
        n >= 2,
        row.len() == n,
        forall|j: int| 0 <= j < n ==> #[trigger] row[j] < n,
        forall|j: int| 1 <= j < n ==> #[trigger] row[j] != row[0],
    ensures
        forall|j: int| 1 <= j < n ==> 0 <= #[trigger] digit_of(row, j) < n - 1,
{
}

/// Appends the len low bytes of x, least significant first.
fn push_le_bytes(buffer: &mut Vec<u8>, x: u64, len: usize)
    requires
        len <= 8,
    ensures
        final(buffer)@ == old(buffer)@ + le_bytes(x as int, len as nat),
{
    let mut c: u64 = x;
    let mut k: usize = 0;
    while k < len
        invariant
            k <= len,
            final(buffer)@.len() >= 0,
            buffer@ + le_bytes(c as int, (len - k) as nat) == old(buffer)@ + le_bytes(x as int, len as nat),
        decreases len - k,
    {
        let ghost before = buffer@;
        buffer.push((c % 256) as u8);
        proof {
            assert(le_bytes(c as int, (len - k) as nat) == seq![(c % 256) as u8] + le_bytes((c / 256) as int, (len - k - 1) as nat));
            assert(buffer@ + le_bytes((c / 256) as int, (len - k - 1) as nat)
                =~= before + le_bytes(c as int, (len - k) as nat));
        }
        c = c / 256;
        k += 1;
    }
    proof {
        assert(le_bytes(c as int, 0) =~= Seq::<u8>::empty());
        assert(buffer@ =~= buffer@ + le_bytes(c as int, 0));
    }
}

/// The code of a row: cells 1..N - 2 read as digits in base N - 1.
fn code_of_row<const N: usize>(row: &[u8; N]) -> (coded: u64)
    requires
        2 <= N <= 16,
        forall|j: int| 1 <= j < N ==> 0 <= #[trigger] digit_of(row@, j) < N - 1,
    ensures
        coded as int == row_code(row@, N as nat),
{
    let ghost r = row@;
    proof {
        lemma_code_bound(r, (N - 1) as int, (N - 2) as nat);
    }
    let mut coded: u64 = 0;
    let mut i: usize = 1;
    while i < N - 1
        invariant
            2 <= N <= 16,
            1 <= i <= N - 1,
            row@ == r,
            r.len() == N,
            forall|j: int| 1 <= j < N ==> 0 <= #[trigger] digit_of(r, j) < N - 1,
            coded == code_prefix(r, (N - 1) as int, (i - 1) as nat),
        decreases N - 1 - i,
    {
        proof {
            lemma_code_bound(r, (N - 1) as int, (i - 1) as nat);
            lemma_pow_mono_15((i - 1) as nat);
            lemma_pow_le_15((N - 1) as int, (i - 1) as nat);
            lemma_pow_constants();
            assert(coded * ((N - 1) as u64) + (N - 2) <= 29192926025390625 * 15 + 14) by (nonlinear_arith)
                requires
                    coded < 29192926025390625 + 1,
                    N - 1 <= 15,
                    N >= 2,
            ;
        }
        let x = row[i];
        let value: u64 = if x > row[0] { (x - 1) as u64 } else { x as u64 };
        coded = coded * ((N - 1) as u64) + value;
        i += 1;
    }
    proof {
        assert(coded as int == row_code(r, N as nat));
    }
    coded
}

/// Appends the coded form of a reduced Latin square: the number of leading rows it shares
/// with the square coded before it, then each further row but the last as its code in
/// `row_size` little-endian bytes.
pub fn encode_sq<const N: usize>(sq: LatinSquare<N>, prev_sq: Option<LatinSquare<N>>, buffer: &mut Vec<u8>)
    requires
        2 <= N <= 16,
        is_reduced_grid(sq@, N as nat),
        prev_sq matches Some(p) ==> is_reduced_grid(p@, N as nat),
    ensures
        final(buffer)@ == old(buffer)@ + seq![shared_rows(sq, prev_sq) as u8] + coded_rows(sq@, shared_rows(sq, prev_sq), N as nat),
{
    proof {
        use_type_invariant(&sq);
        LatinSquare::lemma_latin(&sq);
    }
    let row_size_bytes = row_size::<N>();
    let same_rows: usize = match prev_sq {
        Some(prev) => sq.num_same_rows(&prev),
        None => 0,
    };
    proof {
        if let Some(p) = prev_sq {
            lemma_leading_same(sq@, p@, N as nat, 0, same_rows as int);
        }
    }
    buffer.push(same_rows as u8);
    let ghost start = buffer@;
    let mut row_index: usize = same_rows;
    proof {
        assert(coded_rows(sq@, same_rows as int, N as nat) =~= Seq::<u8>::empty() + coded_rows(sq@, same_rows as int, N as nat));
    }
    while row_index < N - 1
        invariant
            2 <= N <= 16,
            same_rows <= row_index || (same_rows > N - 1 && row_index == same_rows),
            row_size_bytes == row_len(N as nat),
            row_size_bytes <= 8,
            is_latin(sq@, N as nat),
            forall|i: int, j: int, k: int| 0 <= i < N && 0 <= j < N && 0 <= k < N && j != k ==> #[trigger] sq@[i][j] != #[trigger] sq@[i][k],
            buffer@ + coded_rows(sq@, row_index as int, N as nat) == start + coded_rows(sq@, same_rows as int, N as nat),
        decreases N - row_index,
    {
        let row = sq.get_row(row_index);
        let ghost r = row@;
        proof {
            assert forall|j: int| 1 <= j < N implies #[trigger] r[j] != r[0] by {
                assert(sq@[row_index as int][j] != sq@[row_index as int][0]);
            }
            lemma_digits_small(r, N as nat);
            lemma_code_bound(r, (N - 1) as int, (N - 2) as nat);
        }
        let coded = code_of_row(row);
        let ghost before = buffer@;
        push_le_bytes(buffer, coded, row_size_bytes);
        proof {
            assert(coded_rows(sq@, row_index as int, N as nat)
                == le_bytes(row_code(sq@[row_index as int], N as nat), row_len(N as nat)) + coded_rows(sq@, row_index + 1, N as nat));
            assert(buffer@ + coded_rows(sq@, row_index + 1, N as nat) =~= before + coded_rows(sq@, row_index as int, N as nat));
        }
        row_index += 1;
    }
    proof {
        assert(coded_rows(sq@, row_index as int, N as nat) =~= Seq::<u8>::empty());
        assert(buffer@ =~= start + coded_rows(sq@, same_rows as int, N as nat));
    }
}

/// A power of a base at most 15 is at most the same power of 15.
proof fn lemma_pow_le_15(b: int, e: nat)
    requires
        1 <= b <= 15,
    ensures
        power(b, e) <= power(15, e),
    decreases e,
{
    if e > 0 {
        lemma_pow_le_15(b, (e - 1) as nat);
        lemma_pow_positive(b, (e - 1) as nat);
        assert(b * power(b, (e - 1) as nat) <= 15 * power(15, (e - 1) as nat)) by (nonlinear_arith)
            requires
                1 <= b <= 15,
                1 <= power(b, (e - 1) as nat) <= power(15, (e - 1) as nat),
        ;
    }
}

/// The number whose little-endian bytes these are.
pub open spec fn le_value(bytes: Seq<u8>) -> int
    decreases bytes.len(),
{
    if bytes.len() == 0 {
        0
    } else {
        bytes[0] + 256 * le_value(bytes.drop_first())
    }
}

/// The byte arrays as sequences.
pub open spec fn byte_rows<const N: usize>(buffer: [[u8; 8]; N]) -> Seq<Seq<u8>> {
    buffer@.map_values(|b: [u8; 8]| b@)
}

/// The square `x` is what the shared leading rows of `prev` and the coded rows in `buffer`
/// describe: it is Latin, it has the first `same` rows of `prev`, and each further row
/// but the last starts with its own index and has the code that its bytes give, taken
/// modulo (n - 1)^(n - 2).
pub open spec fn decodes_to(prev: Option<Seq<Seq<u8>>>, same: int, buffer: Seq<Seq<u8>>, n: nat, x: Seq<Seq<u8>>) -> bool {
    &&& is_latin(x, n)
    &&& 0 <= same < n
    &&& prev is None ==> same == 0
    &&& forall|i: int| 0 <= i < same ==> #[trigger] x[i] == prev->0[i]
    &&& forall|i: int| same <= i < n - 1 ==> #[trigger] x[i][0] == i
        && row_code(x[i], n) == le_value(buffer[i - same]) % power(n - 1, (n - 2) as nat)
}

/// The view of an optional borrowed square.
pub open spec fn prev_view<const N: usize>(prev: Option<&LatinSquare<N>>) -> Option<Seq<Seq<u8>>> {
    match prev {
        Some(p) => Some(p@),
        None => None,
    }
}

/// Reads eight little-endian bytes.
fn read_le(bytes: &[u8; 8]) -> (r: u64)
    ensures
        r == le_value(bytes@),
{
    let mut v: u64 = 0;
    let mut k: usize = 8;
    proof {
        assert(bytes@.skip(8) =~= Seq::<u8>::empty());
        reveal_with_fuel(power, 9);
    }
    while k > 0
        invariant
            k <= 8,
            v == le_value(bytes@.skip(k as int)),
            v < power(256, (8 - k) as nat),
            power(256, 8) == 18446744073709551616,
        decreases k,
    {
        k -= 1;
        proof {
            assert(bytes@.skip(k as int).drop_first() =~= bytes@.skip(k as int + 1));
            assert(bytes@.skip(k as int)[0] == bytes@[k as int]);
            lemma_pow_positive(256, (8 - k - 1) as nat);
            assert(power(256, (8 - k) as nat) == 256 * power(256, (8 - k - 1) as nat));
            lemma_pow_mono_256((8 - k) as nat);
            assert(v * 256 + bytes@[k as int] < 256 * power(256, (8 - k - 1) as nat)) by (nonlinear_arith)
                requires
                    v < power(256, (8 - k - 1) as nat),
                    bytes@[k as int] < 256,
            ;
        }
        v = v * 256 + bytes[k] as u64;
    }
    proof {
        assert(bytes@.skip(0) =~= bytes@);
    }
    v
}

proof fn lemma_pow_mono_256(a: nat)
    requires
        a <= 8,
    ensures
        power(256, a) <= power(256, 8),
    decreases 8 - a,
{
    if a < 8 {
        lemma_pow_mono_256(a + 1);
        lemma_pow_positive(256, a);
        assert(power(256, a + 1) == 256 * power(256, a));
    }
}

/// A number below b^j with the code of cells 1..=j as its residue has cell j as its last digit.
proof fn lemma_last_digit(c: int, row: Seq<u8>, b: int, j: nat)
    requires
        b >= 1,
        j >= 1,
        c >= 0,
        c % power(b, j) == code_prefix(row, b, j),
        forall|k: int| 1 <= k <= j ==> 0 <= #[trigger] digit_of(row, k) < b,
    ensures
        c % b == digit_of(row, j as int),
        (c / b) % power(b, (j - 1) as nat) == code_prefix(row, b, (j - 1) as nat),
{
    let pj1 = power(b, (j - 1) as nat);
    lemma_pow_positive(b, (j - 1) as nat);
    assert(power(b, j) == b * pj1);
    lemma_code_bound(row, b, (j - 1) as nat);
    let cp = code_prefix(row, b, (j - 1) as nat);
    let d = digit_of(row, j as int);
    vstd::arithmetic::div_mod::lemma_mod_breakdown(c, b, pj1);
    // c % (b * pj1) == b * ((c / b) % pj1) + c % b, and it equals cp * b + d
    vstd::arithmetic::div_mod::lemma_mod_pos_bound(c / b, pj1);
    vstd::arithmetic::div_mod::lemma_mod_pos_bound(c, b);
    vstd::arithmetic::div_mod::lemma_div_pos_is_pos(c, b);
    assert(cp * b + d == b * cp + d) by (nonlinear_arith);
    vstd::arithmetic::div_mod::lemma_fundamental_div_mod_converse(b * ((c / b) % pj1) + c % b, b, (c / b) % pj1, c % b);
    vstd::arithmetic::div_mod::lemma_fundamental_div_mod_converse(b * cp + d, b, cp, d);
    assert(b * ((c / b) % pj1) == ((c / b) % pj1) * b) by (nonlinear_arith);
    assert(b * cp == cp * b) by (nonlinear_arith);
}

/// Two rows with one code, the same first cell and no later cell equal to it agree in
/// cells 1..=m.
proof fn lemma_code_determines(x: Seq<u8>, y: Seq<u8>, b: int, m: nat)
    requires
        b >= 1,
        code_prefix(x, b, m) == code_prefix(y, b, m),
        forall|k: int| 1 <= k <= m ==> 0 <= #[trigger] digit_of(x, k) < b,
        forall|k: int| 1 <= k <= m ==> 0 <= #[trigger] digit_of(y, k) < b,
    ensures
        forall|k: int| 1 <= k <= m ==> #[trigger] digit_of(x, k) == digit_of(y, k),
    decreases m,
{
    if m > 0 {
        lemma_code_bound(x, b, (m - 1) as nat);
        lemma_code_bound(y, b, (m - 1) as nat);
        let cx = code_prefix(x, b, (m - 1) as nat);
        let cy = code_prefix(y, b, (m - 1) as nat);
        assert(cx * b + digit_of(x, m as int) == b * cx + digit_of(x, m as int)) by (nonlinear_arith);
        assert(cy * b + digit_of(y, m as int) == b * cy + digit_of(y, m as int)) by (nonlinear_arith);
        vstd::arithmetic::div_mod::lemma_fundamental_div_mod_converse(b * cx + digit_of(x, m as int), b, cx, digit_of(x, m as int));
        vstd::arithmetic::div_mod::lemma_fundamental_div_mod_converse(b * cy + digit_of(y, m as int), b, cy, digit_of(y, m as int));
        lemma_code_determines(x, y, b, (m - 1) as nat);
    }
}

/// The rows of a Latin square hold distinct values, and so do its columns.
proof fn lemma_latin_distinct(x: Seq<Seq<u8>>, n: nat)
    requires
        is_latin(x, n),
    ensures
        forall|i: int, j: int, k: int| 0 <= i < n && 0 <= j < n && 0 <= k < n && j != k ==> #[trigger] x[i][j] != #[trigger] x[i][k],
        forall|i: int, j: int, k: int| 0 <= i < n && 0 <= j < n && 0 <= k < n && j != k ==> #[trigger] x[j][i] != #[trigger] x[k][i],
{
    assert forall|i: int, j: int, k: int| 0 <= i < n && 0 <= j < n && 0 <= k < n && j != k implies #[trigger] x[i][j] != #[trigger] x[i][k] by {
        assert forall|v: int| 0 <= v < n implies #[trigger] seq_has(x[i], v) by {
            assert(row_has(x, i, v));
        }
        lemma_full_row_distinct(x[i], n);
    }
    assert forall|i: int, j: int, k: int| 0 <= i < n && 0 <= j < n && 0 <= k < n && j != k implies #[trigger] x[j][i] != #[trigger] x[k][i] by {
        let col = Seq::new(n, |r: int| x[r][i]);
        assert forall|v: int| 0 <= v < n implies #[trigger] seq_has(col, v) by {
            assert(col_has(x, i, v));
            let r = choose|r: int| 0 <= r < x.len() && x[r][i] as int == v;
            assert(col[r] as int == v);
        }
        lemma_full_row_distinct(col, n);
        assert(col[j] != col[k]);
    }
}

/// At most one square decodes from the same input.
pub proof fn lemma_decoding_unique(prev: Option<Seq<Seq<u8>>>, same: int, buffer: Seq<Seq<u8>>, n: nat, x: Seq<Seq<u8>>, y: Seq<Seq<u8>>)
    requires
        n >= 2,
        decodes_to(prev, same, buffer, n, x),
        decodes_to(prev, same, buffer, n, y),
    ensures
        x == y,
{
    lemma_latin_distinct(x, n);
    lemma_latin_distinct(y, n);
    let b = n - 1;
    assert forall|i: int| 0 <= i < n - 1 implies #[trigger] x[i] == y[i] by {
        if i >= same {
            assert forall|k: int| 1 <= k <= n - 2 implies 0 <= #[trigger] digit_of(x[i], k) < b by {
                assert(x[i][k] != x[i][0]);
            }
            assert forall|k: int| 1 <= k <= n - 2 implies 0 <= #[trigger] digit_of(y[i], k) < b by {
                assert(y[i][k] != y[i][0]);
            }
            lemma_code_determines(x[i], y[i], b, (n - 2) as nat);
            assert forall|k: int| 0 <= k < n - 1 implies #[trigger] x[i][k] == y[i][k] by {
                if k >= 1 {
                    assert(digit_of(x[i], k) == digit_of(y[i], k));
                    assert(x[i][k] != x[i][0]);
                    assert(y[i][k] != y[i][0]);
                }
            }
            assert(row_has(y, i, x[i][n - 1] as int));
            let k = choose|k: int| 0 <= k < y[i].len() && y[i][k] as int == x[i][n - 1] as int;
            if k < n - 1 {
                assert(x[i][k] == y[i][k]);
                assert(x[i][k] != x[i][n - 1]);
            }
            assert(x[i] =~= y[i]);
        }
    }
    assert forall|j: int| 0 <= j < n implies #[trigger] x[n - 1][j] == y[n - 1][j] by {
        assert(col_has(y, j, x[n - 1][j] as int));
        let r = choose|r: int| 0 <= r < y.len() && y[r][j] as int == x[n - 1][j] as int;
        if r < n - 1 {
            assert(x[r] == y[r]);
            assert(x[r][j] != x[n - 1][j]);
        }
    }
    assert(x[n - 1] =~= y[n - 1]);
    assert(x =~= y);
}

/// The values below n that none of the first `done` rows holds in column j.
pub open spec fn col_left(x: Seq<Seq<u8>>, n: nat, done: int, j: int) -> Set<int> {
    Set::new(|v: int| 0 <= v < n && forall|r: int| 0 <= r < done ==> x[r][j] != v)
}

/// Taking away the value of row `done` leaves what the next rows may hold.
proof fn lemma_col_left_step(x: Seq<Seq<u8>>, n: nat, done: int, j: int)
    requires
        0 <= done,
    ensures
        col_left(x, n, done, j).remove(x[done][j] as int) == col_left(x, n, done + 1, j),
{
    assert(col_left(x, n, done, j).remove(x[done][j] as int) =~= col_left(x, n, done + 1, j)) by {
        assert forall|v: int| col_left(x, n, done + 1, j).contains(v) implies col_left(x, n, done, j).remove(x[done][j] as int).contains(v) by {
            assert(x[done][j] != v);
        }
        assert forall|v: int| col_left(x, n, done, j).remove(x[done][j] as int).contains(v) implies col_left(x, n, done + 1, j).contains(v) by {
            assert forall|r: int| 0 <= r < done + 1 implies x[r][j] != v by {
                if r < done {
                    assert(col_left(x, n, done, j).contains(v));
                }
            }
        }
    }
}

/// Once every row but the last is taken away, only the last row's value is left.
proof fn lemma_col_left_last(x: Seq<Seq<u8>>, n: nat, j: int)
    requires
        n >= 1,
        is_latin(x, n),
        0 <= j < n,
        forall|i: int, a: int, b: int| 0 <= i < n && 0 <= a < n && 0 <= b < n && a != b ==> #[trigger] x[a][i] != #[trigger] x[b][i],
    ensures
        col_left(x, n, n - 1, j) == Set::<int>::empty().insert(x[n - 1][j] as int),
        set_min(col_left(x, n, n - 1, j)) == x[n - 1][j],
{
    let s = col_left(x, n, n - 1, j);
    assert(s =~= Set::<int>::empty().insert(x[n - 1][j] as int)) by {
        assert forall|v: int| s.contains(v) implies v == x[n - 1][j] by {
            assert(col_has(x, j, v));
            let r = choose|r: int| 0 <= r < x.len() && x[r][j] as int == v;
            if r < n - 1 {
                assert(x[r][j] != v);
            }
        }
        assert forall|r: int| 0 <= r < n - 1 implies #[trigger] x[r][j] != x[n - 1][j] by {}
        assert(s.contains(x[n - 1][j] as int));
    }
    lemma_set_min_unique(s, x[n - 1][j] as int);
}

/// The rows that the shared leading rows of `prev_sq` and the coded rows in `buffer`
/// describe, whenever some Latin square is so described.
fn decode_rows<const N: usize>(prev_sq: Option<&LatinSquare<N>>, same_rows: usize, buffer: &[[u8; 8]; N]) -> (rows: [[u8; N]; N])
    requires
        2 <= N <= 16,
        same_rows < N,
        prev_sq is None ==> same_rows == 0,
    ensures
        forall|x: Seq<Seq<u8>>| #[trigger] decodes_to(prev_view(prev_sq), same_rows as int, byte_rows(*buffer), N as nat, x)
            ==> crate::latin_square::grid(rows) == x,
{
    let ghost pv = prev_view(prev_sq);
    let ghost bs = byte_rows(*buffer);
    let ghost x = choose|x: Seq<Seq<u8>>| #[trigger] decodes_to(pv, same_rows as int, bs, N as nat, x);
    let ghost n = N as nat;
    let ghost ok = decodes_to(pv, same_rows as int, bs, n, x);
    proof {
 if ok {
        lemma_latin_distinct(x, n);
    }
}
    let mut rows = [[0u8; N]; N];
    let full = BitSet16::all_less_than(N);
    let mut cols = [full; N];
    proof {
 if ok {
        assert forall|j: int| 0 <= j < N implies #[trigger] cols@[j]@ == col_left(x, n, 0, j) by {
            assert(col_left(x, n, 0, j) =~= vstd::set_lib::set_int_range(0, N as int));
        }
    }
}
    if let Some(prev) = prev_sq {
        proof {
            use_type_invariant(prev);
            LatinSquare::lemma_latin(prev);
        }
        let mut i: usize = 0;
        while i < same_rows
            invariant
                2 <= N <= 16,
                n == N as nat,
                i <= same_rows < N,
                pv == Some(prev@),
                is_latin(prev@, N as nat),
                ok ==> (decodes_to(pv, same_rows as int, bs, n, x)),
                ok ==> (forall|r: int| 0 <= r < i ==> #[trigger] rows@[r]@ == x[r]),
                ok ==> (forall|j: int| 0 <= j < N ==> #[trigger] cols@[j]@ == col_left(x, n, i as int, j)),
            decreases same_rows - i,
        {
            let row = *prev.get_row(i);
            proof {
                if ok {
                    assert(row@ == x[i as int]);
                }
                assert forall|c: int| 0 <= c < N implies #[trigger] row@[c] < N by {
                    assert(prev@[i as int][c] < N);
                }
            }
            rows[i] = row;
            let mut j: usize = 0;
            while j < N
                invariant
                    2 <= N <= 16,
                    n == N as nat,
                    i < same_rows < N,
                    j <= N,
                    is_latin(prev@, N as nat),
                    ok ==> (row@ == x[i as int]),
                    forall|c: int| 0 <= c < N ==> #[trigger] row@[c] < N,
                    ok ==> (decodes_to(pv, same_rows as int, bs, n, x)),
                    ok ==> (forall|j2: int| 0 <= j2 < N ==> #[trigger] cols@[j2]@ == if j2 < j { col_left(x, n, i + 1, j2) } else { col_left(x, n, i as int, j2) }),
                decreases N - j,
            {
                proof {
 if ok {
                    assert(row@[j as int] < N);
                    lemma_col_left_step(x, n, i as int, j as int);
                }
}
                cols[j].remove(row[j] as usize);
                j += 1;
            }
            proof {
 if ok {
                assert forall|r: int| 0 <= r < i + 1 implies #[trigger] rows@[r]@ == x[r] by {}
            }
}
            i += 1;
        }
    }
    let mut i: usize = same_rows;
    while i < N - 1
        invariant
            2 <= N <= 16,
            n == N as nat,
            full@ == vstd::set_lib::set_int_range(0, N as int),
            same_rows <= i <= N - 1,
            ok ==> (decodes_to(pv, same_rows as int, bs, n, x)),
            bs == byte_rows(*buffer),
            ok ==> (forall|a: int, b: int, c: int| 0 <= a < N && 0 <= b < N && 0 <= c < N && b != c ==> #[trigger] x[a][b] != #[trigger] x[a][c]),
            ok ==> (forall|a: int, b: int, c: int| 0 <= a < N && 0 <= b < N && 0 <= c < N && b != c ==> #[trigger] x[b][a] != #[trigger] x[c][a]),
            ok ==> (forall|r: int| 0 <= r < i ==> #[trigger] rows@[r]@ == x[r]),
            ok ==> (forall|j: int| 0 <= j < N ==> #[trigger] cols@[j]@ == col_left(x, n, i as int, j)),
        decreases N - 1 - i,
    {
        let ghost xi = x[i as int];
        let b: u64 = (N - 1) as u64;
        let mut coded = read_le(&buffer[i - same_rows]);
        proof {
 if ok {
            assert(bs[i - same_rows] == buffer@[i - same_rows]@);
            assert(x[i as int][0] == i);
            assert(row_code(xi, n) == le_value(bs[i - same_rows]) % power(n - 1, (n - 2) as nat));
            assert forall|k: int| 1 <= k < N implies 0 <= #[trigger] digit_of(xi, k) < N - 1 by {
                assert(xi[k] != xi[0]);
                assert(xi[k] < N);
            }
        }
}
        let mut row = [0u8; N];
        row[0] = i as u8;
        proof {
 if ok {
            assert(xi[0] == i);
            lemma_col_left_step(x, n, i as int, 0);
        }
}
        cols[0].remove(i);
        let mut values = full;
        values.remove(i);
        let mut j: usize = N - 2;
        proof {
 if ok {
            assert(values@ =~= Set::new(|v: int| 0 <= v < N && forall|j2: int| (j2 == 0 || j < j2 <= N - 2) ==> xi[j2] != v)) by {
                assert forall|v: int| values@.contains(v) implies forall|j2: int| (j2 == 0 || j < j2 <= N - 2) ==> xi[j2] != v by {
                    assert forall|j2: int| (j2 == 0 || j < j2 <= N - 2) implies xi[j2] != v by {
                        assert(j2 == 0);
                    }
                }
                assert forall|v: int| 0 <= v < N && (forall|j2: int| (j2 == 0 || j < j2 <= N - 2) ==> xi[j2] != v) implies values@.contains(v) by {
                    assert(xi[0] != v);
                }
            }
        }
}
        while j > 0
            invariant
                2 <= N <= 16,
                n == N as nat,
                same_rows <= i < N - 1,
                j <= N - 2,
                b == N - 1,
                xi == x[i as int],
                ok ==> (decodes_to(pv, same_rows as int, bs, n, x)),
                ok ==> (forall|a: int, b: int, c: int| 0 <= a < N && 0 <= b < N && 0 <= c < N && b != c ==> #[trigger] x[a][b] != #[trigger] x[a][c]),
                ok ==> (forall|k: int| 1 <= k < N ==> 0 <= #[trigger] digit_of(xi, k) < N - 1),
                ok ==> (coded as int % power(b as int, j as nat) == code_prefix(xi, b as int, j as nat)),
                row@[0] == i,
                ok ==> (forall|j2: int| j < j2 <= N - 2 ==> #[trigger] row@[j2] == xi[j2]),
                ok ==> (values@ == Set::new(|v: int| 0 <= v < N && forall|j2: int| (j2 == 0 || j < j2 <= N - 2) ==> xi[j2] != v)),
                ok ==> (forall|j2: int| 0 <= j2 < N ==> #[trigger] cols@[j2]@ == if j2 == 0 || (j < j2 <= N - 2) { col_left(x, n, i + 1, j2) } else { col_left(x, n, i as int, j2) }),
            decreases j,
        {
            proof {
 if ok {
                lemma_last_digit(coded as int, xi, b as int, j as nat);
            }
}
            let digit = (coded % b) as u8;
            coded = coded / b;
            let value: u8 = if digit as usize >= i { digit + 1 } else { digit };
            proof {
 if ok {
                assert(xi[j as int] != xi[0]);
                assert(value == xi[j as int]);
                assert(xi[j as int] < N);
                lemma_col_left_step(x, n, i as int, j as int);
            }
}
            row[j] = value;
            let ghost before = values@;
            values.remove(value as usize);
            cols[j].remove(value as usize);
            proof {
 if ok {
                assert(values@ =~= Set::new(|v: int| 0 <= v < N && forall|j2: int| (j2 == 0 || j - 1 < j2 <= N - 2) ==> xi[j2] != v)) by {
                    assert forall|v: int| values@.contains(v) implies forall|j2: int| (j2 == 0 || j - 1 < j2 <= N - 2) ==> xi[j2] != v by {
                        assert(before.contains(v));
                    }
                }
            }
}
            j -= 1;
        }
        proof {
 if ok {
            let last = xi[N - 1];
            assert(values@ =~= Set::<int>::empty().insert(last as int)) by {
                assert forall|v: int| values@.contains(v) implies v == last by {
                    assert(row_has(x, i as int, v));
                    let k = choose|k: int| 0 <= k < x[i as int].len() && x[i as int][k] as int == v;
                    if k < N - 1 {
                        assert(xi[k] != v);
                    }
                }
                assert forall|j2: int| (j2 == 0 || 0 < j2 <= N - 2) implies xi[j2] != last by {
                    assert(j2 != N - 1);
                }
                assert(values@.contains(last as int));
            }
            lemma_set_min_unique(values@, last as int);
            assert(last < N);
            lemma_col_left_step(x, n, i as int, N - 1);
        }
}
        proof {
            values.lemma_view();
        }
        let mut it = values.iter();
        let last = match it.next() {
            Some(v) => v,
            None => 0,
        };
        assert(last < 16);
        proof {
 if ok {
            assert(last == xi[N - 1]);
        }
}
        row[N - 1] = last as u8;
        cols[N - 1].remove(last);
        proof {
 if ok {
            assert(row@[N - 1] == xi[N - 1]);
            assert(row@[0] == xi[0]);
            assert forall|c: int| 0 <= c < N implies row@[c] == xi[c] by {
                if 0 < c < N - 1 {
                    assert(row@[c] == xi[c]);
                }
            }
            assert(row@ =~= xi);
            assert forall|j2: int| 0 <= j2 < N implies #[trigger] cols@[j2]@ == col_left(x, n, i + 1, j2) by {}
        }
}
        rows[i] = row;
        proof {
 if ok {
            assert forall|r: int| 0 <= r < i + 1 implies #[trigger] rows@[r]@ == x[r] by {}
        }
}
        i += 1;
    }
    let mut last_row = [0u8; N];
    let mut j: usize = 0;
    while j < N
        invariant
            2 <= N <= 16,
            n == N as nat,
            j <= N,
            i == N - 1,
            ok ==> (is_latin(x, n)),
            ok ==> (forall|a: int, b: int, c: int| 0 <= a < N && 0 <= b < N && 0 <= c < N && b != c ==> #[trigger] x[b][a] != #[trigger] x[c][a]),
            ok ==> (forall|j2: int| 0 <= j2 < N ==> #[trigger] cols@[j2]@ == col_left(x, n, i as int, j2)),
            ok ==> (forall|j2: int| 0 <= j2 < j ==> #[trigger] last_row@[j2] == x[N - 1][j2]),
        decreases N - j,
    {
        proof {
 if ok {
            lemma_col_left_last(x, n, j as int);
            assert(cols@[j as int]@ == col_left(x, n, (N - 1) as int, j as int));
            assert(col_left(x, n, (N - 1) as int, j as int).contains(x[N - 1][j as int] as int));
            assert(col_left(x, n, (N - 1) as int, j as int) != Set::<int>::empty());
        }
}
        proof {
            cols[j as int].lemma_view();
        }
        let mut it = cols[j].iter();
        let got = it.next();
        proof {
 if ok {
            assert(got == Some(set_min(col_left(x, n, (N - 1) as int, j as int)) as usize));
        }
}
        let v = match got {
            Some(v) => v,
            None => 0,
        };
        proof {
 if ok {
            assert(x[N - 1][j as int] < N);
            assert(v == x[N - 1][j as int]);
        }
}
        assert(v < 16);
        last_row[j] = v as u8;
        j += 1;
    }
    rows[N - 1] = last_row;
    proof {
 if ok {
        assert(last_row@ =~= x[N - 1]);
        crate::latin_square::lemma_grid(rows);
        assert(crate::latin_square::grid(rows) =~= x) by {
            assert forall|r: int| 0 <= r < N implies #[trigger] crate::latin_square::grid(rows)[r] == x[r] by {
                assert(rows@[r]@ == x[r]);
            }
        }
    }
}
    proof {
        if ok {
            assert forall|y: Seq<Seq<u8>>| #[trigger] decodes_to(pv, same_rows as int, bs, n, y)
                implies crate::latin_square::grid(rows) == y by {
                lemma_decoding_unique(pv, same_rows as int, bs, n, x, y);
            }
        } else {
            assert forall|y: Seq<Seq<u8>>| #[trigger] decodes_to(pv, same_rows as int, bs, n, y)
                implies crate::latin_square::grid(rows) == y by {
                assert(decodes_to(pv, same_rows as int, bs, n, x));
            }
        }
    }
    rows
}

/// Decodes a square from the leading rows it shares with `prev_sq` and its further rows
/// but the last, each coded in the low bytes of one eight-byte array; the last cell of each
/// row and the last row follow from the others.
pub fn decode_sq<const N: usize>(prev_sq: Option<&LatinSquare<N>>, same_rows: usize, buffer: &[[u8; 8]; N]) -> (r: LatinSquare<N>)
    requires
        2 <= N <= 16,
        exists|x: Seq<Seq<u8>>| #[trigger] decodes_to(prev_view(prev_sq), same_rows as int, byte_rows(*buffer), N as nat, x),
    ensures
        decodes_to(prev_view(prev_sq), same_rows as int, byte_rows(*buffer), N as nat, r@),
        forall|x: Seq<Seq<u8>>| #[trigger] decodes_to(prev_view(prev_sq), same_rows as int, byte_rows(*buffer), N as nat, x) ==> r@ == x,
{
    let ghost x = choose|x: Seq<Seq<u8>>| #[trigger] decodes_to(prev_view(prev_sq), same_rows as int, byte_rows(*buffer), N as nat, x);
    let rows = decode_rows(prev_sq, same_rows, buffer);
    proof {
        assert(crate::latin_square::grid(rows) == x);
    }
    LatinSquare::new(rows)
}

/// (N - 1)^(N - 2), the number of codes of a row.
fn code_modulus<const N: usize>() -> (p: u64)
    requires
        2 <= N <= 16,
    ensures
        p as int == power((N - 1) as int, (N - 2) as nat),
        p > 0,
{
    let b: u64 = (N - 1) as u64;
    let mut p: u64 = 1;
    let mut k: usize = 0;
    while k < N - 2
        invariant
            2 <= N <= 16,
            b == N - 1,
            k <= N - 2,
            p as int == power(b as int, k as nat),
        decreases N - 2 - k,
    {
        proof {
            lemma_pow_le_15(b as int, (k + 1) as nat);
            lemma_pow_mono_15((k + 1) as nat);
            lemma_pow_constants();
            assert(power(b as int, (k + 1) as nat) == b * power(b as int, k as nat));
        }
        p = p * b;
        k += 1;
    }
    proof {
        lemma_pow_positive(b as int, k as nat);
    }
    p
}

/// The square that the shared leading rows of `prev_sq` and the coded rows in `buffer`
/// describe, or `None` when they describe no Latin square.
pub fn try_decode_sq<const N: usize>(prev_sq: Option<&LatinSquare<N>>, same_rows: usize, buffer: &[[u8; 8]; N]) -> (r: Option<LatinSquare<N>>)
    requires
        2 <= N <= 16,
    ensures
        r is Some <==> exists|x: Seq<Seq<u8>>| #[trigger] decodes_to(prev_view(prev_sq), same_rows as int, byte_rows(*buffer), N as nat, x),
        r matches Some(sq) ==> decodes_to(prev_view(prev_sq), same_rows as int, byte_rows(*buffer), N as nat, sq@),
{
    let ghost pv = prev_view(prev_sq);
    let ghost bs = byte_rows(*buffer);
    let ghost n = N as nat;
    if same_rows >= N || (prev_sq.is_none() && same_rows > 0) {
        proof {
            assert forall|x: Seq<Seq<u8>>| !#[trigger] decodes_to(pv, same_rows as int, bs, n, x) by {}
        }
        return None;
    }
    let rows = decode_rows(prev_sq, same_rows, buffer);
    let ghost g = crate::latin_square::grid(rows);
    proof {
        crate::latin_square::lemma_grid(rows);
    }
    if !LatinSquare::<N>::is_valid(&rows) {
        proof {
            assert forall|x: Seq<Seq<u8>>| !#[trigger] decodes_to(pv, same_rows as int, bs, n, x) by {
                if decodes_to(pv, same_rows as int, bs, n, x) {
                    assert(g == x);
                }
            }
        }
        return None;
    }
    if let Some(prev) = prev_sq {
        let mut i: usize = 0;
        while i < same_rows
            invariant
                i <= same_rows < N,
                pv == Some(prev@),
                n == N as nat,
                bs == byte_rows(*buffer),
                g == crate::latin_square::grid(rows),
                forall|x: Seq<Seq<u8>>| #[trigger] decodes_to(pv, same_rows as int, bs, n, x) ==> g == x,
                pv == prev_view(prev_sq),
                forall|a: int| 0 <= a < i ==> #[trigger] g[a] == prev@[a],
            decreases same_rows - i,
        {
            let row = prev.get_row(i);
            let mut j: usize = 0;
            while j < N
                invariant
                    i < same_rows < N,
                    j <= N,
                    pv == Some(prev@),
                    n == N as nat,
                    bs == byte_rows(*buffer),
                    row@ == prev@[i as int],
                    g == crate::latin_square::grid(rows),
                    forall|x: Seq<Seq<u8>>| #[trigger] decodes_to(pv, same_rows as int, bs, n, x) ==> g == x,
                pv == prev_view(prev_sq),
                    forall|c: int| 0 <= c < j ==> #[trigger] g[i as int][c] == prev@[i as int][c],
                decreases N - j,
            {
                if rows[i][j] != row[j] {
                    proof {
                        crate::latin_square::lemma_grid(rows);
                        assert forall|x: Seq<Seq<u8>>| !#[trigger] decodes_to(pv, same_rows as int, bs, n, x) by {
                            if decodes_to(pv, same_rows as int, bs, n, x) {
                                assert(g == x);
                                assert(x[i as int] == prev@[i as int]);
                            }
                        }
                    }
                    return None;
                }
                proof {
                    crate::latin_square::lemma_grid(rows);
                }
                j += 1;
            }
            proof {
                crate::latin_square::lemma_grid(rows);
                assert(g[i as int] =~= prev@[i as int]);
            }
            i += 1;
        }
    }
    let modulus = code_modulus::<N>();
    let mut i: usize = same_rows;
    while i < N - 1
        invariant
            2 <= N <= 16,
            n == N as nat,
            same_rows <= i <= N - 1,
            bs == byte_rows(*buffer),
            g == crate::latin_square::grid(rows),
            forall|x: Seq<Seq<u8>>| #[trigger] decodes_to(pv, same_rows as int, bs, n, x) ==> g == x,
                pv == prev_view(prev_sq),
            is_latin(g, n),
            modulus as int == power(n - 1, (n - 2) as nat),
            modulus > 0,
            forall|a: int| same_rows <= a < i ==> #[trigger] g[a][0] == a
                && row_code(g[a], n) == le_value(bs[a - same_rows]) % power(n - 1, (n - 2) as nat),
        decreases N - 1 - i,
    {
        proof {
            crate::latin_square::lemma_grid(rows);
            lemma_latin_distinct(g, n);
            assert(rows@[i as int]@ == g[i as int]);
            assert forall|j: int| 1 <= j < N implies #[trigger] g[i as int][j] != g[i as int][0] by {}
            lemma_digits_small(g[i as int], n);
        }
        let ok_start = rows[i][0] as usize == i;
        let code = code_of_row(&rows[i]);
        let expected = read_le(&buffer[i - same_rows]) % modulus;
        proof {
            assert(bs[i - same_rows] == buffer@[i - same_rows]@);
        }
        if !ok_start || code != expected {
            proof {
                assert forall|x: Seq<Seq<u8>>| !#[trigger] decodes_to(pv, same_rows as int, bs, n, x) by {
                    if decodes_to(pv, same_rows as int, bs, n, x) {
                        assert(g == x);
                        assert(x[i as int][0] == i);
                    }
                }
            }
            return None;
        }
        i += 1;
    }
    let sq = LatinSquare::new(rows);
    proof {
        assert(decodes_to(pv, same_rows as int, bs, n, sq@));
    }
    Some(sq)
}

/// The rows that a square shares with the optional square coded before it.
pub open spec fn shared_prefix(s: Seq<Seq<u8>>, prev: Option<Seq<Seq<u8>>>, n: nat) -> int {
    match prev {
        Some(p) => leading_same(s, p, n, 0),
        None => 0,
    }
}

/// `len` zero bytes.
pub open spec fn zeros(len: nat) -> Seq<u8> {
    Seq::new(len, |k: int| 0u8)
}

proof fn lemma_le_value_zeros(m: nat)
    ensures
        le_value(zeros(m)) == 0,
    decreases m,
{
    if m > 0 {
        assert(zeros(m).drop_first() =~= zeros((m - 1) as nat));
        lemma_le_value_zeros((m - 1) as nat);
    }
}

/// Bytes written by `le_bytes` and padded with zeros read back as x modulo 256^len.
proof fn lemma_le_round_trip(x: int, len: nat, m: nat)
    requires
        x >= 0,
    ensures
        le_value(le_bytes(x, len) + zeros(m)) == x % power(256, len),
    decreases len,
{
    if len == 0 {
        assert(le_bytes(x, 0) + zeros(m) =~= zeros(m));
        lemma_le_value_zeros(m);
    } else {
        let rest = le_bytes(x / 256, (len - 1) as nat) + zeros(m);
        assert((le_bytes(x, len) + zeros(m)).drop_first() =~= rest);
        assert((le_bytes(x, len) + zeros(m))[0] == (x % 256) as u8);
        vstd::arithmetic::div_mod::lemma_div_pos_is_pos(x, 256);
        lemma_le_round_trip(x / 256, (len - 1) as nat, m);
        lemma_pow_positive(256, (len - 1) as nat);
        assert(power(256, len) == 256 * power(256, (len - 1) as nat));
        vstd::arithmetic::div_mod::lemma_mod_breakdown(x, 256, power(256, (len - 1) as nat));
    }
}

/// Some k is the least with 2^k >= p, for p up to 2^63.
proof fn lemma_bits_exist(p: int, k: nat)
    requires
        1 <= p <= 9223372036854775808,
        k <= 63,
        k == 0 || power(2, (k - 1) as nat) < p,
    ensures
        power(2, bits_for(p)) >= p,
        bits_for(p) == 0 || power(2, (bits_for(p) - 1) as nat) < p,
    decreases 63 - k,
{
    lemma_pow_constants();
    if power(2, k) >= p {
        lemma_bits_unique(p, k);
    } else {
        if k == 63 {
            assert(false);
        }
        lemma_bits_exist(p, k + 1);
    }
}

proof fn lemma_pow2_bytes(m: nat)
    ensures
        power(2, 8 * m) == power(256, m),
    decreases m,
{
    if m > 0 {
        lemma_pow2_bytes((m - 1) as nat);
        reveal_with_fuel(power, 9);
        lemma_pow_add2(8 * (m - 1) as nat, 8);
        assert(power(2, 8) == 256);
        assert(8 * m == 8 * (m - 1) + 8);
    }
}

proof fn lemma_pow_add2(a: nat, b: nat)
    ensures
        power(2, a + b) == power(2, a) * power(2, b),
    decreases b,
{
    if b > 0 {
        lemma_pow_add2(a, (b - 1) as nat);
        assert(power(2, a + b) == 2 * power(2, (a + b - 1) as nat));
        assert(power(2, b) == 2 * power(2, (b - 1) as nat));
        assert(2 * (power(2, a) * power(2, (b - 1) as nat)) == power(2, a) * (2 * power(2, (b - 1) as nat))) by (nonlinear_arith);
    }
}

/// Every row code of order n fits in `row_len(n)` bytes.
proof fn lemma_code_fits(n: nat)
    requires
        2 <= n <= 16,
    ensures
        power(n - 1, (n - 2) as nat) <= power(256, row_len(n)),
        power(n - 1, (n - 2) as nat) >= 1,
{
    let p = power(n - 1, (n - 2) as nat);
    lemma_pow_positive(n - 1, (n - 2) as nat);
    lemma_pow_le_15(n - 1, (n - 2) as nat);
    lemma_pow_mono_15((n - 2) as nat);
    lemma_pow_constants();
    lemma_bits_exist(p, 0);
    let k = bits_for(p);
    lemma_pow2_monotone(k, 8 * row_len(n));
    lemma_pow2_bytes(row_len(n));
}

/// Decoding what `encode_sq` wrote for a reduced Latin square, each coded row padded with
/// zeros to eight bytes, gives the square back when it is not the square coded just
/// before it.
pub proof fn lemma_decode_encoded(s: Seq<Seq<u8>>, prev: Option<Seq<Seq<u8>>>, n: nat, buffer: Seq<Seq<u8>>)
    requires
        2 <= n <= 16,
        is_latin(s, n),
        is_reduced_grid(s, n),
        prev matches Some(p) ==> p.len() == n,
        shared_prefix(s, prev, n) < n,
        buffer.len() >= n - 1 - shared_prefix(s, prev, n),
        forall|r: int| 0 <= r < n - 1 - shared_prefix(s, prev, n) ==> #[trigger] buffer[r]
            == le_bytes(row_code(s[shared_prefix(s, prev, n) + r], n), row_len(n)) + zeros((8 - row_len(n)) as nat),
    ensures
        decodes_to(prev, shared_prefix(s, prev, n), buffer, n, s),
{
    let same = shared_prefix(s, prev, n);
    if let Some(pr) = prev {
        lemma_leading_same_bounds(s, pr, n, 0);
    }
    assert(0 <= same);
    lemma_latin_distinct(s, n);
    lemma_code_fits(n);
    let b = n - 1;
    let p = power(b, (n - 2) as nat);
    if let Some(pr) = prev {
        assert forall|i: int| 0 <= i < same implies #[trigger] s[i] == pr[i] by {
            lemma_leading_same_prefix(s, pr, n, 0, i);
        }
    }
    assert forall|i: int| same <= i < n - 1 implies #[trigger] s[i][0] == i
        && row_code(s[i], n) == le_value(buffer[i - same]) % power(n - 1, (n - 2) as nat) by {
        assert(0 <= i < n);
        assert(s[0][i] as int == i);
        assert(s[i][0] as int == i);
        assert forall|k: int| 1 <= k <= n - 2 implies 0 <= #[trigger] digit_of(s[i], k) < b by {
            assert(s[i][k] != s[i][0]);
        }
        lemma_code_bound(s[i], b, (n - 2) as nat);
        let c = row_code(s[i], n);
        assert(buffer[i - same] == le_bytes(c, row_len(n)) + zeros((8 - row_len(n)) as nat));
        lemma_le_round_trip(c, row_len(n), (8 - row_len(n)) as nat);
        vstd::arithmetic::div_mod::lemma_small_mod(c as nat, power(256, row_len(n)) as nat);
        vstd::arithmetic::div_mod::lemma_small_mod(c as nat, p as nat);
    }
}

proof fn lemma_leading_same_bounds(a: Seq<Seq<u8>>, b: Seq<Seq<u8>>, n: nat, k: int)
    requires
        0 <= k,
    ensures
        k <= leading_same(a, b, n, k),
    decreases n - k,
{
    if k < n && a[k] == b[k] {
        lemma_leading_same_bounds(a, b, n, k + 1);
    }
}

/// The rows before the count `leading_same` gives are equal.
proof fn lemma_leading_same_prefix(a: Seq<Seq<u8>>, b: Seq<Seq<u8>>, n: nat, k: int, i: int)
    requires
        0 <= k <= i < leading_same(a, b, n, k),
    ensures
        a[i] == b[i],
    decreases n - k,
{
    if k < i {
        lemma_leading_same_prefix(a, b, n, k + 1, i);
    } else {
        if k >= n || a[k] != b[k] {
            assert(leading_same(a, b, n, k) == k);
        }
    }
}

/// `le_bytes` gives as many bytes as asked for.
proof fn lemma_le_bytes_len(x: int, len: nat)
    ensures
        le_bytes(x, len).len() == len,
    decreases len,
{
    if len > 0 {
        lemma_le_bytes_len(x / 256, (len - 1) as nat);
    }
}

/// The coded rows are blocks of `row_len(n)` bytes, block i the code of row from + i.
proof fn lemma_coded_block(s: Seq<Seq<u8>>, from: int, n: nat, i: int)
    requires
        0 <= from,
        0 <= i,
        from + i < n - 1,
    ensures
        coded_rows(s, from, n).len() == (n - 1 - from) * row_len(n),
        coded_rows(s, from, n).subrange(i * row_len(n), (i + 1) * row_len(n)) == le_bytes(row_code(s[from + i], n), row_len(n)),
    decreases n - from,
{
    let k = row_len(n) as int;
    lemma_le_bytes_len(row_code(s[from], n), row_len(n));
    let head = le_bytes(row_code(s[from], n), row_len(n));
    let tail = coded_rows(s, from + 1, n);
    if from + 1 < n - 1 {
        lemma_coded_block(s, from + 1, n, 0);
    } else {
        assert(tail.len() == 0);
    }
    assert(tail.len() == (n - 1 - (from + 1)) * k);
    assert((n - 1 - from) * k == k + (n - 1 - (from + 1)) * k) by (nonlinear_arith);
    if i == 0 {
        assert((head + tail).subrange(0, k) =~= head);
        assert(0 * k == 0);
        assert(1 * k == k);
    } else {
        lemma_coded_block(s, from + 1, n, i - 1);
        assert(i * k == k + (i - 1) * k) by (nonlinear_arith);
        assert((i + 1) * k == k + i * k) by (nonlinear_arith);
        assert(i * k - k == (i - 1) * k) by (nonlinear_arith);
        assert((i + 1) * k - k == i * k) by (nonlinear_arith);
        assert(0 <= (i - 1) * k) by (nonlinear_arith)
            requires
                i >= 1,
                k >= 0,
        ;
        assert((i + 1) * k <= (n - 1 - from) * k) by (nonlinear_arith)
            requires
                i + 1 <= n - 1 - from,
                k >= 0,
        ;
        assert(head.len() == k);
        assert forall|x: int| 0 <= x < k implies #[trigger] (head + tail)[i * k + x] == tail[(i - 1) * k + x] by {
            assert(i * k + x - k == (i - 1) * k + x);
        }
        assert((head + tail).subrange(i * k, (i + 1) * k) =~= tail.subrange((i - 1) * k, i * k)) by {
            assert forall|x: int| 0 <= x < k implies #[trigger] (head + tail).subrange(i * k, (i + 1) * k)[x] == tail.subrange((i - 1) * k, i * k)[x] by {
                assert((head + tail)[i * k + x] == tail[(i - 1) * k + x]);
            }
        }
    }
}

/// The bytes that `encode_sq` appends for a reduced Latin square that is not the square
/// coded before it, read back as the count of shared rows (the first byte) and the coded
/// rows (each following block of `row_size` bytes, padded with zeros to eight), describe
/// the square, which `decode_sq` then gives back.
pub proof fn lemma_encoded_bytes_decode<const N: usize>(sq: LatinSquare<N>, prev: Option<LatinSquare<N>>, out: Seq<u8>, rows: [[u8; 8]; N])
    requires
        2 <= N <= 16,
        is_latin(sq@, N as nat),
        is_reduced_grid(sq@, N as nat),
        prev matches Some(p) ==> is_latin(p@, N as nat),
        shared_rows(sq, prev) < N,
        out == seq![shared_rows(sq, prev) as u8] + coded_rows(sq@, shared_rows(sq, prev), N as nat),
        forall|i: int| 0 <= i < N - 1 - out[0] ==> #[trigger] rows@[i]@
            == out.subrange(1 + i * row_len(N as nat), 1 + (i + 1) * row_len(N as nat)) + zeros((8 - row_len(N as nat)) as nat),
    ensures
        decodes_to(
            match prev {
                Some(p) => Some(p@),
                None => None::<Seq<Seq<u8>>>,
            },
            out[0] as int,
            byte_rows(rows),
            N as nat,
            sq@,
        ),
{
    let n = N as nat;
    let pv = match prev {
        Some(p) => Some(p@),
        None => None::<Seq<Seq<u8>>>,
    };
    let same = shared_rows(sq, prev);
    assert(same == shared_prefix(sq@, pv, n));
    if let Some(p) = prev {
        lemma_leading_same_bounds(sq@, p@, n, 0);
    }
    assert(0 <= same);
    assert(out[0] as int == same);
    let coded = coded_rows(sq@, same, n);
    let k = row_len(n) as int;
    let buffer = byte_rows(rows);
    assert forall|r: int| 0 <= r < n - 1 - same implies #[trigger] buffer[r]
        == le_bytes(row_code(sq@[same + r], n), row_len(n)) + zeros((8 - row_len(n)) as nat) by {
        lemma_coded_block(sq@, same, n, r);
        assert(0 <= r * k) by (nonlinear_arith)
            requires
                r >= 0,
                k >= 0,
        ;
        assert((r + 1) * k <= (n - 1 - same) * k) by (nonlinear_arith)
            requires
                r + 1 <= n - 1 - same,
                k >= 0,
        ;
        assert((r + 1) * k == r * k + k) by (nonlinear_arith);
        assert(out.subrange(1 + r * k, 1 + (r + 1) * k) =~= coded.subrange(r * k, (r + 1) * k)) by {
            assert forall|x: int| 0 <= x < k implies #[trigger] out.subrange(1 + r * k, 1 + (r + 1) * k)[x] == coded.subrange(r * k, (r + 1) * k)[x] by {
                assert(out[1 + r * k + x] == coded[r * k + x]);
            }
        }
        assert(buffer[r] == rows@[r]@);
    }
    lemma_decode_encoded(sq@, pv, n, buffer);
}

} // verus!
