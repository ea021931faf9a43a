//! Arithmetic on the ring of volume directories: the greatest common divisor
//! that picks a stride, the spread order of a probe wave, and the neighbors
//! of a directory.

use vstd::prelude::*;
use vstd::arithmetic::div_mod::*;
use std::collections::HashSet;

verus! {

/// The greatest common divisor by Euclid's recursion.
pub open spec fn spec_gcd(a: nat, b: nat) -> nat
    decreases b,
{
    if b == 0 {
        a
    } else {
        spec_gcd(b, a % b)
    }
}

/// `d` divides `x`: some natural multiple of `d` is `x`.
pub open spec fn divides(d: nat, x: nat) -> bool {
    exists|k: nat| #[trigger] (d * k) == x
}

/// Greatest common divisor of `a` and `b` (`gcd(a, 0) == a`).
pub fn gcd(a: usize, b: usize) -> (g: usize)
    ensures
        g == spec_gcd(a as nat, b as nat),
{
    let mut a = a;
    let mut b = b;
    let ghost a0 = a as nat;
    let ghost b0 = b as nat;
    while b != 0
        invariant
            spec_gcd(a as nat, b as nat) == spec_gcd(a0, b0),
        decreases b,
    {
        let r = a % b;
        a = b;
        b = r;
    }
    a
}

proof fn lemma_divides_mul(d: nat, k: nat)
    ensures
        divides(d, d * k),
{
    assert(d * k == d * k);
}

proof fn lemma_divides_zero(d: nat)
    ensures
        divides(d, 0),
{
    assert(d * 0 == 0) by (nonlinear_arith);
}

/// `d | b` and `d | a % b` give `d | a`, and `d | a`, `d | b` give `d | a % b`.
proof fn lemma_divides_euclid_step(d: nat, a: nat, b: nat)
    requires
        b > 0,
    ensures
        divides(d, b) && divides(d, a % b) ==> divides(d, a),
        divides(d, a) && divides(d, b) ==> divides(d, a % b),
{
    let q = a / b;
    let r = a % b;
    lemma_fundamental_div_mod(a as int, b as int);
    assert(a == b * q + r);
    if divides(d, b) && divides(d, a % b) {
        let kb = choose|k: nat| #[trigger] (d * k) == b;
        let kr = choose|k: nat| #[trigger] (d * k) == r;
        assert(d * (kb * q + kr) == a) by (nonlinear_arith)
            requires
                d * kb == b,
                d * kr == r,
                a == b * q + r,
        ;
        lemma_divides_mul(d, kb * q + kr);
    }
    if divides(d, a) && divides(d, b) {
        let ka = choose|k: nat| #[trigger] (d * k) == a;
        let kb = choose|k: nat| #[trigger] (d * k) == b;
        assert(ka >= kb * q) by (nonlinear_arith)
            requires
                d * ka == a,
                d * kb == b,
                a == b * q + r,
                r >= 0,
                b > 0,
        {
            if ka < kb * q {
                assert(d * ka < d * (kb * q));
            }
        }
        assert(d * ((ka - kb * q) as nat) == r) by (nonlinear_arith)
            requires
                d * ka == a,
                d * kb == b,
                a == b * q + r,
                ka >= kb * q,
        ;
        lemma_divides_mul(d, (ka - kb * q) as nat);
    }
}

/// The gcd divides both arguments.
pub proof fn lemma_gcd_divides_both(a: nat, b: nat)
    ensures
        divides(spec_gcd(a, b), a),
        divides(spec_gcd(a, b), b),
    decreases b,
{
    if b == 0 {
        assert(a * 1 == a);
        lemma_divides_zero(a);
    } else {
        lemma_gcd_divides_both(b, a % b);
        lemma_divides_euclid_step(spec_gcd(a, b), a, b);
    }
}

/// Every common divisor of the arguments divides their gcd.
pub proof fn lemma_gcd_is_greatest(a: nat, b: nat, d: nat)
    requires
        divides(d, a),
        divides(d, b),
    ensures
        divides(d, spec_gcd(a, b)),
    decreases b,
{
    if b > 0 {
        lemma_divides_euclid_step(d, a, b);
        lemma_gcd_is_greatest(b, a % b, d);
    }
}


/// `(m * a) % (m * b) == m * (a % b)` for positive `m` and `b`.
proof fn lemma_mod_scale(m: nat, a: nat, b: nat)
    requires
        m > 0,
        b > 0,
    ensures
        (m * a) % (m * b) == m * (a % b),
{
    let q = a / b;
    let r = a % b;
    lemma_fundamental_div_mod(a as int, b as int);
    assert(0 <= r < b);
    assert(m * a == q * (m * b) + m * r && 0 <= m * r < m * b) by (nonlinear_arith)
        requires
            a == b * q + r,
            0 <= r < b,
            m > 0,
    ;
    lemma_fundamental_div_mod_converse((m * a) as int, (m * b) as int, q as int, (m * r) as int);
}

/// `gcd(m * a, m * b) == m * gcd(a, b)`.
proof fn lemma_gcd_scale(m: nat, a: nat, b: nat)
    ensures
        spec_gcd(m * a, m * b) == m * spec_gcd(a, b),
    decreases b,
{
    if m == 0 {
        assert(m * a == 0 && m * b == 0 && m * spec_gcd(a, b) == 0) by (nonlinear_arith)
            requires
                m == 0,
        ;
    } else if b == 0 {
        assert(m * b == 0) by (nonlinear_arith)
            requires
                b == 0,
        ;
    } else {
        assert(m * b > 0) by (nonlinear_arith)
            requires
                m > 0,
                b > 0,
        ;
        lemma_mod_scale(m, a, b);
        lemma_gcd_scale(m, b, a % b);
    }
}

/// Euclid's lemma: when `gcd(s, n) == 1` and `n` divides `k * s`, `n` divides `k`.
pub proof fn lemma_coprime_divides(n: nat, s: nat, k: nat)
    requires
        spec_gcd(s, n) == 1,
        divides(n, k * s),
    ensures
        divides(n, k),
{
    assert(k * s == s * k) by (nonlinear_arith);
    assert(n * k == k * n) by (nonlinear_arith);
    lemma_divides_mul(n, k);
    lemma_gcd_is_greatest(k * s, k * n, n);
    lemma_gcd_scale(k, s, n);
    assert(k * 1 == k);
}

/// For `n >= 2` the gcd of `n - 1` and `n` is 1.
proof fn lemma_gcd_predecessor(n: nat)
    requires
        n >= 2,
    ensures
        spec_gcd((n - 1) as nat, n) == 1,
{
    let m = (n - 1) as nat;
    assert(m % n == m) by {
        lemma_fundamental_div_mod_converse(m as int, n as int, 0, m as int);
    }
    if m == 1 {
        assert(n % m == 0);
        assert(spec_gcd(n, m) == spec_gcd(m, 0));
    } else {
        assert(n % m == 1) by {
            lemma_fundamental_div_mod_converse(n as int, m as int, 1, 1);
        }
        assert(m % 1 == 0);
        assert(spec_gcd(1, 0) == 1);
        assert(spec_gcd(m, 1) == spec_gcd(1, m % 1));
        assert(spec_gcd(n, m) == spec_gcd(m, n % m));
    }
    assert(spec_gcd(m, n) == spec_gcd(n, m % n));
}

/// How many directories one probe wave lists at once.
pub const PROBE_CAP: usize = 64;

/// The stride search of a spread: starting at `s`, the first stride coprime
/// with `n`, or `None` once the search reaches `n`.
pub open spec fn spec_stride_from(s: nat, n: nat) -> Option<nat>
    decreases n - s,
{
    if spec_gcd(s, n) == 1 {
        Some(s)
    } else if s + 1 >= n {
        None
    } else {
        spec_stride_from(s + 1, n)
    }
}

/// The stride a spread of `n` directories starts its search at.
pub open spec fn spec_first_stride(n: nat) -> nat {
    if n / (PROBE_CAP as nat) >= 1 {
        n / (PROBE_CAP as nat)
    } else {
        1
    }
}

/// The position in the listed order of the `i`-th directory of a spread.
pub open spec fn spread_position(n: nat, stride: nat, i: int) -> int {
    ((i + 1) * stride) % (n as int)
}

/// The order in which one probe wave visits `volumes`: for two or more
/// directories and a stride coprime with their number, entry `i` is the
/// directory at `(i + 1) * stride` modulo the number; otherwise the order is
/// unchanged.
pub open spec fn spec_spread_ring(volumes: Seq<usize>) -> Seq<usize> {
    let n = volumes.len();
    if n < 2 {
        volumes
    } else {
        match spec_stride_from(spec_first_stride(n), n) {
            None => volumes,
            Some(stride) => Seq::new(n, |i: int| volumes[spread_position(n, stride, i)]),
        }
    }
}

proof fn lemma_stride_from_found(s: nat, n: nat)
    requires
        1 <= s < n,
    ensures
        spec_stride_from(s, n) matches Some(t) && s <= t < n && spec_gcd(t, n) == 1,
    decreases n - s,
{
    if spec_gcd(s, n) != 1 {
        if s + 1 >= n {
            lemma_gcd_predecessor(n);
        } else {
            lemma_stride_from_found(s + 1, n);
        }
    }
}

/// Visit every occupied directory, but spread the first wave across the ring
/// so the current cluster is not sitting behind directory 1.
pub fn spread_ring(volumes: Vec<usize>) -> (out: Vec<usize>)
    ensures
        out@ == spec_spread_ring(volumes@),
{
    let n = volumes.len();
    if n < 2 {
        return volumes;
    }
    let mut stride = n / PROBE_CAP;
    if stride < 1 {
        stride = 1;
    }
    assert(stride == spec_first_stride(n as nat));
    while gcd(stride, n) != 1
        invariant
            n == volumes.len(),
            n >= 2,
            1 <= stride < n,
            spec_stride_from(stride as nat, n as nat) == spec_stride_from(
                spec_first_stride(n as nat),
                n as nat,
            ),
        decreases n - stride,
    {
        stride = stride + 1;
        if stride >= n {
            return volumes;
        }
    }
    let ghost v = volumes@;
    let mut out: Vec<usize> = Vec::new();
    let mut pos: usize = stride;
    assert(pos as int == spread_position(n as nat, stride as nat, 0)) by {
        lemma_fundamental_div_mod_converse(stride as int, n as int, 0, stride as int);
    }
    let mut i: usize = 0;
    while i < n
        invariant
            n == volumes.len(),
            v == volumes@,
            n >= 2,
            1 <= stride < n,
            0 <= i <= n,
            pos < n,
            pos as int == spread_position(n as nat, stride as nat, i as int),
            out@.len() == i,
            forall|j: int|
                0 <= j < i ==> #[trigger] out@[j] == v[spread_position(
                    n as nat,
                    stride as nat,
                    j,
                )],
        decreases n - i,
    {
        out.push(volumes[pos]);
        proof {
            let a = ((i + 1) * stride) as int;
            assert(((i + 2) * stride) as int == a + stride) by (nonlinear_arith)
                requires
                    a == ((i + 1) * stride) as int,
            ;
            lemma_add_mod_noop(a, stride as int, n as int);
            lemma_fundamental_div_mod_converse(stride as int, n as int, 0, stride as int);
            if pos + stride >= n {
                lemma_fundamental_div_mod_converse(
                    (pos + stride) as int,
                    n as int,
                    1,
                    (pos + stride - n) as int,
                );
            } else {
                lemma_fundamental_div_mod_converse(
                    (pos + stride) as int,
                    n as int,
                    0,
                    (pos + stride) as int,
                );
            }
        }
        if pos >= n - stride {
            pos = pos - (n - stride);
        } else {
            pos = pos + stride;
        }
        i = i + 1;
    }
    proof {
        lemma_stride_from_found(spec_first_stride(n as nat), n as nat);
        assert(out@ =~= spec_spread_ring(v));
    }
    out
}


/// The position in `volumes` that entry `i` of the spread order comes from.
pub open spec fn spread_source(volumes: Seq<usize>, i: int) -> int {
    let n = volumes.len();
    if n < 2 {
        i
    } else {
        match spec_stride_from(spec_first_stride(n), n) {
            None => i,
            Some(stride) => spread_position(n, stride, i),
        }
    }
}

/// Position `k` of `volumes` is the source of some entry of the spread order.
pub open spec fn taken_by_spread(volumes: Seq<usize>, k: int) -> bool {
    exists|i: int| 0 <= i < volumes.len() && #[trigger] spread_source(volumes, i) == k
}

/// Two positions of a spread with a coprime stride never coincide.
proof fn lemma_spread_position_injective(n: nat, stride: nat, i: int, j: int)
    requires
        n >= 2,
        1 <= stride < n,
        spec_gcd(stride, n) == 1,
        0 <= j < i < n,
    ensures
        spread_position(n, stride, i) != spread_position(n, stride, j),
{
    let a = ((i + 1) * stride) as int;
    let b = ((j + 1) * stride) as int;
    if spread_position(n, stride, i) == spread_position(n, stride, j) {
        let r = a % (n as int);
        lemma_fundamental_div_mod(a, n as int);
        lemma_fundamental_div_mod(b, n as int);
        let qa = a / (n as int);
        let qb = b / (n as int);
        let k = (i - j) as nat;
        assert(k * stride == a - b) by (nonlinear_arith)
            requires
                a == (i + 1) * stride,
                b == (j + 1) * stride,
                k == i - j,
        ;
        assert(a - b == n * (qa - qb)) by (nonlinear_arith)
            requires
                a == n * qa + r,
                b == n * qb + r,
        ;
        assert(qa - qb >= 0) by (nonlinear_arith)
            requires
                n * (qa - qb) == k * stride,
                n > 0,
                k * stride >= 0,
        {
            if qa - qb < 0 {
                assert(n * (qa - qb) < 0);
            }
        }
        let w = (qa - qb) as nat;
        assert(n * w == k * stride);
        lemma_coprime_divides(n, stride, k);
        let c = choose|c: nat| #[trigger] (n * c) == k;
        assert(false) by (nonlinear_arith)
            requires
                n * c == k,
                0 < k < n,
        {
            if c == 0 {
                assert(n * c == 0);
            } else {
                assert(n * c >= n);
            }
        }
    }
}

/// Every entry of the spread order is a directory of `volumes`, each
/// directory is taken from exactly one position, and every position is taken:
/// the spread visits every occupied directory exactly once.
pub proof fn lemma_spread_ring_visits_every_directory(volumes: Seq<usize>)
    ensures
        spec_spread_ring(volumes).len() == volumes.len(),
        forall|i: int|
            0 <= i < volumes.len() ==> 0 <= #[trigger] spread_source(volumes, i) < volumes.len()
                && spec_spread_ring(volumes)[i] == volumes[spread_source(volumes, i)],
        forall|i: int, j: int|
            0 <= i < volumes.len() && 0 <= j < volumes.len() && i != j ==> #[trigger] spread_source(
                volumes,
                i,
            ) != #[trigger] spread_source(volumes, j),
        forall|k: int| 0 <= k < volumes.len() ==> #[trigger] taken_by_spread(volumes, k),
{
    let n = volumes.len();
    let src = |i: int| spread_source(volumes, i);
    if n >= 2 {
        lemma_stride_from_found(spec_first_stride(n), n);
        let stride = spec_stride_from(spec_first_stride(n), n).unwrap();
        assert forall|i: int| 0 <= i < n implies 0 <= #[trigger] spread_source(volumes, i) < n by {
            lemma_fundamental_div_mod((i + 1) * stride, n as int);
        }
        assert forall|i: int, j: int|
            0 <= i < n && 0 <= j < n && i != j implies #[trigger] spread_source(volumes, i)
            != #[trigger] spread_source(volumes, j) by {
            if i < j {
                lemma_spread_position_injective(n, stride, j, i);
            } else {
                lemma_spread_position_injective(n, stride, i, j);
            }
        }
    }
    let range = Set::new(|i: int| 0 <= i < n);
    assert(range =~= vstd::set_lib::set_int_range(0, n as int));
    vstd::set_lib::lemma_int_range(0, n as int);
    let image = range.map(src);
    assert(vstd::relations::injective_on(src, range));
    vstd::set_lib::lemma_map_size(range, image, src);
    assert(image.subset_of(range));
    vstd::set_lib::lemma_subset_equality(image, range);
    assert forall|k: int| 0 <= k < n implies #[trigger] taken_by_spread(volumes, k) by {
        assert(range.contains(k));
        assert(image.contains(k));
    }
}

/// With two or more distinct directories the first probe of a spread is not
/// the first directory of `volumes`.
pub proof fn lemma_spread_ring_first_probe_moves(volumes: Seq<usize>)
    requires
        volumes.len() >= 2,
        volumes.no_duplicates(),
    ensures
        spec_spread_ring(volumes)[0] != volumes[0],
{
    let n = volumes.len();
    lemma_stride_from_found(spec_first_stride(n), n);
    let stride = spec_stride_from(spec_first_stride(n), n).unwrap();
    assert((0 + 1) * (stride as int) == stride as int) by (nonlinear_arith);
    lemma_fundamental_div_mod_converse(stride as int, n as int, 0, stride as int);
    assert(spread_position(n, stride, 0) == stride);
}


/// The number of the last volume directory; the ring is `1..=999`.
pub const LAST_VOLUME: usize = 999;

/// Brings `n` back onto the ring by one turn in either direction.
pub open spec fn ring_wrap(n: int) -> int {
    if n < 1 {
        n + LAST_VOLUME
    } else if n > LAST_VOLUME {
        n - LAST_VOLUME
    } else {
        n
    }
}

/// The `k`-th directory of the window of `radius` around `center`, taken
/// from offset `k - radius`, wrapped onto the ring and read as a `usize`.
pub open spec fn neighbor_candidate(center: usize, radius: usize, k: int) -> usize {
    ring_wrap(center + k - radius) as usize
}

/// The directories of the window of `radius` around `center`, in order of
/// offset from `-radius` to `radius`.
pub open spec fn neighbor_candidates(center: usize, radius: usize) -> Seq<usize> {
    Seq::new((2 * radius + 1) as nat, |k: int| neighbor_candidate(center, radius, k))
}

/// The occupied directories within `radius` of `center` on the ring, in
/// order of offset from `-radius` to `radius`.
pub open spec fn spec_neighbor_volumes(occupied: Set<usize>, center: usize, radius: usize) -> Seq<
    usize,
> {
    neighbor_candidates(center, radius).filter(|n: usize| occupied.contains(n))
}

/// The occupied directories within `radius` of `center`, wrapping around the
/// ring, in order of offset from `-radius` to `radius`.
pub fn neighbor_volumes(occupied: &HashSet<usize>, center: usize, radius: usize) -> (out: Vec<
    usize,
>)
    requires
        center + radius <= i32::MAX,
    ensures
        out@ == spec_neighbor_volumes(occupied@, center, radius),
{
    broadcast use vstd::std_specs::hash::group_hash_axioms;

    let ghost cands = neighbor_candidates(center, radius);
    let ghost pred = |n: usize| occupied@.contains(n);
    let mut out: Vec<usize> = Vec::new();
    let r: i64 = radius as i64;
    let c: i64 = center as i64;
    let mut k: i64 = 0;
    while k <= 2 * r
        invariant
            r == radius,
            c == center,
            center + radius <= i32::MAX,
            0 <= k <= 2 * r + 1,
            cands == neighbor_candidates(center, radius),
            pred == (|n: usize| occupied@.contains(n)),
            out@ == cands.take(k as int).filter(pred),
        decreases 2 * r + 1 - k,
    {
        let mut n: i64 = c + k - r;
        if n < 1 {
            n = n + 999;
        } else if n > 999 {
            n = n - 999;
        }
        let m = n as usize;
        assert(m == cands[k as int]);
        assert(cands.take(k + 1) =~= cands.take(k as int).push(cands[k as int]));
        proof {
            cands.take(k as int).lemma_filter_push(cands[k as int], pred);
        }
        if occupied.contains(&m) {
            out.push(m);
        }
        k = k + 1;
    }
    assert(cands.take(2 * r + 1) =~= cands);
    out
}


/// Distance between two directories of the ring, going the shorter way round.
pub open spec fn ring_distance(a: int, b: int) -> int {
    let d = if a >= b {
        a - b
    } else {
        b - a
    };
    if d <= LAST_VOLUME - d {
        d
    } else {
        LAST_VOLUME - d
    }
}

/// For a directory `center` of the ring and a radius shorter than the ring,
/// the neighbors are exactly the occupied directories whose ring distance to
/// `center` is at most `radius`: the window wraps from 999 to 1 and back.
pub proof fn lemma_neighbors_are_the_occupied_window(
    occupied: Set<usize>,
    center: usize,
    radius: usize,
    v: usize,
)
    requires
        1 <= center <= LAST_VOLUME,
        radius < LAST_VOLUME,
    ensures
        spec_neighbor_volumes(occupied, center, radius).contains(v) <==> (1 <= v <= LAST_VOLUME
            && occupied.contains(v) && ring_distance(center as int, v as int) <= radius),
{
    broadcast use vstd::seq_lib::group_filter_ensures;

    let cands = neighbor_candidates(center, radius);
    let pred = |n: usize| occupied.contains(n);
    let out = spec_neighbor_volumes(occupied, center, radius);
    assert forall|k: int| 0 <= k < cands.len() implies 1 <= #[trigger] cands[k] <= LAST_VOLUME
        && ring_distance(center as int, cands[k] as int) <= radius by {
        assert(neighbor_candidate(center, radius, k) == cands[k]);
    }
    if out.contains(v) {
        cands.lemma_filter_contains_rev(pred, v);
        let k = choose|k: int| 0 <= k < cands.len() && cands[k] == v;
        let i = choose|i: int| 0 <= i < out.len() && out[i] == v;
        assert(pred(out[i]));
    }
    if 1 <= v <= LAST_VOLUME && occupied.contains(v) && ring_distance(center as int, v as int)
        <= radius {
        let d = v - center;
        let k = if -(radius as int) <= d <= radius {
            d + radius
        } else if d > 0 {
            d - LAST_VOLUME + radius
        } else {
            d + LAST_VOLUME + radius
        };
        assert(0 <= k < cands.len());
        assert(neighbor_candidate(center, radius, k) == v);
        assert(cands[k] == v);
        cands.lemma_filter_contains(pred, k);
    }
}

} // verus!
