//! Prime counting and listing with a bit sieve over the odd numbers: bit `i`
//! stands for `2 * i + 3`.
use vstd::prelude::*;
use vstd::arithmetic::div_mod::lemma_fundamental_div_mod_converse;

verus! {

/// `d` divides `n`.
pub open spec fn divides(d: nat, n: nat) -> bool {
    n % d == 0
}

pub open spec fn is_prime(n: nat) -> bool {
    n >= 2 && forall|d: nat| 2 <= d < n ==> !#[trigger] divides(d, n)
}

/// The primes in `[0, n]`, in increasing order.
pub open spec fn primes_upto(n: nat) -> Seq<nat>
    decreases n,
{
    if n == 0 {
        Seq::empty()
    } else if is_prime(n) {
        primes_upto((n - 1) as nat).push(n)
    } else {
        primes_upto((n - 1) as nat)
    }
}

/// The odd number that bit `k` stands for.
pub open spec fn odd_at(k: nat) -> nat {
    2 * k + 3
}

/// No prime among the first `i` odd candidates whose square is at most `n`
/// divides `n`.
pub open spec fn unstruck(i: nat, n: nat) -> bool {
    forall|k: nat|
        k < i && is_prime(odd_at(k)) && odd_at(k) * odd_at(k) <= n ==> !#[trigger] divides(odd_at(k), n)
}

proof fn lemma_divides_trans(d: nat, r: nat, n: nat)
    requires
        d > 0,
        r > 0,
        divides(d, r),
        divides(r, n),
    ensures
        divides(d, n),
{
    let a = n / r;
    let b = r / d;
    vstd::arithmetic::div_mod::lemma_fundamental_div_mod(n as int, r as int);
    vstd::arithmetic::div_mod::lemma_fundamental_div_mod(r as int, d as int);
    assert(n == (b * a) * d) by (nonlinear_arith)
        requires
            n == r * a,
            r == d * b,
    ;
    lemma_fundamental_div_mod_converse(n as int, d as int, (b * a) as int, 0);
}

/// The least divisor of `n` from `k` on, given none below `k`.
proof fn lemma_least_divisor(n: nat, k: nat) -> (r: nat)
    requires
        2 <= k <= n,
        forall|d: nat| 2 <= d < k ==> !#[trigger] divides(d, n),
    ensures
        k <= r <= n,
        divides(r, n),
        forall|d: nat| 2 <= d < r ==> !#[trigger] divides(d, n),
    decreases n - k,
{
    if divides(k, n) {
        k
    } else if k == n {
        assert(n % n == 0) by (nonlinear_arith)
            requires
                n > 0,
        ;
        n
    } else {
        lemma_least_divisor(n, k + 1)
    }
}

/// A number that is not prime has a prime factor whose square is at most it.
proof fn lemma_small_prime_factor(n: nat) -> (r: nat)
    requires
        n >= 2,
        !is_prime(n),
    ensures
        is_prime(r),
        r * r <= n,
        divides(r, n),
{
    let r = lemma_least_divisor(n, 2);
    assert forall|d: nat| 2 <= d < r implies !#[trigger] divides(d, r) by {
        if divides(d, r) {
            lemma_divides_trans(d, r, n);
        }
    }
    let d0 = choose|d: nat| 2 <= d < n && #[trigger] divides(d, n);
    assert(r <= d0);
    let e = n / r;
    vstd::arithmetic::div_mod::lemma_fundamental_div_mod(n as int, r as int);
    assert(n == r * e);
    assert(e >= 2) by (nonlinear_arith)
        requires
            n == r * e,
            r < n,
    ;
    assert(e < n) by (nonlinear_arith)
        requires
            n == r * e,
            r >= 2,
            e >= 2,
    ;
    lemma_fundamental_div_mod_converse(n as int, e as int, r as int, 0);
    assert(divides(e, n));
    assert(r <= e);
    assert(r * r <= n) by (nonlinear_arith)
        requires
            n == r * e,
            r <= e,
    ;
    r
}

/// For an odd `n` below the square of the next candidate, surviving every
/// earlier candidate is the same as being prime.
proof fn lemma_unstruck_is_prime(i: nat, n: nat)
    requires
        n % 2 == 1,
        n >= 3,
        n < odd_at(i) * odd_at(i),
    ensures
        unstruck(i, n) == is_prime(n),
{
    if is_prime(n) {
        assert forall|k: nat| k < i && is_prime(odd_at(k)) && odd_at(k) * odd_at(k) <= n implies !#[trigger] divides(
            odd_at(k),
            n,
        ) by {
            let p = odd_at(k);
            assert(p < n) by (nonlinear_arith)
                requires
                    p >= 3,
                    p * p <= n,
            ;
        }
    } else {
        let r = lemma_small_prime_factor(n);
        if r == 2 {
            lemma_fundamental_div_mod_converse(n as int, 2, (n / 2) as int, 0);
        }
        assert(!divides(2, r));
        vstd::arithmetic::div_mod::lemma_fundamental_div_mod(r as int, 2);
        let k = ((r - 3) / 2) as nat;
        assert(odd_at(k) == r);
        assert(r < odd_at(i)) by (nonlinear_arith)
            requires
                r * r <= n,
                n < odd_at(i) * odd_at(i),
        ;
        assert(k < i);
        assert(!unstruck(i, n));
    }
}

/// Bit `i` of a byte-packed bit set, least significant bit first.
pub open spec fn bit_of(bits: Seq<u8>, i: nat) -> bool {
    bits[(i / 8) as int] & (1u8 << ((i % 8) as u8)) != 0
}

proof fn lemma_clear_bit(b: u8, k: u8, m: u8)
    by (bit_vector)
    requires
        k < 8,
        m < 8,
    ensures
        ((b & !(1u8 << k)) & (1u8 << m) != 0) == (k != m && b & (1u8 << m) != 0),
{
}

proof fn lemma_full_byte(m: u8)
    by (bit_vector)
    requires
        m < 8,
    ensures
        0xFFu8 & (1u8 << m) != 0,
{
}

fn get_bit(sieve: &Vec<u8>, i: usize) -> (r: bool)
    requires
        i / 8 < sieve@.len(),
    ensures
        r == bit_of(sieve@, i as nat),
{
    proof {
        assert(i >> 3 == i / 8) by (bit_vector);
        assert(i & 7 == i % 8) by (bit_vector);
    }
    (sieve[i >> 3] & (1u8 << ((i & 7) as u8))) != 0
}

fn clear_bit(sieve: &mut Vec<u8>, i: usize)
    requires
        i / 8 < old(sieve)@.len(),
    ensures
        final(sieve)@.len() == old(sieve)@.len(),
        !bit_of(final(sieve)@, i as nat),
        forall|j: nat|
            j != i && j / 8 < old(sieve)@.len() ==> #[trigger] bit_of(final(sieve)@, j) == bit_of(
                old(sieve)@,
                j,
            ),
{
    proof {
        assert(i >> 3 == i / 8) by (bit_vector);
        assert(i & 7 == i % 8) by (bit_vector);
    }
    let k = i >> 3;
    let byte = sieve[k];
    sieve.set(k, byte & !(1u8 << ((i & 7) as u8)));
    proof {
        lemma_clear_bit(byte, (i % 8) as u8, (i % 8) as u8);
        assert forall|j: nat| j != i && j / 8 < old(sieve)@.len() implies #[trigger] bit_of(sieve@, j) == bit_of(
            old(sieve)@,
            j,
        ) by {
            if j / 8 == i / 8 {
                assert(j % 8 != i % 8);
                lemma_clear_bit(byte, (i % 8) as u8, (j % 8) as u8);
            }
        }
    }
}

/// Adding candidate `i` to the ones sieved with strikes `n` exactly when that
/// candidate is a prime dividing `n` with its square at most `n`.
proof fn lemma_unstruck_step(i: nat, n: nat)
    ensures
        unstruck(i + 1, n) == (unstruck(i, n) && !(is_prime(odd_at(i)) && odd_at(i) * odd_at(i) <= n
            && divides(odd_at(i), n))),
{
    if unstruck(i, n) && !(is_prime(odd_at(i)) && odd_at(i) * odd_at(i) <= n && divides(odd_at(i), n)) {
        assert forall|k: nat| k < i + 1 && is_prime(odd_at(k)) && odd_at(k) * odd_at(k) <= n implies !#[trigger] divides(
            odd_at(k),
            n,
        ) by {
            if k < i {
            }
        }
    }
}

/// The multiples of candidate `i` that its strikes reach: those at or above
/// its square, every `odd_at(i)`-th bit from the bit of the square.
proof fn lemma_strike_pattern(i: nat, j: nat)
    ensures
        (odd_at(i) * odd_at(i) <= odd_at(j) && divides(odd_at(i), odd_at(j))) == (j >= 2 * i * i + 6 * i + 3 && (j
            - (2 * i * i + 6 * i + 3)) % (odd_at(i) as int) == 0),
{
    let p = odd_at(i) as int;
    let start = 2 * i * i + 6 * i + 3;
    assert(p * p == 2 * start + 3) by (nonlinear_arith)
        requires
            p == 2 * i + 3,
            start == 2 * i * i + 6 * i + 3,
    ;
    if j >= start {
        let x = j - start;
        let q = x / p;
        let r = x % p;
        vstd::arithmetic::div_mod::lemma_fundamental_div_mod(x, p);
        assert(odd_at(j) == p * p + 2 * x);
        if 2 * r < p {
            assert(p * p + 2 * x == p * (p + 2 * q) + 2 * r) by (nonlinear_arith)
                requires
                    x == p * q + r,
            ;
            lemma_fundamental_div_mod_converse(p * p + 2 * x, p, p + 2 * q, 2 * r);
        } else {
            assert(p * p + 2 * x == p * (p + 2 * q + 1) + (2 * r - p)) by (nonlinear_arith)
                requires
                    x == p * q + r,
            ;
            lemma_fundamental_div_mod_converse(p * p + 2 * x, p, p + 2 * q + 1, 2 * r - p);
        }
    }
}

/// Bits of the odd candidates up to `limit`: bit `j` is set exactly when
/// `odd_at(j)` is prime.
fn odd_sieve(limit: u32) -> (sieve: Vec<u8>)
    requires
        limit >= 3,
    ensures
        sieve@.len() * 8 >= (limit - 1) / 2,
        forall|j: nat| j < (limit - 1) / 2 ==> #[trigger] bit_of(sieve@, j) == is_prime(odd_at(j)),
{
    let lim: usize = limit as usize;
    let size: usize = (lim - 1) / 2;
    let mut sieve: Vec<u8> = vec![0xFFu8; (size + 7) / 8];
    proof {
        assert forall|j: nat| j < size implies #[trigger] bit_of(sieve@, j) == unstruck(0, odd_at(j)) by {
            lemma_full_byte((j % 8) as u8);
        }
    }
    let mut i: usize = 0;
    let mut square: u64 = 9;
    assert(odd_at(0) * odd_at(0) == 9) by (nonlinear_arith);
    while square <= lim as u64
        invariant
            square == odd_at(i as nat) * odd_at(i as nat),
            lim == limit,
            limit >= 3,
            size == (lim - 1) / 2,
            sieve@.len() == (size + 7) / 8,
            i <= 32767,
            forall|j: nat| j < size ==> #[trigger] bit_of(sieve@, j) == unstruck(i as nat, odd_at(j)),
        decreases lim - i,
    {
        let ghost p = odd_at(i as nat);
        proof {
            assert(p <= p * p) by (nonlinear_arith)
                requires
                    p >= 3,
            ;
            assert(p < 65536) by (nonlinear_arith)
                requires
                    p * p <= 0xFFFF_FFFFu64,
            ;
        }
        proof {
            assert(p < p * p) by (nonlinear_arith)
                requires
                    p >= 3,
            ;
            lemma_unstruck_is_prime(i as nat, p);
        }
        if get_bit(&sieve, i) {
            let prime: usize = 2 * i + 3;
            let mut j: usize = (prime * prime - 3) / 2;
            let ghost start = 2 * i * i + 6 * i + 3;
            proof {
                assert(prime * prime == 2 * start + 3) by (nonlinear_arith)
                    requires
                        prime == 2 * i + 3,
                        start == 2 * i * i + 6 * i + 3,
                ;
                assert(start <= size);
            }
            let ghost mut m: int = 0;
            while j < size
                invariant
                    lim == limit,
                    size == (lim - 1) / 2,
                    size < 0x8000_0000,
                    sieve@.len() == (size + 7) / 8,
                    prime == p,
                    p == odd_at(i as nat),
                    p < 65536,
                    i <= 32767,
                    start == 2 * i * i + 6 * i + 3,
                    m >= 0,
                    j == start + m * p,
                    j <= size + prime,
                    forall|jj: nat|
                        jj < size ==> #[trigger] bit_of(sieve@, jj) == (unstruck(i as nat, odd_at(jj)) && !(start
                            <= jj < j && (jj - start) % (p as int) == 0)),
                decreases size + prime - j,
            {
                let ghost before = sieve@;
                clear_bit(&mut sieve, j);
                proof {
                    lemma_fundamental_div_mod_converse(m * p, p as int, m, 0);
                    assert forall|jj: nat| jj < size implies #[trigger] bit_of(sieve@, jj) == (unstruck(
                        i as nat,
                        odd_at(jj),
                    ) && !(start <= jj < j + p && (jj - start) % (p as int) == 0)) by {
                        if jj != j {
                            assert(bit_of(sieve@, jj) == bit_of(before, jj));
                            if j < jj < j + p {
                                let t = jj - j;
                                lemma_fundamental_div_mod_converse(jj - start, p as int, m, t);
                            }
                        }
                    }
                }
                j = j + prime;
                proof {
                    m = m + 1;
                    assert(j == start + m * p) by (nonlinear_arith)
                        requires
                            j == start + (m - 1) * p + p,
                    ;
                }
            }
            proof {
                assert forall|jj: nat| jj < size implies #[trigger] bit_of(sieve@, jj) == unstruck(
                    (i + 1) as nat,
                    odd_at(jj),
                ) by {
                    lemma_unstruck_step(i as nat, odd_at(jj));
                    lemma_strike_pattern(i as nat, jj);
                }
            }
        } else {
            proof {
                assert forall|jj: nat| jj < size implies #[trigger] bit_of(sieve@, jj) == unstruck(
                    (i + 1) as nat,
                    odd_at(jj),
                ) by {
                    lemma_unstruck_step(i as nat, odd_at(jj));
                }
            }
        }
        proof {
            assert(square + 8 * i + 16 == odd_at((i + 1) as nat) * odd_at((i + 1) as nat)) by (nonlinear_arith)
                requires
                    square == odd_at(i as nat) * odd_at(i as nat),
            ;
        }
        square = square + 8 * i as u64 + 16;
        i = i + 1;
    }
    proof {
        assert forall|j: nat| j < size implies #[trigger] bit_of(sieve@, j) == is_prime(odd_at(j)) by {
            lemma_fundamental_div_mod_converse(odd_at(j) as int, 2, (j + 1) as int, 1);
            lemma_unstruck_is_prime(i as nat, odd_at(j));
        }
    }
    sieve
}

/// An even number above 2 is not prime.
proof fn lemma_even_not_prime(n: nat)
    requires
        n >= 4,
        n % 2 == 0,
    ensures
        !is_prime(n),
{
    assert(divides(2, n));
}

/// The number of primes in `[0, limit]`.
pub fn count_primes(limit: u32) -> (r: u32)
    ensures
        r == primes_upto(limit as nat).len(),
{
    if limit < 2 {
        proof {
            assert(!is_prime(1) && primes_upto(0) =~= Seq::empty());
            assert(primes_upto(1) =~= Seq::empty());
        }
        return 0;
    }
    proof {
        assert(is_prime(2));
        assert(primes_upto(2) =~= seq![2nat]) by {
            assert(!is_prime(1) && primes_upto(0) =~= Seq::empty());
            assert(primes_upto(1) =~= Seq::empty());
        }
    }
    if limit == 2 {
        return 1;
    }
    let sieve = odd_sieve(limit);
    let size: usize = (limit as usize - 1) / 2;
    let mut count: u32 = 1;
    let mut i: usize = 0;
    while i < size
        invariant
            limit >= 3,
            size == (limit - 1) / 2,
            sieve@.len() * 8 >= size,
            forall|j: nat| j < (limit - 1) / 2 ==> #[trigger] bit_of(sieve@, j) == is_prime(odd_at(j)),
            i <= size,
            count <= i + 1,
            count == primes_upto((2 * i + 2) as nat).len(),
        decreases size - i,
    {
        let hit = get_bit(&sieve, i);
        proof {
            lemma_fundamental_div_mod_converse((2 * i + 4) as int, 2, (i + 2) as int, 0);
            lemma_even_not_prime((2 * i + 4) as nat);
            assert(primes_upto((2 * i + 4) as nat) == primes_upto((2 * i + 3) as nat));
        }
        if hit {
            count = count + 1;
        }
        i = i + 1;
    }
    proof {
        if limit % 2 == 1 {
            lemma_fundamental_div_mod_converse((limit + 1) as int, 2, ((limit + 1) / 2) as int, 0);
            lemma_even_not_prime((limit + 1) as nat);
            assert(primes_upto((limit + 1) as nat) == primes_upto(limit as nat));
        }
    }
    count
}

/// The primes in `[0, limit]`, in increasing order.
pub fn prime_sieve(limit: u32) -> (r: Vec<u32>)
    ensures
        r@.map_values(|v: u32| v as nat) == primes_upto(limit as nat),
{
    if limit < 2 {
        let none: Vec<u32> = Vec::new();
        proof {
            assert(!is_prime(1) && primes_upto(0) =~= Seq::empty());
            assert(primes_upto(1) =~= Seq::empty());
            assert(none@.map_values(|v: u32| v as nat) =~= Seq::empty());
        }
        return none;
    }
    let mut primes: Vec<u32> = Vec::with_capacity(count_primes(limit) as usize);
    primes.push(2);
    proof {
        assert(is_prime(2));
        assert(!is_prime(1) && primes_upto(0) =~= Seq::empty());
        assert(primes_upto(1) =~= Seq::empty());
        assert(primes_upto(2) =~= seq![2nat]);
        assert(primes@.map_values(|v: u32| v as nat) =~= seq![2nat]);
    }
    if limit == 2 {
        return primes;
    }
    let sieve = odd_sieve(limit);
    let size: usize = (limit as usize - 1) / 2;
    let mut i: usize = 0;
    while i < size
        invariant
            limit >= 3,
            size == (limit - 1) / 2,
            sieve@.len() * 8 >= size,
            forall|j: nat| j < (limit - 1) / 2 ==> #[trigger] bit_of(sieve@, j) == is_prime(odd_at(j)),
            i <= size,
            primes@.map_values(|v: u32| v as nat) == primes_upto((2 * i + 2) as nat),
        decreases size - i,
    {
        let hit = get_bit(&sieve, i);
        proof {
            lemma_fundamental_div_mod_converse((2 * i + 4) as int, 2, (i + 2) as int, 0);
            lemma_even_not_prime((2 * i + 4) as nat);
            assert(primes_upto((2 * i + 4) as nat) == primes_upto((2 * i + 3) as nat));
        }
        if hit {
            let ghost before = primes@;
            primes.push((2 * i + 3) as u32);
            proof {
                assert(primes@.map_values(|v: u32| v as nat) =~= before.map_values(|v: u32| v as nat).push(
                    odd_at(i as nat),
                ));
            }
        }
        i = i + 1;
    }
    proof {
        if limit % 2 == 1 {
            lemma_fundamental_div_mod_converse((limit + 1) as int, 2, ((limit + 1) / 2) as int, 0);
            lemma_even_not_prime((limit + 1) as nat);
            assert(primes_upto((limit + 1) as nat) == primes_upto(limit as nat));
        }
    }
    primes
}

} // verus!
