//! A polynomial rolling hash over a window of bytes.

use std::collections::VecDeque;
use vstd::arithmetic::div_mod::{
    lemma_add_mod_noop, lemma_fundamental_div_mod_converse, lemma_mod_twice, lemma_mul_mod_noop_general,
    lemma_small_mod, lemma_sub_mod_noop,
};
use vstd::prelude::*;

verus! {

/// The hash of `s` before reduction: the bytes as the digits of a number in
/// base `b`, the first byte the most significant.
pub open spec fn exact_hash(s: Seq<u8>, b: int) -> int
    decreases s.len(),
{
    if s.len() == 0 {
        0
    } else {
        exact_hash(s.drop_last(), b) * b + s.last()
    }
}

/// `b` to the power `e`.
pub open spec fn pow(b: int, e: nat) -> int
    decreases e,
{
    if e == 0 {
        1
    } else {
        b * pow(b, (e - 1) as nat)
    }
}

/// The greatest common divisor, by Euclid's algorithm.
pub open spec fn gcd(a: nat, b: nat) -> nat
    decreases b,
{
    if b == 0 {
        a
    } else {
        gcd(b, a % b)
    }
}

/// The moduli for which the products of two residues fit in 64 bits, so that
/// the hash is the exact polynomial hash.
pub open spec fn small_modulus(m: u64) -> bool {
    0 < m <= 0x1_0000_0000
}

/// A rolling hash of the bytes in a window, with base `B` and modulus `M`.
#[derive(Debug, Clone)]
pub struct RollingHash<const B: u64, const M: u64> {
    /// The current hash value.
    hash: u64,
    /// `B` to the power of the window size minus one, modulo `M`.
    base_power: u64,
    /// The number of bytes in the window.
    window_size: usize,
    /// The bytes in the window, oldest first.
    elements: VecDeque<u8>,
}

impl<const B: u64, const M: u64> View for RollingHash<B, M> {
    type V = Seq<u8>;

    closed spec fn view(&self) -> Seq<u8> {
        self.elements@
    }
}

impl<const B: u64, const M: u64> Default for RollingHash<B, M> {
    fn default() -> (r: Self)
        ensures
            r.wf(),
            r@ == Seq::<u8>::empty(),
            r.spec_hash() == 0,
    {
        Self::new()
    }
}

impl<const B: u64, const M: u64> RollingHash<B, M> {
    /// The hash value that the window holds.
    pub closed spec fn spec_hash(&self) -> u64 {
        self.hash
    }

    /// The power of the base that the oldest byte carries in the hash, modulo
    /// `M`.
    pub closed spec fn spec_base_power(&self) -> u64 {
        self.base_power
    }

    /// The fields agree with the window: its size, the hash (exactly, for a
    /// small modulus) and the power of the base.
    pub closed spec fn wf(&self) -> bool {
        &&& self.window_size == self.elements@.len()
        &&& M > 0 ==> self.hash < M
        &&& self.elements@.len() == 0 ==> self.base_power == 1
        &&& M > 0 ==> (self.base_power < M || self.base_power == 1)
        &&& small_modulus(M) ==> self.hash == exact_hash(self.elements@, B as int) % (M as int)
        &&& small_modulus(M) && self.elements@.len() > 0 ==> self.base_power % M == pow(
            B as int,
            (self.elements@.len() - 1) as nat,
        ) % (M as int)
    }

    /// An empty window.
    pub fn new() -> (r: Self)
        ensures
            r.wf(),
            r@ == Seq::<u8>::empty(),
            r.spec_hash() == 0,
    {
        let r = RollingHash { hash: 0, base_power: 1, window_size: 0, elements: VecDeque::new() };
        assert(exact_hash(r.elements@, B as int) == 0);
        r
    }

    /// The hash of the window; for a small modulus, the polynomial hash of its
    /// bytes modulo `M`.
    pub fn current_hash(&self) -> (h: u64)
        requires
            self.wf(),
        ensures
            h == self.spec_hash(),
            M > 0 ==> h < M,
            small_modulus(M) ==> h == exact_hash(self@, B as int) % (M as int),
    {
        self.hash
    }

    /// The number of bytes in the window.
    pub fn window_size(&self) -> (n: usize)
        requires
            self.wf(),
        ensures
            n == self@.len(),
    {
        self.window_size
    }

    /// Appends a byte to the window.
    pub fn push(&mut self, byte: u8)
        requires
            old(self).wf(),
            0 < M <= 0xFFFF_FFFF_FFFF_FF00,
            old(self)@.len() < usize::MAX,
        ensures
            final(self).wf(),
            final(self)@ == old(self)@.push(byte),
            final(self).spec_hash() as int == ((old(self).spec_hash() % M).wrapping_mul(B % M) % M + (byte as u64)
                % M) % (M as int),
            old(self)@.len() > 0 ==> final(self).spec_base_power() == (old(self).spec_base_power()
                % M).wrapping_mul(B % M) % M,
            old(self)@.len() == 0 ==> final(self).spec_base_power() == old(self).spec_base_power(),
    {
        let ghost e = exact_hash(self.elements@, B as int);
        let hash_term = (self.hash % M).wrapping_mul(B % M) % M;
        let byte_term = byte as u64 % M;
        assert(byte_term <= 255 && hash_term < M) by (nonlinear_arith)
            requires
                byte_term == byte as u64 % M,
                hash_term == (self.hash % M).wrapping_mul(B % M) % M,
                M > 0,
                byte <= 255,
        ;
        proof {
            if small_modulus(M) {
                let h = self.hash as int;
                let m = M as int;
                let b = B as int;
                assert((h % m) * (b % m) < 0x1_0000_0000_0000_0000) by (nonlinear_arith)
                    requires
                        0 <= h % m < m,
                        0 <= b % m < m,
                        m <= 0x1_0000_0000,
                ;
                lemma_small_mod(((h % m) * (b % m)) as nat, 0x1_0000_0000_0000_0000nat);
                lemma_small_mod(h as nat, m as nat);
                lemma_mul_mod_noop_general(e, b, m);
                lemma_add_mod_noop(e * b, byte as int, m);
                lemma_mod_twice(e * b, m);
            }
        }
        self.hash = (hash_term + byte_term) % M;
        self.elements.push_back(byte);
        if self.window_size > 0 {
            proof {
                if small_modulus(M) {
                    let bp = self.base_power as int;
                    let m = M as int;
                    let b = B as int;
                    let k = (self.elements@.len() - 2) as nat;
                    assert((bp % m) * (b % m) < 0x1_0000_0000_0000_0000) by (nonlinear_arith)
                        requires
                            0 <= bp % m < m,
                            0 <= b % m < m,
                            m <= 0x1_0000_0000,
                    ;
                    lemma_small_mod(((bp % m) * (b % m)) as nat, 0x1_0000_0000_0000_0000nat);
                    lemma_mul_mod_noop_general(bp, b, m);
                    lemma_mul_mod_noop_general(pow(b, k), b, m);
                    assert(pow(b, k + 1) == b * pow(b, k));
                    assert(bp % m == pow(b, k) % m);
                    assert(((bp % m) * (b % m)) % m == (pow(b, k) * b) % m);
                    assert(b * pow(b, k) == pow(b, k) * b) by (nonlinear_arith);
                    lemma_mod_twice(pow(b, k + 1), m);
                }
            }
            self.base_power = (self.base_power % M).wrapping_mul(B % M) % M;
        }
        self.window_size = self.window_size + 1;
        proof {
            let s = self.elements@;
            assert(s.drop_last() =~= old(self).elements@);
        }
    }

    /// Removes the oldest byte from the window and returns it; `None` for an
    /// empty window. The modular inverse of `B` must exist once the window
    /// still holds a byte afterwards.
    pub fn pop(&mut self) -> (r: Option<u8>)
        requires
            old(self).wf(),
            0 < M < 0x4000_0000_0000_0000,
            old(self)@.len() >= 2 ==> gcd((B % M) as nat, M as nat) == 1,
        ensures
            final(self).wf(),
            old(self)@.len() == 0 ==> r is None && final(self)@ == old(self)@ && final(self).spec_hash()
                == old(self).spec_hash(),
            old(self)@.len() > 0 ==> r == Some(old(self)@[0]) && final(self)@ == old(self)@.drop_first(),
            old(self)@.len() > 0 ==> {
                let front_term = ((old(self)@[0] as u64) % M).wrapping_mul(old(self).spec_base_power() % M)
                    % M;
                final(self).spec_hash() as int == if old(self).spec_hash() >= front_term {
                    old(self).spec_hash() - front_term
                } else {
                    M - (front_term - old(self).spec_hash()) % (M as int)
                }
            },
            old(self)@.len() == 1 ==> final(self).spec_base_power() == 1,
    {
        if self.window_size == 0 {
            return None;
        }
        let ghost s = self.elements@;
        let front = match self.elements.pop_front() {
            Some(f) => f,
            None => {
                return None;
            },
        };
        self.window_size = self.window_size - 1;
        let ghost rest = self.elements@;
        proof {
            assert(rest =~= s.drop_first());
        }
        let front_term = (front as u64 % M).wrapping_mul(self.base_power % M) % M;
        proof {
            if small_modulus(M) {
                lemma_pop_hash::<B, M>(s, self.hash, self.base_power, front_term);
            }
        }
        self.hash = if self.hash >= front_term {
            self.hash - front_term
        } else {
            M - (front_term - self.hash) % M
        };
        proof {
            if old(self).hash < front_term {
                lemma_small_mod((front_term - old(self).hash) as nat, M as nat);
            }
            if small_modulus(M) {
                lemma_pop_hash_value::<B, M>(s, old(self).hash, front_term, self.hash);
            }
        }
        if self.window_size > 0 {
            let b_inv = match mod_inv(B % M, M) {
                Some(v) => v,
                None => {
                    proof {
                        assert(false);
                    }
                    0
                },
            };
            proof {
                if small_modulus(M) {
                    lemma_pop_base_power::<B, M>(s, self.base_power, b_inv);
                }
            }
            self.base_power = (self.base_power % M).wrapping_mul(b_inv) % M;
            proof {
                lemma_small_mod(self.base_power as nat, M as nat);
            }
        } else {
            self.base_power = 1;
        }
        Some(front)
    }

    /// Empties the window.
    pub fn clear(&mut self)
        ensures
            final(self).wf(),
            final(self)@ == Seq::<u8>::empty(),
            final(self).spec_hash() == 0,
    {
        self.hash = 0;
        self.base_power = 1;
        self.window_size = 0;
        self.elements.clear();
        assert(exact_hash(self.elements@, B as int) == 0);
    }
}

/// The hash of a window is its oldest byte times the base to the power of the
/// rest's length, plus the hash of the rest.
proof fn lemma_exact_hash_front(s: Seq<u8>, b: int)
    requires
        s.len() > 0,
    ensures
        exact_hash(s, b) == s[0] * pow(b, (s.len() - 1) as nat) + exact_hash(s.drop_first(), b),
    decreases s.len(),
{
    if s.len() == 1 {
        assert(s.drop_first() =~= Seq::<u8>::empty());
        assert(s.drop_last() =~= Seq::<u8>::empty());
        assert(pow(b, 0) == 1);
    } else {
        let d = s.drop_last();
        lemma_exact_hash_front(d, b);
        assert(d.drop_first() =~= s.drop_first().drop_last());
        assert(s.drop_first().last() == s.last());
        let k = (s.len() - 2) as nat;
        assert(pow(b, k + 1) == b * pow(b, k));
        let x = s[0] as int;
        let e = exact_hash(d.drop_first(), b);
        assert((x * pow(b, k) + e) * b + s.last() == x * (b * pow(b, k)) + (e * b + s.last()))
            by (nonlinear_arith);
    }
}

/// The term that leaves with the oldest byte.
proof fn lemma_pop_hash<const B: u64, const M: u64>(s: Seq<u8>, hash: u64, base_power: u64, front_term: u64)
    requires
        small_modulus(M),
        s.len() > 0,
        base_power % M == pow(B as int, (s.len() - 1) as nat) % (M as int),
        base_power < M || base_power == 1,
        front_term == ((s[0] as u64 % M).wrapping_mul(base_power % M) % M),
    ensures
        front_term == (s[0] * pow(B as int, (s.len() - 1) as nat)) % (M as int),
        front_term < M,
{
    let m = M as int;
    let f = s[0] as int;
    let bp = base_power as int;
    let p = pow(B as int, (s.len() - 1) as nat);
    assert((f % m) * (bp % m) < 0x1_0000_0000_0000_0000) by (nonlinear_arith)
        requires
            0 <= f % m < m,
            0 <= bp % m < m,
            m <= 0x1_0000_0000,
    ;
    lemma_small_mod(((f % m) * (bp % m)) as nat, 0x1_0000_0000_0000_0000nat);
    lemma_mul_mod_noop_general(f, bp, m);
    lemma_mul_mod_noop_general(f, p, m);
}

/// Removing the term of the oldest byte leaves the hash of the rest.
proof fn lemma_pop_hash_value<const B: u64, const M: u64>(s: Seq<u8>, hash: u64, front_term: u64, new_hash: u64)
    requires
        small_modulus(M),
        s.len() > 0,
        hash == exact_hash(s, B as int) % (M as int),
        front_term == (s[0] * pow(B as int, (s.len() - 1) as nat)) % (M as int),
        new_hash == (if hash >= front_term {
            hash - front_term
        } else {
            M - (front_term - hash) % (M as int)
        }),
    ensures
        new_hash == exact_hash(s.drop_first(), B as int) % (M as int),
{
    let m = M as int;
    let b = B as int;
    let t = s[0] * pow(b, (s.len() - 1) as nat);
    lemma_exact_hash_front(s, b);
    let e = exact_hash(s, b);
    let r = exact_hash(s.drop_first(), b);
    assert(e - t == r);
    lemma_sub_mod_noop(e, t, m);
    let d = hash as int - front_term as int;
    assert(d % m == r % m);
    if hash >= front_term {
        lemma_small_mod(d as nat, m as nat);
    } else {
        lemma_small_mod((front_term - hash) as nat, m as nat);
        lemma_fundamental_div_mod_converse(d, m, -1, d + m);
    }
}

/// Multiplying by the inverse of the base lowers the power by one.
proof fn lemma_pop_base_power<const B: u64, const M: u64>(s: Seq<u8>, base_power: u64, b_inv: u64)
    requires
        small_modulus(M),
        s.len() >= 2,
        base_power % M == pow(B as int, (s.len() - 1) as nat) % (M as int),
        b_inv < M,
        ((B % M) as int * b_inv) % (M as int) == 1int % (M as int),
    ensures
        ((base_power % M) as u64).wrapping_mul(b_inv) % M == pow(B as int, (s.len() - 2) as nat) % (
        M as int),
{
    let m = M as int;
    let b = B as int;
    let bp = base_power as int;
    let inv = b_inv as int;
    let k = (s.len() - 2) as nat;
    assert((bp % m) * inv < 0x1_0000_0000_0000_0000) by (nonlinear_arith)
        requires
            0 <= bp % m < m,
            0 <= inv < m,
            m <= 0x1_0000_0000,
    ;
    lemma_small_mod(((bp % m) * inv) as nat, 0x1_0000_0000_0000_0000nat);
    let pk = pow(b, k);
    assert(pow(b, k + 1) == b * pk);
    lemma_mul_mod_noop_general(bp, inv, m);
    lemma_mul_mod_noop_general(b * pk, inv, m);
    assert(b * pk * inv == pk * (b * inv)) by (nonlinear_arith);
    lemma_mul_mod_noop_general(pk, b * inv, m);
    lemma_mul_mod_noop_general(b, inv, m);
    lemma_mul_mod_noop_general(pk, 1, m);
    assert(((b % m) * inv) % m == (b * inv) % m);
}

/// The inverse of `a` modulo `m`, where `a` and `m` are coprime.
pub fn mod_inv(a: u64, m: u64) -> (r: Option<u64>)
    requires
        0 < m < 0x4000_0000_0000_0000,
        a < m,
    ensures
        r is Some <==> gcd(a as nat, m as nat) == 1,
        r matches Some(v) ==> v < m && ((a as int) * (v as int)) % (m as int) == 1int % (m as int),
{
    let (g, x, y) = extended_gcd(a as i64, m as i64);
    if g != 1 {
        return None;
    }
    // The coefficient lies in `-m ..= m`; bring it into `0 .. m`.
    let mi = m as i64;
    let v = if x < 0 {
        x + mi
    } else if x == mi {
        0
    } else {
        x
    };
    proof {
        let xi = x as int;
        let mm = m as int;
        if x < 0 {
            lemma_fundamental_div_mod_converse(xi, mm, -1, xi + mm);
        } else if x == mi {
            lemma_fundamental_div_mod_converse(xi, mm, 1, 0);
        } else {
            lemma_small_mod(xi as nat, mm as nat);
        }
        assert(v as int == xi % mm);
        assert((a as int) * xi + mm * (y as int) == 1);
        vstd::arithmetic::div_mod::lemma_mod_multiples_vanish(y as int, (a as int) * xi, mm);
        lemma_mul_mod_noop_general(a as int, xi, mm);
    }
    Some(v as u64)
}

/// Euclid's extended algorithm: `(g, x, y)` with `g` the greatest common
/// divisor of `a` and `b`, and `a * x + b * y == g`.
pub fn extended_gcd(a: i64, b: i64) -> (r: (i64, i64, i64))
    requires
        a >= 0,
        b >= 0,
    ensures
        r.0 == gcd(a as nat, b as nat),
        a * r.1 + b * r.2 == r.0,
        b == 0 ==> r.1 == 1 && r.2 == 0,
        b > 0 ==> -b <= r.1 <= b && -a <= r.2 <= a + 1,
        b > 0 && a > 0 ==> -a <= r.2 <= a,
    decreases b,
{
    if b == 0 {
        (a, 1, 0)
    } else {
        let q = a / b;
        let rem = a % b;
        let (g, x1, y1) = extended_gcd(b, rem);
        proof {
            assert(a == b * q + rem && q >= 0 && 0 <= rem < b) by (nonlinear_arith)
                requires
                    b > 0,
                    a >= 0,
                    q == a / b,
                    rem == a % b,
            ;
            if rem > 0 {
                assert(-b <= y1 <= b);
                assert(-rem <= x1 <= rem);
                assert(-a <= x1 - q * y1 <= a && -a <= q * y1 <= a) by (nonlinear_arith)
                    requires
                        -b <= y1 <= b,
                        -rem <= x1 <= rem,
                        q >= 0,
                        a == b * q + rem,
                        rem >= 0,
                ;
            } else {
                assert(x1 == 1 && y1 == 0);
                assert(q * y1 == 0) by (nonlinear_arith)
                    requires
                        y1 == 0,
                ;
            }
            assert(a * y1 + b * (x1 - q * y1) == b * x1 + rem * y1) by (nonlinear_arith)
                requires
                    a == b * q + rem,
            ;
        }
        (g, y1, x1 - q * y1)
    }
}

/// With a small modulus, the hash of a well-formed window is the exact
/// hash of its bytes reduced by the modulus.
pub proof fn lemma_hash_of_window<const B: u64, const M: u64>(h: &RollingHash<B, M>)
    requires
        h.wf(),
        small_modulus(M),
    ensures
        h.spec_hash() == exact_hash(h@, B as int) % (M as int),
{
}

} // verus!
