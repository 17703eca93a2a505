use vstd::prelude::*;

verus! {

/// Relies on `rand::thread_rng().gen::<u32>()`: some 32-bit value, nothing more
/// is promised.
#[verifier::external_body]
fn random_seed() -> (p: u32) {
    rand::Rng::gen::<u32>(&mut rand::thread_rng())
}

/// A correlated multi-jittered pattern of `m * n` samples with seed `p`; `s` is
/// the index of the next sample.
#[derive(Clone, Debug)]
pub struct CorrelatedMultiJitteredSampler {
    pub p: u32,
    pub m: u32,
    pub n: u32,
    pub s: u32,
}

/// `(i + p mod l) mod l`: the position that seed `p` moves index `i` to, a
/// rotation of `0..l`.
pub open spec fn permuted(i: u32, l: u32, p: u32) -> u32 {
    ((i as int + (p as int) % (l as int)) % (l as int)) as u32
}

/// For a fixed seed, moving indices is one to one on `0..l`, so it is a
/// permutation of `0..l`.
pub proof fn lemma_permuted_injective(i: u32, j: u32, l: u32, p: u32)
    requires
        i < l,
        j < l,
        i != j,
    ensures
        permuted(i, l, p) != permuted(j, l, p),
        permuted(i, l, p) < l,
{
    let c = (p as int) % (l as int);
    assert(0 <= c < l);
    let a = i as int + c;
    let b = j as int + c;
    lemma_mod_once(a, l as int);
    lemma_mod_once(b, l as int);
}

proof fn lemma_mod_once(a: int, l: int)
    requires
        0 <= a < 2 * l,
    ensures
        a % l == if a < l { a } else { a - l },
{
    vstd::arithmetic::div_mod::lemma_fundamental_div_mod(a, l);
    vstd::arithmetic::div_mod::lemma_mod_bound(a, l);
    let q = a / l;
    let r = a % l;
    assert(q == if a < l { 0int } else { 1int }) by (nonlinear_arith)
        requires
            a == l * q + r,
            0 <= r < l,
            0 <= a < 2 * l,
    ;
}

/// The integer parts of sample `s` of an `m` by `n` pattern with seed `p`.
pub open spec fn stratum_of(s: u32, m: u32, n: u32, p: u32) -> Stratum {
    let ps = permuted(s, (m * n) as u32, p.wrapping_mul(0xa73b_d290));
    Stratum {
        col: (s % m) as u32,
        row: (s / m) as u32,
        sx: permuted((ps % m) as u32, m, p.wrapping_mul(0xa511_e9b3)),
        sy: permuted((ps / m) as u32, n, p.wrapping_mul(0x63d8_3595)),
        jx: jitter_hash(s, p.wrapping_mul(0xa399_d265)),
        jy: jitter_hash(s, p.wrapping_mul(0x711a_d6a5)),
    }
}

/// The scrambling hash that places a sample within its sub-cell; divided by
/// `2^32 + 512` it is a jitter in `[0, 1)`.
pub open spec fn jitter_hash(i: u32, p: u32) -> u32 {
    let i = i ^ p;
    let i = i ^ (i >> 17u32);
    let i = i ^ (i >> 10u32);
    let i = vstd::wrapping::u32_specs::wrapping_mul(i, 0xb365_34e5u32);
    let i = i ^ (i >> 12u32);
    let i = i ^ (i >> 21u32);
    let i = vstd::wrapping::u32_specs::wrapping_mul(i, 0x93fc_4795u32);
    let i = i ^ 0xdf6e_307fu32;
    let i = i ^ (i >> 17u32);
    vstd::wrapping::u32_specs::wrapping_mul(i, 1u32 | (p >> 18u32))
}

/// The integer parts of one sample: its column and row in the `m` by `n` grid,
/// the permuted sub-cell offsets along each axis, and the jitter hashes.
#[derive(Clone, Copy, Debug, PartialEq, Eq, Structural)]
pub struct Stratum {
    pub col: u32,
    pub row: u32,
    pub sx: u32,
    pub sy: u32,
    pub jx: u32,
    pub jy: u32,
}

impl CorrelatedMultiJitteredSampler {
    pub fn new(p: u32, m: u32, n: u32) -> (r: CorrelatedMultiJitteredSampler)
        ensures
            r.p == p,
            r.m == m,
            r.n == n,
            r.s == 0,
    {
        CorrelatedMultiJitteredSampler { p, m, n, s: 0 }
    }

    /// A pattern with a random seed.
    pub fn random(m: u32, n: u32) -> (r: CorrelatedMultiJitteredSampler)
        ensures
            r.m == m,
            r.n == n,
            r.s == 0,
    {
        let p = random_seed();
        CorrelatedMultiJitteredSampler { p, m, n, s: 0 }
    }

    /// Moves index `i` of a range of `l` to another position in it; indices
    /// below `l` need no cycle walking.
    pub fn permute(i: u32, l: u32, p: u32) -> (r: u32)
        requires
            i < l,
        ensures
            r == permuted(i, l, p),
            r < l,
    {
        ((i as u64 + (p % l) as u64) % l as u64) as u32
    }

    pub fn jitter_bits(i: u32, p: u32) -> (r: u32)
        ensures
            r == jitter_hash(i, p),
    {
        let mut i = i;
        i ^= p;
        i ^= i >> 17;
        i ^= i >> 10;
        i = i.wrapping_mul(0xb365_34e5);
        i ^= i >> 12;
        i ^= i >> 21;
        i = i.wrapping_mul(0x93fc_4795);
        i ^= 0xdf6e_307f;
        i ^= i >> 17;
        i.wrapping_mul(1 | p >> 18)
    }

    /// The integer parts of sample `s`, which the pattern shuffles within its
    /// grid.
    pub fn stratum(s: u32, m: u32, n: u32, p: u32) -> (r: Stratum)
        requires
            s < m * n,
            m * n <= u32::MAX,
        ensures
            r == stratum_of(s, m, n, p),
            r.col < m,
            r.row < n,
            r.sx < m,
            r.sy < n,
    {
        proof {
            lemma_cell(s as int, m as int, n as int);
        }
        let ps = Self::permute(s, m * n, p.wrapping_mul(0xa73b_d290));
        proof {
            lemma_cell(ps as int, m as int, n as int);
        }
        let sx = Self::permute(ps % m, m, p.wrapping_mul(0xa511_e9b3));
        let sy = Self::permute(ps / m, n, p.wrapping_mul(0x63d8_3595));
        let jx = Self::jitter_bits(s, p.wrapping_mul(0xa399_d265));
        let jy = Self::jitter_bits(s, p.wrapping_mul(0x711a_d6a5));
        Stratum { col: s % m, row: s / m, sx, sy, jx, jy }
    }

    /// The integer parts of the next sample, or `None` once all `m * n` are
    /// out.
    pub fn next_stratum(&mut self) -> (r: Option<Stratum>)
        requires
            old(self).m * old(self).n <= u32::MAX,
        ensures
            final(self).p == old(self).p,
            final(self).m == old(self).m,
            final(self).n == old(self).n,
            old(self).s >= old(self).m * old(self).n ==> r.is_none() && final(self).s == old(self).s,
            old(self).s < old(self).m * old(self).n ==> {
                &&& final(self).s == old(self).s + 1
                &&& r == Some(stratum_of(old(self).s, old(self).m, old(self).n, old(self).p))
                &&& r.unwrap().col < old(self).m && r.unwrap().row < old(self).n
                &&& r.unwrap().sx < old(self).m && r.unwrap().sy < old(self).n
            },
    {
        if self.s >= self.m * self.n {
            None
        } else {
            let r = Self::stratum(self.s, self.m, self.n, self.p);
            self.s = self.s + 1;
            Some(r)
        }
    }
}

proof fn lemma_cell(s: int, m: int, n: int)
    requires
        0 <= s < m * n,
        m >= 0,
        n >= 0,
    ensures
        m > 0,
        n > 0,
        s % m < m,
        s / m < n,
{
    if m == 0 {
        assert(m * n == 0);
    }
    if n == 0 {
        assert(m * n == 0);
    }
    vstd::arithmetic::div_mod::lemma_mod_bound(s, m);
    if s / m >= n {
        vstd::arithmetic::div_mod::lemma_fundamental_div_mod(s, m);
        assert(m * (s / m) >= m * n) by (nonlinear_arith)
            requires
                s / m >= n,
                m > 0,
        ;
    }
}

} // verus!
