use vstd::prelude::*;

verus! {

/// Bit `i` of a 64-bit word, counting from the least significant bit.
pub open spec fn bit64(v: u64, i: u64) -> bool {
    (v >> i) & 1u64 == 1u64
}

/// Bit `i` of a 16-bit coordinate.
pub open spec fn bit16(v: u16, i: u16) -> bool {
    (v >> i) & 1u16 == 1u16
}

/// The lowest position a Morton code of `num_bits` bits per axis occupies.
pub open spec fn morton_base(num_bits: u16) -> u64 {
    (64 - 3 * num_bits) as u64
}

/// Bit `p` of the Morton code of `(x, y, z)` with `num_bits` bits per axis: the
/// codes fill the top `3 * num_bits` bits of the word, most significant axis bit
/// first, with each triple ordered x, y, z from high to low.
pub open spec fn morton_bit(num_bits: u16, x: u16, y: u16, z: u16, p: u64) -> bool {
    let base = morton_base(num_bits);
    if p < base {
        false
    } else {
        let k = (p - base) as u64;
        let i = (k / 3) as u16;
        if k % 3 == 0 {
            bit16(z, i)
        } else if k % 3 == 1 {
            bit16(y, i)
        } else {
            bit16(x, i)
        }
    }
}

proof fn lemma_or_bit(mc: u64, b: u64, s: u64, p: u64)
    requires
        b <= 1,
        s < 64,
        p < 64,
    ensures
        bit64(mc | (b << s), p) == (bit64(mc, p) || (p == s && b == 1)),
{
    assert(((mc | (b << s)) >> p) & 1u64 == 1u64 <==> (((mc >> p) & 1u64 == 1u64) || (p == s
        && b == 1))) by (bit_vector)
        requires
            b <= 1,
            s < 64,
            p < 64,
    ;
}

proof fn lemma_zero_bits(p: u64)
    requires
        p < 64,
    ensures
        !bit64(0, p),
{
    assert((0u64 >> p) & 1u64 != 1u64) by (bit_vector);
}

proof fn lemma_shift_step(v: u16, c: u16, i: u16)
    requires
        i < 16,
        c == v >> i,
    ensures
        c >> 1u16 == v >> ((i + 1) as u16),
        ((c & 1u16) as u64 == 1u64) == bit16(v, i),
        (c & 1u16) as u64 <= 1,
{
    assert(c >> 1u16 == v >> ((i + 1) as u16)) by (bit_vector)
        requires
            i < 16,
            c == v >> i,
    ;
    assert((c & 1u16) <= 1u16) by (bit_vector);
    assert(((c & 1u16) == 1u16) == ((v >> i) & 1u16 == 1u16)) by (bit_vector)
        requires
            c == v >> i,
    ;
}

/// Interleaves the low `num_bits` bits of each coordinate into the top of a
/// 64-bit word.
pub fn morton_code(num_bits: u16, x: u16, y: u16, z: u16) -> (mc: u64)
    requires
        num_bits <= 16,
    ensures
        forall|p: u64| p < 64 ==> bit64(mc, p) == morton_bit(num_bits, x, y, z, p),
{
    let base: u16 = 64 - num_bits * 3;
    let mut mc: u64 = 0;
    let mut cx: u16 = x;
    let mut cy: u16 = y;
    let mut cz: u16 = z;
    let mut ix: u16 = 0;
    assert(x == x >> 0u16 && y == y >> 0u16 && z == z >> 0u16) by (bit_vector);
    assert forall|p: u64| p < 64 implies !bit64(mc, p) by {
        lemma_zero_bits(p);
    }
    while ix < num_bits
        invariant
            num_bits <= 16,
            base == morton_base(num_bits),
            ix <= num_bits,
            cx == x >> ix,
            cy == y >> ix,
            cz == z >> ix,
            forall|p: u64|
                p < 64 ==> bit64(mc, p) == (p < base + 3 * ix && morton_bit(
                    num_bits,
                    x,
                    y,
                    z,
                    p,
                )),
        decreases num_bits - ix,
    {
        let s: u64 = (base + ix * 3) as u64;
        let bz: u64 = (cz & 1) as u64;
        let by: u64 = (cy & 1) as u64;
        let bx: u64 = (cx & 1) as u64;
        proof {
            lemma_shift_step(x, cx, ix);
            lemma_shift_step(y, cy, ix);
            lemma_shift_step(z, cz, ix);
        }
        let ghost m0 = mc;
        let m1 = mc | (bz << s);
        let m2 = m1 | (by << (s + 1));
        let m3 = m2 | (bx << (s + 2));
        assert forall|p: u64| p < 64 implies bit64(m3, p) == (p < base + 3 * (ix + 1)
            && morton_bit(num_bits, x, y, z, p)) by {
            lemma_or_bit(m0, bz, s, p);
            lemma_or_bit(m1, by, (s + 1) as u64, p);
            lemma_or_bit(m2, bx, (s + 2) as u64, p);
            if p >= base + 3 * ix && p < base + 3 * (ix + 1) {
                let k = (p - base) as u64;
                assert(k / 3 == ix as u64 && k % 3 == (p - s) as u64);
            }
        }
        mc = m3;
        cx = cx >> 1;
        cy = cy >> 1;
        cz = cz >> 1;
        ix = ix + 1;
    }
    mc
}

/// Bit `bit` of a Morton code, counting from the most significant bit.
pub fn get_bit(mc: u64, bit: u16) -> (r: bool)
    requires
        bit < 64,
    ensures
        r == bit64(mc, (63 - bit) as u64),
{
    ((mc >> (63 - bit)) & 1) == 1
}

} // verus!
