//! adler32 of a byte string, and of a window that slides one byte at a time.

use vstd::prelude::*;
use vstd::arithmetic::div_mod::{lemma_fundamental_div_mod, lemma_mod_multiples_vanish, lemma_mod_bound};

verus! {

/// The adler32 modulus: the largest prime below 2^16.
pub const ADLER_MOD: u32 = 65521;

/// zlib's NMAX: the longest run of bytes whose unreduced sums still fit in a `u32`.
const NMAX: usize = 5552;

/// Sum of the bytes of `s`.
pub open spec fn byte_sum(s: Seq<u8>) -> nat
    decreases s.len(),
{
    if s.len() == 0 {
        0
    } else {
        byte_sum(s.drop_last()) + s.last() as nat
    }
}

/// Sum of the running byte sums of `s`: `s[i]` counts `s.len() - i` times.
pub open spec fn weighted_sum(s: Seq<u8>) -> nat
    decreases s.len(),
{
    if s.len() == 0 {
        0
    } else {
        weighted_sum(s.drop_last()) + byte_sum(s)
    }
}

/// The low half of adler32: one plus the byte sum, modulo 65521.
pub open spec fn adler_a(s: Seq<u8>) -> nat {
    (1 + byte_sum(s)) % (ADLER_MOD as nat)
}

/// The high half of adler32: the sum of the low halves after each byte, modulo 65521.
pub open spec fn adler_b(s: Seq<u8>) -> nat {
    (s.len() + weighted_sum(s)) % (ADLER_MOD as nat)
}

/// adler32 as zlib defines it.
pub open spec fn adler32_spec(s: Seq<u8>) -> nat {
    adler_b(s) * 65536 + adler_a(s)
}

/// Appending a byte adds it to the byte sum, and the new byte sum to the weighted sum.
pub proof fn lemma_sums_push(s: Seq<u8>, x: u8)
    ensures
        byte_sum(s.push(x)) == byte_sum(s) + x,
        weighted_sum(s.push(x)) == weighted_sum(s) + byte_sum(s) + x,
{
    assert(s.push(x).drop_last() =~= s);
}

/// Taking off the first byte removes it from the byte sum and `s.len()` times from the weighted sum.
pub proof fn lemma_sums_drop_first(s: Seq<u8>)
    requires
        s.len() > 0,
    ensures
        byte_sum(s) == s[0] + byte_sum(s.drop_first()),
        weighted_sum(s) == s.len() * s[0] + weighted_sum(s.drop_first()),
    decreases s.len(),
{
    if s.len() == 1 {
        assert(s.drop_last() =~= Seq::<u8>::empty());
        assert(s.drop_first() =~= Seq::<u8>::empty());
    } else {
        let t = s.drop_last();
        lemma_sums_drop_first(t);
        assert(s.drop_first().drop_last() =~= t.drop_first());
        let n = s.len() as int;
        let s0 = s[0] as int;
        assert((n - 1) * s0 + s0 == n * s0) by (nonlinear_arith);
    }
}

/// `x` and `y` differ by a multiple of the modulus.
proof fn lemma_congruent(x: int, y: int, q: int)
    requires
        x == y + 65521 * q,
    ensures
        x % 65521 == y % 65521,
{
    lemma_mod_multiples_vanish(q, y, 65521);
}

/// The unreduced sums of one run of bytes reduce to the adler32 halves after that run.
proof fn lemma_run_reduces(
    a: int,
    b: int,
    a0: int,
    b0: int,
    m: int,
    sc: int,
    sk: int,
    wc: int,
    wk: int,
    c: int,
    k: int,
)
    requires
        a0 == (1 + sc) % 65521,
        b0 == (c + wc) % 65521,
        m == k - c,
        a == a0 + sk - sc,
        b == b0 + m * a0 + wk - wc - m * sc,
    ensures
        a % 65521 == (1 + sk) % 65521,
        b % 65521 == (k + wk) % 65521,
{
    let q1 = (1 + sc) / 65521;
    let q2 = (c + wc) / 65521;
    lemma_fundamental_div_mod(1 + sc, 65521);
    lemma_fundamental_div_mod(c + wc, 65521);
    lemma_congruent(a, 1 + sk, -q1);
    assert(b == (k + wk) + 65521 * (-(q2 + m * q1))) by (nonlinear_arith)
        requires
            1 + sc == 65521 * q1 + a0,
            c + wc == 65521 * q2 + b0,
            m == k - c,
            b == b0 + m * a0 + wk - wc - m * sc,
    ;
    lemma_congruent(b, k + wk, -(q2 + m * q1));
}

/// adler32 of `data`, reducing the sums once per run of at most 5552 bytes.
pub fn adler32(data: &[u8]) -> (r: u32)
    ensures
        r == adler32_spec(data@),
{
    let n = data.len();
    let mut a: u32 = 1;
    let mut b: u32 = 0;
    let mut c: usize = 0;
    assert(data@.subrange(0, 0) =~= Seq::<u8>::empty());
    while c < n
        invariant
            c <= n,
            n == data@.len(),
            a == adler_a(data@.subrange(0, c as int)),
            b == adler_b(data@.subrange(0, c as int)),
        decreases n - c,
    {
        let end: usize = if n - c > NMAX {
            c + NMAX
        } else {
            n
        };
        let ghost a0: int = a as int;
        let ghost b0: int = b as int;
        let ghost sc: int = byte_sum(data@.subrange(0, c as int)) as int;
        let ghost wc: int = weighted_sum(data@.subrange(0, c as int)) as int;
        let ghost mut ja: int = 0;
        let ghost mut js: int = 0;
        let ghost mut tri: int = 0;
        proof {
            lemma_mod_bound(1 + sc, 65521);
            lemma_mod_bound(c + wc, 65521);
        }
        let mut k: usize = c;
        while k < end
            invariant
                c <= k <= end <= n,
                end - c <= NMAX,
                n == data@.len(),
                0 <= a0 < 65521,
                0 <= b0 < 65521,
                sc == byte_sum(data@.subrange(0, c as int)),
                wc == weighted_sum(data@.subrange(0, c as int)),
                a0 == (1 + sc) % 65521,
                b0 == (c + wc) % 65521,
                a == a0 + byte_sum(data@.subrange(0, k as int)) - sc,
                b == b0 + ja + weighted_sum(data@.subrange(0, k as int)) - wc - js,
                ja == (k - c) * a0,
                js == (k - c) * sc,
                byte_sum(data@.subrange(0, k as int)) - sc <= 255 * (k - c),
                weighted_sum(data@.subrange(0, k as int)) - wc - js <= 255 * tri,
                2 * tri == (k - c) * (k - c + 1),
            decreases end - k,
        {
            let x = data[k];
            let ghost pre = data@.subrange(0, k as int);
            let ghost m: int = k - c;
            proof {
                assert(data@.subrange(0, k + 1) =~= pre.push(x));
                lemma_sums_push(pre, x);
                assert((m + 1) * a0 == m * a0 + a0) by (nonlinear_arith);
                assert((m + 1) * sc == m * sc + sc) by (nonlinear_arith);
                assert(2 * (tri + m + 1) == (m + 1) * (m + 2)) by (nonlinear_arith)
                    requires
                        2 * tri == m * (m + 1),
                ;
                assert((m + 1) * a0 <= 5552 * 65520) by (nonlinear_arith)
                    requires
                        0 <= m < 5552,
                        0 <= a0 < 65521,
                ;
                assert((m + 1) * (m + 2) <= 5552 * 5553) by (nonlinear_arith)
                    requires
                        0 <= m < 5552,
                ;
            }
            a = a + x as u32;
            b = b + a;
            k = k + 1;
            proof {
                ja = ja + a0;
                js = js + sc;
                tri = tri + m + 1;
            }
        }
        proof {
            lemma_run_reduces(
                a as int,
                b as int,
                a0,
                b0,
                (k - c) as int,
                sc,
                byte_sum(data@.subrange(0, k as int)) as int,
                wc,
                weighted_sum(data@.subrange(0, k as int)) as int,
                c as int,
                k as int,
            );
        }
        a = a % ADLER_MOD;
        b = b % ADLER_MOD;
        c = end;
    }
    assert(data@.subrange(0, n as int) =~= data@);
    assert(b < 65536 && a < 65536 ==> (b << 16) | a == b * 65536 + a) by (bit_vector);
    (b << 16) | a
}

/// How adler32 changes when the window drops its first byte and takes in `x` at its end: the
/// update that `Rolling::roll` computes in constant time.
pub proof fn lemma_roll_window(w: Seq<u8>, x: u8)
    requires
        w.len() > 0,
    ensures
        ({
            let v = w.drop_first().push(x);
            &&& v.len() == w.len()
            &&& adler_a(v) == (adler_a(w) + x + 65521 - w[0]) % 65521
            &&& adler_b(v) == (adler_b(w) + adler_a(v) + 2 * 65521 - ((w.len() % 65521) * w[0])
                % 65521 - 1) % 65521
        }),
{
    let v = w.drop_first().push(x);
    lemma_sums_drop_first(w);
    lemma_sums_push(w.drop_first(), x);
    let n: int = w.len() as int;
    let w0: int = w[0] as int;
    let s: int = byte_sum(w) as int;
    let ws: int = weighted_sum(w) as int;
    let s1: int = byte_sum(v) as int;
    let w1: int = weighted_sum(v) as int;
    assert(s1 == s - w0 + x);
    assert(w1 == n + ws - n * w0 + s - w0 + x - n);
    let a = (1 + s) % 65521;
    let b = (n + ws) % 65521;
    let qa = (1 + s) / 65521;
    let qb = (n + ws) / 65521;
    lemma_fundamental_div_mod(1 + s, 65521);
    lemma_fundamental_div_mod(n + ws, 65521);
    lemma_congruent(a + x + 65521 - w0, 1 + s1, 1 - qa);
    let a1 = (1 + s1) % 65521;
    let qa1 = (1 + s1) / 65521;
    lemma_fundamental_div_mod(1 + s1, 65521);
    let nm = n % 65521;
    let qn = n / 65521;
    lemma_fundamental_div_mod(n, 65521);
    let r = (nm * w0) % 65521;
    let qr = (nm * w0) / 65521;
    lemma_fundamental_div_mod(nm * w0, 65521);
    assert(b + a1 + 2 * 65521 - r - 1 == (n + w1) + 65521 * (2 - qb - qa1 + qr + qn * w0))
        by (nonlinear_arith)
        requires
            n + ws == 65521 * qb + b,
            1 + s1 == 65521 * qa1 + a1,
            n == 65521 * qn + nm,
            nm * w0 == 65521 * qr + r,
            w1 == n + ws - n * w0 + s - w0 + x - n,
            s1 == s - w0 + x,
    ;
    lemma_congruent(b + a1 + 2 * 65521 - r - 1, n + w1, 2 - qb - qa1 + qr + qn * w0);
}

/// adler32 of a window that slides one byte at a time.
pub struct Rolling {
    a: u32,
    b: u32,
    n_mod: u32,
}

impl Rolling {
    #[verifier::type_invariant]
    spec fn reduced(&self) -> bool {
        &&& self.a < ADLER_MOD
        &&& self.b < ADLER_MOD
        &&& self.n_mod < ADLER_MOD
    }

    /// The state is that of the window `w`: both halves of its adler32 and its length modulo 65521.
    pub closed spec fn tracks(&self, w: Seq<u8>) -> bool {
        &&& self.a == adler_a(w)
        &&& self.b == adler_b(w)
        &&& self.n_mod == w.len() % 65521
    }

    /// The adler32 value the state holds.
    pub closed spec fn spec_value(&self) -> nat {
        (self.b * 65536 + self.a) as nat
    }

    /// A state that tracks the value of a window.
    pub proof fn lemma_tracked_value(&self, w: Seq<u8>)
        requires
            self.tracks(w),
        ensures
            self.spec_value() == adler32_spec(w),
    {
    }

    /// Starts at `window`.
    pub fn new(window: &[u8]) -> (r: Rolling)
        ensures
            r.spec_value() == adler32_spec(window@),
            window@.len() <= u32::MAX ==> r.tracks(window@),
    {
        let s = adler32(window);
        proof {
            lemma_mod_bound(1 + byte_sum(window@) as int, 65521);
            lemma_mod_bound(window@.len() + weighted_sum(window@) as int, 65521);
        }
        let ghost ga = adler_a(window@);
        let ghost gb = adler_b(window@);
        assert(s == gb * 65536 + ga);
        assert(s & 0xffff == s % 65536 && s >> 16 == s / 65536) by (bit_vector);
        let lo = s & 0xffff;
        let hi = s >> 16;
        let n_mod = (#[verifier::truncate] (window.len() as u32)) % ADLER_MOD;
        Rolling { a: lo, b: hi, n_mod }
    }

    /// The adler32 of the current window.
    pub fn value(&self) -> (v: u32)
        ensures
            v == self.spec_value(),
    {
        proof {
            use_type_invariant(self);
        }
        let a = self.a;
        let b = self.b;
        assert(b < 65536 && a < 65536 ==> (b << 16) | a == b * 65536 + a) by (bit_vector);
        (b << 16) | a
    }

    /// Slides the window one byte: `out` leaves at the front, `inp` comes in at the end.
    pub fn roll(&mut self, out: u8, inp: u8)
        ensures
            forall|w: Seq<u8>|
                old(self).tracks(w) && w.len() > 0 && w[0] == out
                    ==> #[trigger] final(self).tracks(w.drop_first().push(inp)),
    {
        proof {
            use_type_invariant(&*self);
        }
        let ghost before = *self;
        let n_mod = self.n_mod;
        assert(n_mod * (out as u32) <= 65520 * 255) by (nonlinear_arith)
            requires
                n_mod < 65521,
        ;
        let a = (self.a + inp as u32 + ADLER_MOD - out as u32) % ADLER_MOD;
        let b = (self.b + a + 2 * ADLER_MOD - (self.n_mod * out as u32) % ADLER_MOD - 1)
            % ADLER_MOD;
        self.a = a;
        self.b = b;
        proof {
            assert forall|w: Seq<u8>|
                before.tracks(w) && w.len() > 0 && w[0] == out implies #[trigger] self.tracks(
                w.drop_first().push(inp),
            ) by {
                lemma_roll_window(w, inp);
            }
        }
    }
}

} // verus!
