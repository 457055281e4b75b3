//! The probe sequence: the deterministic order in which group-sized windows
//! of the control array are visited when searching for a key or for an
//! insertion slot.
//!
//! Step `t` starts its window at `(h + GROUP_WIDTH * tri(t)) % m`, a
//! triangular-number stride. Because the number of buckets `m` is a power of
//! two, the sequence reaches a window containing any chosen slot within
//! `m / GROUP_WIDTH` steps (one step when the table is no larger than a
//! group); `lemma_probe_reaches` proves this from the surjectivity of
//! triangular numbers modulo a power of two.

use vstd::prelude::*;
use vstd::arithmetic::div_mod::{
    lemma_add_mod_noop_right, lemma_fundamental_div_mod, lemma_mod_bound,
    lemma_mod_multiples_vanish, lemma_small_mod, lemma_sub_mod_noop, lemma_sub_mod_noop_right,
};
use vstd::arithmetic::power2::{
    lemma2_to64, lemma_pow2_adds, lemma_pow2_pos, lemma_pow2_strictly_increases, pow2,
};
use crate::ctrl::GROUP_WIDTH;

verus! {

/// The triangular number `0 + 1 + ... + t`.
pub open spec fn tri(t: nat) -> nat
    decreases t,
{
    if t == 0 {
        0
    } else {
        t + tri((t - 1) as nat)
    }
}

/// `m` is a power of two.
pub open spec fn is_pow2(m: nat) -> bool {
    exists|k: nat| m == pow2(k)
}

/// Closed form of the triangular numbers.
pub proof fn lemma_tri_closed(t: nat)
    ensures
        2 * tri(t) == t * (t + 1),
    decreases t,
{
    if t > 0 {
        lemma_tri_closed((t - 1) as nat);
        assert(2 * (t + tri((t - 1) as nat)) == t * (t + 1)) by (nonlinear_arith)
            requires
                t >= 1,
                2 * tri((t - 1) as nat) == (t - 1) * t,
        ;
    }
}

/// Reflecting `t0` to `2g - 1 - t0` advances the triangular number by `g`
/// modulo `2g`.
proof fn lemma_tri_reflect(g: nat, t0: nat)
    requires
        g >= 1,
        t0 < g,
    ensures
        tri((2 * g - 1 - t0) as nat) % (2 * g) == (tri(t0) + g) % (2 * g),
{
    let t1 = (2 * g - 1 - t0) as nat;
    lemma_tri_closed(t0);
    lemma_tri_closed(t1);
    let a = tri(t0) as int;
    let b = tri(t1) as int;
    let gi = g as int;
    let t0i = t0 as int;
    assert(2 * b == 2 * (a - gi + (2 * gi) * (gi - t0i))) by (nonlinear_arith)
        requires
            2 * b == (2 * gi - 1 - t0i) * ((2 * gi - 1 - t0i) + 1),
            2 * a == t0i * (t0i + 1),
            0 <= t0i < gi,
    ;
    assert(b == (2 * gi) * (gi - t0i) + (a - gi));
    lemma_mod_multiples_vanish(gi - t0i, a - gi, 2 * gi);
    assert(b % (2 * gi) == (a - gi) % (2 * gi));
    lemma_mod_multiples_vanish(1, a - gi, 2 * gi);
    assert((2 * gi) * 1 + (a - gi) == a + gi);
    assert((a + gi) % (2 * gi) == (a - gi) % (2 * gi));
}

/// Triangular numbers are surjective modulo any power of two: every residue
/// is reached by some step below the modulus.
pub proof fn lemma_tri_surjective(k: nat, r: nat)
    requires
        r < pow2(k),
    ensures
        exists|t: nat| t < pow2(k) && tri(t) % pow2(k) == r,
    decreases k,
{
    if k == 0 {
        assert(pow2(0) == 1) by {
            lemma2_to64();
        }
        assert(tri(0) % pow2(0) == 0) by {
            lemma_small_mod(0, 1);
        }
        assert(0 < pow2(k) && tri(0) % pow2(k) == r);
    } else {
        let g = pow2((k - 1) as nat);
        let G = pow2(k);
        assert(G == 2 * g) by {
            vstd::arithmetic::power2::lemma_pow2_unfold(k);
        }
        lemma_pow2_pos((k - 1) as nat);
        let r0: nat = if r < g {
            r
        } else {
            (r - g) as nat
        };
        lemma_tri_surjective((k - 1) as nat, r0);
        let t0 = choose|t: nat| t < g && tri(t) % g == r0;
        let a = (tri(t0) % G) as int;
        let x = tri(t0) as int;
        let gi = g as int;
        let Gi = G as int;
        lemma_mod_bound(x, Gi);
        lemma_fundamental_div_mod(x, Gi);
        let q = x / Gi;
        // a and tri(t0) agree modulo g, since G is a multiple of g.
        assert(Gi * q == gi * (2 * q)) by (nonlinear_arith)
            requires
                Gi == 2 * gi,
        ;
        lemma_mod_multiples_vanish(2 * q, a, gi);
        assert(x % gi == a % gi);
        assert(a % gi == r0 as int);
        // a is r0 or r0 + g.
        lemma_fundamental_div_mod(a, gi);
        lemma_mod_bound(a, gi);
        let qa = a / gi;
        assert(0 <= qa < 2) by (nonlinear_arith)
            requires
                a == gi * qa + (a % gi),
                0 <= a % gi < gi,
                0 <= a < 2 * gi,
                gi >= 1,
        ;
        let t1 = (2 * g - 1 - t0) as nat;
        lemma_tri_reflect(g, t0);
        // tri(t1) % G == (a + g) % G.
        lemma_add_mod_noop_right(tri(t0) as int, gi, Gi);
        assert((tri(t0) + g) % G == (a + gi) % Gi) by {
            assert((x + (gi % Gi)) % Gi == (x + gi) % Gi) by {
                lemma_small_mod(g, G);
                lemma_add_mod_noop_right(x, gi, Gi);
            }
            assert((a + gi) % Gi == (x + gi) % Gi) by {
                lemma_fundamental_div_mod(x, Gi);
                lemma_mod_multiples_vanish(q, a + gi, Gi);
                assert(Gi * q + (a + gi) == x + gi);
            }
        }
        if qa == 0 {
            // a == r0
            assert(a == gi * qa + (a % gi));
            assert(gi * qa == 0) by (nonlinear_arith)
                requires
                    qa == 0,
            ;
            assert(a == r0 as int);
            if r == r0 {
                assert(t0 < G && tri(t0) % G == r);
            } else {
                assert(r == r0 + g);
                assert((a + gi) % Gi == r as int) by {
                    lemma_small_mod((r0 + g) as nat, G);
                }
                assert(t1 < G && tri(t1) % G == r);
            }
        } else {
            // a == r0 + g
            assert(a == gi * qa + (a % gi));
            assert(gi * qa == gi) by (nonlinear_arith)
                requires
                    qa == 1,
            ;
            assert(a == r0 + gi);
            if r == r0 {
                assert((a + gi) % Gi == r as int) by {
                    lemma_mod_multiples_vanish(1, r0 as int, Gi);
                    assert(Gi * 1 + r0 == a + gi);
                    lemma_small_mod(r0, G);
                }
                assert(t1 < G && tri(t1) % G == r);
            } else {
                assert(r == r0 + g);
                assert(tri(t0) % G == r);
                assert(t0 < G);
            }
        }
    }
}

/// First window position probed for hash `h` in a table of `m` buckets.
pub open spec fn probe_start(h: u64, m: nat) -> nat {
    ((h as usize) as nat) % m
}

/// Window position probed at step `t`.
pub open spec fn probe_pos(h: u64, m: nat, t: nat) -> nat {
    (probe_start(h, m) + (GROUP_WIDTH as nat) * tri(t)) % m
}

/// Number of probe steps within which every slot's window is reached.
pub open spec fn probe_steps(m: nat) -> nat {
    if m <= GROUP_WIDTH {
        1
    } else {
        m / (GROUP_WIDTH as nat)
    }
}

/// Offset of slot `e` inside the window starting at `pos`, counted modulo
/// the table size.
pub open spec fn win_off(pos: nat, e: nat, m: nat) -> int {
    (e - pos) % (m as int)
}

/// Slot `e` lies within the `GROUP_WIDTH`-byte window starting at `pos`.
pub open spec fn in_window(pos: nat, e: nat, m: nat) -> bool {
    win_off(pos, e, m) < GROUP_WIDTH
}

/// The window offset is a valid offset and leads back to the slot.
pub proof fn lemma_win_off(pos: nat, e: nat, m: nat)
    requires
        pos < m,
        e < m,
    ensures
        0 <= win_off(pos, e, m) < m,
        (pos + win_off(pos, e, m)) % (m as int) == e,
{
    let mi = m as int;
    lemma_mod_bound(e - pos, mi);
    lemma_add_mod_noop_right(pos as int, e - pos, mi);
    assert((pos + ((e - pos) % mi)) % mi == (pos + (e - pos)) % mi);
    lemma_small_mod(e, m);
}

/// The probe position is a valid window position.
pub proof fn lemma_probe_pos_bound(h: u64, m: nat, t: nat)
    requires
        0 < m,
    ensures
        probe_pos(h, m, t) < m,
{
    lemma_mod_bound((probe_start(h, m) + (GROUP_WIDTH as nat) * tri(t)) as int, m as int);
}

/// Advancing the probe adds one more group-width stride.
pub proof fn lemma_probe_step(h: u64, m: nat, t: nat)
    requires
        0 < m,
    ensures
        probe_pos(h, m, t + 1) == (probe_pos(h, m, t) + (GROUP_WIDTH as nat) * (t + 1)) % m,
{
    let mi = m as int;
    let s = probe_start(h, m) as int;
    let w = GROUP_WIDTH as int;
    let a = w * tri(t);
    let b = w * (t + 1);
    assert(w * tri(t + 1) == a + b) by (nonlinear_arith)
        requires
            tri(t + 1) == tri(t) + (t + 1),
            a == w * tri(t),
            b == w * (t + 1),
    ;
    vstd::arithmetic::div_mod::lemma_add_mod_noop(s + a, b, mi);
    lemma_add_mod_noop_right((s + a) % mi, b, mi);
    lemma_small_mod(((s + a) % mi) as nat, m);
}

/// Within `probe_steps(m)` steps, the probe sequence reaches a window that
/// contains any chosen slot `e`.
pub proof fn lemma_probe_reaches(h: u64, m: nat, e: nat)
    requires
        is_pow2(m),
        0 < m,
        e < m,
    ensures
        exists|t: nat| t < probe_steps(m) && in_window(probe_pos(h, m, t), e, m),
{
    let w = GROUP_WIDTH as nat;
    if m <= w {
        lemma_probe_pos_bound(h, m, 0);
        lemma_win_off(probe_pos(h, m, 0), e, m);
        assert(in_window(probe_pos(h, m, 0), e, m));
        assert(0 < probe_steps(m) && in_window(probe_pos(h, m, 0nat), e, m));
    } else {
        let k = choose|k: nat| m == pow2(k);
        assert(k > 4) by {
            lemma2_to64();
            if k <= 4 {
                if k < 4 {
                    lemma_pow2_strictly_increases(k, 4);
                }
                assert(m <= 16);
            }
        }
        let g = pow2((k - 4) as nat);
        assert(m == 16 * g) by {
            lemma_pow2_adds(4, (k - 4) as nat);
            lemma2_to64();
        }
        lemma_pow2_pos((k - 4) as nat);
        let mi = m as int;
        let pos0 = probe_start(h, m);
        lemma_mod_bound(h as int, mi);
        lemma_win_off(pos0, e, m);
        let d = win_off(pos0, e, m) as nat;
        let q = d / 16;
        let rem = d % 16;
        vstd::arithmetic::div_mod::lemma_fundamental_div_mod(d as int, 16);
        lemma_mod_bound(d as int, 16);
        assert(q < g) by (nonlinear_arith)
            requires
                d == 16 * q + rem,
                0 <= rem < 16,
                d < 16 * g,
        ;
        // probe_steps(m) == g
        assert(probe_steps(m) == g) by {
            vstd::arithmetic::div_mod::lemma_fundamental_div_mod_converse(mi, 16, g as int, 0);
        }
        lemma_tri_surjective((k - 4) as nat, q);
        let t = choose|t: nat| t < g && tri(t) % g == q;
        let x = tri(t) as int;
        let gi = g as int;
        lemma_fundamental_div_mod(x, gi);
        let c = x / gi;
        lemma_mod_bound(x, gi);
        // 16 * tri(t) is 16q modulo m.
        assert(16 * x == mi * c + 16 * q) by (nonlinear_arith)
            requires
                x == gi * c + q,
                mi == 16 * gi,
        ;
        lemma_mod_multiples_vanish(c, 16 * (q as int), mi);
        lemma_small_mod((16 * q) as nat, m);
        assert((16 * x) % mi == 16 * q as int);
        // hence the probe position at step t sits 16q past pos0.
        let p = probe_pos(h, m, t);
        assert(p == (pos0 + 16 * q) % m) by {
            lemma_add_mod_noop_right(pos0 as int, 16 * x, mi);
            lemma_add_mod_noop_right(pos0 as int, 16 * (q as int), mi);
        }
        lemma_probe_pos_bound(h, m, t);
        // and the window offset of e from that position is rem < 16.
        assert(win_off(p, e, m) == rem as int) by {
            lemma_sub_mod_noop_right(e as int, (pos0 + 16 * q) as int, mi);
            assert((e - p) % mi == (e - (pos0 + 16 * q)) % mi);
            assert(e - (pos0 + 16 * q) == (e - pos0) - 16 * q);
            lemma_sub_mod_noop_right(e as int, pos0 as int, mi);
            assert((e - pos0) % mi == d as int);
            // (e - pos0 - 16q) and (d - 16q) differ by a multiple of m.
            lemma_fundamental_div_mod(e - pos0, mi);
            let cc = (e - pos0) / mi;
            assert((e - pos0) - 16 * q == mi * cc + (d - 16 * q));
            lemma_mod_multiples_vanish(cc, d - 16 * (q as int), mi);
            assert(d - 16 * q == rem);
            lemma_small_mod(rem, m);
        }
        assert(t < probe_steps(m) && in_window(probe_pos(h, m, t), e, m));
    }
}

} // verus!
