//! Digital port aggregation.
//!
//! A DO device drives each port as one unit: the port's samples are integers whose bit `n`
//! is the level of line `n`. After the line channels are compiled, the lines of one port are
//! merged into a single stream: its segment boundaries are the union of the lines'
//! boundaries, and each segment carries the sum of `level * 2^line` over the port's lines.
use vstd::prelude::*;
use crate::channel::Channel;
use crate::instruction::{Instruction, const_instr};
use crate::stream::{seg_index_at, seg_start, stream_wf, stream_end, stream_follows, lemma_seg_index_unique};
use crate::utils::port_line_of;
use crate::value::{bits_is_level, level_of, level, two_pow, f64_bits_of_nat};

verus! {

/// The constant value (a binary64 bit pattern) that the stream `(ends, vals)` plays at
/// position `q`.
pub open spec fn const_in(ends: Seq<usize>, vals: Seq<Instruction>, q: int) -> u64 {
    match vals[seg_index_at(ends, q)].const_value_spec() {
        Some(v) => v,
        None => 0,
    }
}

/// The constant value that a compiled channel plays at position `q`.
pub open spec fn const_at(c: Channel, q: int) -> u64 {
    const_in(c.ends(), c.vals(), q)
}

/// The entry is an edited line channel of port `port`.
pub open spec fn on_port(e: (Seq<char>, Channel), port: nat) -> bool {
    &&& e.1.is_editable()
    &&& e.1.list().len() > 0
    &&& port_line_of(e.0) is Some
    &&& port_line_of(e.0).unwrap().0 == port
}

/// The line number in the entry's name.
pub open spec fn line_of(e: (Seq<char>, Channel)) -> nat {
    port_line_of(e.0).unwrap().1
}

/// The sum, over the edited line channels of port `port`, of `level * 2^line` at position `q`.
pub open spec fn port_sum(s: Seq<(Seq<char>, Channel)>, port: nat, q: int) -> nat
    decreases s.len(),
{
    if s.len() == 0 {
        0
    } else {
        port_sum(s.drop_last(), port, q) + if on_port(s.last(), port) {
            level_of(const_at(s.last().1, q)) * two_pow(line_of(s.last()))
        } else {
            0
        }
    }
}

/// The binary64 bit pattern of the port value at position `q`.
pub open spec fn port_value(s: Seq<(Seq<char>, Channel)>, port: nat, q: int) -> u64 {
    f64_bits_of_nat(port_sum(s, port, q)) as u64
}

/// `x` is a segment end of some edited line channel of port `port`.
pub open spec fn port_has_end(s: Seq<(Seq<char>, Channel)>, port: nat, x: usize) -> bool {
    exists|i: int| 0 <= i < s.len() && on_port(s[i], port) && (#[trigger] s[i]).1.ends().contains(x)
}

/// Every instruction is a constant whose value is a digital level.
pub open spec fn vals_are_levels(vals: Seq<Instruction>) -> bool {
    forall|k: int|
        0 <= k < vals.len() ==> (#[trigger] vals[k]).const_value_spec() is Some && bits_is_level(
            vals[k].const_value_spec().unwrap(),
        )
}

/// The edited line channels of port `port` are compiled to one common length, play digital
/// levels only, and have line numbers below 32.
pub open spec fn port_ready(s: Seq<(Seq<char>, Channel)>, port: nat) -> bool {
    &&& forall|i: int|
        0 <= i < s.len() && on_port(s[i], port) ==> {
            &&& stream_wf((#[trigger] s[i]).1.ends(), s[i].1.vals())
            &&& s[i].1.ends().len() > 0
            &&& vals_are_levels(s[i].1.vals())
            &&& line_of(s[i]) < 32
        }
    &&& forall|i: int, j: int|
        0 <= i < s.len() && 0 <= j < s.len() && on_port(s[i], port) && on_port(s[j], port) ==> stream_end(
            (#[trigger] s[i]).1.ends(),
        ) == stream_end((#[trigger] s[j]).1.ends())
}

/// Adding the last entry to a prefix adds its term to the port sum.
pub proof fn lemma_port_sum_take(s: Seq<(Seq<char>, Channel)>, port: nat, q: int, k: int)
    requires
        0 <= k < s.len(),
    ensures
        port_sum(s.take(k + 1), port, q) == port_sum(s.take(k), port, q) + if on_port(s[k], port) {
            level_of(const_at(s[k].1, q)) * two_pow(line_of(s[k]))
        } else {
            0
        },
{
    assert(s.take(k + 1).drop_last() =~= s.take(k));
    assert(s.take(k + 1).last() == s[k]);
}

/// Each element is smaller than the next.
pub open spec fn strictly_increasing(s: Seq<usize>) -> bool {
    forall|i: int, j: int| 0 <= i < j < s.len() ==> s[i] < s[j]
}

/// The sorted union of two strictly increasing sequences: every element of either, once, in
/// increasing order.
pub fn merge_sorted(a: &Vec<usize>, b: &Vec<usize>) -> (r: Vec<usize>)
    requires
        strictly_increasing(a@),
        strictly_increasing(b@),
    ensures
        strictly_increasing(r@),
        forall|x: usize| r@.contains(x) <==> (a@.contains(x) || b@.contains(x)),
{
    let mut r: Vec<usize> = Vec::new();
    let mut i: usize = 0;
    let mut j: usize = 0;
    while i < a.len() || j < b.len()
        invariant
            i <= a.len(),
            j <= b.len(),
            strictly_increasing(a@),
            strictly_increasing(b@),
            strictly_increasing(r@),
            forall|x: usize| r@.contains(x) <==> (a@.take(i as int).contains(x) || b@.take(j as int).contains(x)),
            r@.len() > 0 ==> (i < a.len() ==> r@.last() < a@[i as int]) && (j < b.len() ==> r@.last()
                < b@[j as int]),
        decreases a.len() + b.len() - i - j,
    {
        let ghost r0 = r@;
        let ghost i0 = i as int;
        let ghost j0 = j as int;
        let x: usize;
        if j >= b.len() || (i < a.len() && a[i] < b[j]) {
            x = a[i];
            i += 1;
        } else if i >= a.len() || b[j] < a[i] {
            x = b[j];
            j += 1;
        } else {
            x = a[i];
            i += 1;
            j += 1;
        }
        r.push(x);
        proof {
            assert(a@.take(i as int) == if i as int == i0 {
                a@.take(i0)
            } else {
                a@.take(i0).push(a@[i0])
            });
            assert(b@.take(j as int) == if j as int == j0 {
                b@.take(j0)
            } else {
                b@.take(j0).push(b@[j0])
            });
            assert(r@ == r0.push(x));
            assert forall|p: int, q: int| 0 <= p < q < r@.len() implies r@[p] < r@[q] by {
                if q == r0.len() {
                    if p < r0.len() - 1 {
                        assert(r0[p] < r0[r0.len() - 1]);
                    }
                } else {
                    assert(r@[p] == r0[p] && r@[q] == r0[q]);
                }
            }
            assert forall|y: usize| r@.contains(y) <==> (a@.take(i as int).contains(y) || b@.take(
                j as int,
            ).contains(y)) by {
                if r@.contains(y) {
                    let k = choose|k: int| 0 <= k < r@.len() && r@[k] == y;
                    if k < r0.len() {
                        assert(r0[k] == y);
                        assert(r0.contains(y));
                    }
                }
                if r0.contains(y) {
                    let k = choose|k: int| 0 <= k < r0.len() && r0[k] == y;
                    assert(r@[k] == y);
                }
                if a@.take(i0).contains(y) {
                    let k = choose|k: int| 0 <= k < i0 && a@.take(i0)[k] == y;
                    assert(a@.take(i as int)[k] == y);
                }
                if b@.take(j0).contains(y) {
                    let k = choose|k: int| 0 <= k < j0 && b@.take(j0)[k] == y;
                    assert(b@.take(j as int)[k] == y);
                }
                if a@.take(i as int).contains(y) {
                    let k = choose|k: int| 0 <= k < i && a@.take(i as int)[k] == y;
                    if k < i0 {
                        assert(a@.take(i0)[k] == y);
                    }
                }
                if b@.take(j as int).contains(y) {
                    let k = choose|k: int| 0 <= k < j && b@.take(j as int)[k] == y;
                    if k < j0 {
                        assert(b@.take(j0)[k] == y);
                    }
                }
                assert(r@[r0.len() as int] == x);
                if y == x {
                    if i as int > i0 {
                        assert(a@.take(i as int)[i0] == x);
                    } else {
                        assert(b@.take(j as int)[j0] == x);
                    }
                }
            }
            if i < a.len() {
                assert(a@[i0] < a@[i as int] || i0 == i as int);
            }
            if j < b.len() {
                assert(b@[j0] < b@[j as int] || j0 == j as int);
            }
        }
    }
    proof {
        assert(a@.take(a@.len() as int) =~= a@);
        assert(b@.take(b@.len() as int) =~= b@);
    }
    r
}

/// In a strictly increasing sequence, every element is at most the last one.
pub proof fn lemma_le_last(s: Seq<usize>, x: usize)
    requires
        strictly_increasing(s),
        s.contains(x),
    ensures
        x <= s.last(),
{
    let j = choose|j: int| 0 <= j < s.len() && s[j] == x;
    if j < s.len() - 1 {
        assert(s[j] < s[s.len() - 1]);
    }
}

/// Adds `level * w` to `sums[j]`, where `level` is the digital level that the stream
/// `(ce, cv)` plays in the `j`-th segment of `ends`. The boundaries of `(ce, cv)` must be
/// among those of `ends`, and both must stop at the same position.
pub fn add_line_levels(sums: &mut Vec<u64>, ends: &Vec<usize>, ce: &Vec<usize>, cv: &Vec<Instruction>, w: u64)
    requires
        old(sums)@.len() == ends@.len(),
        strictly_increasing(ends@),
        ends@.len() > 0 ==> ends@[0] > 0,
        stream_wf(ce@, cv@),
        ce@.len() > 0,
        vals_are_levels(cv@),
        forall|x: usize| ce@.contains(x) ==> ends@.contains(x),
        stream_end(ce@) == stream_end(ends@),
        w <= 0x8000_0000,
        forall|j: int| 0 <= j < old(sums)@.len() ==> old(sums)@[j] <= 0xFFFF_FFFF_0000_0000,
    ensures
        final(sums)@.len() == old(sums)@.len(),
        forall|j: int|
            0 <= j < old(sums)@.len() ==> #[trigger] final(sums)@[j] == old(sums)@[j] + level_of(
                const_in(ce@, cv@, ends@[j] - 1),
            ) * w,
{
    let m = ends.len();
    let cl = ce.len();
    let mut i: usize = 0;
    let mut idx: usize = 0;
    proof {
        lemma_le_last(ends@, ce@[0]);
        let j = choose|j: int| 0 <= j < ends@.len() && ends@[j] == ce@[0];
        assert(ce@.contains(ce@[0]));
        if j > 0 {
            assert(ends@[0] < ends@[j]);
        }
    }
    while i < m
        invariant
            i <= m,
            m == ends@.len(),
            cl == ce@.len(),
            sums@.len() == m,
            strictly_increasing(ends@),
            m > 0 ==> ends@[0] > 0,
            stream_wf(ce@, cv@),
            cl > 0,
            vals_are_levels(cv@),
            forall|x: usize| ce@.contains(x) ==> ends@.contains(x),
            stream_end(ce@) == stream_end(ends@),
            w <= 0x8000_0000,
            forall|j: int| 0 <= j < m ==> old(sums)@[j] <= 0xFFFF_FFFF_0000_0000,
            old(sums)@.len() == m,
            forall|j: int|
                0 <= j < i ==> #[trigger] sums@[j] == old(sums)@[j] + level_of(
                    const_in(ce@, cv@, ends@[j] - 1),
                ) * w,
            forall|j: int| i <= j < m ==> #[trigger] sums@[j] == old(sums)@[j],
            i < m ==> idx < cl && seg_start(ce@, idx as int) <= seg_start(ends@, i as int)
                && ends@[i as int] <= ce@[idx as int],
        decreases m - i,
    {
        let ghost ii = i as int;
        let ghost ix = idx as int;
        proof {
            if ii > 0 {
                assert(ends@[ii - 1] < ends@[ii]);
            }
            assert(seg_start(ends@, ii) < ends@[ii]);
            lemma_seg_index_unique(ce@, cv@, ix, ends@[ii] - 1);
            assert(cv@[ix].const_value_spec() is Some);
        }
        let v: u64 = match cv[idx].const_value() {
            Some(b) => level(b),
            None => 0,
        };
        proof {
            assert(v == level_of(const_in(ce@, cv@, ends@[ii] - 1)));
            assert(v <= 1);
            assert(v * w <= 0x8000_0000) by (nonlinear_arith)
                requires
                    v <= 1,
                    w <= 0x8000_0000,
            ;
        }
        let old_val = sums[i];
        sums.set(i, old_val + v * w);
        if ends[i] == ce[idx] {
            idx += 1;
        }
        i += 1;
        proof {
            if i < m {
                let ni = i as int;
                let nx = idx as int;
                if nx == ix + 1 {
                    if nx == cl {
                        assert(ce@[ix] == stream_end(ce@));
                        assert(ends@[ii] == ends@[m - 1]);
                        assert(ends@[ii] < ends@[m - 1]);
                    }
                    assert(ce@[ix] < ce@[nx]);
                }
                assert(ce@[nx] > ends@[ii]);
                assert(ce@.contains(ce@[nx]));
                let j = choose|j: int| 0 <= j < ends@.len() && ends@[j] == ce@[nx];
                if j < ni {
                    if j < ii {
                        assert(ends@[j] < ends@[ii]);
                    }
                }
                if j > ni {
                    assert(ends@[ni] < ends@[j]);
                }
            }
        }
    }
}

/// The level that line `n` of port `port` plays at position `q`: that of the last edited line
/// channel of the port with line number `n`, or 0 when there is none.
pub open spec fn line_level(s: Seq<(Seq<char>, Channel)>, port: nat, q: int, n: nat) -> nat
    decreases s.len(),
{
    if s.len() == 0 {
        0
    } else if on_port(s.last(), port) && line_of(s.last()) == n {
        level_of(const_at(s.last().1, q))
    } else {
        line_level(s.drop_last(), port, q, n)
    }
}

/// Bit `n` of `x`.
pub open spec fn bit_of(x: nat, n: nat) -> nat {
    (x / two_pow(n)) % 2
}

/// The edited line channels of port `port` have distinct line numbers, all below 32.
pub open spec fn lines_distinct(s: Seq<(Seq<char>, Channel)>, port: nat) -> bool {
    &&& forall|i: int| 0 <= i < s.len() && on_port(s[i], port) ==> line_of(#[trigger] s[i]) < 32
    &&& forall|i: int, j: int|
        0 <= i < j < s.len() && on_port(s[i], port) && on_port(s[j], port) ==> line_of(#[trigger] s[i])
            != line_of(#[trigger] s[j])
}

proof fn lemma_two_pow_is_pow2(e: nat)
    ensures
        two_pow(e) == vstd::arithmetic::power2::pow2(e),
    decreases e,
{
    if e == 0 {
        vstd::arithmetic::power2::lemma2_to64();
    } else {
        lemma_two_pow_is_pow2((e - 1) as nat);
        vstd::arithmetic::power2::lemma_pow2_unfold(e);
    }
}

/// For a 64-bit `x`, `bit_of(x, m)` is the bit that shifting and masking reads.
proof fn lemma_bit_of_u64(x: u64, m: u64)
    requires
        m < 64,
    ensures
        bit_of(x as nat, m as nat) == ((x >> m) & 1) as nat,
{
    vstd::bits::lemma_u64_shr_is_div(x, m);
    lemma_two_pow_is_pow2(m as nat);
    let y = x >> m;
    assert(y & 1 == y % 2) by (bit_vector);
}

/// Adding `2^l` to a number whose bit `l` is clear sets bit `l` and keeps every other bit.
proof fn lemma_add_clear_bit(x: u64, y: u64, l: u64, m: u64)
    requires
        l < 32,
        m < 64,
        x < 0x20_0000_0000_0000,
        y == x + (1u64 << l),
        (x >> l) & 1 == 0,
    ensures
        ((y >> m) & 1) == if m == l {
            1u64
        } else {
            (x >> m) & 1
        },
{
    assert(((y >> m) & 1) == if m == l {
        1u64
    } else {
        (x >> m) & 1
    }) by (bit_vector)
        requires
            l < 32,
            m < 64,
            x < 0x20_0000_0000_0000,
            y == x + (1u64 << l),
            (x >> l) & 1 == 0,
    ;
}

/// Without an edited line `n` in the entries, line `n` plays level 0.
proof fn lemma_line_level_absent(s: Seq<(Seq<char>, Channel)>, port: nat, q: int, n: nat)
    requires
        forall|i: int| 0 <= i < s.len() && on_port(s[i], port) ==> line_of(#[trigger] s[i]) != n,
    ensures
        line_level(s, port, q, n) == 0,
    decreases s.len(),
{
    if s.len() > 0 {
        let d = s.drop_last();
        assert forall|i: int| 0 <= i < d.len() && on_port(d[i], port) implies line_of(#[trigger] d[i]) != n by {
            assert(d[i] == s[i]);
        }
        assert(s.last() == s[s.len() - 1]);
        lemma_line_level_absent(d, port, q, n);
    }
}

/// With lines below 32, the port sum stays below `len * 2^31`.
proof fn lemma_port_sum_bound(s: Seq<(Seq<char>, Channel)>, port: nat, q: int)
    requires
        forall|i: int| 0 <= i < s.len() && on_port(s[i], port) ==> line_of(#[trigger] s[i]) < 32,
    ensures
        port_sum(s, port, q) <= s.len() * 0x8000_0000,
    decreases s.len(),
{
    if s.len() > 0 {
        let d = s.drop_last();
        assert forall|i: int| 0 <= i < d.len() && on_port(d[i], port) implies line_of(#[trigger] d[i]) < 32 by {
            assert(d[i] == s[i]);
        }
        lemma_port_sum_bound(d, port, q);
        let e = s.last();
        assert(e == s[s.len() - 1]);
        if on_port(e, port) {
            let lv = level_of(const_at(e.1, q));
            let w = two_pow(line_of(e));
            crate::value::lemma_two_pow_mono(line_of(e), 31);
            reveal_with_fuel(two_pow, 32);
            assert(lv * w <= 0x8000_0000) by (nonlinear_arith)
                requires
                    lv <= 1,
                    w <= 0x8000_0000,
            ;
        }
        assert(d.len() * 0x8000_0000 + 0x8000_0000 == s.len() * 0x8000_0000) by (nonlinear_arith)
            requires
                d.len() + 1 == s.len(),
        ;
    }
}

/// Bit `n` of a port value is the level of line `n` of the port: when the port's edited lines
/// have distinct numbers below 32 (and there are fewer than `2^21` entries), bit `n` of the
/// port sum at any position is the level that line `n` plays there, and 0 when the port has
/// no line `n`.
pub proof fn lemma_port_bits(s: Seq<(Seq<char>, Channel)>, port: nat, q: int, n: nat)
    requires
        lines_distinct(s, port),
        s.len() < 0x20_0000,
        n < 64,
    ensures
        bit_of(port_sum(s, port, q), n) == line_level(s, port, q, n),
    decreases s.len(),
{
    if s.len() == 0 {
        assert(0nat / two_pow(n) == 0) by {
            crate::value::lemma_two_pow_pos(n);
        }
    } else {
        let d = s.drop_last();
        let e = s.last();
        assert(e == s[s.len() - 1]);
        assert(lines_distinct(d, port)) by {
            assert forall|i: int| 0 <= i < d.len() && on_port(d[i], port) implies line_of(#[trigger] d[i]) < 32 by {
                assert(d[i] == s[i]);
            }
            assert forall|i: int, j: int|
                0 <= i < j < d.len() && on_port(d[i], port) && on_port(d[j], port) implies line_of(#[trigger] d[i])
                != line_of(#[trigger] d[j]) by {
                assert(d[i] == s[i] && d[j] == s[j]);
            }
        }
        lemma_port_bits(d, port, q, n);
        if on_port(e, port) {
            let l = line_of(e);
            assert(l < 32);
            let lv = level_of(const_at(e.1, q));
            let x = port_sum(d, port, q);
            lemma_port_sum_bound(d, port, q);
            assert(x < 0x20_0000_0000_0000) by (nonlinear_arith)
                requires
                    x <= d.len() * 0x8000_0000,
                    d.len() < 0x20_0000,
            ;
            // No other edited line of the port has number l, so bit l of the rest is clear.
            assert forall|i: int| 0 <= i < d.len() && on_port(d[i], port) implies line_of(#[trigger] d[i]) != l by {
                assert(d[i] == s[i]);
            }
            lemma_line_level_absent(d, port, q, l);
            lemma_port_bits(d, port, q, l);
            lemma_bit_of_u64(x as u64, l as u64);
            lemma_bit_of_u64(x as u64, n as u64);
            if lv == 0 {
                assert(port_sum(s, port, q) == x);
                if n == l {
                    assert(line_level(s, port, q, n) == 0);
                }
            } else {
                lemma_two_pow_is_pow2(l);
                vstd::bits::lemma_u64_pow2_no_overflow(l);
                assert(1 * vstd::arithmetic::power2::pow2(l) == vstd::arithmetic::power2::pow2(l));
                vstd::bits::lemma_u64_shl_is_mul(1u64, l as u64);
                crate::value::lemma_two_pow_mono(l, 31);
                reveal_with_fuel(two_pow, 32);
                assert(lv * two_pow(l) == two_pow(l));
                assert(port_sum(s, port, q) == x + two_pow(l));
                let y: u64 = (x + two_pow(l)) as u64;
                lemma_add_clear_bit(x as u64, y, l as u64, n as u64);
                lemma_bit_of_u64(y, n as u64);
            }
        }
    }
}

/// Port sums agree at two positions where every edited line of the port plays the same
/// constant.
proof fn lemma_port_sum_same(s: Seq<(Seq<char>, Channel)>, port: nat, p: int, q: int)
    requires
        forall|i: int| 0 <= i < s.len() && on_port(s[i], port) ==> const_at((#[trigger] s[i]).1, p) == const_at(
            s[i].1,
            q,
        ),
    ensures
        port_sum(s, port, p) == port_sum(s, port, q),
    decreases s.len(),
{
    if s.len() > 0 {
        let d = s.drop_last();
        assert forall|i: int| 0 <= i < d.len() && on_port(d[i], port) implies const_at((#[trigger] d[i]).1, p)
            == const_at(d[i].1, q) by {
            assert(d[i] == s[i]);
        }
        lemma_port_sum_same(d, port, p, q);
        assert(s.last() == s[s.len() - 1]);
    }
}

/// A line whose segment ends are among the port's, and which stops where the port stops,
/// plays one segment over each segment of the port.
proof fn lemma_same_line_segment(ce: Seq<usize>, cv: Seq<Instruction>, ends: Seq<usize>, k: int, p: int)
    requires
        stream_wf(ce, cv),
        ce.len() > 0,
        strictly_increasing(ends),
        ends.len() > 0 ==> ends[0] > 0,
        forall|x: usize| ce.contains(x) ==> ends.contains(x),
        stream_end(ce) == stream_end(ends),
        0 <= k < ends.len(),
        seg_start(ends, k) <= p < ends[k],
    ensures
        seg_index_at(ce, p) == seg_index_at(ce, ends[k] - 1),
{
    let q = ends[k] - 1;
    lemma_le_last(ends, ends[k]);
    assert(ends.contains(ends[k]));
    if k < ends.len() - 1 {
        assert(ends[k] < ends[ends.len() - 1]);
    }
    assert(seg_start(ends, k) >= 0);
    crate::stream::lemma_seg_index_at(ce, cv, p);
    let j = seg_index_at(ce, p);
    assert(ce.contains(ce[j]));
    let m = choose|m: int| 0 <= m < ends.len() && ends[m] == ce[j];
    if m < k {
        if m < k - 1 {
            assert(ends[m] < ends[k - 1]);
        }
    }
    if m > k {
        assert(ends[k] < ends[m]);
    }
    lemma_seg_index_unique(ce, cv, j, q);
}

/// The edited lines of a ready port lie within the merged boundaries `ends` and stop where
/// they stop.
proof fn lemma_line_in_port(s: Seq<(Seq<char>, Channel)>, port: nat, ends: Seq<usize>, i: int)
    requires
        port_ready(s, port),
        strictly_increasing(ends),
        forall|x: usize| ends.contains(x) <==> port_has_end(s, port, x),
        0 <= i < s.len(),
        on_port(s[i], port),
    ensures
        forall|x: usize| s[i].1.ends().contains(x) ==> ends.contains(x),
        stream_end(s[i].1.ends()) == stream_end(ends),
{
    let ce = s[i].1.ends();
    assert(stream_wf(ce, s[i].1.vals()));
    assert forall|x: usize| ce.contains(x) implies ends.contains(x) by {
        assert(port_has_end(s, port, x));
    }
    let last = ce[ce.len() - 1];
    assert(ce.contains(last));
    lemma_le_last(ends, last);
    let el = ends[ends.len() - 1];
    assert(ends.contains(el));
    let j = choose|j: int| 0 <= j < s.len() && on_port(s[j], port) && (#[trigger] s[j]).1.ends().contains(el);
    assert(stream_wf(s[j].1.ends(), s[j].1.vals()));
    lemma_le_last(s[j].1.ends(), el);
    assert(stream_end(s[j].1.ends()) == stream_end(ce));
}

/// A merged port stream whose segments hold the port value at their last position plays the
/// port value at every position it covers.
pub proof fn lemma_port_stream_follows(
    s: Seq<(Seq<char>, Channel)>,
    port: nat,
    ends: Seq<usize>,
    vals: Seq<Instruction>,
)
    requires
        port_ready(s, port),
        strictly_increasing(ends),
        ends.len() > 0 ==> ends[0] > 0,
        vals.len() == ends.len(),
        forall|x: usize| ends.contains(x) <==> port_has_end(s, port, x),
        forall|i: int| 0 <= i < ends.len() ==> #[trigger] vals[i] == const_instr(port_value(s, port, ends[i] - 1)),
    ensures
        stream_follows(ends, vals, |q: int| const_instr(port_value(s, port, q))),
{
    let f = |q: int| const_instr(port_value(s, port, q));
    assert forall|k: int, p: int|
        #![trigger ends[k], f(p)]
        0 <= k < ends.len() && seg_start(ends, k) <= p < ends[k] implies vals[k] == f(p) by {
        assert forall|i: int| 0 <= i < s.len() && on_port(s[i], port) implies const_at((#[trigger] s[i]).1, p)
            == const_at(s[i].1, ends[k] - 1) by {
            lemma_line_in_port(s, port, ends, i);
            lemma_same_line_segment(s[i].1.ends(), s[i].1.vals(), ends, k, p);
        }
        lemma_port_sum_same(s, port, p, ends[k] - 1);
        assert(vals[k] == const_instr(port_value(s, port, ends[k] - 1)));
    }
}

} // verus!
