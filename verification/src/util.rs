//! Small pure helpers: decimal digit strings, thousands grouping for the
//! on-screen point count, the axis permutation between the catalog's
//! coordinate convention and the renderer's, and the corner table used to
//! draw a box as twelve lines.

use vstd::prelude::*;

use crate::geom::Aabb;

verus! {

/// The ASCII digits of `n`, most significant first.
pub open spec fn dec_bytes(n: nat) -> Seq<u8>
    decreases n,
{
    if n < 10 {
        seq![(0x30 + n) as u8]
    } else {
        dec_bytes(n / 10).push((0x30 + n % 10) as u8)
    }
}

/// Digit strings are never empty and hold only ASCII digits.
pub proof fn lemma_dec_bytes_ascii(n: nat)
    ensures
        dec_bytes(n).len() >= 1,
        forall|i: int| 0 <= i < dec_bytes(n).len() ==> 0x30 <= #[trigger] dec_bytes(n)[i] < 0x3a,
    decreases n,
{
    if n >= 10 {
        lemma_dec_bytes_ascii(n / 10);
    }
}

/// Append the decimal digits of `n`.
pub fn push_dec_bytes(n: u64, out: &mut Vec<u8>)
    ensures
        final(out)@ == old(out)@ + dec_bytes(n as nat),
    decreases n,
{
    if n < 10 {
        out.push(0x30 + n as u8);
        proof {
            assert(out@ =~= old(out)@ + dec_bytes(n as nat));
        }
    } else {
        push_dec_bytes(n / 10, out);
        out.push(0x30 + (n % 10) as u8);
        proof {
            assert(out@ =~= old(out)@ + dec_bytes(n as nat));
        }
    }
}

/// How many decimal digits `n` has.
pub fn count_dec_digits(n: u64) -> (r: usize)
    ensures
        r == dec_bytes(n as nat).len(),
        1 <= r <= 20,
{
    let mut m: u64 = n;
    let mut c: usize = 1;
    proof {
        lemma_dec_len_bound(n as nat);
        assert(n < 0x1_0000_0000_0000_0000) by {
        }
    }
    while m >= 10
        invariant
            dec_bytes(n as nat).len() == c + dec_bytes(m as nat).len() - 1,
            c >= 1,
            c + dec_bytes(m as nat).len() - 1 <= 20,
        decreases m,
    {
        m = m / 10;
        c = c + 1;
    }
    c
}

/// With `n` below the `k`-th power of ten, `n` has at most `k` digits.
pub proof fn lemma_dec_len_le(n: nat, k: nat)
    requires
        n < pow10(k),
        k >= 1,
    ensures
        dec_bytes(n).len() <= k,
    decreases n,
{
    if n >= 10 {
        if k == 1 {
            assert(pow10(1) == 10);
        }
        assert(n / 10 < pow10((k - 1) as nat)) by (nonlinear_arith)
            requires
                n < pow10(k),
                k >= 2,
                pow10(k) == 10 * pow10((k - 1) as nat),
        ;
        lemma_dec_len_le(n / 10, (k - 1) as nat);
    }
}

/// A 64-bit value has at most twenty digits.
pub proof fn lemma_dec_len_bound(n: nat)
    requires
        n < 0x1_0000_0000_0000_0000,
    ensures
        dec_bytes(n).len() <= 20,
{
    assert(pow10(20) == 100000000000000000000) by {
        reveal_with_fuel(pow10, 21);
    }
    lemma_dec_len_le(n, 20);
}

pub open spec fn pow10(k: nat) -> nat
    decreases k,
{
    if k == 0 {
        1
    } else {
        10 * pow10((k - 1) as nat)
    }
}

/// The digit string with commas inserted every three digits from the
/// right.
pub open spec fn group_digits(s: Seq<u8>) -> Seq<u8>
    decreases s.len(),
{
    if s.len() <= 3 {
        s
    } else {
        group_digits(s.take(s.len() - 3)) + seq![0x2cu8] + s.skip(s.len() - 3)
    }
}

/// Group the digits strictly before `upto`.
fn group_bytes_prefix(s: &Vec<u8>, from: usize, upto: usize) -> (r: Vec<u8>)
    requires
        from <= upto <= s.len(),
    ensures
        r@ == group_digits(s@.subrange(from as int, upto as int)),
    decreases upto - from,
{
    let n = upto - from;
    if n <= 3 {
        let mut out: Vec<u8> = Vec::new();
        let mut i = from;
        while i < upto
            invariant
                from <= i <= upto <= s@.len(),
                out@ =~= s@.subrange(from as int, i as int),
            decreases upto - i,
        {
            out.push(s[i]);
            proof {
                assert(out@ =~= s@.subrange(from as int, i as int + 1));
            }
            i = i + 1;
        }
        out
    } else {
        let mut head = group_bytes_prefix(s, from, upto - 3);
        head.push(0x2c);
        let mut i = upto - 3;
        while i < upto
            invariant
                from <= upto - 3 <= i <= upto <= s@.len(),
                head@ =~= group_digits(s@.subrange(from as int, upto as int - 3)) + seq![0x2cu8]
                    + s@.subrange(upto as int - 3, i as int),
            decreases upto - i,
        {
            head.push(s[i]);
            proof {
                assert(head@ =~= group_digits(s@.subrange(from as int, upto as int - 3)) + seq![
                    0x2cu8,
                ] + s@.subrange(upto as int - 3, i as int + 1));
            }
            i = i + 1;
        }
        proof {
            let whole = s@.subrange(from as int, upto as int);
            assert(whole.take(whole.len() - 3) =~= s@.subrange(from as int, upto as int - 3));
            assert(whole.skip(whole.len() - 3) =~= s@.subrange(upto as int - 3, upto as int));
            assert(head@ =~= group_digits(whole));
        }
        head
    }
}

/// Relies on String::from_utf8_lossy: ASCII bytes decode to the characters
/// with the same code points.
#[verifier::external_body]
fn ascii_to_string(b: &Vec<u8>) -> (r: String)
    requires
        forall|i: int| 0 <= i < b@.len() ==> #[trigger] b@[i] < 0x80,
    ensures
        r@ == b@.map_values(|x: u8| x as char),
{
    String::from_utf8_lossy(b.as_slice()).into_owned()
}

/// Format a count with a comma between every group of three digits.
pub fn pretty_int(i: u64) -> (r: String)
    ensures
        r@ == group_digits(dec_bytes(i as nat)).map_values(|x: u8| x as char),
{
    let mut digits: Vec<u8> = Vec::new();
    push_dec_bytes(i, &mut digits);
    proof {
        assert(digits@ =~= dec_bytes(i as nat));
    }
    let grouped = group_bytes_prefix(&digits, 0, digits.len());
    proof {
        assert(digits@.subrange(0, digits@.len() as int) =~= digits@);
        lemma_dec_bytes_ascii(i as nat);
        lemma_group_ascii(digits@);
    }
    ascii_to_string(&grouped)
}

/// Grouping ASCII digits yields only ASCII bytes.
proof fn lemma_group_ascii(s: Seq<u8>)
    requires
        forall|i: int| 0 <= i < s.len() ==> #[trigger] s[i] < 0x80,
    ensures
        forall|i: int| 0 <= i < group_digits(s).len() ==> #[trigger] group_digits(s)[i] < 0x80,
    decreases s.len(),
{
    if s.len() > 3 {
        assert(forall|i: int|
            0 <= i < s.take(s.len() - 3).len() ==> #[trigger] s.take(s.len() - 3)[i] < 0x80);
        lemma_group_ascii(s.take(s.len() - 3));
        let g = group_digits(s.take(s.len() - 3));
        assert forall|i: int| 0 <= i < group_digits(s).len() implies #[trigger] group_digits(
            s,
        )[i] < 0x80 by {
            if i < g.len() {
                assert(group_digits(s)[i] == g[i]);
            } else if i > g.len() {
                assert(group_digits(s)[i] == s.skip(s.len() - 3)[i - g.len() - 1]);
                assert(s.skip(s.len() - 3)[i - g.len() - 1] == s[s.len() - 3 + (i - g.len() - 1)]);
            }
        }
    }
}

/// Three booleans, one per axis; the unpacked form of a corner bitmask.
#[derive(Clone, Copy, Debug, PartialEq, Eq, Structural)]
pub struct Bool3 {
    pub x: bool,
    pub y: bool,
    pub z: bool,
}

/// Unpack a corner bitmask: bit 2 selects on the x axis, bit 1 on y, bit 0
/// on z.
pub fn to_bvec3(bitmask: u8) -> (r: Bool3)
    ensures
        r.x == ((bitmask & 0b100) != 0),
        r.y == ((bitmask & 0b010) != 0),
        r.z == ((bitmask & 0b001) != 0),
{
    Bool3 { x: (bitmask & 0b100) != 0, y: (bitmask & 0b010) != 0, z: (bitmask & 0b001) != 0 }
}

/// The catalog's coordinate convention maps to the renderer's by the cyclic
/// axis permutation (x, y, z) -> (z, x, y).
pub fn gaiasky_to_cartesian<T: Copy>(a: [T; 3]) -> (r: [T; 3])
    ensures
        r[0] == a[2],
        r[1] == a[0],
        r[2] == a[1],
{
    [a[2], a[0], a[1]]
}

/// The corner of a box that a bitmask selects: a set bit picks the minimum
/// corner on that axis.
pub open spec fn corner_spec(b: Aabb, mask: u8) -> Seq<i64> {
    seq![
        if mask & 0b100 != 0 {
            b.min[0]
        } else {
            b.max[0]
        },
        if mask & 0b010 != 0 {
            b.min[1]
        } else {
            b.max[1]
        },
        if mask & 0b001 != 0 {
            b.min[2]
        } else {
            b.max[2]
        },
    ]
}

/// Pick one corner of the box.
pub fn box_corner(b: &Aabb, mask: u8) -> (r: [i64; 3])
    ensures
        r@ == corner_spec(*b, mask),
{
    let s = to_bvec3(mask);
    let r = [
        if s.x {
            b.min[0]
        } else {
            b.max[0]
        },
        if s.y {
            b.min[1]
        } else {
            b.max[1]
        },
        if s.z {
            b.min[2]
        } else {
            b.max[2]
        },
    ];
    proof {
        assert(r@ =~= corner_spec(*b, mask));
    }
    r
}

/// The corner bitmask pair of each of the twelve edges of a box.
pub open spec fn edge_table() -> Seq<(u8, u8)> {
    seq![
        (0b000u8, 0b100u8),
        (0b000u8, 0b010u8),
        (0b000u8, 0b001u8),
        (0b100u8, 0b110u8),
        (0b100u8, 0b101u8),
        (0b010u8, 0b110u8),
        (0b010u8, 0b011u8),
        (0b001u8, 0b101u8),
        (0b001u8, 0b011u8),
        (0b011u8, 0b111u8),
        (0b101u8, 0b111u8),
        (0b110u8, 0b111u8),
    ]
}

/// The twelve edges of the box, as corner pairs, in the table's order.
pub fn box_edges(b: &Aabb) -> (r: Vec<([i64; 3], [i64; 3])>)
    ensures
        r@.len() == 12,
        forall|k: int|
            0 <= k < 12 ==> (#[trigger] r@[k]).0@ == corner_spec(*b, edge_table()[k].0)
                && r@[k].1@ == corner_spec(*b, edge_table()[k].1),
{
    let mut out: Vec<([i64; 3], [i64; 3])> = Vec::new();
    out.push((box_corner(b, 0b000), box_corner(b, 0b100)));
    out.push((box_corner(b, 0b000), box_corner(b, 0b010)));
    out.push((box_corner(b, 0b000), box_corner(b, 0b001)));
    out.push((box_corner(b, 0b100), box_corner(b, 0b110)));
    out.push((box_corner(b, 0b100), box_corner(b, 0b101)));
    out.push((box_corner(b, 0b010), box_corner(b, 0b110)));
    out.push((box_corner(b, 0b010), box_corner(b, 0b011)));
    out.push((box_corner(b, 0b001), box_corner(b, 0b101)));
    out.push((box_corner(b, 0b001), box_corner(b, 0b011)));
    out.push((box_corner(b, 0b011), box_corner(b, 0b111)));
    out.push((box_corner(b, 0b101), box_corner(b, 0b111)));
    out.push((box_corner(b, 0b110), box_corner(b, 0b111)));
    proof {
        assert forall|k: int|
            0 <= k < 12 implies (#[trigger] out@[k]).0@ == corner_spec(*b, edge_table()[k].0)
            && out@[k].1@ == corner_spec(*b, edge_table()[k].1) by {
            if k == 0 {
            } else if k == 1 {
            } else if k == 2 {
            } else if k == 3 {
            } else if k == 4 {
            } else if k == 5 {
            } else if k == 6 {
            } else if k == 7 {
            } else if k == 8 {
            } else if k == 9 {
            } else if k == 10 {
            } else {
                assert(k == 11);
            }
        }
    }
    out
}

} // verus!
