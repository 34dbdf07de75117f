//! Variable-length vectors: size rules and big-endian length prefixes.
use vstd::prelude::*;

verus! {

/// Largest ceiling a vector may declare: its prefix then takes four bytes.
pub const MAX_CEILING: usize = 0xffff_ffff;

/// `256` to the power `w`: one more than the largest value `w` bytes hold.
pub open spec fn radix(w: nat) -> nat
    decreases w,
{
    if w == 0 {
        1
    } else {
        256 * radix((w - 1) as nat)
    }
}

/// The `w`-byte big-endian form of `n` (its low `w` bytes).
pub open spec fn be_bytes(n: nat, w: nat) -> Seq<u8>
    decreases w,
{
    if w == 0 {
        Seq::empty()
    } else {
        be_bytes(n / 256, (w - 1) as nat).push((n % 256) as u8)
    }
}

/// The number that the big-endian bytes `s` stand for.
pub open spec fn be_value(s: Seq<u8>) -> nat
    decreases s.len(),
{
    if s.len() == 0 {
        0
    } else {
        be_value(s.drop_last()) * 256 + s.last() as nat
    }
}

/// The size rule of one field: its payload holds `floor..=ceiling` bytes, in
/// whole elements of `unit` bytes each.
#[derive(Clone, Copy, Debug, PartialEq, Eq, Structural)]
pub struct VectorBounds {
    pub floor: usize,
    pub ceiling: usize,
    pub unit: usize,
}

impl VectorBounds {
    pub open spec fn wf(self) -> bool {
        &&& self.floor <= self.ceiling <= MAX_CEILING
        &&& 1 <= self.unit
    }

    /// Whether a payload of `n` bytes obeys the rule.
    pub open spec fn admits(self, n: nat) -> bool {
        &&& self.floor <= n <= self.ceiling
        &&& n % (self.unit as nat) == 0
    }

    /// Whether the field has one fixed size, and so no length prefix.
    pub open spec fn is_fixed(self) -> bool {
        self.floor == self.ceiling
    }

    /// Width in bytes of the length prefix: none for a fixed-size field, else
    /// the fewest bytes that hold the ceiling.
    pub open spec fn width(self) -> nat {
        if self.is_fixed() {
            0
        } else if self.ceiling <= 0xff {
            1
        } else if self.ceiling <= 0xffff {
            2
        } else if self.ceiling <= 0xff_ffff {
            3
        } else {
            4
        }
    }

    /// The wire form of `payload`: its length prefix, then the payload itself.
    pub open spec fn encoded(self, payload: Seq<u8>) -> Seq<u8> {
        be_bytes(payload.len(), self.width()) + payload
    }

    /// Width in bytes of the length prefix.
    pub fn prefix_width(&self) -> (r: usize)
        ensures
            r == self.width(),
    {
        if self.floor == self.ceiling {
            0
        } else if self.ceiling <= 0xff {
            1
        } else if self.ceiling <= 0xffff {
            2
        } else if self.ceiling <= 0xff_ffff {
            3
        } else {
            4
        }
    }

    /// Whether a payload of `n` bytes obeys the rule.
    pub fn admits_len(&self, n: usize) -> (r: bool)
        requires
            self.wf(),
        ensures
            r == self.admits(n as nat),
    {
        self.floor <= n && n <= self.ceiling && n % self.unit == 0
    }
}

pub proof fn lemma_radix_small()
    ensures
        radix(0) == 1,
        radix(1) == 0x100,
        radix(2) == 0x1_0000,
        radix(3) == 0x100_0000,
        radix(4) == 0x1_0000_0000,
{
    reveal_with_fuel(radix, 5);
}

pub proof fn lemma_radix_positive(w: nat)
    ensures
        radix(w) >= 1,
    decreases w,
{
    if w > 0 {
        lemma_radix_positive((w - 1) as nat);
    }
}

/// A well-formed rule's ceiling fits in its prefix.
pub proof fn lemma_ceiling_fits(b: VectorBounds)
    requires
        b.wf(),
        !b.is_fixed(),
    ensures
        1 <= b.width() <= 4,
        b.ceiling < radix(b.width()),
{
    lemma_radix_small();
}

pub proof fn lemma_be_bytes_len(n: nat, w: nat)
    ensures
        be_bytes(n, w).len() == w,
    decreases w,
{
    if w > 0 {
        lemma_be_bytes_len(n / 256, (w - 1) as nat);
    }
}

/// Reading back the `w`-byte form of a number below `radix(w)` gives it back.
pub proof fn lemma_be_round_trip(n: nat, w: nat)
    requires
        n < radix(w),
    ensures
        be_value(be_bytes(n, w)) == n,
    decreases w,
{
    if w > 0 {
        let m = (w - 1) as nat;
        assert(n / 256 < radix(m)) by (nonlinear_arith)
            requires
                n < 256 * radix(m),
        ;
        lemma_be_round_trip(n / 256, m);
        let s = be_bytes(n, w);
        assert(s.drop_last() =~= be_bytes(n / 256, m));
        assert(n == (n / 256) * 256 + n % 256) by (nonlinear_arith);
    }
}

/// Writing back a number read from `t`, in as many bytes, gives `t` back.
pub proof fn lemma_be_bytes_of_value(t: Seq<u8>)
    ensures
        be_bytes(be_value(t), t.len()) == t,
    decreases t.len(),
{
    if t.len() > 0 {
        let d = t.drop_last();
        let v = be_value(t);
        let b = t.last() as nat;
        lemma_be_bytes_of_value(d);
        assert(v / 256 == be_value(d) && v % 256 == b) by (nonlinear_arith)
            requires
                v == be_value(d) * 256 + b,
                b < 256,
        ;
        assert(d.push(t.last()) =~= t);
    }
}

/// A number read from `s` lies below `radix(s.len())`.
pub proof fn lemma_be_value_bound(s: Seq<u8>)
    ensures
        be_value(s) < radix(s.len()),
    decreases s.len(),
{
    if s.len() > 0 {
        lemma_be_value_bound(s.drop_last());
        let v = be_value(s.drop_last());
        let r = radix((s.len() - 1) as nat);
        let b = s.last() as nat;
        assert(v * 256 + b < 256 * r) by (nonlinear_arith)
            requires
                v < r,
                b < 256,
        ;
    }
}

/// Byte `j` of the `w`-byte form of `n`, by division instead of recursion.
pub proof fn lemma_be_byte(n: nat, w: nat, j: nat)
    requires
        j < w,
    ensures
        be_bytes(n, w)[j as int] == ((n / radix((w - 1 - j) as nat)) % 256) as u8,
    decreases w,
{
    let m = (w - 1) as nat;
    lemma_be_bytes_len(n / 256, m);
    if j < m {
        lemma_be_byte(n / 256, m, j);
        let k = (m - 1 - j) as nat;
        lemma_radix_positive(k);
        vstd::arithmetic::div_mod::lemma_div_denominator(n as int, 256, radix(k) as int);
        assert(radix((w - 1 - j) as nat) == 256 * radix(k));
    } else {
        assert(radix(0) == 1);
        assert(n / 1 == n);
    }
}

/// Byte `j` of the `w`-byte big-endian form of `n`.
pub fn be_byte_at(n: usize, w: usize, j: usize) -> (r: u8)
    requires
        j < w,
    ensures
        r == be_bytes(n as nat, w as nat)[j as int],
{
    proof {
        lemma_be_byte(n as nat, w as nat, j as nat);
    }
    let shifts = w - 1 - j;
    let mut q: usize = n;
    let mut t: usize = 0;
    proof {
        assert(radix(0) == 1);
        assert(n as nat / 1 == n as nat);
    }
    while t < shifts
        invariant
            t <= shifts,
            q as nat == n as nat / radix(t as nat),
        decreases shifts - t,
    {
        proof {
            lemma_radix_positive(t as nat);
            vstd::arithmetic::div_mod::lemma_div_denominator(n as int, radix(t as nat) as int, 256);
            assert(radix((t + 1) as nat) == 256 * radix(t as nat));
            assert(radix(t as nat) * 256 == 256 * radix(t as nat)) by (nonlinear_arith);
        }
        q = q / 256;
        t = t + 1;
    }
    (q % 256) as u8
}

/// Reads the `w`-byte big-endian number that starts at `pos`.
pub fn read_be(bytes: &[u8], pos: usize, w: usize) -> (r: u64)
    requires
        pos + w <= bytes@.len(),
        w <= 4,
    ensures
        r == be_value(bytes@.subrange(pos as int, pos + w)),
{
    let len = bytes.len();
    let mut acc: u64 = 0;
    let mut i: usize = 0;
    while i < w
        invariant
            len == bytes@.len(),
            i <= w <= 4,
            pos + w <= bytes@.len(),
            acc == be_value(bytes@.subrange(pos as int, pos + i)),
        decreases w - i,
    {
        proof {
            lemma_be_value_bound(bytes@.subrange(pos as int, pos + i));
            lemma_radix_small();
            assert(bytes@.subrange(pos as int, pos + i + 1).drop_last() =~= bytes@.subrange(
                pos as int,
                pos + i,
            ));
            if i == 0 {
            } else if i == 1 {
            } else if i == 2 {
            } else {
                assert(i == 3);
            }
        }
        acc = acc * 256 + bytes[pos + i] as u64;
        i = i + 1;
    }
    acc
}

} // verus!
