//! Byte strings in dictionary order, and fixed-width integers as bytes.

use vstd::prelude::*;

verus! {

/// How two byte strings stand to each other.
#[derive(Clone, Copy, PartialEq, Eq, Debug, Structural)]
pub enum Order {
    Less,
    Equal,
    Greater,
}

/// `a` comes strictly before `b` in dictionary order.
pub open spec fn bytes_lt(a: Seq<u8>, b: Seq<u8>) -> bool
    decreases a.len(),
{
    if b.len() == 0 {
        false
    } else if a.len() == 0 {
        true
    } else if a[0] != b[0] {
        a[0] < b[0]
    } else {
        bytes_lt(a.skip(1), b.skip(1))
    }
}

/// `a` is `b` or comes before it.
pub open spec fn bytes_le(a: Seq<u8>, b: Seq<u8>) -> bool {
    a == b || bytes_lt(a, b)
}

/// `s` begins with `prefix`.
pub open spec fn has_prefix(s: Seq<u8>, prefix: Seq<u8>) -> bool {
    prefix.len() <= s.len() && s.take(prefix.len() as int) == prefix
}

/// No byte string comes before itself.
pub proof fn lemma_lt_irreflexive(a: Seq<u8>)
    ensures
        !bytes_lt(a, a),
    decreases a.len(),
{
    if a.len() > 0 {
        lemma_lt_irreflexive(a.skip(1));
    }
}

/// Dictionary order is transitive.
pub proof fn lemma_lt_transitive(a: Seq<u8>, b: Seq<u8>, c: Seq<u8>)
    requires
        bytes_lt(a, b),
        bytes_lt(b, c),
    ensures
        bytes_lt(a, c),
    decreases a.len(),
{
    if a.len() > 0 && a[0] == b[0] && b[0] == c[0] {
        lemma_lt_transitive(a.skip(1), b.skip(1), c.skip(1));
    }
}

/// Of two different byte strings one comes first, and only one.
pub proof fn lemma_lt_total(a: Seq<u8>, b: Seq<u8>)
    ensures
        a == b || bytes_lt(a, b) || bytes_lt(b, a),
        !(bytes_lt(a, b) && bytes_lt(b, a)),
        bytes_lt(a, b) ==> a != b,
    decreases a.len(),
{
    lemma_lt_irreflexive(a);
    if a.len() == 0 {
        if b.len() == 0 {
            assert(a =~= b);
        }
    } else if b.len() > 0 && a[0] == b[0] {
        lemma_lt_total(a.skip(1), b.skip(1));
        if a.skip(1) == b.skip(1) {
            assert(a =~= seq![a[0]] + a.skip(1));
            assert(b =~= seq![b[0]] + b.skip(1));
        }
    }
}

pub broadcast proof fn broadcast_lt_transitive(a: Seq<u8>, b: Seq<u8>, c: Seq<u8>)
    requires
        #[trigger] bytes_lt(a, b),
        #[trigger] bytes_lt(b, c),
    ensures
        bytes_lt(a, c),
{
    lemma_lt_transitive(a, b, c);
}

pub broadcast proof fn broadcast_lt_total(a: Seq<u8>, b: Seq<u8>)
    ensures
        a == b || #[trigger] bytes_lt(a, b) || bytes_lt(b, a),
        !(bytes_lt(a, b) && bytes_lt(b, a)),
        bytes_lt(a, b) ==> a != b,
{
    lemma_lt_total(a, b);
}

/// The facts that make dictionary order a strict total order.
pub broadcast group group_order {
    broadcast_lt_transitive,
    broadcast_lt_total,
}

/// A common prefix does not decide an order.
pub proof fn lemma_lt_common_prefix(p: Seq<u8>, a: Seq<u8>, b: Seq<u8>)
    ensures
        bytes_lt(p + a, p + b) == bytes_lt(a, b),
    decreases p.len(),
{
    if p.len() == 0 {
        assert(p + a =~= a);
        assert(p + b =~= b);
    } else {
        lemma_lt_common_prefix(p.skip(1), a, b);
        assert((p + a).skip(1) =~= p.skip(1) + a);
        assert((p + b).skip(1) =~= p.skip(1) + b);
    }
}

/// A prefix of a string does not come after it.
pub proof fn lemma_prefix_le(p: Seq<u8>, s: Seq<u8>)
    requires
        has_prefix(s, p),
    ensures
        bytes_le(p, s),
{
    let rest = s.skip(p.len() as int);
    assert(s =~= p + rest);
    assert(p =~= p + Seq::<u8>::empty());
    lemma_lt_common_prefix(p, Seq::empty(), rest);
    if rest.len() == 0 {
        assert(s =~= p);
    }
}

/// Strings between two strings with one prefix have that prefix.
pub proof fn lemma_prefix_convex(p: Seq<u8>, a: Seq<u8>, b: Seq<u8>)
    requires
        bytes_le(p, a),
        bytes_le(a, b),
        has_prefix(b, p),
    ensures
        has_prefix(a, p),
    decreases p.len(),
{
    broadcast use group_order;

    if p.len() == 0 {
        assert(a.take(0) =~= p);
    } else if a == b || a == p {
        if a == p {
            assert(a.take(p.len() as int) =~= p);
        }
    } else {
        assert(b.take(p.len() as int)[0] == b[0]);
        assert(a.len() > 0);
        assert(p[0] <= a[0]);
        assert(a[0] <= b[0]);
        assert(b.skip(1).take(p.len() - 1) =~= b.take(p.len() as int).skip(1));
        lemma_prefix_convex(p.skip(1), a.skip(1), b.skip(1));
        assert(a.take(p.len() as int) =~= seq![a[0]] + a.skip(1).take(p.len() - 1));
        assert(p =~= seq![p[0]] + p.skip(1));
    }
}

/// Whether one byte string comes before another.
pub fn is_less(a: &[u8], b: &[u8]) -> (r: bool)
    ensures
        r == bytes_lt(a@, b@),
{
    match compare(a, b) {
        Order::Less => true,
        _ => false,
    }
}

/// Compares two byte strings.
pub fn compare(a: &[u8], b: &[u8]) -> (r: Order)
    ensures
        r == Order::Less <==> bytes_lt(a@, b@),
        r == Order::Equal <==> a@ == b@,
        r == Order::Greater <==> bytes_lt(b@, a@),
{
    broadcast use group_order;

    let mut i: usize = 0;
    while i < a.len() && i < b.len() && a[i] == b[i]
        invariant
            i <= a.len(),
            i <= b.len(),
            a@.take(i as int) == b@.take(i as int),
        decreases a.len() - i,
    {
        proof {
            assert(a@.take(i as int + 1) =~= a@.take(i as int).push(a@[i as int]));
            assert(b@.take(i as int + 1) =~= b@.take(i as int).push(b@[i as int]));
        }
        i = i + 1;
    }
    proof {
        let p = a@.take(i as int);
        let x = a@.skip(i as int);
        let y = b@.skip(i as int);
        assert(a@ =~= p + x);
        assert(b@ =~= p + y);
        lemma_lt_common_prefix(p, x, y);
        lemma_lt_common_prefix(p, y, x);
    }
    if i < a.len() {
        if i < b.len() {
            if a[i] < b[i] {
                Order::Less
            } else {
                Order::Greater
            }
        } else {
            Order::Greater
        }
    } else if i < b.len() {
        Order::Less
    } else {
        Order::Equal
    }
}

/// Whether two byte strings are the same.
pub fn bytes_eq(a: &[u8], b: &[u8]) -> (r: bool)
    ensures
        r == (a@ == b@),
{
    match compare(a, b) {
        Order::Equal => true,
        _ => false,
    }
}

/// Whether `s` begins with `prefix`.
pub fn starts_with(s: &[u8], prefix: &[u8]) -> (r: bool)
    ensures
        r == has_prefix(s@, prefix@),
{
    if prefix.len() > s.len() {
        return false;
    }
    let mut i: usize = 0;
    while i < prefix.len()
        invariant
            i <= prefix.len() <= s.len(),
            s@.take(i as int) == prefix@.take(i as int),
        decreases prefix.len() - i,
    {
        if s[i] != prefix[i] {
            proof {
                assert(s@.take(prefix@.len() as int)[i as int] != prefix@[i as int]);
            }
            return false;
        }
        proof {
            assert(s@.take(i as int + 1) =~= s@.take(i as int).push(s@[i as int]));
            assert(prefix@.take(i as int + 1) =~= prefix@.take(i as int).push(prefix@[i as int]));
        }
        i = i + 1;
    }
    proof {
        assert(prefix@.take(prefix@.len() as int) =~= prefix@);
    }
    true
}

/// 256 to the power `n`.
pub open spec fn radix(n: nat) -> nat
    decreases n,
{
    if n == 0 {
        1
    } else {
        256 * radix((n - 1) as nat)
    }
}

/// `x` as `n` bytes, the least significant first.
pub open spec fn le_bytes(x: nat, n: nat) -> Seq<u8>
    decreases n,
{
    if n == 0 {
        Seq::empty()
    } else {
        seq![(x % 256) as u8] + le_bytes(x / 256, (n - 1) as nat)
    }
}

/// The number that little-endian bytes stand for.
pub open spec fn le_value(s: Seq<u8>) -> nat
    decreases s.len(),
{
    if s.len() == 0 {
        0
    } else {
        s[0] as nat + 256 * le_value(s.skip(1))
    }
}

/// `x` as `n` bytes, the most significant first.
pub open spec fn be_bytes(x: nat, n: nat) -> Seq<u8>
    decreases n,
{
    if n == 0 {
        Seq::empty()
    } else {
        be_bytes(x / 256, (n - 1) as nat).push((x % 256) as u8)
    }
}

/// The number that big-endian bytes stand for.
pub open spec fn be_value(s: Seq<u8>) -> nat
    decreases s.len(),
{
    if s.len() == 0 {
        0
    } else {
        be_value(s.drop_last()) * 256 + s.last() as nat
    }
}

pub proof fn lemma_radix_values()
    ensures
        radix(2) == 0x1_0000,
        radix(4) == 0x1_0000_0000,
        radix(8) == 0x1_0000_0000_0000_0000,
{
    reveal_with_fuel(radix, 9);
}

/// Little-endian bytes have the width asked for.
pub proof fn lemma_le_bytes_len(x: nat, n: nat)
    ensures
        le_bytes(x, n).len() == n,
    decreases n,
{
    if n > 0 {
        lemma_le_bytes_len(x / 256, (n - 1) as nat);
    }
}

/// Reading little-endian bytes back gives the number that was written.
pub proof fn lemma_le_round_trip(x: nat, n: nat)
    requires
        x < radix(n),
    ensures
        le_bytes(x, n).len() == n,
        le_value(le_bytes(x, n)) == x,
    decreases n,
{
    lemma_le_bytes_len(x, n);
    if n > 0 {
        lemma_le_round_trip(x / 256, (n - 1) as nat);
        assert(le_bytes(x, n).skip(1) =~= le_bytes(x / 256, (n - 1) as nat));
    }
}

/// Writing back the number that little-endian bytes stand for gives the
/// same bytes.
pub proof fn lemma_le_value_bytes(s: Seq<u8>)
    ensures
        le_value(s) < radix(s.len()),
        le_bytes(le_value(s), s.len()) == s,
    decreases s.len(),
{
    if s.len() > 0 {
        lemma_le_value_bytes(s.skip(1));
        let v = le_value(s.skip(1));
        assert((s[0] as nat + 256 * v) % 256 == s[0] as nat);
        assert((s[0] as nat + 256 * v) / 256 == v);
        assert(s =~= seq![s[0]] + s.skip(1));
    } else {
        assert(le_bytes(le_value(s), s.len()) =~= s);
    }
}

/// Big-endian bytes have the width asked for, and reading them back gives
/// the number that was written.
pub proof fn lemma_be_round_trip(x: nat, n: nat)
    requires
        x < radix(n),
    ensures
        be_bytes(x, n).len() == n,
        be_value(be_bytes(x, n)) == x,
    decreases n,
{
    if n > 0 {
        lemma_be_round_trip(x / 256, (n - 1) as nat);
        assert(be_bytes(x, n).drop_last() =~= be_bytes(x / 256, (n - 1) as nat));
    }
}

/// Writing back the number that big-endian bytes stand for gives the same
/// bytes.
pub proof fn lemma_be_value_bytes(s: Seq<u8>)
    ensures
        be_value(s) < radix(s.len()),
        be_bytes(be_value(s), s.len()) == s,
    decreases s.len(),
{
    if s.len() > 0 {
        lemma_be_value_bytes(s.drop_last());
        let v = be_value(s.drop_last());
        assert((v * 256 + s.last() as nat) % 256 == s.last() as nat);
        assert((v * 256 + s.last() as nat) / 256 == v);
        assert(s =~= s.drop_last().push(s.last()));
    } else {
        assert(be_bytes(be_value(s), s.len()) =~= s);
    }
}

/// An order between strings of one length outlasts anything appended.
pub proof fn lemma_lt_append(a: Seq<u8>, b: Seq<u8>, u: Seq<u8>, v: Seq<u8>)
    requires
        a.len() == b.len(),
        bytes_lt(a, b),
    ensures
        bytes_lt(a + u, b + v),
    decreases a.len(),
{
    if a[0] == b[0] {
        lemma_lt_append(a.skip(1), b.skip(1), u, v);
    }
    assert((a + u).skip(1) =~= a.skip(1) + u);
    assert((b + v).skip(1) =~= b.skip(1) + v);
}

/// Big-endian bytes of one width are in the order of their numbers.
pub proof fn lemma_be_order(x: nat, y: nat, n: nat)
    requires
        x < y < radix(n),
    ensures
        bytes_lt(be_bytes(x, n), be_bytes(y, n)),
    decreases n,
{
    let (hx, hy) = (be_bytes(x / 256, (n - 1) as nat), be_bytes(y / 256, (n - 1) as nat));
    lemma_be_round_trip(x / 256, (n - 1) as nat);
    lemma_be_round_trip(y / 256, (n - 1) as nat);
    let (tx, ty) = (seq![(x % 256) as u8], seq![(y % 256) as u8]);
    assert(be_bytes(x, n) =~= hx + tx);
    assert(be_bytes(y, n) =~= hy + ty);
    if x / 256 < y / 256 {
        lemma_be_order(x / 256, y / 256, (n - 1) as nat);
        lemma_lt_append(hx, hy, tx, ty);
    } else {
        assert(x / 256 == y / 256);
        lemma_lt_common_prefix(hx, tx, ty);
    }
}

/// Appends `n` little-endian bytes of `x`.
pub fn put_le(out: &mut Vec<u8>, x: u64, n: usize)
    ensures
        final(out)@ == old(out)@ + le_bytes(x as nat, n as nat),
{
    let mut left: u64 = x;
    let mut i: usize = 0;
    proof {
        assert(out@ + le_bytes(x as nat, n as nat) =~= old(out)@ + le_bytes(x as nat, n as nat));
    }
    while i < n
        invariant
            i <= n,
            out@ + le_bytes(left as nat, (n - i) as nat) == old(out)@ + le_bytes(x as nat, n as nat),
        decreases n - i,
    {
        let ghost before = out@;
        let ghost rest = le_bytes(left as nat / 256, (n - i - 1) as nat);
        out.push((left % 256) as u8);
        proof {
            assert(out@ + rest =~= before + (seq![(left % 256) as u8] + rest));
        }
        left = left / 256;
        i = i + 1;
    }
    proof {
        assert(out@ + le_bytes(left as nat, 0) =~= out@);
    }
}

/// Appends `n` big-endian bytes of `x`.
pub fn put_be(out: &mut Vec<u8>, x: u64, n: usize)
    ensures
        final(out)@ == old(out)@ + be_bytes(x as nat, n as nat),
    decreases n,
{
    proof {
        assert(old(out)@ + Seq::<u8>::empty() =~= old(out)@);
    }
    if n > 0 {
        put_be(out, x / 256, n - 1);
        let ghost high = be_bytes(x as nat / 256, (n - 1) as nat);
        out.push((x % 256) as u8);
        proof {
            assert(out@ =~= old(out)@ + high.push((x % 256) as u8));
        }
    }
}

/// Reads `n` little-endian bytes at `at`.
pub fn get_le(s: &[u8], at: usize, n: usize) -> (r: u64)
    requires
        n <= 8,
        at + n <= s@.len(),
    ensures
        r as nat == le_value(s@.subrange(at as int, at + n)),
    decreases n,
{
    if n == 0 {
        0
    } else {
        assert(s@.len() == s.len());
        let high: u64 = get_le(s, at + 1, n - 1);
        proof {
            let whole = s@.subrange(at as int, at + n);
            assert(whole.skip(1) =~= s@.subrange(at + 1, at + n));
            lemma_le_value_bytes(whole.skip(1));
            lemma_radix_monotone((n - 1) as nat, 7);
            reveal_with_fuel(radix, 9);
        }
        s[at] as u64 + 256 * high
    }
}

/// Reads `n` big-endian bytes at `at`.
pub fn get_be(s: &[u8], at: usize, n: usize) -> (r: u64)
    requires
        n <= 8,
        at + n <= s@.len(),
    ensures
        r as nat == be_value(s@.subrange(at as int, at + n)),
    decreases n,
{
    if n == 0 {
        0
    } else {
        assert(s@.len() == s.len());
        let high: u64 = get_be(s, at, n - 1);
        proof {
            let whole = s@.subrange(at as int, at + n);
            assert(whole.drop_last() =~= s@.subrange(at as int, at + n - 1));
            lemma_be_value_bytes(whole.drop_last());
            lemma_radix_monotone((n - 1) as nat, 7);
            reveal_with_fuel(radix, 9);
        }
        high * 256 + s[at + n - 1] as u64
    }
}

/// Wider numbers reach further.
pub proof fn lemma_radix_monotone(m: nat, n: nat)
    requires
        m <= n,
    ensures
        radix(m) <= radix(n),
    decreases n - m,
{
    if m < n {
        lemma_radix_monotone(m + 1, n);
    }
}

/// A copy of part of a byte string.
pub fn copy_range(s: &[u8], from: usize, to: usize) -> (r: Vec<u8>)
    requires
        from <= to <= s@.len(),
    ensures
        r@ == s@.subrange(from as int, to as int),
{
    let mut out: Vec<u8> = Vec::with_capacity(to - from);
    let mut i: usize = from;
    while i < to
        invariant
            from <= i <= to <= s@.len(),
            out@ == s@.subrange(from as int, i as int),
        decreases to - i,
    {
        out.push(s[i]);
        proof {
            assert(s@.subrange(from as int, i + 1) =~= s@.subrange(from as int, i as int).push(s@[i as int]));
        }
        i = i + 1;
    }
    out
}

/// A copy of a whole byte string.
pub fn copy_bytes(s: &[u8]) -> (r: Vec<u8>)
    ensures
        r@ == s@,
{
    let r = copy_range(s, 0, s.len());
    proof {
        assert(s@.subrange(0, s@.len() as int) =~= s@);
    }
    r
}

/// Appends one byte string to another.
pub fn put_bytes(out: &mut Vec<u8>, s: &[u8])
    ensures
        final(out)@ == old(out)@ + s@,
{
    let mut i: usize = 0;
    proof {
        assert(out@ =~= old(out)@ + s@.take(0));
    }
    while i < s.len()
        invariant
            i <= s.len(),
            out@ == old(out)@ + s@.take(i as int),
        decreases s.len() - i,
    {
        out.push(s[i]);
        proof {
            assert(s@.take(i + 1) =~= s@.take(i as int).push(s@[i as int]));
            assert(out@ =~= old(out)@ + s@.take(i + 1));
        }
        i = i + 1;
    }
    proof {
        assert(s@.take(s@.len() as int) =~= s@);
    }
}

} // verus!
