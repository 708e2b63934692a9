//! Byte-level vocabulary shared by the other modules: big-endian fields,
//! slices taken with a bounds test, and the small arithmetic helpers that
//! font and cross-reference tables need.

use vstd::prelude::*;

verus! {

/// The big-endian 16-bit field at `off`, where it lies inside `s`.
pub open spec fn be16_at(s: Seq<u8>, off: int) -> Option<u16> {
    if 0 <= off && off + 2 <= s.len() {
        Some((s[off] * 0x100 + s[off + 1]) as u16)
    } else {
        None
    }
}

/// The big-endian 32-bit field at `off`, where it lies inside `s`.
pub open spec fn be32_at(s: Seq<u8>, off: int) -> Option<u32> {
    if 0 <= off && off + 4 <= s.len() {
        Some((s[off] * 0x100_0000 + s[off + 1] * 0x1_0000 + s[off + 2] * 0x100 + s[off + 3]) as u32)
    } else {
        None
    }
}

/// The two bytes of `v`, most significant first.
pub open spec fn be16_bytes(v: int) -> Seq<u8> {
    seq![(v / 0x100) as u8, (v % 0x100) as u8]
}

/// The four bytes of `v`, most significant first.
pub open spec fn be32_bytes(v: int) -> Seq<u8> {
    seq![
        (v / 0x100_0000) as u8,
        (v / 0x1_0000 % 0x100) as u8,
        (v / 0x100 % 0x100) as u8,
        (v % 0x100) as u8,
    ]
}

/// Appends the two bytes of `v`, most significant first.
pub fn push_be16(out: &mut Vec<u8>, v: u16)
    ensures
        final(out)@ == old(out)@ + be16_bytes(v as int),
{
    out.push((v / 0x100) as u8);
    out.push((v % 0x100) as u8);
    proof {
        assert(out@ =~= old(out)@ + be16_bytes(v as int));
    }
}

/// Appends the four bytes of `v`, most significant first.
pub fn push_be32(out: &mut Vec<u8>, v: u32)
    ensures
        final(out)@ == old(out)@ + be32_bytes(v as int),
{
    out.push((v / 0x100_0000) as u8);
    out.push((v / 0x1_0000 % 0x100) as u8);
    out.push((v / 0x100 % 0x100) as u8);
    out.push((v % 0x100) as u8);
    proof {
        assert(out@ =~= old(out)@ + be32_bytes(v as int));
    }
}

/// The bytes `data[from..to]`, or `None` where that range does not lie in
/// `data`.
pub fn get_range(data: &[u8], from: usize, to: usize) -> (r: Option<&[u8]>)
    ensures
        match r {
            Some(part) => from <= to <= data@.len() && part@ == data@.subrange(
                from as int,
                to as int,
            ),
            None => !(from <= to <= data@.len()),
        },
{
    if from <= to && to <= data.len() {
        Some(vstd::slice::slice_subrange(data, from, to))
    } else {
        None
    }
}

/// Whether two byte strings are equal.
pub fn same_bytes(a: &[u8], b: &[u8]) -> (r: bool)
    ensures
        r == (a@ == b@),
{
    if a.len() != b.len() {
        return false;
    }
    let mut i: usize = 0;
    while i < a.len()
        invariant
            i <= a@.len(),
            a@.len() == b@.len(),
            forall|j: int| 0 <= j < i ==> a@[j] == b@[j],
        decreases a@.len() - i,
    {
        if a[i] != b[i] {
            return false;
        }
        i += 1;
    }
    proof {
        assert(a@ =~= b@);
    }
    true
}

/// The bytes of `data` as an owned vector.
pub fn to_vec(data: &[u8]) -> (r: Vec<u8>)
    ensures
        r@ == data@,
{
    let mut out: Vec<u8> = Vec::with_capacity(data.len());
    out.extend_from_slice(data);
    proof {
        assert(out@ =~= data@);
    }
    out
}

/// A list of 16-bit fields, each written most significant byte first.
pub open spec fn be16_list(fields: Seq<u16>) -> Seq<u8> {
    Seq::new(
        2 * fields.len(),
        |i: int|
            if i % 2 == 0 {
                (fields[i / 2] / 0x100) as u8
            } else {
                (fields[i / 2] % 0x100) as u8
            },
    )
}

/// Field `i` of a written list reads back, whatever follows the list.
pub proof fn lemma_be16_list_reads_back(fields: Seq<u16>, post: Seq<u8>, i: int)
    requires
        0 <= i < fields.len(),
    ensures
        be16_at(be16_list(fields) + post, 2 * i) == Some(fields[i]),
        be16_at(be16_list(fields), 2 * i) == Some(fields[i]),
{
    let s = be16_list(fields) + post;
    assert(s[2 * i] == (fields[i] / 0x100) as u8);
    assert(s[2 * i + 1] == (fields[i] % 0x100) as u8) by {
        assert((2 * i + 1) / 2 == i);
        assert((2 * i + 1) % 2 == 1);
    }
    assert(be16_list(fields)[2 * i + 1] == (fields[i] % 0x100) as u8);
}

/// Writes a list of 16-bit fields, each most significant byte first.
pub fn write_be16_list(fields: &Vec<u16>) -> (r: Vec<u8>)
    ensures
        r@ == be16_list(fields@),
{
    let mut out: Vec<u8> = Vec::new();
    let mut i: usize = 0;
    proof {
        assert(out@ =~= be16_list(fields@.take(0)));
    }
    while i < fields.len()
        invariant
            i <= fields@.len(),
            out@ == be16_list(fields@.take(i as int)),
        decreases fields@.len() - i,
    {
        push_be16(&mut out, fields[i]);
        i += 1;
        proof {
            assert(out@ =~= be16_list(fields@.take(i as int)));
        }
    }
    proof {
        assert(fields@.take(i as int) =~= fields@);
    }
    out
}

/// A 32-bit field written into `s` reads back.
pub proof fn lemma_be32_reads_back(s: Seq<u8>, off: int, v: u32)
    requires
        0 <= off,
        off + 4 <= s.len(),
        s.subrange(off, off + 4) == be32_bytes(v as int),
    ensures
        be32_at(s, off) == Some(v),
{
    let part = s.subrange(off, off + 4);
    assert(s[off] == part[0] && s[off + 1] == part[1] && s[off + 2] == part[2] && s[off + 3]
        == part[3]);
}

/// The exponent of the largest power of two that is at most `n`.
pub open spec fn floor_log2(n: nat) -> nat
    decreases n,
{
    if n < 2 {
        0
    } else {
        1 + floor_log2(n / 2)
    }
}

/// The largest power of two that is at most `n`, with its exponent.
pub fn power_of_two_within(n: usize) -> (r: (usize, u32))
    requires
        n > 0,
    ensures
        r.1 == floor_log2(n as nat),
        r.0 == vstd::arithmetic::power2::pow2(r.1 as nat),
        r.0 <= n,
        n - r.0 < r.0,
{
    let mut rest: usize = n;
    let mut power: usize = 1;
    let mut exponent: u32 = 0;
    proof {
        vstd::arithmetic::power2::lemma2_to64();
    }
    while rest >= 2
        invariant
            rest >= 1,
            power >= 1,
            power * rest <= n,
            n < power * (rest + 1),
            power == vstd::arithmetic::power2::pow2(exponent as nat),
            exponent + rest <= n,
            exponent <= power,
            floor_log2(n as nat) == exponent + floor_log2(rest as nat),
            exponent + 1 <= u32::MAX,
            exponent <= 64,
        decreases rest,
    {
        proof {
            let half: int = rest as int / 2;
            assert(2 * power * half <= power * rest) by (nonlinear_arith)
                requires
                    2 * half <= rest,
                    power >= 1,
            ;
            assert(power * (rest + 1) <= 2 * power * (half + 1)) by (nonlinear_arith)
                requires
                    rest + 1 <= 2 * (half + 1),
                    power >= 1,
            ;
            assert(2 * power <= 2 * power * half) by (nonlinear_arith)
                requires
                    half >= 1,
                    power >= 1,
            ;
            vstd::arithmetic::power2::lemma_pow2_unfold((exponent + 1) as nat);
            if exponent >= 64 {
                vstd::arithmetic::power2::lemma2_to64();
                if exponent > 64 {
                    vstd::arithmetic::power2::lemma_pow2_strictly_increases(64, exponent as nat);
                }
            }
        }
        rest = rest / 2;
        power = power * 2;
        exponent = exponent + 1;
    }
    proof {
        assert(rest == 1);
    }
    (power, exponent)
}

/// `s` with the bytes from `at` on replaced by `part`.
pub open spec fn splice(s: Seq<u8>, at: int, part: Seq<u8>) -> Seq<u8> {
    s.take(at) + part + s.skip(at + part.len())
}

/// Overwrites the bytes from `at` on with `part`.
pub fn overwrite(out: &mut Vec<u8>, at: usize, part: &[u8])
    requires
        at + part@.len() <= old(out)@.len(),
    ensures
        final(out)@ == splice(old(out)@, at as int, part@),
        final(out)@.len() == old(out)@.len(),
{
    let total: usize = out.len();
    let mut i: usize = 0;
    let ghost before = out@;
    while i < part.len()
        invariant
            i <= part@.len(),
            at + part@.len() <= before.len(),
            total == before.len(),
            out@.len() == before.len(),
            forall|k: int| 0 <= k < before.len() ==> #[trigger] out@[k] == if at <= k < at + i {
                part@[k - at]
            } else {
                before[k]
            },
        decreases part@.len() - i,
    {
        out.set(at + i, part[i]);
        i += 1;
    }
    proof {
        assert(out@ =~= splice(before, at as int, part@));
    }
}

/// Position of `x` in `order`, which is sorted by key, after every entry whose
/// key is not greater.
pub open spec fn insert_by_key(order: Seq<int>, keys: Seq<int>, x: int) -> Seq<int>
    decreases order.len(),
{
    if order.len() == 0 || keys[order.last()] <= keys[x] {
        order.push(x)
    } else {
        insert_by_key(order.drop_last(), keys, x).push(order.last())
    }
}

/// The indices of the first `n` keys in the order of a stable sort by key.
pub open spec fn stable_order(keys: Seq<int>, n: int) -> Seq<int>
    decreases n,
{
    if n <= 0 {
        Seq::empty()
    } else {
        insert_by_key(stable_order(keys, n - 1), keys, n - 1)
    }
}

/// `a` stands before `b` in a stable sort by key.
pub open spec fn stands_before(keys: Seq<int>, a: int, b: int) -> bool {
    keys[a] < keys[b] || (keys[a] == keys[b] && a < b)
}

/// Inserting puts `x` among the entries and keeps the order.
proof fn lemma_insert_by_key(order: Seq<int>, keys: Seq<int>, x: int)
    requires
        forall|i: int| 0 <= i < order.len() ==> 0 <= #[trigger] order[i] < x,
        forall|i: int, j: int|
            0 <= i < j < order.len() ==> stands_before(keys, #[trigger] order[i], #[trigger] order[j]),
    ensures
        insert_by_key(order, keys, x).len() == order.len() + 1,
        forall|v: int| #[trigger]
            insert_by_key(order, keys, x).contains(v) <==> v == x || order.contains(v),
        forall|i: int|
            0 <= i <= order.len() ==> (#[trigger] insert_by_key(order, keys, x)[i] == x
                || order.contains(insert_by_key(order, keys, x)[i])),
        forall|i: int, j: int|
            0 <= i < j <= order.len() ==> stands_before(
                keys,
                #[trigger] insert_by_key(order, keys, x)[i],
                #[trigger] insert_by_key(order, keys, x)[j],
            ),
    decreases order.len(),
{
    let out = insert_by_key(order, keys, x);
    if order.len() == 0 || keys[order.last()] <= keys[x] {
        assert forall|v: int| #[trigger] out.contains(v) <==> v == x || order.contains(v) by {
            if order.contains(v) {
                let i = choose|i: int| 0 <= i < order.len() && order[i] == v;
                assert(out[i] == v);
            }
            assert(out[order.len() as int] == x);
        }
    } else {
        let init = order.drop_last();
        lemma_insert_by_key(init, keys, x);
        let inner = insert_by_key(init, keys, x);
        assert forall|v: int| #[trigger] out.contains(v) <==> v == x || order.contains(v) by {
            if out.contains(v) {
                let i = choose|i: int| 0 <= i < out.len() && out[i] == v;
                if i < inner.len() {
                    assert(inner.contains(v));
                    if v != x {
                        let k = choose|k: int| 0 <= k < init.len() && init[k] == v;
                        assert(order[k] == v);
                    }
                } else {
                    assert(order[order.len() - 1] == v);
                }
            }
            if v == x {
                assert(inner.contains(v));
                let i = choose|i: int| 0 <= i < inner.len() && inner[i] == v;
                assert(out[i] == v);
            }
            if order.contains(v) {
                let k = choose|k: int| 0 <= k < order.len() && order[k] == v;
                if k < init.len() {
                    assert(init[k] == v);
                    assert(inner.contains(v));
                    let i = choose|i: int| 0 <= i < inner.len() && inner[i] == v;
                    assert(out[i] == v);
                } else {
                    assert(out[inner.len() as int] == v);
                }
            }
        }
        assert forall|i: int| 0 <= i <= order.len() implies (#[trigger] out[i] == x
            || order.contains(out[i])) by {
            assert(out.contains(out[i]));
        }
        assert forall|i: int, j: int| 0 <= i < j <= order.len() implies stands_before(
            keys,
            #[trigger] out[i],
            #[trigger] out[j],
        ) by {
            if j < inner.len() {
                assert(out[i] == inner[i] && out[j] == inner[j]);
            } else {
                assert(inner.contains(inner[i]));
                if inner[i] != x {
                    let k = choose|k: int| 0 <= k < init.len() && init[k] == inner[i];
                    assert(stands_before(keys, order[k], order[order.len() - 1]));
                }
            }
        }
    }
}

/// A stable order lists every index once, in ascending order of keys, equal
/// keys in ascending order of index.
pub proof fn stable_order_sorts(keys: Seq<int>, n: int)
    requires
        0 <= n <= keys.len(),
    ensures
        stable_order(keys, n).len() == n,
        forall|v: int| #[trigger] stable_order(keys, n).contains(v) <==> 0 <= v < n,
        forall|i: int| 0 <= i < n ==> 0 <= #[trigger] stable_order(keys, n)[i] < n,
        forall|i: int, j: int|
            0 <= i < j < n ==> stands_before(
                keys,
                #[trigger] stable_order(keys, n)[i],
                #[trigger] stable_order(keys, n)[j],
            ),
    decreases n,
{
    if n > 0 {
        stable_order_sorts(keys, n - 1);
        lemma_insert_by_key(stable_order(keys, n - 1), keys, n - 1);
        assert forall|i: int| 0 <= i < n implies 0 <= #[trigger] stable_order(keys, n)[i] < n by {
            assert(stable_order(keys, n).contains(stable_order(keys, n)[i]));
        }
    }
}

/// Inserting at the place that the keys ask for.
proof fn lemma_insert_position(order: Seq<int>, keys: Seq<int>, x: int, p: int)
    requires
        0 <= p <= order.len(),
        p == 0 || keys[order[p - 1]] <= keys[x],
        forall|k: int| p <= k < order.len() ==> keys[#[trigger] order[k]] > keys[x],
    ensures
        insert_by_key(order, keys, x) =~= order.insert(p, x),
    decreases order.len(),
{
    if order.len() > p {
        lemma_insert_position(order.drop_last(), keys, x, p);
    }
}

/// Keys and indices as mathematical integers.
pub open spec fn ints(s: Seq<u64>) -> Seq<int> {
    s.map_values(|v: u64| v as int)
}

/// Indices as mathematical integers.
pub open spec fn index_ints(s: Seq<usize>) -> Seq<int> {
    s.map_values(|v: usize| v as int)
}

/// The order in which a stable sort by key puts the indices of `keys`.
pub fn sort_order(keys: &Vec<u64>) -> (r: Vec<usize>)
    ensures
        index_ints(r@) == stable_order(ints(keys@), keys@.len() as int),
        r@.len() == keys@.len(),
        forall|i: int| 0 <= i < r@.len() ==> #[trigger] r@[i] < keys@.len(),
{
    let mut order: Vec<usize> = Vec::new();
    let mut n: usize = 0;
    let ghost k = ints(keys@);
    proof {
        assert(index_ints(order@) =~= Seq::empty());
    }
    while n < keys.len()
        invariant
            n <= keys@.len(),
            k == ints(keys@),
            order@.len() == n,
            forall|i: int| 0 <= i < n ==> #[trigger] order@[i] < n,
            index_ints(order@) == stable_order(k, n as int),
        decreases keys@.len() - n,
    {
        let mut p: usize = n;
        while p > 0 && keys[order[p - 1]] > keys[n]
            invariant
                p <= n < keys@.len(),
                k == ints(keys@),
                order@.len() == n,
                forall|i: int| 0 <= i < n ==> #[trigger] order@[i] < n,
                forall|i: int| p <= i < n ==> keys@[#[trigger] order@[i] as int] > keys@[n as int],
            decreases p,
        {
            p -= 1;
        }
        proof {
            let o = index_ints(order@);
            assert forall|i: int| p <= i < o.len() implies k[#[trigger] o[i]] > k[n as int] by {
                assert(o[i] == order@[i]);
            }
            if p > 0 {
                assert(o[p - 1] == order@[p - 1]);
            }
            lemma_insert_position(o, k, n as int, p as int);
        }
        let ghost before = order@;
        order.insert(p, n);
        proof {
            assert(index_ints(order@) =~= index_ints(before).insert(p as int, n as int));
        }
        n += 1;
    }
    proof {
        stable_order_sorts(k, n as int);
    }
    order
}

/// The next multiple of four at or after `n`.
pub open spec fn round4(n: int) -> int {
    (n + 3) / 4 * 4
}

/// Concatenation is associative.
pub proof fn lemma_add_assoc(a: Seq<u8>, b: Seq<u8>, c: Seq<u8>)
    ensures
        (a + b) + c == a + (b + c),
{
    assert((a + b) + c =~= a + (b + c));
}

} // verus!
