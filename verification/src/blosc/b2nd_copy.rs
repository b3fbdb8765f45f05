//! Copies of an n-dimensional slice between two C-ordered buffers, one contiguous row of the
//! last dimension at a time.
use vstd::prelude::*;
use crate::blosc::b2nd::{dot, prod, dot_fits, unidim_coord, stride_of, strides_divide, tdiv, trem};

verus! {

/// The sum of `c[j] * st[j]` over `from <= j < n`.
pub open spec fn horner(c: Seq<i64>, st: Seq<i64>, from: int, n: int) -> int
    decreases n - from,
{
    if from >= n { 0 } else { c[from] * st[from] + horner(c, st, from + 1, n) }
}

/// Whether `st` holds the C-order strides of `pad` for `nd` dimensions.
pub open spec fn strides_of(st: Seq<i64>, pad: Seq<i64>, nd: int) -> bool {
    forall|j: int| 0 <= j < nd ==> #[trigger] st[j] == prod(pad, j + 1, nd)
}

proof fn lemma_prod_ext(a: Seq<i64>, b: Seq<i64>, f: int, t: int)
    requires
        forall|j: int| f <= j < t ==> a[j] == b[j],
    ensures
        prod(a, f, t) == prod(b, f, t),
    decreases t - f,
{
    if f < t {
        lemma_prod_ext(a, b, f + 1, t);
    }
}

proof fn lemma_dot_ext(a: Seq<i64>, b: Seq<i64>, sa: Seq<i64>, sb: Seq<i64>, n: nat)
    requires
        forall|j: int| 0 <= j < n ==> a[j] == b[j] && sa[j] == sb[j],
    ensures
        dot(a, sa, n) == dot(b, sb, n),
    decreases n,
{
    if n > 0 {
        lemma_dot_ext(a, b, sa, sb, (n - 1) as nat);
    }
}

/// `prod(f, t) == prod(f, m) * prod(m, t)`.
proof fn lemma_prod_split(a: Seq<i64>, f: int, m: int, t: int)
    requires
        f <= m <= t,
    ensures
        prod(a, f, t) == prod(a, f, m) * prod(a, m, t),
    decreases m - f,
{
    if f < m {
        lemma_prod_split(a, f + 1, m, t);
        assert(prod(a, f, t) == a[f] * prod(a, f + 1, t));
        assert(prod(a, f, m) == a[f] * prod(a, f + 1, m));
        assert(a[f] * (prod(a, f + 1, m) * prod(a, m, t)) == (a[f] * prod(a, f + 1, m)) * prod(a, m, t))
            by (nonlinear_arith);
    }
}

/// A product of factors of at least one is at least one.
proof fn lemma_prod_pos(a: Seq<i64>, j: int, t: int)
    requires
        forall|i: int| j <= i < t ==> a[i] >= 1,
    ensures
        1 <= prod(a, j, t),
    decreases t - j,
{
    if j < t {
        lemma_prod_pos(a, j + 1, t);
        let p = prod(a, j + 1, t);
        assert(a[j] * p >= 1) by (nonlinear_arith) requires a[j] >= 1, p >= 1;
    }
}

/// A product of factors of at least one is at least one, and at least each of its suffixes.
proof fn lemma_prod_suffix(a: Seq<i64>, f: int, j: int, t: int)
    requires
        f <= j <= t,
        forall|i: int| f <= i < t ==> a[i] >= 1,
    ensures
        1 <= prod(a, j, t) <= prod(a, f, t),
    decreases j - f,
{
    lemma_prod_pos(a, j, t);
    if f < j {
        lemma_prod_suffix(a, f + 1, j, t);
        let p = prod(a, f + 1, t);
        assert(a[f] * p >= p) by (nonlinear_arith) requires a[f] >= 1, p >= 1;
    }
}

/// A product grows with its factors.
proof fn lemma_prod_mono(a: Seq<i64>, b: Seq<i64>, f: int, t: int)
    requires
        forall|i: int| f <= i < t ==> 1 <= #[trigger] a[i] <= b[i],
    ensures
        1 <= prod(a, f, t) <= prod(b, f, t),
    decreases t - f,
{
    if f < t {
        lemma_prod_mono(a, b, f + 1, t);
        let pa = prod(a, f + 1, t);
        let pb = prod(b, f + 1, t);
        assert(1 <= a[f] * pa <= b[f] * pb) by (nonlinear_arith)
            requires 1 <= a[f] <= b[f], 1 <= pa <= pb;
    }
}

proof fn lemma_dot_horner(c: Seq<i64>, st: Seq<i64>, k: nat, n: int)
    requires
        k <= n,
    ensures
        dot(c, st, k) + horner(c, st, k as int, n) == horner(c, st, 0, n),
    decreases k,
{
    if k > 0 {
        lemma_dot_horner(c, st, (k - 1) as nat, n);
    }
}

/// Mixed-radix bound: coordinates inside `pad` give an offset inside the array.
proof fn lemma_horner_bound(c: Seq<i64>, st: Seq<i64>, pad: Seq<i64>, from: int, nd: int)
    requires
        0 <= from <= nd,
        strides_of(st, pad, nd),
        forall|j: int| from <= j < nd ==> 0 <= #[trigger] c[j] < pad[j],
    ensures
        0 <= horner(c, st, from, nd) <= prod(pad, from, nd) - 1,
    decreases nd - from,
{
    if from < nd {
        lemma_horner_bound(c, st, pad, from + 1, nd);
        let p = prod(pad, from + 1, nd);
        let h = horner(c, st, from + 1, nd);
        assert(st[from] == p);
        assert(0 <= c[from] * p + h <= pad[from] * p - 1) by (nonlinear_arith)
            requires 0 <= c[from] < pad[from], 0 <= h <= p - 1;
    }
}

proof fn lemma_dot_nonneg(c: Seq<i64>, st: Seq<i64>, k: nat)
    requires
        forall|j: int| 0 <= j < k ==> c[j] >= 0 && st[j] >= 0,
    ensures
        0 <= dot(c, st, k),
    decreases k,
{
    if k > 0 {
        lemma_dot_nonneg(c, st, (k - 1) as nat);
        assert(c[k - 1] * st[k - 1] >= 0) by (nonlinear_arith) requires c[k - 1] >= 0, st[k - 1] >= 0;
    }
}

/// Terms that are not negative make partial sums that grow.
proof fn lemma_dot_monotone(c: Seq<i64>, st: Seq<i64>, k: nat, n: nat)
    requires
        k <= n,
        forall|j: int| 0 <= j < n ==> c[j] >= 0 && st[j] >= 0,
    ensures
        0 <= dot(c, st, k) <= dot(c, st, n),
    decreases n - k,
{
    lemma_dot_nonneg(c, st, k);
    if k < n {
        lemma_dot_monotone(c, st, (k + 1) as nat, n);
        assert(c[k as int] * st[k as int] >= 0) by (nonlinear_arith)
            requires c[k as int] >= 0, st[k as int] >= 0;
    }
}

/// With terms that are not negative, every term and partial sum lies between zero and the sum.
proof fn lemma_dot_fits(c: Seq<i64>, st: Seq<i64>, n: nat)
    requires
        forall|j: int| 0 <= j < n ==> c[j] >= 0 && st[j] >= 0,
        dot(c, st, n) <= i64::MAX,
    ensures
        dot_fits(c, st, n),
        0 <= dot(c, st, n),
{
    lemma_dot_nonneg(c, st, n);
    assert forall|k: int| 0 < k <= n implies {
        &&& i64::MIN <= #[trigger] dot(c, st, k as nat) <= i64::MAX
        &&& i64::MIN <= c[k - 1] * st[k - 1] <= i64::MAX
    } by {
        lemma_dot_monotone(c, st, k as nat, n);
        lemma_dot_nonneg(c, st, (k - 1) as nat);
        assert(c[k - 1] * st[k - 1] >= 0) by (nonlinear_arith) requires c[k - 1] >= 0, st[k - 1] >= 0;
    }
}

/// `dot` is additive in the coordinates.
proof fn lemma_dot_add(a: Seq<i64>, b: Seq<i64>, e: Seq<i64>, st: Seq<i64>, n: nat)
    requires
        forall|j: int| 0 <= j < n ==> e[j] == a[j] + b[j],
    ensures
        dot(e, st, n) == dot(a, st, n) + dot(b, st, n),
    decreases n,
{
    if n > 0 {
        lemma_dot_add(a, b, e, st, (n - 1) as nat);
        let j = n - 1;
        assert(e[j] * st[j] == a[j] * st[j] + b[j] * st[j]) by (nonlinear_arith)
            requires e[j] == a[j] + b[j];
    }
}

/// The coordinates of a row number below the row count lie inside the shape.
proof fn lemma_coord_bound(cs: Seq<i64>, m: nat, k: i64, j: int)
    requires
        0 <= j < m,
        0 <= k < prod(cs, 0, m as int),
        forall|i: int| 0 <= i < m ==> cs[i] >= 1,
    ensures
        0 <= unidim_coord(cs, m, k, j) < cs[j],
{
    lemma_prod_suffix(cs, 0, j + 1, m as int);
    let s = stride_of(cs, m, j);
    assert(s == prod(cs, j + 1, m as int));
    if j == 0 {
        assert(prod(cs, 0, m as int) == cs[0] * s);
        let q = (k as int) / s;
        vstd::arithmetic::div_mod::lemma_fundamental_div_mod(k as int, s);
        assert(0 <= q < cs[0]) by (nonlinear_arith)
            requires 0 <= k < cs[0] * s, s >= 1, k == s * q + (k as int) % s, 0 <= (k as int) % s < s;
        assert(tdiv(k as int, s) == q);
    } else {
        lemma_prod_suffix(cs, 0, j, m as int);
        let s0 = stride_of(cs, m, j - 1);
        assert(s0 == cs[j] * s);
        let x = (k as int) % s0;
        assert(0 <= x < s0);
        assert(trem(k as int, s0) == x);
        let q = x / s;
        vstd::arithmetic::div_mod::lemma_fundamental_div_mod(x, s);
        assert(0 <= q < cs[j]) by (nonlinear_arith)
            requires 0 <= x < cs[j] * s, s >= 1, x == s * q + x % s, 0 <= x % s < s;
        assert(tdiv(x, s) == q);
    }
}

/// The shape of the slice `start .. stop` in each of `nd` dimensions.
pub open spec fn copy_shape_of(start: Seq<i64>, stop: Seq<i64>, nd: nat) -> Seq<i64> {
    Seq::new(nd, |i: int| (stop[i] - start[i]) as i64)
}

/// The C-order strides, in items, of an array of shape `pad`.
pub open spec fn pad_strides(pad: Seq<i64>, nd: nat) -> Seq<i64> {
    Seq::new(nd, |j: int| prod(pad, j + 1, nd as int) as i64)
}

/// The coordinates, in the first `nd - 1` dimensions, of row `k` of a slice of shape `cs`,
/// rows taken in C order.
pub open spec fn row_coords(cs: Seq<i64>, nd: nat, k: int) -> Seq<i64> {
    Seq::new((nd - 1) as nat, |j: int| unidim_coord(cs, (nd - 1) as nat, k as i64, j))
}

/// The item at which row `k` of the slice of shape `cs` starting at `start` begins, in an
/// array of shape `pad`.
pub open spec fn row_start(start: Seq<i64>, pad: Seq<i64>, cs: Seq<i64>, nd: nat, k: int) -> int {
    dot(start, pad_strides(pad, nd), nd) + dot(row_coords(cs, nd, k), pad_strides(pad, nd), (nd - 1) as nat)
}

/// `dst` after the first `k` rows of the slice, each `cs[nd - 1]` items of `itemsize` bytes,
/// have been copied from `src`, in C order.
pub open spec fn copied_rows(dst: Seq<u8>, src: Seq<u8>, itemsize: int, nd: nat, cs: Seq<i64>,
    src_pad: Seq<i64>, src_start: Seq<i64>, dst_pad: Seq<i64>, dst_start: Seq<i64>, k: nat) -> Seq<u8>
    decreases k,
{
    if k == 0 {
        dst
    } else {
        let prev = copied_rows(dst, src, itemsize, nd, cs, src_pad, src_start, dst_pad, dst_start, (k - 1) as nat);
        let so = row_start(src_start, src_pad, cs, nd, k - 1) * itemsize;
        let d0 = row_start(dst_start, dst_pad, cs, nd, k - 1) * itemsize;
        let len = cs[nd - 1] * itemsize;
        prev.subrange(0, d0) + src.subrange(so, so + len) + prev.skip(d0 + len)
    }
}

/// What a copy of a slice needs, as the caller must make sure: between one and sixteen
/// dimensions, a slice inside both arrays, and buffers that hold both arrays, whose sizes fit
/// in an `i64`.
pub open spec fn slice_fits(nd: int, itemsize: int, src_len: int, src_pad: Seq<i64>, src_start: Seq<i64>,
    src_stop: Seq<i64>, dst_len: int, dst_pad: Seq<i64>, dst_start: Seq<i64>) -> bool
{
    &&& 1 <= nd <= 16
    &&& itemsize >= 0
    &&& src_pad.len() >= nd && src_start.len() >= nd && src_stop.len() >= nd
    &&& dst_pad.len() >= nd && dst_start.len() >= nd
    &&& forall|i: int| 0 <= i < nd ==> 0 <= #[trigger] src_start[i] <= src_stop[i] <= src_pad[i]
    &&& forall|i: int| 0 <= i < nd ==> 0 <= #[trigger] dst_start[i]
        && dst_start[i] + (src_stop[i] - src_start[i]) <= dst_pad[i]
    &&& prod(src_pad, 0, nd) <= i64::MAX && prod(src_pad, 0, nd) * itemsize <= i64::MAX
    &&& prod(src_pad, 0, nd) * itemsize <= src_len
    &&& prod(dst_pad, 0, nd) <= i64::MAX && prod(dst_pad, 0, nd) * itemsize <= i64::MAX
    &&& prod(dst_pad, 0, nd) * itemsize <= dst_len
}

/// A row of a slice that lies inside its array starts and ends inside it.
proof fn lemma_row_in_bounds(start: Seq<i64>, cs: Seq<i64>, pad: Seq<i64>, nd: nat, k: int)
    requires
        nd >= 1,
        start.len() >= nd, cs.len() >= nd, pad.len() >= nd,
        forall|j: int| 0 <= j < nd ==> 0 <= #[trigger] start[j] && cs[j] >= 1 && start[j] + cs[j] <= pad[j],
        0 <= k < prod(cs, 0, nd - 1),
        prod(cs, 0, nd - 1) <= i64::MAX,
        prod(pad, 0, nd as int) <= i64::MAX,
    ensures
        strides_of(pad_strides(pad, nd), pad, nd as int),
        forall|j: int| 0 <= j < nd ==> 1 <= #[trigger] pad_strides(pad, nd)[j] <= prod(pad, 0, nd as int),
        forall|j: int| 0 <= j < nd - 1 ==> 0 <= #[trigger] row_coords(cs, nd, k)[j] < cs[j],
        0 <= dot(start, pad_strides(pad, nd), nd),
        0 <= dot(row_coords(cs, nd, k), pad_strides(pad, nd), (nd - 1) as nat),
        row_start(start, pad, cs, nd, k) + cs[nd - 1] <= prod(pad, 0, nd as int),
{
    let n = nd as int;
    let ps = pad_strides(pad, nd);
    let rc = row_coords(cs, nd, k);
    assert forall|j: int| 0 <= j < n implies #[trigger] pad[j] >= 1 by {
        assert(0 <= start[j]);
    }
    assert forall|j: int| 0 <= j < n implies #[trigger] cs[j] >= 1 by {
        assert(0 <= start[j]);
    }
    assert forall|j: int| 0 <= j < nd implies 1 <= #[trigger] ps[j] <= prod(pad, 0, n) by {
        lemma_prod_suffix(pad, 0, j + 1, n);
    }
    assert(strides_of(ps, pad, n)) by {
        assert forall|j: int| 0 <= j < n implies #[trigger] ps[j] == prod(pad, j + 1, n) by {
            lemma_prod_suffix(pad, 0, j + 1, n);
        }
    }
    assert forall|j: int| 0 <= j < nd - 1 implies 0 <= #[trigger] rc[j] < cs[j] by {
        lemma_coord_bound(cs, (nd - 1) as nat, k as i64, j);
    }
    let e = Seq::new(nd, |j: int| if j < n - 1 { (start[j] + rc[j]) as i64 } else { (start[j] + cs[j] - 1) as i64 });
    let b = Seq::new(nd, |j: int| if j < n - 1 { rc[j] } else { (cs[j] - 1) as i64 });
    assert forall|j: int| 0 <= j < nd implies #[trigger] e[j] == start[j] + b[j] by {}
    lemma_dot_add(start, b, e, ps, nd);
    lemma_dot_ext(b, rc, ps, ps, (nd - 1) as nat);
    assert(ps[n - 1] == 1);
    assert(dot(b, ps, nd) == dot(b, ps, (nd - 1) as nat) + b[n - 1] * ps[n - 1]);
    lemma_dot_horner(e, ps, nd, n);
    assert forall|j: int| 0 <= j < nd implies 0 <= #[trigger] e[j] < pad[j] by {}
    lemma_horner_bound(e, ps, pad, 0, n);
    lemma_dot_nonneg(start, ps, nd);
    lemma_dot_nonneg(rc, ps, (nd - 1) as nat);
}

/// Fills `strides[.. nd]` with the C-order strides of `pad`.
fn fill_strides(strides: &mut [i64; 16], pad: &[i64], nd: usize)
    requires
        1 <= nd <= 16,
        pad.len() >= nd,
        forall|j: int| 0 <= j < nd ==> #[trigger] pad@[j] >= 1,
        prod(pad@, 0, nd as int) <= i64::MAX,
    ensures
        forall|j: int| 0 <= j < nd ==> #[trigger] final(strides)@[j] == pad_strides(pad@, nd as nat)[j],
        forall|j: int| 0 <= j < nd ==> #[trigger] final(strides)@[j] == prod(pad@, j + 1, nd as int),
{
    strides[nd - 1] = 1;
    let mut i: usize = nd - 1;
    while i > 0
        invariant
            i < nd, nd <= 16, pad.len() >= nd,
            forall|j: int| 0 <= j < nd ==> #[trigger] pad@[j] >= 1,
            prod(pad@, 0, nd as int) <= i64::MAX,
            forall|j: int| i <= j < nd ==> #[trigger] strides@[j] == prod(pad@, j + 1, nd as int),
        decreases i,
    {
        i -= 1;
        proof { lemma_prod_suffix(pad@, 0, i + 1, nd as int); }
        assert(prod(pad@, i + 1, nd as int) == pad@[i + 1] * prod(pad@, i + 2, nd as int));
        assert(strides@[i + 1] * pad@[i + 1] == prod(pad@, i + 1, nd as int)) by (nonlinear_arith)
            requires strides@[i + 1] == prod(pad@, i + 2, nd as int),
                prod(pad@, i + 1, nd as int) == pad@[i + 1] * prod(pad@, i + 2, nd as int);
        strides[i] = strides[i + 1] * pad[i + 1];
    }
    proof {
        assert forall|j: int| 0 <= j < nd implies #[trigger] strides@[j] == pad_strides(pad@, nd as nat)[j] by {
            lemma_prod_suffix(pad@, 0, j + 1, nd as int);
        }
    }
}

/// Copies the slice `src_start .. src_stop` of an array of shape `src_pad_shape` held in
/// `src` into the array of shape `dst_pad_shape` held in `dst`, at `dst_start`. Items are
/// `itemsize` bytes; both arrays are C-ordered, padding included. The slice must fit in both
/// arrays, which this function does not check. A slice that is empty in some dimension copies
/// nothing. Returns 0.
pub fn b2nd_copy_buffer2(ndim: i8, itemsize: i32, src: &[u8], src_pad_shape: &[i64], src_start: &[i64],
    src_stop: &[i64], dst: &mut [u8], dst_pad_shape: &[i64], dst_start: &[i64]) -> (r: i32)
    requires
        slice_fits(ndim as int, itemsize as int, src.len() as int, src_pad_shape@, src_start@, src_stop@,
            old(dst).len() as int, dst_pad_shape@, dst_start@),
    ensures
        r == 0,
        (exists|i: int| 0 <= i < ndim && #[trigger] src_stop@[i] == src_start@[i]) ==> final(dst)@ == old(dst)@,
        !(exists|i: int| 0 <= i < ndim && #[trigger] src_stop@[i] == src_start@[i]) ==> final(dst)@
            == copied_rows(old(dst)@, src@, itemsize as int, ndim as nat,
                copy_shape_of(src_start@, src_stop@, ndim as nat), src_pad_shape@, src_start@,
                dst_pad_shape@, dst_start@,
                prod(copy_shape_of(src_start@, src_stop@, ndim as nat), 0, ndim - 1) as nat),
{
    let nd = ndim as usize;
    let ghost n = nd as nat;
    let ghost cs = copy_shape_of(src_start@, src_stop@, n);
    let mut copy_shape = [0i64; 16];
    let mut i: usize = 0;
    while i < nd
        invariant
            i <= nd, nd == ndim, 1 <= nd <= 16, n == nd,
            cs == copy_shape_of(src_start@, src_stop@, n),
            slice_fits(ndim as int, itemsize as int, src.len() as int, src_pad_shape@, src_start@, src_stop@,
                dst.len() as int, dst_pad_shape@, dst_start@),
            dst@ == old(dst)@,
            forall|j: int| 0 <= j < i ==> #[trigger] copy_shape@[j] == cs[j],
            forall|j: int| 0 <= j < i ==> #[trigger] cs[j] >= 1,
        decreases nd - i,
    {
        assert(0 <= src_start@[i as int] <= src_stop@[i as int]);
        copy_shape[i] = src_stop[i] - src_start[i];
        assert(copy_shape@[i as int] == cs[i as int]);
        if copy_shape[i] == 0 {
            assert(src_stop@[i as int] == src_start@[i as int]);
            return 0;
        }
        i += 1;
    }
    assert(i == nd);
    assert(!(exists|q: int| 0 <= q < ndim && #[trigger] src_stop@[q] == src_start@[q])) by {
        assert forall|q: int| 0 <= q < ndim implies #[trigger] src_stop@[q] != src_start@[q] by {
            assert(cs[q] >= 1);
        }
    }
    let ghost sp = src_pad_shape@;
    let ghost dp = dst_pad_shape@;
    let ghost dstop = Seq::new(n, |j: int| (dst_start@[j] + cs[j]) as i64);
    proof {
        assert forall|j: int| 0 <= j < n implies #[trigger] sp[j] >= 1 && dp[j] >= 1 by {
            assert(copy_shape@[j] == cs[j] && cs[j] >= 1);
            assert(0 <= src_start@[j]);
            assert(0 <= dst_start@[j]);
        }
        assert forall|j: int| 0 <= j < n implies #[trigger] dp[j] >= 1 by {
            assert(sp[j] >= 1 && dp[j] >= 1);
        }
    }
    let mut src_strides = [0i64; 16];
    fill_strides(&mut src_strides, src_pad_shape, nd);
    let mut dst_strides = [0i64; 16];
    fill_strides(&mut dst_strides, dst_pad_shape, nd);
    let ghost sps = pad_strides(sp, n);
    let ghost dps = pad_strides(dp, n);
    let ghost nrows = prod(cs, 0, n - 1);
    let ghost ssum = prod(sp, 0, n as int);
    let ghost dsum = prod(dp, 0, n as int);
    proof {
        assert forall|j: int| 0 <= j < n implies 0 <= #[trigger] src_start@[j] && cs[j] >= 1
            && src_start@[j] + cs[j] <= sp[j] by {
            assert(copy_shape@[j] == cs[j] && cs[j] >= 1);
        }
        assert forall|j: int| 0 <= j < n implies 0 <= #[trigger] dst_start@[j] && cs[j] >= 1
            && dst_start@[j] + cs[j] <= dp[j] by {
            assert(copy_shape@[j] == cs[j] && cs[j] >= 1);
        }
        assert forall|j: int| 0 <= j < n implies 1 <= #[trigger] cs[j] <= sp[j] by {
            assert(0 <= src_start@[j]);
        }
        lemma_prod_mono(cs, sp, 0, n - 1);
        lemma_prod_split(sp, 0, n - 1, n as int);
        lemma_prod_pos(sp, n - 1, n as int);
        assert(prod(sp, 0, n - 1) <= ssum) by (nonlinear_arith)
            requires ssum == prod(sp, 0, n - 1) * prod(sp, n - 1, n as int), prod(sp, n - 1, n as int) >= 1,
                prod(sp, 0, n - 1) >= 1;
        lemma_prod_pos(cs, 0, n - 1);
        lemma_row_in_bounds(src_start@, cs, sp, n, 0);
        lemma_row_in_bounds(dst_start@, cs, dp, n, 0);
        lemma_dot_ext(src_start@, src_start@, src_strides@, sps, n);
        lemma_dot_ext(dst_start@, dst_start@, dst_strides@, dps, n);
        lemma_dot_horner(src_start@, sps, n, n as int);
        lemma_dot_fits(src_start@, src_strides@, n);
        lemma_dot_fits(dst_start@, dst_strides@, n);
    }
    let src_start_n = crate::blosc::b2nd::blosc2_multidim_to_unidim(src_start, ndim, src_strides.as_slice());
    let dst_start_n = crate::blosc::b2nd::blosc2_multidim_to_unidim(dst_start, ndim, dst_strides.as_slice());
    let is = itemsize as i64;
    proof {
        assert(src_start_n * is <= ssum * is) by (nonlinear_arith) requires src_start_n <= ssum, is >= 0;
        assert(dst_start_n * is <= dsum * is) by (nonlinear_arith) requires dst_start_n <= dsum, is >= 0;
        assert(src_start_n * is >= 0) by (nonlinear_arith) requires src_start_n >= 0, is >= 0;
        assert(dst_start_n * is >= 0) by (nonlinear_arith) requires dst_start_n >= 0, is >= 0;
    }
    let src_offset = (src_start_n * is) as usize;
    let dst_offset = (dst_start_n * is) as usize;
    let ghost cols = cs[n - 1];
    proof {
        assert(copy_shape@[n - 1] == cols);
        assert(cols <= ssum) by {
            lemma_prod_suffix(sp, 0, n - 1, n as int);
            assert(prod(sp, n - 1, n as int) == sp[n - 1] * prod(sp, n as int, n as int));
            assert(0 <= src_start@[n - 1]);
        }
        assert(cols * is <= ssum * is) by (nonlinear_arith) requires cols <= ssum, is >= 0;
        assert(cols * is >= 0) by (nonlinear_arith) requires cols >= 1, is >= 0;
    }
    let copy_nbytes = (copy_shape[nd - 1] * is) as usize;
    let mut number_of_copies: i64 = 1;
    i = 0;
    while i < nd - 1
        invariant
            i <= nd - 1, 1 <= nd <= 16, n == nd,
            forall|j: int| 0 <= j < n ==> #[trigger] copy_shape@[j] == cs[j],
            forall|j: int| 0 <= j < n ==> #[trigger] cs[j] >= 1,
            cs.len() == n,
            prod(cs, 0, n - 1) <= i64::MAX,
            number_of_copies == prod(cs, 0, i as int),
        decreases nd - 1 - i,
    {
        proof {
            lemma_prod_split(cs, 0, i as int, i + 1);
            lemma_prod_split(cs, 0, i + 1, n - 1);
            lemma_prod_pos(cs, i + 1, n - 1);
            lemma_prod_pos(cs, 0, i + 1);
            assert(prod(cs, i as int, i + 1) == cs[i as int] * prod(cs, i + 1, i + 1));
            let p = prod(cs, 0, i + 1);
            assert(p <= prod(cs, 0, n - 1)) by (nonlinear_arith)
                requires prod(cs, 0, n - 1) == p * prod(cs, i + 1, n - 1), prod(cs, i + 1, n - 1) >= 1, p >= 1;
        }
        proof {
            let p0 = prod(cs, 0, i as int);
            assert(p0 * cs[i as int] == prod(cs, 0, i + 1)) by (nonlinear_arith)
                requires prod(cs, 0, i + 1) == p0 * prod(cs, i as int, i + 1),
                    prod(cs, i as int, i + 1) == cs[i as int] * prod(cs, i + 1, i + 1),
                    prod(cs, i + 1, i + 1) == 1;
            assert(copy_shape@[i as int] == cs[i as int]);
        }
        number_of_copies = number_of_copies * copy_shape[i];
        i += 1;
    }
    let mut ncopy: i64 = 0;
    while ncopy < number_of_copies
        invariant
            0 <= ncopy <= number_of_copies, number_of_copies == nrows, nrows == prod(cs, 0, n - 1),
            1 <= nd <= 16, n == nd, nd == ndim, is == itemsize, is >= 0,
            nrows <= i64::MAX,
            cs == copy_shape_of(src_start@, src_stop@, n),
            forall|j: int| 0 <= j < n ==> #[trigger] copy_shape@[j] == cs[j],
            forall|j: int| 0 <= j < n ==> #[trigger] cs[j] >= 1,
            cs.len() == n, src_start@.len() >= n, dst_start@.len() >= n, sp.len() >= n, dp.len() >= n,
            forall|j: int| 0 <= j < n ==> 0 <= #[trigger] src_start@[j] && cs[j] >= 1 && src_start@[j] + cs[j] <= sp[j],
            forall|j: int| 0 <= j < n ==> 0 <= #[trigger] dst_start@[j] && cs[j] >= 1 && dst_start@[j] + cs[j] <= dp[j],
            sp == src_pad_shape@, dp == dst_pad_shape@, sps == pad_strides(sp, n), dps == pad_strides(dp, n),
            ssum == prod(sp, 0, n as int), dsum == prod(dp, 0, n as int),
            ssum <= i64::MAX, dsum <= i64::MAX, ssum * is <= src.len(), dsum * is <= dst.len(),
            ssum * is <= i64::MAX, dsum * is <= i64::MAX,
            forall|j: int| 0 <= j < nd ==> #[trigger] src_strides@[j] == sps[j],
            forall|j: int| 0 <= j < nd ==> #[trigger] dst_strides@[j] == dps[j],
            src_start_n == dot(src_start@, sps, n), dst_start_n == dot(dst_start@, dps, n),
            src_offset == src_start_n * is, dst_offset == dst_start_n * is,
            copy_nbytes == cols * is, cols == cs[n - 1],
            dst.len() == old(dst).len(),
            dst@ == copied_rows(old(dst)@, src@, itemsize as int, n, cs, sp, src_start@, dp, dst_start@, ncopy as nat),
        decreases number_of_copies - ncopy,
    {
        let ghost k = ncopy as int;
        let ghost rc = row_coords(cs, n, k);
        let mut copy_start: Vec<i64> = vec![0i64; 16];
        proof {
            lemma_row_in_bounds(src_start@, cs, sp, n, k);
            lemma_row_in_bounds(dst_start@, cs, dp, n, k);
            assert forall|j: int| 0 <= j < n - 1 implies #[trigger] stride_of(copy_shape@, (n - 1) as nat, j)
                == stride_of(cs, (n - 1) as nat, j) by {
                lemma_prod_ext(copy_shape@, cs, j + 1, n - 1);
            }
            assert forall|j: int| 0 <= j < n - 1 implies 1 <= #[trigger] stride_of(cs, (n - 1) as nat, j) <= nrows by {
                lemma_prod_suffix(cs, 0, j + 1, n - 1);
            }
            assert(strides_divide(copy_shape@, (n - 1) as nat, ncopy)) by {
                assert forall|j: int| 0 <= j < n - 1 implies {
                    &&& i64::MIN <= #[trigger] stride_of(copy_shape@, (n - 1) as nat, j) <= i64::MAX
                    &&& stride_of(copy_shape@, (n - 1) as nat, j) != 0
                    &&& (ncopy == i64::MIN ==> stride_of(copy_shape@, (n - 1) as nat, j) != -1)
                } by {
                    assert(1 <= stride_of(cs, (n - 1) as nat, j) <= nrows);
                }
            }
        }
        crate::blosc::b2nd::blosc2_unidim_to_multidim(nd - 1, copy_shape.as_slice(), ncopy, copy_start.as_mut_slice());
        assert(copy_start@.len() == 16);
        proof {
            assert forall|j: int| 0 <= j < n - 1 implies #[trigger] copy_start@[j] == rc[j] by {
                assert(stride_of(copy_shape@, (n - 1) as nat, j) == stride_of(cs, (n - 1) as nat, j));
                if j > 0 {
                    assert(stride_of(copy_shape@, (n - 1) as nat, j - 1) == stride_of(cs, (n - 1) as nat, j - 1));
                }
            }
            lemma_dot_ext(copy_start@, rc, src_strides@, sps, (n - 1) as nat);
            lemma_dot_ext(copy_start@, rc, dst_strides@, dps, (n - 1) as nat);
            assert forall|j: int| 0 <= j < n - 1 implies #[trigger] copy_start@[j] >= 0 by {
                assert(0 <= rc[j]);
            }
            lemma_dot_fits(copy_start@, src_strides@, (n - 1) as nat);
            lemma_dot_fits(copy_start@, dst_strides@, (n - 1) as nat);
        }
        let src_copy_start = crate::blosc::b2nd::blosc2_multidim_to_unidim(copy_start.as_slice(), ndim - 1, src_strides.as_slice());
        let dst_copy_start = crate::blosc::b2nd::blosc2_multidim_to_unidim(copy_start.as_slice(), ndim - 1, dst_strides.as_slice());
        let ghost srow = row_start(src_start@, sp, cs, n, k);
        let ghost drow = row_start(dst_start@, dp, cs, n, k);
        proof {
            assert(srow == src_start_n + src_copy_start);
            assert(drow == dst_start_n + dst_copy_start);
            assert(src_copy_start * is <= ssum * is) by (nonlinear_arith) requires src_copy_start <= ssum, is >= 0;
            assert(dst_copy_start * is <= dsum * is) by (nonlinear_arith) requires dst_copy_start <= dsum, is >= 0;
            assert(src_copy_start * is >= 0) by (nonlinear_arith) requires src_copy_start >= 0, is >= 0;
            assert(dst_copy_start * is >= 0) by (nonlinear_arith) requires dst_copy_start >= 0, is >= 0;
            assert(src_start_n * is + src_copy_start * is + cols * is <= ssum * is) by (nonlinear_arith)
                requires src_start_n + src_copy_start + cols <= ssum, is >= 0;
            assert(dst_start_n * is + dst_copy_start * is + cols * is <= dsum * is) by (nonlinear_arith)
                requires dst_start_n + dst_copy_start + cols <= dsum, is >= 0;
            assert(srow * is == src_start_n * is + src_copy_start * is) by (nonlinear_arith)
                requires srow == src_start_n + src_copy_start;
            assert(drow * is == dst_start_n * is + dst_copy_start * is) by (nonlinear_arith)
                requires drow == dst_start_n + dst_copy_start;
        }
        let src_idx = (src_copy_start * is) as usize;
        let dst_idx = (dst_copy_start * is) as usize;
        crate::blosc::fastcopy::copy_chunk(dst, dst_offset + dst_idx, src, src_offset + src_idx, copy_nbytes);
        ncopy += 1;
    }
    0
}

/// [`b2nd_copy_buffer2`] for items of at most 255 bytes.
pub fn b2nd_copy_buffer(ndim: i8, itemsize: u8, src: &[u8], src_pad_shape: &[i64], src_start: &[i64],
    src_stop: &[i64], dst: &mut [u8], dst_pad_shape: &[i64], dst_start: &[i64]) -> (r: i32)
    requires
        slice_fits(ndim as int, itemsize as int, src.len() as int, src_pad_shape@, src_start@, src_stop@,
            old(dst).len() as int, dst_pad_shape@, dst_start@),
    ensures
        r == 0,
        (exists|i: int| 0 <= i < ndim && #[trigger] src_stop@[i] == src_start@[i]) ==> final(dst)@ == old(dst)@,
        !(exists|i: int| 0 <= i < ndim && #[trigger] src_stop@[i] == src_start@[i]) ==> final(dst)@
            == copied_rows(old(dst)@, src@, itemsize as int, ndim as nat,
                copy_shape_of(src_start@, src_stop@, ndim as nat), src_pad_shape@, src_start@,
                dst_pad_shape@, dst_start@,
                prod(copy_shape_of(src_start@, src_stop@, ndim as nat), 0, ndim - 1) as nat),
{
    b2nd_copy_buffer2(ndim, itemsize as i32, src, src_pad_shape, src_start, src_stop, dst, dst_pad_shape, dst_start)
}

/// The multi-index of item `t` of row `k` of the slice of shape `cs` that starts at `start`.
pub open spec fn elem_of(start: Seq<i64>, cs: Seq<i64>, nd: nat, k: int, t: int) -> Seq<i64> {
    Seq::new(nd, |j: int|
        if j < nd - 1 { (start[j] + row_coords(cs, nd, k)[j]) as i64 } else { (start[j] + t) as i64 })
}

/// Item `t` of row `k` lies inside the array, at the linear index `row_start + t`.
proof fn lemma_elem_index(start: Seq<i64>, cs: Seq<i64>, pad: Seq<i64>, nd: nat, k: int, t: int)
    requires
        nd >= 1,
        start.len() >= nd, cs.len() >= nd, pad.len() >= nd,
        forall|j: int| 0 <= j < nd ==> 0 <= #[trigger] start[j] && cs[j] >= 1 && start[j] + cs[j] <= pad[j],
        0 <= k < prod(cs, 0, nd - 1),
        prod(cs, 0, nd - 1) <= i64::MAX,
        prod(pad, 0, nd as int) <= i64::MAX,
        0 <= t < cs[nd - 1],
    ensures
        forall|j: int| 0 <= j < nd ==> 0 <= #[trigger] elem_of(start, cs, nd, k, t)[j] < pad[j],
        horner(elem_of(start, cs, nd, k, t), pad_strides(pad, nd), 0, nd as int)
            == row_start(start, pad, cs, nd, k) + t,
{
    let n = nd as int;
    let ps = pad_strides(pad, nd);
    let rc = row_coords(cs, nd, k);
    let e = elem_of(start, cs, nd, k, t);
    lemma_row_in_bounds(start, cs, pad, nd, k);
    let b = Seq::new(nd, |j: int| if j < n - 1 { rc[j] } else { t as i64 });
    assert forall|j: int| 0 <= j < nd implies #[trigger] e[j] == start[j] + b[j] by {
        if j < n - 1 {
            assert(0 <= rc[j] < cs[j]);
            assert(0 <= start[j]);
        } else {
            assert(0 <= start[j]);
        }
    }
    lemma_dot_add(start, b, e, ps, nd);
    lemma_dot_ext(b, rc, ps, ps, (nd - 1) as nat);
    assert(ps[n - 1] == 1);
    assert(dot(b, ps, nd) == dot(b, ps, (nd - 1) as nat) + b[n - 1] * ps[n - 1]);
    lemma_dot_horner(e, ps, nd, n);
    assert forall|j: int| 0 <= j < nd implies 0 <= #[trigger] e[j] < pad[j] by {
        assert(0 <= start[j]);
        if j < n - 1 {
            assert(0 <= rc[j] < cs[j]);
        }
    }
}

/// Mixed-radix positions are unique: two multi-indices inside `pad` with the same offset are
/// the same.
proof fn lemma_horner_injective(e1: Seq<i64>, e2: Seq<i64>, st: Seq<i64>, pad: Seq<i64>, from: int, n: int)
    requires
        0 <= from <= n,
        strides_of(st, pad, n),
        forall|j: int| from <= j < n ==> 0 <= #[trigger] e1[j] < pad[j],
        forall|j: int| from <= j < n ==> 0 <= #[trigger] e2[j] < pad[j],
        horner(e1, st, from, n) == horner(e2, st, from, n),
    ensures
        forall|j: int| from <= j < n ==> #[trigger] e1[j] == e2[j],
    decreases n - from,
{
    if from < n {
        lemma_horner_bound(e1, st, pad, from + 1, n);
        lemma_horner_bound(e2, st, pad, from + 1, n);
        let p = st[from] as int;
        assert(p == prod(pad, from + 1, n));
        let h1 = horner(e1, st, from + 1, n);
        let h2 = horner(e2, st, from + 1, n);
        let x = horner(e1, st, from, n);
        assert(x == e1[from] * p + h1);
        assert(x == e2[from] * p + h2);
        vstd::arithmetic::div_mod::lemma_fundamental_div_mod_converse(x, p, e1[from] as int, h1);
        vstd::arithmetic::div_mod::lemma_fundamental_div_mod_converse(x, p, e2[from] as int, h2);
        lemma_horner_injective(e1, e2, st, pad, from + 1, n);
    }
}

/// Rows whose bytes meet have the same coordinates, and so the same place in both arrays.
proof fn lemma_rows_meet(start: Seq<i64>, cs: Seq<i64>, pad: Seq<i64>, nd: nat, itemsize: int,
    k1: int, b1: int, k2: int, b2: int)
    requires
        nd >= 1,
        itemsize >= 1,
        start.len() >= nd, cs.len() >= nd, pad.len() >= nd,
        forall|j: int| 0 <= j < nd ==> 0 <= #[trigger] start[j] && cs[j] >= 1 && start[j] + cs[j] <= pad[j],
        0 <= k1 < prod(cs, 0, nd - 1),
        0 <= k2 < prod(cs, 0, nd - 1),
        prod(cs, 0, nd - 1) <= i64::MAX,
        prod(pad, 0, nd as int) <= i64::MAX,
        0 <= b1 < cs[nd - 1] * itemsize,
        0 <= b2 < cs[nd - 1] * itemsize,
        row_start(start, pad, cs, nd, k1) * itemsize + b1 == row_start(start, pad, cs, nd, k2) * itemsize + b2,
    ensures
        row_coords(cs, nd, k1) == row_coords(cs, nd, k2),
        b1 == b2,
{
    let n = nd as int;
    let t1 = b1 / itemsize;
    let t2 = b2 / itemsize;
    vstd::arithmetic::div_mod::lemma_fundamental_div_mod(b1, itemsize);
    vstd::arithmetic::div_mod::lemma_fundamental_div_mod(b2, itemsize);
    assert(0 <= t1 < cs[n - 1]) by (nonlinear_arith)
        requires 0 <= b1 < cs[n - 1] * itemsize, itemsize >= 1, b1 == itemsize * t1 + b1 % itemsize,
            0 <= b1 % itemsize < itemsize;
    assert(0 <= t2 < cs[n - 1]) by (nonlinear_arith)
        requires 0 <= b2 < cs[n - 1] * itemsize, itemsize >= 1, b2 == itemsize * t2 + b2 % itemsize,
            0 <= b2 % itemsize < itemsize;
    let d1 = row_start(start, pad, cs, nd, k1);
    let d2 = row_start(start, pad, cs, nd, k2);
    let x = d1 * itemsize + b1;
    assert(x == (d1 + t1) * itemsize + b1 % itemsize) by (nonlinear_arith)
        requires x == d1 * itemsize + b1, b1 == itemsize * t1 + b1 % itemsize;
    assert(x == (d2 + t2) * itemsize + b2 % itemsize) by (nonlinear_arith)
        requires x == d2 * itemsize + b2, b2 == itemsize * t2 + b2 % itemsize;
    vstd::arithmetic::div_mod::lemma_fundamental_div_mod_converse(x, itemsize, d1 + t1, b1 % itemsize);
    vstd::arithmetic::div_mod::lemma_fundamental_div_mod_converse(x, itemsize, d2 + t2, b2 % itemsize);
    lemma_elem_index(start, cs, pad, nd, k1, t1);
    lemma_elem_index(start, cs, pad, nd, k2, t2);
    let e1 = elem_of(start, cs, nd, k1, t1);
    let e2 = elem_of(start, cs, nd, k2, t2);
    lemma_row_in_bounds(start, cs, pad, nd, 0);
    lemma_horner_injective(e1, e2, pad_strides(pad, nd), pad, 0, n);
    assert(e1[n - 1] == e2[n - 1]);
    assert(t1 == t2);
    let r1 = row_coords(cs, nd, k1);
    let r2 = row_coords(cs, nd, k2);
    lemma_row_in_bounds(start, cs, pad, nd, k1);
    lemma_row_in_bounds(start, cs, pad, nd, k2);
    assert forall|j: int| 0 <= j < n - 1 implies r1[j] == r2[j] by {
        assert(e1[j] == e2[j]);
        assert(0 <= r1[j] < cs[j]);
        assert(0 <= r2[j] < cs[j]);
        assert(0 <= start[j] && start[j] + cs[j] <= pad[j]);
    }
    assert(r1 =~= r2);
}

/// Whether byte `p` of the destination lies in row `k` of the slice.
pub open spec fn in_row(p: int, dst_start: Seq<i64>, dst_pad: Seq<i64>, cs: Seq<i64>, nd: nat, itemsize: int, k: int) -> bool {
    let d0 = row_start(dst_start, dst_pad, cs, nd, k) * itemsize;
    d0 <= p < d0 + cs[nd - 1] * itemsize
}

/// After the first `j` rows: a byte of one of them holds the source byte at the same place
/// of its row, and any other byte is as it was.
proof fn lemma_copied_rows_pointwise(dst: Seq<u8>, src: Seq<u8>, itemsize: int, nd: nat, cs: Seq<i64>,
    src_pad: Seq<i64>, src_start: Seq<i64>, dst_pad: Seq<i64>, dst_start: Seq<i64>, j: nat)
    requires
        nd >= 1,
        itemsize >= 1,
        cs.len() >= nd, src_pad.len() >= nd, src_start.len() >= nd, dst_pad.len() >= nd, dst_start.len() >= nd,
        forall|i: int| 0 <= i < nd ==> 0 <= #[trigger] src_start[i] && cs[i] >= 1 && src_start[i] + cs[i] <= src_pad[i],
        forall|i: int| 0 <= i < nd ==> 0 <= #[trigger] dst_start[i] && cs[i] >= 1 && dst_start[i] + cs[i] <= dst_pad[i],
        prod(cs, 0, nd - 1) <= i64::MAX,
        prod(src_pad, 0, nd as int) <= i64::MAX,
        prod(dst_pad, 0, nd as int) <= i64::MAX,
        prod(src_pad, 0, nd as int) * itemsize <= src.len(),
        prod(dst_pad, 0, nd as int) * itemsize <= dst.len(),
        j <= prod(cs, 0, nd - 1),
    ensures
        ({
            let out = copied_rows(dst, src, itemsize, nd, cs, src_pad, src_start, dst_pad, dst_start, j);
            &&& out.len() == dst.len()
            &&& forall|k: int, p: int| 0 <= k < j && 0 <= p < dst.len()
                && #[trigger] in_row(p, dst_start, dst_pad, cs, nd, itemsize, k) ==> out[p]
                == src[row_start(src_start, src_pad, cs, nd, k) * itemsize
                    + (p - row_start(dst_start, dst_pad, cs, nd, k) * itemsize)]
            &&& forall|p: int| 0 <= p < dst.len()
                && (forall|k: int| 0 <= k < j ==> !#[trigger] in_row(p, dst_start, dst_pad, cs, nd, itemsize, k))
                ==> out[p] == dst[p]
        }),
    decreases j,
{
    if j > 0 {
        let k = j - 1;
        lemma_copied_rows_pointwise(dst, src, itemsize, nd, cs, src_pad, src_start, dst_pad, dst_start, (j - 1) as nat);
        let prev = copied_rows(dst, src, itemsize, nd, cs, src_pad, src_start, dst_pad, dst_start, (j - 1) as nat);
        let out = copied_rows(dst, src, itemsize, nd, cs, src_pad, src_start, dst_pad, dst_start, j);
        lemma_row_in_bounds(src_start, cs, src_pad, nd, k);
        lemma_row_in_bounds(dst_start, cs, dst_pad, nd, k);
        let so = row_start(src_start, src_pad, cs, nd, k) * itemsize;
        let d0 = row_start(dst_start, dst_pad, cs, nd, k) * itemsize;
        let len = cs[nd - 1] * itemsize;
        let sr = row_start(src_start, src_pad, cs, nd, k);
        let dr = row_start(dst_start, dst_pad, cs, nd, k);
        assert(so + len <= src.len() && 0 <= so) by (nonlinear_arith)
            requires so == sr * itemsize, len == cs[nd - 1] * itemsize, sr + cs[nd - 1] <= prod(src_pad, 0, nd as int),
                prod(src_pad, 0, nd as int) * itemsize <= src.len(), sr >= 0, itemsize >= 1;
        assert(d0 + len <= dst.len() && 0 <= d0 && 0 <= len) by (nonlinear_arith)
            requires d0 == dr * itemsize, len == cs[nd - 1] * itemsize, dr + cs[nd - 1] <= prod(dst_pad, 0, nd as int),
                prod(dst_pad, 0, nd as int) * itemsize <= dst.len(), dr >= 0, itemsize >= 1, cs[nd - 1] >= 1;
        assert(out == prev.subrange(0, d0) + src.subrange(so, so + len) + prev.skip(d0 + len));
        assert forall|k2: int, p: int| 0 <= k2 < j && 0 <= p < dst.len()
            && #[trigger] in_row(p, dst_start, dst_pad, cs, nd, itemsize, k2) implies out[p]
            == src[row_start(src_start, src_pad, cs, nd, k2) * itemsize
                + (p - row_start(dst_start, dst_pad, cs, nd, k2) * itemsize)] by {
            let dk2 = row_start(dst_start, dst_pad, cs, nd, k2) * itemsize;
            if in_row(p, dst_start, dst_pad, cs, nd, itemsize, k) {
                if k2 != k {
                    lemma_rows_meet(dst_start, cs, dst_pad, nd, itemsize, k2, p - dk2, k, p - d0);
                }
                assert(out[p] == src[so + (p - d0)]);
            } else {
                assert(out[p] == prev[p]);
            }
        }
        assert forall|p: int| 0 <= p < dst.len()
            && (forall|k2: int| 0 <= k2 < j ==> !#[trigger] in_row(p, dst_start, dst_pad, cs, nd, itemsize, k2))
            implies out[p] == dst[p] by {
            assert(!in_row(p, dst_start, dst_pad, cs, nd, itemsize, k));
            assert(out[p] == prev[p]);
        }
    }
}

/// A copy puts the slice in place: each byte of each row of the slice in the destination is
/// the byte at the same place of that row in the source, and the bytes outside the slice are
/// left as they were.
pub proof fn lemma_copy_places_slice(dst: Seq<u8>, src: Seq<u8>, itemsize: int, nd: nat, src_pad: Seq<i64>,
    src_start: Seq<i64>, src_stop: Seq<i64>, dst_pad: Seq<i64>, dst_start: Seq<i64>)
    requires
        slice_fits(nd as int, itemsize, src.len() as int, src_pad, src_start, src_stop, dst.len() as int, dst_pad, dst_start),
        itemsize >= 1,
        forall|i: int| 0 <= i < nd ==> #[trigger] src_stop[i] != src_start[i],
    ensures
        ({
            let cs = copy_shape_of(src_start, src_stop, nd);
            let rows = prod(cs, 0, nd - 1);
            let out = copied_rows(dst, src, itemsize, nd, cs, src_pad, src_start, dst_pad, dst_start, rows as nat);
            &&& out.len() == dst.len()
            &&& forall|k: int, b: int| 0 <= k < rows && 0 <= b < cs[nd - 1] * itemsize ==>
                #[trigger] out[row_start(dst_start, dst_pad, cs, nd, k) * itemsize + b]
                == src[row_start(src_start, src_pad, cs, nd, k) * itemsize + b]
            &&& forall|p: int| 0 <= p < dst.len()
                && (forall|k: int| 0 <= k < rows ==> !#[trigger] in_row(p, dst_start, dst_pad, cs, nd, itemsize, k))
                ==> out[p] == dst[p]
        }),
{
    let n = nd as int;
    let cs = copy_shape_of(src_start, src_stop, nd);
    assert forall|i: int| 0 <= i < nd implies 0 <= #[trigger] src_start[i] && cs[i] >= 1
        && src_start[i] + cs[i] <= src_pad[i] by {
        assert(0 <= src_start[i] <= src_stop[i]);
        assert(src_stop[i] != src_start[i]);
    }
    assert forall|i: int| 0 <= i < nd implies 0 <= #[trigger] dst_start[i] && cs[i] >= 1
        && dst_start[i] + cs[i] <= dst_pad[i] by {
        assert(0 <= src_start[i] <= src_stop[i]);
        assert(src_stop[i] != src_start[i]);
    }
    assert forall|i: int| 0 <= i < nd implies 1 <= #[trigger] cs[i] <= src_pad[i] by {
        assert(0 <= src_start[i] <= src_stop[i]);
        assert(src_stop[i] != src_start[i]);
    }
    assert forall|i: int| 0 <= i < nd implies #[trigger] src_pad[i] >= 1 by {
        assert(0 <= src_start[i] <= src_stop[i]);
        assert(src_stop[i] != src_start[i]);
    }
    lemma_prod_mono(cs, src_pad, 0, n - 1);
    lemma_prod_split(src_pad, 0, n - 1, n);
    lemma_prod_pos(src_pad, n - 1, n);
    let ssum = prod(src_pad, 0, n);
    assert(prod(src_pad, 0, n - 1) <= ssum) by (nonlinear_arith)
        requires ssum == prod(src_pad, 0, n - 1) * prod(src_pad, n - 1, n), prod(src_pad, n - 1, n) >= 1,
            prod(src_pad, 0, n - 1) >= 1;
    let rows = prod(cs, 0, n - 1);
    lemma_copied_rows_pointwise(dst, src, itemsize, nd, cs, src_pad, src_start, dst_pad, dst_start, rows as nat);
    let out = copied_rows(dst, src, itemsize, nd, cs, src_pad, src_start, dst_pad, dst_start, rows as nat);
    assert forall|k: int, b: int| 0 <= k < rows && 0 <= b < cs[n - 1] * itemsize implies
        #[trigger] out[row_start(dst_start, dst_pad, cs, nd, k) * itemsize + b]
        == src[row_start(src_start, src_pad, cs, nd, k) * itemsize + b] by {
        let p = row_start(dst_start, dst_pad, cs, nd, k) * itemsize + b;
        lemma_row_in_bounds(dst_start, cs, dst_pad, nd, k);
        let dr = row_start(dst_start, dst_pad, cs, nd, k);
        assert(0 <= p < dst.len()) by (nonlinear_arith)
            requires p == dr * itemsize + b, 0 <= b < cs[n - 1] * itemsize, dr + cs[n - 1] <= prod(dst_pad, 0, n),
                prod(dst_pad, 0, n) * itemsize <= dst.len(), dr >= 0, itemsize >= 1;
        assert(in_row(p, dst_start, dst_pad, cs, nd, itemsize, k));
    }
}

/// The C-order strides of `shape`, as the index conversions take them.
pub open spec fn shape_strides(shape: Seq<i64>, nd: nat) -> Seq<i64> {
    Seq::new(nd, |j: int| stride_of(shape, nd, j) as i64)
}

/// The coordinates that [`blosc2_unidim_to_multidim`](crate::blosc::b2nd::blosc2_unidim_to_multidim)
/// gives for the linear index `i`.
pub open spec fn coords_of(shape: Seq<i64>, nd: nat, i: i64) -> Seq<i64> {
    Seq::new(nd, |j: int| unidim_coord(shape, nd, i, j))
}

/// The partial sums of a linear index's coordinates leave the remainder by the next stride.
proof fn lemma_coords_partial(shape: Seq<i64>, nd: nat, i: i64, k: nat)
    requires
        1 <= k <= nd,
        shape.len() >= nd,
        forall|j: int| 0 <= j < nd ==> #[trigger] shape[j] >= 1,
        prod(shape, 0, nd as int) <= i64::MAX,
        0 <= i < prod(shape, 0, nd as int),
    ensures
        dot(coords_of(shape, nd, i), shape_strides(shape, nd), k) + (i as int) % stride_of(shape, nd, k - 1) == i,
    decreases k,
{
    let st = shape_strides(shape, nd);
    let c = coords_of(shape, nd, i);
    lemma_prod_suffix(shape, 0, k as int, nd as int);
    let s = stride_of(shape, nd, k - 1);
    assert(st[k - 1] == s);
    if k == 1 {
        vstd::arithmetic::div_mod::lemma_fundamental_div_mod(i as int, s);
        assert(c[0] == (i as int) / s);
        assert(dot(c, st, 1) == dot(c, st, 0) + c[0] * st[0]);
        assert(c[0] * st[0] == s * ((i as int) / s)) by (nonlinear_arith) requires c[0] == (i as int) / s, st[0] == s;
    } else {
        lemma_coords_partial(shape, nd, i, (k - 1) as nat);
        lemma_prod_suffix(shape, 0, k - 1, nd as int);
        let s0 = stride_of(shape, nd, k - 2);
        assert(s0 == shape[k - 1] * s);
        let x = (i as int) % s0;
        assert(c[k - 1] == x / s);
        vstd::arithmetic::div_mod::lemma_fundamental_div_mod(x, s);
        vstd::arithmetic::div_mod::lemma_mod_mod(i as int, s, shape[k - 1] as int);
        assert(s * (shape[k - 1] as int) == s0) by (nonlinear_arith) requires s0 == shape[k - 1] * s;
        assert(x % s == (i as int) % s);
        assert(dot(c, st, k) == dot(c, st, (k - 1) as nat) + c[k - 1] * st[k - 1]);
        assert(c[k - 1] * st[k - 1] == s * (x / s)) by (nonlinear_arith) requires c[k - 1] == x / s, st[k - 1] == s;
    }
}

/// The index conversions are inverse: the coordinates of a linear index inside the shape lie
/// inside it, and converting them back with the shape's strides gives the index.
pub proof fn lemma_unidim_multidim_roundtrip(shape: Seq<i64>, nd: nat, i: i64)
    requires
        1 <= nd,
        shape.len() >= nd,
        forall|j: int| 0 <= j < nd ==> #[trigger] shape[j] >= 1,
        prod(shape, 0, nd as int) <= i64::MAX,
        0 <= i < prod(shape, 0, nd as int),
    ensures
        forall|j: int| 0 <= j < nd ==> 0 <= #[trigger] coords_of(shape, nd, i)[j] < shape[j],
        dot(coords_of(shape, nd, i), shape_strides(shape, nd), nd) == i,
{
    assert forall|j: int| 0 <= j < nd implies 0 <= #[trigger] coords_of(shape, nd, i)[j] < shape[j] by {
        lemma_coord_bound(shape, nd, i, j);
    }
    lemma_coords_partial(shape, nd, i, nd);
    assert(stride_of(shape, nd, nd - 1) == 1);
}

} // verus!
