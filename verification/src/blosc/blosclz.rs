//! A BloscLZ block decoder that works on a bounded part of its input and output. A match token
//! names the byte `offset + code + 1` back (or, in its far form, `offset16 + 8192` back), a
//! match that is the last token is not applied, and a match at least eight bytes back with room
//! to spare is copied in whole 8-byte chunks, which may write up to seven bytes past its end.
use vstd::prelude::*;

verus! {

/// The output after copying `n` bytes forward, byte by byte, from `rf` to `op`: a copy that
/// overlaps what it writes repeats the last `op - rf` bytes, and a copy onto itself changes
/// nothing.
pub open spec fn fwd_copy(buf: Seq<u8>, op: int, rf: int, n: int) -> Seq<u8> {
    Seq::new(buf.len(), |k: int|
        if op <= k < op + n {
            if rf == op { buf[k] } else { buf[rf + (k - op) % (op - rf)] }
        } else {
            buf[k]
        })
}

/// The output after writing `src[ip .. ip + n]` at `op`.
pub open spec fn put_bytes(buf: Seq<u8>, op: int, src: Seq<u8>, ip: int, n: int) -> Seq<u8> {
    Seq::new(buf.len(), |k: int| if op <= k < op + n { src[ip + k - op] } else { buf[k] })
}

/// The length extension of a long match that starts at `ip`: the sum of the bytes up to and
/// including the first that is not 255, and the position after it; `None` where fewer than two
/// bytes are left before one of them is read.
pub open spec fn ext_len_bounded(input: Seq<u8>, lim: int, ip: int) -> Option<(int, int)>
    decreases lim - ip,
{
    if ip < 0 || ip + 1 >= lim {
        None
    } else if input[ip] != 255 {
        Some((input[ip] as int, ip + 1))
    } else {
        match ext_len_bounded(input, lim, ip + 1) {
            Some((s, n)) => Some((s + 255, n)),
            None => None,
        }
    }
}

/// Bounds on what [`ext_len_bounded`] reads.
pub proof fn lemma_ext_len_bounded(input: Seq<u8>, lim: int, ip: int)
    ensures
        ext_len_bounded(input, lim, ip) matches Some((s, n)) ==> 0 <= ip < n && n + 1 <= lim && 0 <= s
            && s <= 255 * (n - ip),
    decreases lim - ip,
{
    if 0 <= ip && ip + 1 < lim && input[ip] == 255 {
        lemma_ext_len_bounded(input, lim, ip + 1);
    }
}

/// Decoding from `ip` with control byte `ctrl` already read, over the output `buf` with `op`
/// bytes produced and room for `cap`: the output as it is left and the count returned, 0 on
/// failure.
#[verifier::opaque]
pub open spec fn clz_from(input: Seq<u8>, lim: int, ip: int, ctrl: int, buf: Seq<u8>, op: int, cap: int)
    -> (Seq<u8>, int)
    decreases lim - ip,
{
    if ip < 0 || ip > lim {
        (buf, 0)
    } else if ctrl >= 32 {
        let len0 = ctrl / 32 - 1;
        let ofs = (ctrl % 32) * 256;
        let ext = if len0 == 6 {
            ext_len_bounded(input, lim, ip)
        } else if ip + 1 >= lim {
            None
        } else {
            Some((0int, ip))
        };
        match ext {
            None => (buf, 0),
            Some((e, ip1)) => {
                proof { lemma_ext_len_bounded(input, lim, ip); }
                if ip1 < ip || ip1 >= lim {
                    (buf, 0)
                } else {
                    let code = input[ip1] as int;
                    let ip2 = ip1 + 1;
                    let len = len0 + e + 3;
                    let far = code == 255 && ofs == 31 * 256;
                    if far && ip2 + 1 >= lim {
                        (buf, 0)
                    } else {
                        let ip3 = if far { ip2 + 2 } else { ip2 };
                        let rf = if far {
                            op - (input[ip2] as int * 256 + input[ip2 + 1] as int) - 8191 - 1
                        } else {
                            op - ofs - code - 1
                        };
                        if op + len > cap {
                            (buf, 0)
                        } else if rf < 0 {
                            (buf, 0)
                        } else if ip3 >= lim {
                            (buf, op)
                        } else {
                            let n = if rf != op - 1 && op - rf >= 8 && cap - op >= len + 8 {
                                (len + 7) / 8 * 8
                            } else {
                                len
                            };
                            clz_from(input, lim, ip3 + 1, input[ip3] as int, fwd_copy(buf, op, rf, n), op + len, cap)
                        }
                    }
                }
            },
        }
    } else {
        let n = ctrl + 1;
        if ctrl < 0 || op + n > cap || ip + n > lim {
            (buf, 0)
        } else {
            let buf2 = put_bytes(buf, op, input, ip, n);
            if ip + n >= lim {
                (buf2, op + n)
            } else {
                clz_from(input, lim, ip + n + 1, input[ip + n] as int, buf2, op + n, cap)
            }
        }
    }
}

/// What decoding the first `length` bytes of `input` over `buf`, with room for `cap` bytes,
/// leaves in the output and returns.
pub open spec fn clz_decode(input: Seq<u8>, length: int, buf: Seq<u8>, cap: int) -> (Seq<u8>, int) {
    if length == 0 {
        (buf, 0)
    } else {
        clz_from(input, length, 1, (input[0] % 32) as int, buf, 0, cap)
    }
}

/// Copies `n` bytes forward, byte by byte, from `rf` to `op` within `output`.
fn copy_forward(output: &mut [u8], op: usize, rf: usize, n: usize)
    requires
        rf <= op,
        op + n <= old(output).len(),
    ensures
        final(output)@ == fwd_copy(old(output)@, op as int, rf as int, n as int),
{
    let ghost buf = old(output)@;
    let mut i: usize = 0;
    while i < n
        invariant
            rf <= op, op + n <= output.len(), output.len() == buf.len(), i <= n,
            forall|k: int| 0 <= k < output.len() && !(op <= k < op + i) ==> output@[k] == buf[k],
            forall|k: int| op <= k < op + i ==> #[trigger] output@[k]
                == fwd_copy(buf, op as int, rf as int, n as int)[k],
        decreases n - i,
    {
        let v = output[rf + i];
        proof {
            let d = op - rf;
            if rf == op {
                assert(v == buf[op + i]);
            } else if i < d {
                vstd::arithmetic::div_mod::lemma_small_mod(i as nat, d as nat);
                assert(v == buf[rf + i]);
            } else {
                vstd::arithmetic::div_mod::lemma_mod_sub_multiples_vanish(i as int, d as int);
                assert(rf + i == op + (i - d));
            }
        }
        output[op + i] = v;
        i += 1;
    }
    assert(output@ =~= fwd_copy(buf, op as int, rf as int, n as int));
}

/// Decodes the first `length` bytes of `input` into the first `maxout` bytes of `output` and
/// returns the number of bytes produced, 0 where the stream is malformed or does not fit.
/// What a failing call wrote before it failed stays in `output`, as does what a chunked copy
/// wrote past the end of the last match. A match length that grows past `maxout` is not
/// followed further: such a match fails whatever its exact length.
pub fn blosclz_decompress(input: &[u8], length: usize, output: &mut [u8], maxout: usize) -> (r: i32)
    requires
        length <= input.len(),
        maxout <= old(output).len(),
        maxout <= i32::MAX,
    ensures
        final(output)@ == clz_decode(input@, length as int, old(output)@, maxout as int).0,
        r == clz_decode(input@, length as int, old(output)@, maxout as int).1,
{
    let ghost total = clz_decode(input@, length as int, old(output)@, maxout as int);
    if length == 0 {
        return 0;
    }
    proof { reveal(clz_from); }
    let ip_limit = length;
    let op_limit = maxout;
    let mut ip: usize = 1;
    let mut op: usize = 0;
    let mut ctrl: usize = (input[0] % 32) as usize;
    loop
        invariant
            ip_limit == length, length <= input.len(),
            total == clz_decode(input@, length as int, old(output)@, maxout as int),
            op_limit == maxout, maxout <= output.len(), maxout <= i32::MAX,
            1 <= ip <= ip_limit,
            op <= op_limit,
            ctrl < 256,
            output.len() == old(output).len(),
            clz_from(input@, ip_limit as int, ip as int, ctrl as int, output@, op as int, op_limit as int) == total,
        decreases ip_limit - ip,
    {
        proof { reveal(clz_from); }
        if ctrl >= 32 {
            let mut len: usize = ctrl / 32 - 1;
            let ofs: usize = (ctrl % 32) * 256;
            let ghost ip0 = ip as int;
            if len == 6 {
                let ghost mut acc: int = 0;
                loop
                    invariant_except_break
                        ext_len_bounded(input@, ip_limit as int, ip0) == (match ext_len_bounded(input@, ip_limit as int, ip as int) {
                            Some((s, n)) => Some((s + acc, n)),
                            None => None::<(int, int)>,
                        }),
                    invariant
                        1 <= ip0 <= ip <= ip_limit,
                        ip_limit == length, length <= input.len(),
                        total == clz_decode(input@, length as int, old(output)@, maxout as int),
                        0 <= acc,
                        6 + acc <= op_limit ==> len == 6 + acc,
                        6 + acc > op_limit ==> op_limit < len <= op_limit + 255,
                        op <= op_limit, op_limit == maxout, maxout <= output.len(), maxout <= i32::MAX,
                        ctrl >= 32, ctrl / 32 - 1 == 6, ctrl < 256,
                        ofs == (ctrl % 32) * 256,
                        output.len() == old(output).len(),
                        clz_from(input@, ip_limit as int, ip0, ctrl as int, output@, op as int, op_limit as int) == total,
                    ensures
                        ext_len_bounded(input@, ip_limit as int, ip0) == Some((acc, ip as int)),
                    decreases ip_limit - ip,
                {
                    proof { reveal(clz_from); lemma_ext_len_bounded(input@, ip_limit as int, ip as int); }
                    if ip >= ip_limit - 1 {
                        return 0;
                    }
                    let code = input[ip];
                    ip += 1;
                    proof {
                        acc = acc + code as int;
                    }
                    if len <= op_limit {
                        len = len + code as usize;
                    }
                    if code != 255 {
                        break;
                    }
                }
            } else {
                if ip >= ip_limit - 1 {
                    return 0;
                }
            }
            proof { lemma_ext_len_bounded(input@, ip_limit as int, ip0); }
            let code = input[ip] as usize;
            ip += 1;
            len = len + 3;
            let far = code == 255 && ofs == 31 * 256;
            let mut back: usize = ofs + code + 1;
            if far {
                if ip >= ip_limit - 1 {
                    return 0;
                }
                back = (input[ip] as usize) * 256 + (input[ip + 1] as usize) + 8191 + 1;
                ip += 2;
            }
            if len > op_limit - op {
                return 0;
            }
            if back > op {
                return 0;
            }
            let rf = op - back;
            if ip >= ip_limit {
                return op as i32;
            }
            ctrl = input[ip] as usize;
            ip += 1;
            let n = if rf + 1 != op && op - rf >= 8 && op_limit - op >= len + 8 {
                (len + 7) / 8 * 8
            } else {
                len
            };
            copy_forward(output, op, rf, n);
            op = op + len;
        } else {
            let n = ctrl + 1;
            if n > op_limit - op {
                return 0;
            }
            if n > ip_limit - ip {
                return 0;
            }
            let ghost buf = output@;
            let mut i: usize = 0;
            while i < n
                invariant
                    op + n <= op_limit, op_limit <= output.len(), ip + n <= ip_limit, ip_limit <= input.len(),
                    i <= n,
                    output.len() == buf.len(),
                    forall|k: int| 0 <= k < output.len() && !(op <= k < op + i) ==> output@[k] == buf[k],
                    forall|k: int| op <= k < op + i ==> #[trigger] output@[k] == input@[ip + k - op],
                decreases n - i,
            {
                output[op + i] = input[ip + i];
                i += 1;
            }
            assert(output@ =~= put_bytes(buf, op as int, input@, ip as int, n as int));
            op = op + n;
            ip = ip + n;
            if ip >= ip_limit {
                return op as i32;
            }
            ctrl = input[ip] as usize;
            ip += 1;
        }
    }
}

} // verus!
