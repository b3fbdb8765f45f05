//! The BloscLZ codec: an LZ77 variant with literal runs of up to 32 bytes and
//! back-references of up to 65535 + 8190 bytes.
use vstd::prelude::*;
use vstd::arithmetic::div_mod::{lemma_mod_sub_multiples_vanish, lemma_small_mod};

verus! {

/// Longest literal run that one control byte announces.
pub const MAX_COPY: usize = 32;
/// Longest distance that the two-byte match form encodes.
pub const MAX_DISTANCE: usize = 8191;
/// Longest distance that the far match form encodes.
pub const MAX_FARDISTANCE: usize = 65535 + MAX_DISTANCE - 1;
/// Base-2 logarithm of the hash table size at the highest levels.
pub const HASH_LOG: usize = 14;

/// Appends `len` bytes copied from `dist` bytes back, byte by byte, so that a copy that
/// overlaps what it writes repeats the last `dist` bytes.
pub open spec fn run_copy(out: Seq<u8>, dist: nat, len: nat) -> Seq<u8> {
    out + Seq::new(len, |i: int| out[out.len() - dist + i % (dist as int)])
}

/// The length extension of a long match starting at `ip`: the sum of the bytes read up to and
/// including the first one that is not 255, and the position after it; `None` when the
/// input ends first.
pub open spec fn ext_len(input: Seq<u8>, ip: int) -> Option<(int, int)>
    decreases input.len() - ip,
{
    if ip < 0 || ip >= input.len() {
        None
    } else if input[ip] != 255 {
        Some((input[ip] as int, ip + 1))
    } else {
        match ext_len(input, ip + 1) {
            Some((s, n)) => Some((s + 255, n)),
            None => None,
        }
    }
}

/// Bounds on what [`ext_len`] reads.
pub proof fn lemma_ext_len_bounds(input: Seq<u8>, ip: int)
    ensures
        ext_len(input, ip) matches Some((s, n)) ==> 0 <= ip < n <= input.len() && 0 <= s,
    decreases input.len() - ip,
{
    if 0 <= ip < input.len() && input[ip] == 255 {
        lemma_ext_len_bounds(input, ip + 1);
    }
}

/// Decoding from position `ip` with control byte `ctrl` already read and `out` produced so far,
/// into a buffer of `cap` bytes: the bytes produced, or `None` when the stream is malformed or
/// does not fit. A match that is the last token of the input is not applied.
#[verifier::opaque]
pub open spec fn lz_decode_from(input: Seq<u8>, ip: int, ctrl: int, out: Seq<u8>, cap: int) -> Option<Seq<u8>>
    decreases input.len() - ip,
{
    if ip < 0 || ip > input.len() {
        None
    } else if ctrl >= 32 {
        let len0 = ctrl / 32 - 1;
        let ofs = (ctrl % 32) * 256;
        let ext = if len0 == 6 { ext_len(input, ip) } else { Some((0int, ip)) };
        match ext {
            None => None,
            Some((e, ip1)) => {
                proof { lemma_ext_len_bounds(input, ip); }
                if ip1 < ip || ip1 >= input.len() {
                    None
                } else {
                    let code = input[ip1] as int;
                    let ip2 = ip1 + 1;
                    let len = len0 + e + 3;
                    let far = code == 255 && ofs == 31 * 256;
                    if far && ip2 + 1 >= input.len() {
                        None
                    } else {
                        let ip3 = if far { ip2 + 2 } else { ip2 };
                        let dist = if far {
                            input[ip2] as int * 256 + input[ip2 + 1] as int + 8191 + 1
                        } else {
                            ofs + code + 1
                        };
                        if out.len() + len > cap {
                            None
                        } else if out.len() < dist {
                            None
                        } else if ip3 >= input.len() {
                            Some(out)
                        } else {
                            lz_decode_from(input, ip3 + 1, input[ip3] as int,
                                run_copy(out, dist as nat, len as nat), cap)
                        }
                    }
                }
            },
        }
    } else {
        let n = ctrl + 1;
        if ctrl < 0 || out.len() + n > cap || ip + n > input.len() {
            None
        } else {
            let out2 = out + input.subrange(ip, ip + n);
            if ip + n >= input.len() {
                Some(out2)
            } else {
                lz_decode_from(input, ip + n + 1, input[ip + n] as int, out2, cap)
            }
        }
    }
}

/// What decoding `input` into a buffer of `cap` bytes produces, or `None` when the stream is
/// malformed or does not fit.
pub open spec fn blosclz_decode(input: Seq<u8>, cap: nat) -> Option<Seq<u8>> {
    if input.len() == 0 {
        Some(Seq::empty())
    } else {
        lz_decode_from(input, 1, (input[0] % 32) as int, Seq::empty(), cap as int)
    }
}

/// The count that a decoder returns: the length of what it produced, 0 on failure.
pub open spec fn decoded_count(d: Option<Seq<u8>>) -> nat {
    match d {
        Some(o) => o.len(),
        None => 0,
    }
}

/// Decodes `input` into `output[out_start..out_end]` and returns the number of bytes produced,
/// 0 when the stream is malformed or does not fit. Nothing outside that range is written.
pub fn decompress_at(input: &[u8], output: &mut [u8], out_start: usize, out_end: usize) -> (r: usize)
    requires
        out_start <= out_end <= old(output).len(),
    ensures
        final(output).len() == old(output).len(),
        forall|k: int| 0 <= k < out_start || out_end <= k < old(output).len()
            ==> final(output)@[k] == old(output)@[k],
        r <= out_end - out_start,
        r > 0 ==> forall|k: int| out_start + r <= k < old(output).len() ==> final(output)@[k] == old(output)@[k],
        r == decoded_count(blosclz_decode(input@, (out_end - out_start) as nat)),
        blosclz_decode(input@, (out_end - out_start) as nat) matches Some(o)
            ==> final(output)@.subrange(out_start as int, out_start + r) == o,
{
    if input.len() == 0 {
        return 0;
    }
    let ghost total = blosclz_decode(input@, (out_end - out_start) as nat);
    proof { reveal(lz_decode_from); }
    let ip_limit = input.len();
    let cap = out_end - out_start;
    let mut ip: usize = 1;
    let mut op: usize = 0;
    let mut ctrl: usize = (input[0] % 32) as usize;
    loop
        invariant
            out_start <= out_end <= output.len(),
            cap == out_end - out_start,
            ip_limit == input.len(),
            1 <= ip <= input.len(),
            op <= cap,
            ctrl < 256,
            output.len() == old(output).len(),
            forall|k: int| 0 <= k < out_start || out_end <= k < old(output).len()
                ==> output@[k] == old(output)@[k],
            forall|k: int| out_start + op <= k < old(output).len() ==> output@[k] == old(output)@[k],
            total == blosclz_decode(input@, cap as nat),
            lz_decode_from(input@, ip as int, ctrl as int,
                output@.subrange(out_start as int, out_start + op), cap as int) == total,
        decreases input.len() - ip,
    {
        proof { reveal(lz_decode_from); }
        let ghost cur = output@.subrange(out_start as int, out_start + op);
        if ctrl >= 32 {
            let mut len: usize = ctrl / 32 - 1;
            let ofs: usize = (ctrl % 32) * 256;
            let ghost ip0 = ip as int;
            let ghost len0 = len as int;
            if len == 6 {
                let ghost mut acc: int = 0;
                if len > cap {
                    proof { lemma_ext_len_bounds(input@, ip0); }
                    return 0;
                }
                loop
                    invariant_except_break
                        ext_len(input@, ip0) == (match ext_len(input@, ip as int) {
                            Some((s, n)) => Some((s + acc, n)),
                            None => None::<(int, int)>,
                        }),
                    invariant
                        ip0 <= ip <= input.len(),
                        ip_limit == input.len(),
                        0 <= acc,
                        len == 6 + acc,
                        len <= cap,
                        op <= cap,
                        cap == out_end - out_start,
                        out_start <= out_end <= output.len(),
                        ctrl >= 32, ctrl / 32 - 1 == 6, ctrl < 256,
                        ofs == (ctrl % 32) * 256,
                        cur.len() == op,
                        cur == output@.subrange(out_start as int, out_start + op),
                        total == blosclz_decode(input@, cap as nat),
                        lz_decode_from(input@, ip0, ctrl as int, cur, cap as int) == total,
                        output.len() == old(output).len(),
                        forall|k: int| 0 <= k < out_start || out_end <= k < old(output).len()
                            ==> output@[k] == old(output)@[k],
                        forall|k: int| out_start + op <= k < old(output).len() ==> output@[k] == old(output)@[k],
                    ensures
                        ext_len(input@, ip0) == Some((acc, ip as int)),
                    decreases input.len() - ip,
                {
                    proof { reveal(lz_decode_from); lemma_ext_len_bounds(input@, ip as int); }
                    if ip >= ip_limit {
                        return 0;
                    }
                    let code = input[ip];
                    ip += 1;
                    proof { lemma_ext_len_bounds(input@, ip as int); }
                    if code as usize > cap - len {
                        return 0;
                    }
                    proof { acc = acc + code as int; }
                    len = len + code as usize;
                    if code != 255 {
                        break;
                    }
                }
            }
            proof { lemma_ext_len_bounds(input@, ip0); }
            if ip >= ip_limit {
                return 0;
            }
            let code = input[ip] as usize;
            ip += 1;
            if len > cap - op || 3 > cap - op - len {
                return 0;
            }
            len = len + 3;
            let mut distance: usize = ofs + code;
            if code == 255 && ofs == 31 * 256 {
                if ip >= ip_limit - 1 {
                    return 0;
                }
                distance = (input[ip] as usize) * 256 + (input[ip + 1] as usize) + MAX_DISTANCE;
                ip += 2;
            }
            distance = distance + 1;
            if op < distance {
                return 0;
            }
            if ip >= ip_limit {
                return op;
            }
            ctrl = input[ip] as usize;
            ip += 1;
            let base = out_start + op;
            let mut i: usize = 0;
            while i < len
                invariant
                    out_start <= out_end <= output.len(),
                    cap == out_end - out_start,
                    base == out_start + op,
                    op + len <= cap,
                    1 <= distance <= op,
                    i <= len,
                    output.len() == old(output).len(),
                    forall|k: int| 0 <= k < out_start || out_end <= k < old(output).len()
                        ==> output@[k] == old(output)@[k],
                    output@.subrange(out_start as int, out_start + op) == cur,
                    forall|k: int| base + i <= k < old(output).len() ==> output@[k] == old(output)@[k],
                    forall|k: int| base <= k < base + i ==> #[trigger] output@[k]
                        == cur[op - distance + (k - base) % (distance as int)],
                decreases len - i,
            {
                let v = output[base + i - distance];
                proof {
                    if i < distance {
                        lemma_small_mod(i as nat, distance as nat);
                        assert(v == cur[op - distance + i]);
                    } else {
                        lemma_mod_sub_multiples_vanish(i as int, distance as int);
                        assert(v == output@[base + (i - distance) as int]);
                    }
                }
                output[base + i] = v;
                i += 1;
            }
            assert(output@.subrange(out_start as int, out_start + op + len)
                =~= run_copy(cur, distance as nat, len as nat));
            op = op + len;
        } else {
            let n = ctrl + 1;
            if n > cap - op {
                return 0;
            }
            if n > ip_limit - ip {
                return 0;
            }
            let base = out_start + op;
            let mut i: usize = 0;
            while i < n
                invariant
                    out_start <= out_end <= output.len(),
                    cap == out_end - out_start,
                    base == out_start + op,
                    op + n <= cap,
                    ip + n <= input.len(),
                    i <= n,
                    output.len() == old(output).len(),
                    forall|k: int| 0 <= k < out_start || out_end <= k < old(output).len()
                        ==> output@[k] == old(output)@[k],
                    output@.subrange(out_start as int, out_start + op) == cur,
                    forall|k: int| base + i <= k < old(output).len() ==> output@[k] == old(output)@[k],
                    forall|k: int| base <= k < base + i ==> #[trigger] output@[k] == input@[ip + k - base],
                decreases n - i,
            {
                output[base + i] = input[ip + i];
                i += 1;
            }
            assert(output@.subrange(out_start as int, out_start + op + n)
                =~= cur + input@.subrange(ip as int, ip + n));
            op = op + n;
            ip = ip + n;
            if ip >= ip_limit {
                return op;
            }
            ctrl = input[ip] as usize;
            ip += 1;
        }
    }
}

/// Decompresses a raw BloscLZ-compressed block into `output`.
///
/// Returns the number of bytes written to `output`, 0 when the block is malformed or does not fit.
pub fn decompress(input: &[u8], output: &mut [u8]) -> (r: usize)
    ensures
        final(output).len() == old(output).len(),
        r == decoded_count(blosclz_decode(input@, old(output).len() as nat)),
        blosclz_decode(input@, old(output).len() as nat) matches Some(o)
            ==> final(output)@.subrange(0, r as int) == o,
        r > 0 ==> final(output)@.skip(r as int) == old(output)@.skip(r as int),
{
    let n = output.len();
    decompress_at(input, output, 0, n)
}

} // verus!

verus! {

/// One token of a BloscLZ stream: a literal run, or a back-reference whose biased length
/// `len` copies `len + 2` bytes from `dist + 1` bytes back.
pub enum LzToken {
    Literal { bytes: Seq<u8> },
    Match { len: nat, dist: nat },
}

/// The bytes that encode a back-reference with biased length `len` and biased distance `dist`.
pub open spec fn enc_match(len: nat, dist: nat) -> Seq<u8> {
    if dist < 8191 {
        if len < 7 {
            seq![(len * 32 + dist / 256) as u8, (dist % 256) as u8]
        } else {
            seq![(224 + dist / 256) as u8]
                + Seq::new(((len - 7) / 255) as nat, |i: int| 255u8)
                + seq![((len - 7) % 255) as u8, (dist % 256) as u8]
        }
    } else {
        let df = (dist - 8191) as nat;
        if len < 7 {
            seq![(len * 32 + 31) as u8, 255u8, (df / 256) as u8, (df % 256) as u8]
        } else {
            seq![255u8]
                + Seq::new(((len - 7) / 255) as nat, |i: int| 255u8)
                + seq![((len - 7) % 255) as u8, 255u8, (df / 256) as u8, (df % 256) as u8]
        }
    }
}

/// The bytes that encode one token.
pub open spec fn enc_tok(t: LzToken) -> Seq<u8> {
    match t {
        LzToken::Literal { bytes } => seq![(bytes.len() - 1) as u8] + bytes,
        LzToken::Match { len, dist } => enc_match(len, dist),
    }
}

/// What one token appends to the output produced so far.
pub open spec fn tok_apply(out: Seq<u8>, t: LzToken) -> Seq<u8> {
    match t {
        LzToken::Literal { bytes } => out + bytes,
        LzToken::Match { len, dist } => run_copy(out, dist + 1, len + 2),
    }
}

/// Whether a token can be encoded and decoded after `out_len` bytes of output.
pub open spec fn tok_ok(out_len: nat, t: LzToken) -> bool {
    match t {
        LzToken::Literal { bytes } => 1 <= bytes.len() <= 32,
        LzToken::Match { len, dist } => {
            &&& 4 <= len
            &&& dist + 1 <= out_len
            &&& dist < 65535 + 8191
            &&& dist >= 8191 ==> len >= 6
        },
    }
}

/// The encoding of a token sequence.
pub open spec fn enc_toks(toks: Seq<LzToken>) -> Seq<u8>
    decreases toks.len(),
{
    if toks.len() == 0 {
        Seq::empty()
    } else {
        enc_toks(toks.drop_last()) + enc_tok(toks.last())
    }
}

/// The output that a token sequence decodes to.
pub open spec fn apply_toks(toks: Seq<LzToken>) -> Seq<u8>
    decreases toks.len(),
{
    if toks.len() == 0 {
        Seq::empty()
    } else {
        tok_apply(apply_toks(toks.drop_last()), toks.last())
    }
}

/// Every token of the sequence can be encoded and decoded where it stands.
pub open spec fn toks_ok(toks: Seq<LzToken>) -> bool
    decreases toks.len(),
{
    if toks.len() == 0 {
        true
    } else {
        toks_ok(toks.drop_last()) && tok_ok(apply_toks(toks.drop_last()).len(), toks.last())
    }
}

/// Whether the token is a literal run.
pub open spec fn is_literal(t: LzToken) -> bool {
    t is Literal
}

/// A run of `k` bytes 255 followed by a byte below 255 reads as the length extension `255 k + r`.
proof fn lemma_ext_len_run(s: Seq<u8>, p: int, k: nat)
    requires
        0 <= p,
        p + k < s.len(),
        forall|j: int| p <= j < p + k ==> s[j] == 255u8,
        s[p + k] != 255u8,
    ensures
        ext_len(s, p) == Some((255 * k + s[p + k] as int, p + k + 1)),
    decreases k,
{
    if k > 0 {
        lemma_ext_len_run(s, p + 1, (k - 1) as nat);
    }
}

proof fn lemma_enc_toks_push(toks: Seq<LzToken>, t: LzToken)
    ensures
        enc_toks(toks.push(t)) == enc_toks(toks) + enc_tok(t),
        apply_toks(toks.push(t)) == tok_apply(apply_toks(toks), t),
        toks_ok(toks.push(t)) == (toks_ok(toks) && tok_ok(apply_toks(toks).len(), t)),
{
    assert(toks.push(t).drop_last() =~= toks);
}

/// The encoding of a prefix followed by the encoding of the next token is a prefix of the
/// encoding of the whole sequence.
proof fn lemma_enc_toks_prefix(toks: Seq<LzToken>, i: int)
    requires
        0 <= i <= toks.len(),
    ensures
        enc_toks(toks.take(i)).len() <= enc_toks(toks).len(),
        enc_toks(toks).subrange(0, enc_toks(toks.take(i)).len() as int) == enc_toks(toks.take(i)),
        apply_toks(toks.take(i)).len() <= apply_toks(toks).len(),
    decreases toks.len() - i,
{
    if i == toks.len() {
        assert(toks.take(i) =~= toks);
    } else {
        lemma_enc_toks_prefix(toks, i + 1);
        let a = toks.take(i);
        let b = toks.take(i + 1);
        assert(b =~= a.push(toks[i]));
        lemma_enc_toks_push(a, toks[i]);
        lemma_apply_len_grows(apply_toks(a), toks[i]);
        assert(enc_toks(b).subrange(0, enc_toks(a).len() as int) =~= enc_toks(a));
        assert(enc_toks(toks).subrange(0, enc_toks(a).len() as int)
            =~= enc_toks(toks).subrange(0, enc_toks(b).len() as int).subrange(0, enc_toks(a).len() as int));
    }
}

proof fn lemma_apply_len_grows(out: Seq<u8>, t: LzToken)
    ensures
        tok_apply(out, t).len() >= out.len(),
        tok_apply(out, t).subrange(0, out.len() as int) == out,
{
    match t {
        LzToken::Literal { bytes } => {
            assert((out + bytes).subrange(0, out.len() as int) =~= out);
        },
        LzToken::Match { len, dist } => {
            assert(run_copy(out, dist + 1, len + 2).subrange(0, out.len() as int) =~= out);
        },
    }
}

/// Decoding from the start of token `i` of a well-formed sequence whose last token is a
/// literal run produces what the whole sequence decodes to.
proof fn lemma_decode_toks_from(s: Seq<u8>, toks: Seq<LzToken>, i: int, cap: int)
    requires
        0 <= i < toks.len(),
        toks_ok(toks),
        is_literal(toks.last()),
        s.len() == enc_toks(toks).len(),
        forall|k: int| 1 <= k < s.len() ==> s[k] == enc_toks(toks)[k],
        apply_toks(toks).len() <= cap,
    ensures
        lz_decode_from(s, enc_toks(toks.take(i)).len() + 1int, enc_tok(toks[i])[0] as int,
            apply_toks(toks.take(i)), cap) == Some(apply_toks(toks)),
    decreases toks.len() - i,
{
    let a = toks.take(i);
    let b = toks.take(i + 1);
    let t = toks[i];
    assert(b =~= a.push(t));
    lemma_enc_toks_push(a, t);
    lemma_enc_toks_prefix(toks, i + 1);
    lemma_toks_ok_prefix(toks, i + 1);
    let pos = enc_toks(a).len() as int;
    let e = enc_tok(t);
    let out = apply_toks(a);
    assert(enc_toks(b) == enc_toks(a) + e);
    assert(forall|j: int| 0 <= j < e.len() ==> enc_toks(toks)[pos + j] == e[j]) by {
        assert forall|j: int| 0 <= j < e.len() implies enc_toks(toks)[pos + j] == e[j] by {
            assert(enc_toks(toks).subrange(0, enc_toks(b).len() as int)[pos + j] == enc_toks(b)[pos + j]);
        }
    }
    let next = pos + e.len();
    let is_last = i + 1 == toks.len();
    if is_last {
        assert(b =~= toks);
    }
    if !is_last {
        lemma_decode_toks_from(s, toks, i + 1, cap);
        lemma_tok_first_byte(toks[i + 1]);
        let c = toks.take(i + 2);
        assert(c =~= b.push(toks[i + 1]));
        lemma_enc_toks_push(b, toks[i + 1]);
        lemma_enc_toks_prefix(toks, i + 2);
        assert(enc_toks(toks).subrange(0, enc_toks(c).len() as int)[next] == enc_toks(c)[next]);
        assert(s[next] == enc_tok(toks[i + 1])[0]);
    }
    lemma_enc_toks_prefix(toks, i + 1);
    assert(apply_toks(b).len() <= cap);
    assert(apply_toks(b) == tok_apply(out, t));
    assert(forall|j: int| 0 <= j < e.len() && pos + j >= 1 ==> s[pos + j] == e[j]);
    match t {
        LzToken::Literal { bytes } => {
            let n = bytes.len() as int;
            assert forall|j: int| 0 <= j < n implies s[pos + 1 + j] == bytes[j] by {
                assert(s[pos + 1 + j] == e[1 + j]);
            }
            lemma_decode_literal(s, pos, bytes, out, cap);
            if is_last {
                assert(next == s.len());
            } else {
                assert(next < s.len());
            }
        },
        LzToken::Match { len, dist } => {
            assert(tok_ok(out.len(), t));
            assert(!is_last);
            lemma_decode_match(s, pos, len, dist, out, cap);
        },
    }
}

proof fn lemma_tok_first_byte(t: LzToken)
    ensures
        enc_tok(t).len() >= 1,
{
    match t {
        LzToken::Literal { bytes } => {},
        LzToken::Match { len, dist } => {
            if dist < 8191 {
                if len >= 7 {
                    let ext = Seq::new(((len - 7) / 255) as nat, |i: int| 255u8);
                    assert(enc_match(len, dist).len() == 3 + ext.len());
                }
            } else {
                if len >= 7 {
                    let ext = Seq::new(((len - 7) / 255) as nat, |i: int| 255u8);
                    assert(enc_match(len, dist).len() == 5 + ext.len());
                }
            }
        },
    }
}

proof fn lemma_toks_ok_prefix(toks: Seq<LzToken>, i: int)
    requires
        0 <= i <= toks.len(),
        toks_ok(toks),
    ensures
        toks_ok(toks.take(i)),
        i < toks.len() ==> tok_ok(apply_toks(toks.take(i)).len(), toks[i]),
    decreases toks.len() - i,
{
    if i == toks.len() {
        assert(toks.take(i) =~= toks);
    } else {
        lemma_toks_ok_prefix(toks, i + 1);
        let a = toks.take(i);
        assert(toks.take(i + 1) =~= a.push(toks[i]));
        lemma_enc_toks_push(a, toks[i]);
    }
}

/// Decoding one literal run.
proof fn lemma_decode_literal(s: Seq<u8>, pos: int, bytes: Seq<u8>, out: Seq<u8>, cap: int)
    requires
        0 <= pos,
        1 <= bytes.len() <= 32,
        out.len() + bytes.len() <= cap,
        pos + 1 + bytes.len() <= s.len(),
        forall|j: int| 0 <= j < bytes.len() ==> s[pos + 1 + j] == bytes[j],
    ensures
        lz_decode_from(s, pos + 1, bytes.len() - 1, out, cap) == (if pos + 1 + bytes.len() >= s.len() {
            Some(out + bytes)
        } else {
            lz_decode_from(s, pos + bytes.len() + 2, s[pos + 1 + bytes.len()] as int, out + bytes, cap)
        }),
{
    reveal(lz_decode_from);
    let n = bytes.len() as int;
    assert forall|j: int| 0 <= j < n implies #[trigger] s.subrange(pos + 1, pos + 1 + n)[j] == bytes[j] by {
        assert(s[pos + 1 + j] == bytes[j]);
    }
    assert(s.subrange(pos + 1, pos + 1 + n) =~= bytes);
}

/// Decoding one match token that is followed by more input.
proof fn lemma_decode_match(s: Seq<u8>, pos: int, len: nat, dist: nat, out: Seq<u8>, cap: int)
    requires
        1 <= pos + 1,
        0 <= pos,
        tok_ok(out.len(), LzToken::Match { len, dist }),
        out.len() + len + 2 <= cap,
        pos + enc_match(len, dist).len() < s.len(),
        forall|j: int| 0 <= j < enc_match(len, dist).len() ==> s[pos + j] == enc_match(len, dist)[j],
    ensures
        lz_decode_from(s, pos + 1, enc_match(len, dist)[0] as int, out, cap)
            == lz_decode_from(s, pos + enc_match(len, dist).len() + 1,
                s[pos + enc_match(len, dist).len()] as int,
                run_copy(out, dist + 1, len + 2), cap),
{
    reveal(lz_decode_from);
    let e = enc_match(len, dist);
    if dist < 8191 {
        let hi = dist / 256;
        let lo = dist % 256;
        assert(hi < 32);
        assert(hi * 256 + lo == dist);
        if len < 7 {
            let c = len * 32 + hi;
            assert(c / 32 == len);
            assert(c % 32 == hi);
            assert(s[pos + 1] == lo as u8);
        } else {
            let k = ((len - 7) / 255) as nat;
            let r = (len - 7) % 255;
            assert(255 * k + r == len - 7);
            let c = 224 + hi;
            assert(c / 32 == 7);
            assert(c % 32 == hi);
            let ext = Seq::new(k, |i: int| 255u8);
            assert(e == seq![c as u8] + ext + seq![r as u8, lo as u8]);
            assert(e.len() == k + 3);
            assert forall|j: int| pos + 1 <= j < pos + 1 + k implies s[j] == 255u8 by {
                assert(e[j - pos] == ext[j - pos - 1]);
            }
            assert(s[pos + 1 + k] == e[1 + k as int]);
            lemma_ext_len_run(s, pos + 1, k);
            assert(s[pos + 2 + k] == e[2 + k as int]);
        }
    } else {
        let df = (dist - 8191) as nat;
        let hi = df / 256;
        let lo = df % 256;
        assert(hi * 256 + lo == df);
        assert(hi < 256);
        if len < 7 {
            assert(len == 6);
            let c = len * 32 + 31;
            assert(c / 32 == 6);
            assert(c % 32 == 31);
            assert(s[pos + 1] == 255u8);
            assert(s[pos + 2] == hi as u8);
            assert(s[pos + 3] == lo as u8);
        } else {
            let k = ((len - 7) / 255) as nat;
            let r = (len - 7) % 255;
            assert(255 * k + r == len - 7);
            let ext = Seq::new(k, |i: int| 255u8);
            assert(e == seq![255u8] + ext + seq![r as u8, 255u8, hi as u8, lo as u8]);
            assert(e.len() == k + 5);
            assert forall|j: int| pos + 1 <= j < pos + 1 + k implies s[j] == 255u8 by {
                assert(e[j - pos] == ext[j - pos - 1]);
            }
            assert(s[pos + 1 + k] == e[1 + k as int]);
            lemma_ext_len_run(s, pos + 1, k);
            assert(s[pos + 2 + k] == e[2 + k as int]);
            assert(s[pos + 3 + k] == e[3 + k as int]);
            assert(s[pos + 4 + k] == e[4 + k as int]);
        }
    }
}

proof fn lemma_enc_toks_first(toks: Seq<LzToken>)
    requires
        toks.len() > 0,
    ensures
        enc_toks(toks).len() >= 1,
        enc_toks(toks)[0] == enc_tok(toks[0])[0],
    decreases toks.len(),
{
    lemma_tok_first_byte(toks.last());
    if toks.len() == 1 {
        assert(enc_toks(toks.drop_last()) =~= Seq::<u8>::empty());
        assert(enc_toks(toks) =~= enc_tok(toks[0]));
    } else {
        lemma_enc_toks_first(toks.drop_last());
        assert(toks.drop_last()[0] == toks[0]);
    }
}

/// A token sequence whose last token is a literal run decodes back to what it stands for,
/// whatever the low five bits of the first byte carry above them.
pub proof fn lemma_decode_toks(s: Seq<u8>, toks: Seq<LzToken>, cap: int)
    requires
        toks.len() > 0,
        toks_ok(toks),
        is_literal(toks[0]),
        is_literal(toks.last()),
        s.len() == enc_toks(toks).len(),
        s[0] % 32 == enc_toks(toks)[0] % 32,
        forall|k: int| 1 <= k < s.len() ==> s[k] == enc_toks(toks)[k],
        apply_toks(toks).len() <= cap,
    ensures
        blosclz_decode(s, cap as nat) == Some(apply_toks(toks)),
{
    lemma_decode_toks_from(s, toks, 0, cap);
    let e = Seq::<LzToken>::empty();
    assert(toks.take(0) =~= e);
    assert(enc_toks(e).len() == 0);
    assert(apply_toks(e) =~= Seq::<u8>::empty());
    lemma_enc_toks_first(toks);
    lemma_toks_ok_prefix(toks, 0);
    assert(enc_tok(toks[0])[0] < 32);
}

} // verus!

verus! {

/// Copying `l` bytes from `d` back after `x[0..a]` rebuilds `x[0..a + l]` when every byte
/// in `[a, a + l)` equals the byte `d` positions before it.
pub proof fn lemma_run_copy_matches(x: Seq<u8>, a: int, d: int, l: int)
    requires
        1 <= d <= a,
        0 <= l,
        a + l <= x.len(),
        forall|k: int| a <= k < a + l ==> #[trigger] x[k] == x[k - d],
    ensures
        run_copy(x.subrange(0, a), d as nat, l as nat) == x.subrange(0, a + l),
{
    let rc = run_copy(x.subrange(0, a), d as nat, l as nat);
    assert forall|k: int| 0 <= k < a + l implies #[trigger] rc[k] == x.subrange(0, a + l)[k] by {
        if k >= a {
            lemma_run_copy_at(x, a, d, l, k - a);
        }
    }
    assert(rc =~= x.subrange(0, a + l));
}

proof fn lemma_run_copy_at(x: Seq<u8>, a: int, d: int, l: int, i: int)
    requires
        1 <= d <= a,
        0 <= i < l,
        a + l <= x.len(),
        forall|k: int| a <= k < a + l ==> #[trigger] x[k] == x[k - d],
    ensures
        x[a - d + i % d] == x[a + i],
    decreases i,
{
    if i < d {
        lemma_small_mod(i as nat, d as nat);
    } else {
        lemma_run_copy_at(x, a, d, l, i - d);
        lemma_mod_sub_multiples_vanish(i, d);
        assert(x[a + i] == x[a + i - d]);
    }
}

/// The little-endian 32-bit word at `pos`.
pub open spec fn u32_le_at(s: Seq<u8>, pos: int) -> int {
    s[pos] as int + s[pos + 1] as int * 256 + s[pos + 2] as int * 65536 + s[pos + 3] as int * 16777216
}

fn read_u32_le(input: &[u8], pos: usize) -> (r: u32)
    requires
        pos + 4 <= input.len(),
    ensures
        r as int == u32_le_at(input@, pos as int),
{
    (input[pos] as u32) + (input[pos + 1] as u32) * 256 + (input[pos + 2] as u32) * 65536
        + (input[pos + 3] as u32) * 16777216
}

/// Number of slots of the hash table for a given base-2 logarithm.
pub open spec fn hash_slots(hashlog: usize) -> nat {
    if hashlog == 0 { 1 } else if hashlog == 12 { 4096 } else if hashlog == 13 { 8192 } else { 16384 }
}

/// Whether `hashlog` is one of the table sizes that the compressor uses.
pub open spec fn hashlog_ok(hashlog: usize) -> bool {
    hashlog == 0 || hashlog == 12 || hashlog == 13 || hashlog == 14
}

/// The hash of the four bytes `seq` in a table of `2^hashlog` slots: the top `hashlog` bits
/// of `seq * 2654435761` (mod `2^32`), or slot 0 for a one-slot table.
pub open spec fn hash_spec(seq: u32, hashlog: usize) -> usize {
    if hashlog == 0 { 0 } else { (seq.wrapping_mul(2654435761u32) >> ((32 - hashlog) as u32)) as usize }
}

fn hash_function(seq: u32, hashlog: usize) -> (r: usize)
    requires
        hashlog_ok(hashlog),
    ensures
        r == hash_spec(seq, hashlog),
        r < hash_slots(hashlog),
{
    if hashlog == 0 {
        return 0;
    }
    let v = seq.wrapping_mul(2654435761u32);
    let sh: u32 = (32 - hashlog) as u32;
    let h = v >> sh;
    assert(sh == 20u32 ==> (v >> sh) < 4096u32) by (bit_vector);
    assert(sh == 19u32 ==> (v >> sh) < 8192u32) by (bit_vector);
    assert(sh == 18u32 ==> (v >> sh) < 16384u32) by (bit_vector);
    h as usize
}

/// Where extending a match from `p` against `r` stops: one past the first byte that differs,
/// or `bound`.
pub open spec fn match_end(input: Seq<u8>, p: int, bound: int, r: int) -> int
    decreases bound - p,
{
    if p >= bound || r < 0 || r >= input.len() || p < 0 || p >= input.len() {
        p
    } else if input[r] != input[p] {
        p + 1
    } else {
        match_end(input, p + 1, bound, r + 1)
    }
}

/// Where extending a run of the byte `x` from `p`, reading at `r`, stops: at the first read
/// byte that differs from `x`, or at `bound`.
pub open spec fn run_end(input: Seq<u8>, p: int, bound: int, r: int, x: u8) -> int
    decreases bound - p,
{
    if p >= bound || r < 0 || r >= input.len() || input[r] != x {
        p
    } else {
        run_end(input, p + 1, bound, r + 1, x)
    }
}

/// Extends a match: starting at `ip` against `ref_pos`, compares byte by byte while below
/// `ip_bound` and returns the position one past the first mismatching byte, or `ip_bound`.
fn get_match(input: &[u8], ip: usize, ip_bound: usize, ref_pos: usize) -> (e: usize)
    requires
        ref_pos < ip,
        ip_bound <= input.len(),
    ensures
        e == match_end(input@, ip as int, ip_bound as int, ref_pos as int),
        ip < ip_bound ==> ip < e <= ip_bound,
        ip >= ip_bound ==> e == ip,
        forall|k: int| ip <= k < e - 1 ==> #[trigger] input@[k] == input@[k - (ip - ref_pos)],
{
    let mut p = ip;
    let mut r = ref_pos;
    while p < ip_bound
        invariant_except_break
            forall|k: int| ip <= k < p ==> #[trigger] input@[k] == input@[k - (ip - ref_pos)],
            match_end(input@, p as int, ip_bound as int, r as int) == match_end(input@, ip as int, ip_bound as int, ref_pos as int),
        invariant
            ip <= p,
            ip < ip_bound ==> p <= ip_bound,
            ip >= ip_bound ==> p == ip,
            r == p - (ip - ref_pos),
            r < p,
            ip_bound <= input.len(),
        ensures
            p == match_end(input@, ip as int, ip_bound as int, ref_pos as int),
            ip < ip_bound ==> ip < p <= ip_bound,
            ip >= ip_bound ==> p == ip,
            forall|k: int| ip <= k < p - 1 ==> #[trigger] input@[k] == input@[k - (ip - ref_pos)],
        decreases ip_bound - p,
    {
        let m = input[r] == input[p];
        r += 1;
        p += 1;
        if !m {
            assert(match_end(input@, p - 1, ip_bound as int, r - 1) == p);
            break;
        }
    }
    p
}

/// Extends a run of the byte before `ip`: advances while the byte at the reference position
/// equals it and `ip` is below `ip_bound`, and returns where it stopped.
fn get_run(input: &[u8], ip: usize, ip_bound: usize, ref_pos: usize) -> (e: usize)
    requires
        1 <= ip <= input.len(),
        ref_pos < ip,
        ip_bound <= input.len(),
    ensures
        e == run_end(input@, ip as int, ip_bound as int, ref_pos as int, input@[ip - 1]),
        ip <= e,
        e <= ip || e <= ip_bound,
        forall|k: int| ref_pos <= k < ref_pos + (e - ip) ==> #[trigger] input@[k] == input@[ip - 1],
        e < ip_bound ==> input@[ref_pos + (e - ip)] != input@[ip - 1],
{
    let x = input[ip - 1];
    let mut p = ip;
    let mut r = ref_pos;
    while p < ip_bound && input[r] == x
        invariant
            ip <= p,
            p <= ip || p <= ip_bound,
            r == ref_pos + (p - ip),
            r < p,
            ip_bound <= input.len(),
            x == input@[ip - 1],
            forall|k: int| ref_pos <= k < r ==> input@[k] == x,
            run_end(input@, p as int, ip_bound as int, r as int, x) == run_end(input@, ip as int, ip_bound as int, ref_pos as int, x),
        decreases ip_bound - p,
    {
        r += 1;
        p += 1;
    }
    p
}

} // verus!

verus! {

/// The estimated compression ratio of a probe, as the fraction `input_bytes / output_bytes`;
/// `None` stands for an unbounded ratio (a probe too short to judge).
pub struct ProbeRatio {
    pub input_bytes: usize,
    pub output_bytes: u128,
}

/// The state of the entropy probe: (position, bytes an encoding would take so far, length of the
/// open literal run, hash table of positions relative to the start of the probe).
pub type ProbeState = (int, int, int, Seq<usize>);

/// One literal byte in the probe: one more byte, and a control byte for every 32.
pub open spec fn probe_literal(st: ProbeState, htab: Seq<usize>) -> ProbeState {
    (st.0 + 1, st.1 + 1 + (if st.2 + 1 == 32 { 1int } else { 0int }),
        if st.2 + 1 == 32 { 0int } else { st.2 + 1 }, htab)
}

/// One step of the probe at `st.0`: the match finder's lookup and extension (relative to
/// `base`, extended up to `bound`), then the count for a literal or a match of at least
/// `minlen`.
pub open spec fn probe_step(input: Seq<u8>, base: int, bound: int, minlen: int, hashlog: usize, st: ProbeState)
    -> ProbeState
{
    let anchor = st.0;
    let hval = slot_at(input, hashlog, anchor);
    let rf = base + st.3[hval] as int;
    let distance = anchor - rf;
    let htab1 = st.3.update(hval, (anchor - base) as usize);
    if distance == 0 || distance >= MAX_FARDISTANCE || !(input[rf] == input[anchor]
        && input[rf + 1] == input[anchor + 1] && input[rf + 2] == input[anchor + 2]
        && input[rf + 3] == input[anchor + 3]) {
        probe_literal(st, htab1)
    } else {
        let dist = distance - 1;
        let e = if dist == 0 {
            run_end(input, anchor + 4, bound, rf + 4, input[anchor + 3])
        } else {
            match_end(input, anchor + 4, bound, rf + 4)
        };
        let ip2 = e - 4;
        let len = ip2 - anchor;
        if len < minlen {
            probe_literal(st, htab1)
        } else {
            let oc = (if st.2 == 0 { st.1 - 1 } else { st.1 })
                + (if len >= 7 { (len - 7) / 255 + 1 } else { 0 })
                + (if dist < MAX_DISTANCE { 2int } else { 4int });
            let htab2 = if ip2 + 4 <= input.len() {
                htab1.update(slot_at(input, hashlog, ip2), (ip2 - base) as usize)
            } else {
                htab1
            };
            (ip2 + 2, oc + 1, 0, htab2)
        }
    }
}

/// The probe's steps from `st` until the position reaches `limit`.
pub open spec fn probe_run(input: Seq<u8>, base: int, bound: int, limit: int, minlen: int, hashlog: usize,
    st: ProbeState) -> ProbeState
    decreases limit - st.0,
{
    if st.0 >= limit {
        st
    } else {
        let nx = probe_step(input, base, bound, minlen, hashlog, st);
        if nx.0 <= st.0 || nx.0 >= limit {
            nx
        } else {
            probe_run(input, base, bound, limit, minlen, hashlog, nx)
        }
    }
}

/// The length of the probe over `maxlen` bytes with a table of `2^hashlog` slots.
pub open spec fn probe_limit(maxlen: int, hashlog: usize) -> int {
    if maxlen > hash_slots(hashlog) { hash_slots(hashlog) as int } else { maxlen }
}

/// Where the probe from `base` ends.
pub open spec fn probe_final(input: Seq<u8>, base: int, maxlen: int, minlen: int, hashlog: usize) -> ProbeState {
    let limit = probe_limit(maxlen, hashlog);
    probe_run(input, base, base + limit - 1, base + limit - 12, minlen, hashlog,
        (base, 5, 4, Seq::new(hash_slots(hashlog), |i: int| 0usize)))
}

/// The probe's ratio: `None` for fewer than 13 bytes to probe, else the bytes probed over the
/// bytes an encoding would take.
pub open spec fn cratio_spec(input: Seq<u8>, base: int, maxlen: int, minlen: int, hashlog: usize) -> Option<ProbeRatio> {
    if probe_limit(maxlen, hashlog) < 13 {
        None
    } else {
        let fin = probe_final(input, base, maxlen, minlen, hashlog);
        Some(ProbeRatio { input_bytes: (fin.0 - base) as usize, output_bytes: fin.1 as u128 })
    }
}

/// Entropy probe: runs the match finder over `input[base..base + min(maxlen, table size)]`,
/// counting the bytes that an encoding would take, and returns the estimated ratio.
#[verifier::rlimit(100)]
#[verifier::spinoff_prover]
fn get_cratio(
    input: &[u8],
    base: usize,
    maxlen: usize,
    minlen: usize,
    ipshift: usize,
    htab: &mut Vec<usize>,
    hashlog: usize,
) -> (r: Option<ProbeRatio>)
    requires
        hashlog_ok(hashlog),
        old(htab).len() == hash_slots(hashlog),
        base + maxlen <= input.len(),
        ipshift == 4,
    ensures
        r == cratio_spec(input@, base as int, maxlen as int, minlen as int, hashlog),
        final(htab)@ == if probe_limit(maxlen as int, hashlog) < 13 { old(htab)@ } else {
            probe_final(input@, base as int, maxlen as int, minlen as int, hashlog).3
        },
        final(htab).len() == old(htab).len(),
        r matches Some(p) ==> 0 < p.output_bytes <= 5 + 3 * p.input_bytes,
{
    let hashlen: usize = htab.len();
    let limit = if maxlen > hashlen { hashlen } else { maxlen };
    if limit < 13 {
        return None;
    }
    let ip_bound = base + limit - 1;
    let ip_limit_probe = base + limit - 12;
    let mut i: usize = 0;
    while i < hashlen
        invariant
            htab.len() == hashlen,
            i <= hashlen,
            forall|j: int| 0 <= j < i ==> htab@[j] == 0,
        decreases hashlen - i,
    {
        htab.set(i, 0);
        i += 1;
    }
    let mut ip: usize = base;
    let mut oc: u128 = 5;
    let mut copy: usize = 4;
    let ghost fin = probe_final(input@, base as int, maxlen as int, minlen as int, hashlog);
    assert(htab@ =~= Seq::new(hash_slots(hashlog), |i: int| 0usize));
    while ip < ip_limit_probe
        invariant
            fin == probe_final(input@, base as int, maxlen as int, minlen as int, hashlog),
            limit == probe_limit(maxlen as int, hashlog),
            probe_run(input@, base as int, ip_bound as int, ip_limit_probe as int, minlen as int, hashlog,
                (ip as int, oc as int, copy as int, htab@)) == fin,
            htab.len() == hashlen,
            hashlen == hash_slots(hashlog),
            hashlog_ok(hashlog),
            base <= ip,
            ip_limit_probe == base + limit - 12,
            ip_bound == base + limit - 1,
            base + limit <= input.len(),
            13 <= limit,
            ipshift == 4,
            ip < ip_limit_probe + 16,
            forall|j: int| 0 <= j < hashlen ==> base + htab@[j] <= ip,
            5 <= oc <= 5 + 3 * (ip - base),
            copy == 0 ==> oc >= 6,
            copy < MAX_COPY,
        decreases ip_limit_probe + 16 - ip,
    {
        let ghost st: ProbeState = (ip as int, oc as int, copy as int, htab@);
        let anchor = ip;
        let seq = read_u32_le(input, ip);
        let hval = hash_function(seq, hashlog);
        let ref_pos = base + htab[hval];
        let distance = anchor - ref_pos;
        htab.set(hval, anchor - base);
        let mut literal = distance == 0 || distance >= MAX_FARDISTANCE;
        if !literal {
            if !(input[ref_pos] == input[ip] && input[ref_pos + 1] == input[ip + 1]
                && input[ref_pos + 2] == input[ip + 2] && input[ref_pos + 3] == input[ip + 3]) {
                literal = true;
            }
        }
        let mut len: usize = 0;
        let mut dist: usize = 0;
        if !literal {
            ip = anchor + 4;
            dist = distance - 1;
            let ref_after = ref_pos + 4;
            if dist == 0 {
                ip = get_run(input, ip, ip_bound, ref_after);
            } else {
                ip = get_match(input, ip, ip_bound, ref_after);
            }
            ip = ip - ipshift;
            len = ip - anchor;
            if len < minlen {
                literal = true;
            }
        }
        if literal {
            oc += 1;
            ip = anchor + 1;
            copy += 1;
            if copy == MAX_COPY {
                copy = 0;
                oc += 1;
            }
        } else {
            if copy == 0 {
                oc -= 1;
            }
            copy = 0;
            if len >= 7 {
                oc += ((len - 7) / 255) as u128 + 1;
            }
            if dist < MAX_DISTANCE {
                oc += 2;
            } else {
                oc += 4;
            }
            if ip + 4 <= input.len() {
                let seq2 = read_u32_le(input, ip);
                let hval2 = hash_function(seq2, hashlog);
                htab.set(hval2, ip - base);
            }
            ip += 2;
            oc += 1;
        }
        proof {
            let nx: ProbeState = (ip as int, oc as int, copy as int, htab@);
            assert(probe_step(input@, base as int, ip_bound as int, minlen as int, hashlog, st) == nx);
            assert(nx.0 > st.0);
        }
    }
    Some(ProbeRatio { input_bytes: ip - base, output_bytes: oc })
}

/// A hundred times the ratio threshold of compression level `clevel`.
pub open spec fn threshold100(clevel: i32) -> int {
    if clevel == 0 { 0 } else if clevel == 1 { 200 } else if clevel == 2 { 150 } else if clevel <= 6 { 120 }
    else if clevel == 7 { 115 } else if clevel == 8 { 110 } else { 100 }
}

/// Whether a probe's ratio `input_bytes / output_bytes` is below the threshold of `clevel`; an
/// unbounded ratio (`None`) never is.
pub open spec fn ratio_below_spec(r: Option<ProbeRatio>, clevel: i32) -> bool {
    match r {
        None => false,
        Some(p) => p.input_bytes * 100 < p.output_bytes * threshold100(clevel),
    }
}

/// Whether a probe's ratio falls below the threshold of compression level `clevel`
/// (thresholds 0, 2, 1.5, 1.2, 1.2, 1.2, 1.2, 1.15, 1.1, 1.0 for levels 0 to 9).
fn ratio_below_threshold(r: &Option<ProbeRatio>, clevel: i32) -> (b: bool)
    requires
        0 <= clevel <= 9,
        r matches Some(p) ==> p.output_bytes <= 5 + 3 * p.input_bytes,
    ensures
        b == ratio_below_spec(*r, clevel),
{
    match r {
        None => false,
        Some(p) => {
            let t100: u128 = if clevel == 0 { 0 } else if clevel == 1 { 200 } else if clevel == 2 {
                150
            } else if clevel <= 6 { 120 } else if clevel == 7 { 115 } else if clevel == 8 { 110 } else {
                100
            };
            (p.input_bytes as u128) * 100 < (p.output_bytes as u128) * t100
        },
    }
}

} // verus!

verus! {

/// The literal run of the `copy` bytes before `ip`.
pub open spec fn lit_run(input: Seq<u8>, ip: int, copy: int) -> LzToken {
    LzToken::Literal { bytes: input.subrange(ip - copy, ip) }
}

/// The compressor's state between steps: position, length of the open literal run, hash table,
/// and the tokens closed so far.
pub type EncState = (int, int, Seq<usize>, Seq<LzToken>);

/// One literal byte: the open run grows, and is closed at 32 bytes.
pub open spec fn enc_literal(input: Seq<u8>, st: EncState, htab: Seq<usize>) -> EncState {
    if st.1 + 1 == 32 {
        (st.0 + 1, 0, htab, st.3.push(lit_run(input, st.0 + 1, 32)))
    } else {
        (st.0 + 1, st.1 + 1, htab, st.3)
    }
}

/// One step of the compressor's main loop at `st.0`: the match finder's lookup, then a literal,
/// or the open run closed and the match taken, with the positions after the match hashed.
#[verifier::opaque]
pub open spec fn enc_step(input: Seq<u8>, clevel: i32, hashlog: usize, st: EncState) -> EncState {
    let anchor = st.0;
    let htab1 = st.2.update(slot_at(input, hashlog, anchor), anchor as usize);
    match match_at(input, st.2, hashlog, anchor) {
        None => enc_literal(input, st, htab1),
        Some((len, dist)) => {
            let closed = if st.1 > 0 { st.3.push(lit_run(input, anchor, st.1)) } else { st.3 };
            let toks = closed.push(LzToken::Match { len: len as nat, dist: dist as nat });
            let ip = anchor + len;
            let htab2 = if ip + 4 <= input.len() {
                let h1 = htab1.update(slot_at(input, hashlog, ip), ip as usize);
                if clevel == 9 {
                    h1.update(hash_spec((u32_le_at(input, ip) as u32) >> 8u32, hashlog) as int, (ip + 1) as usize)
                } else {
                    h1
                }
            } else {
                htab1
            };
            (ip + 2, 0, htab2, toks)
        },
    }
}

/// The main loop's steps from `st` until the position reaches `limit`.
#[verifier::opaque]
pub open spec fn enc_loop(input: Seq<u8>, clevel: i32, hashlog: usize, limit: int, st: EncState) -> EncState
    decreases limit - st.0,
{
    if st.0 >= limit {
        st
    } else {
        let nx = enc_step(input, clevel, hashlog, st);
        if nx.0 <= st.0 || nx.0 >= limit { nx } else { enc_loop(input, clevel, hashlog, limit, nx) }
    }
}

/// The remaining bytes from `st.0` on, as literals.
#[verifier::opaque]
pub open spec fn enc_tail(input: Seq<u8>, st: EncState) -> EncState
    decreases input.len() - st.0,
{
    if st.0 >= input.len() { st } else { enc_tail(input, enc_literal(input, st, st.2)) }
}

/// A step of the main loop where no match is taken is a literal.
proof fn lemma_enc_step_literal(input: Seq<u8>, clevel: i32, hashlog: usize, st: EncState)
    requires
        match_at(input, st.2, hashlog, st.0) is None,
    ensures
        enc_step(input, clevel, hashlog, st)
            == enc_literal(input, st, st.2.update(slot_at(input, hashlog, st.0), st.0 as usize)),
{
    reveal(enc_step);
}

/// A step of the main loop where a match is taken.
proof fn lemma_enc_step_match(input: Seq<u8>, clevel: i32, hashlog: usize, st: EncState, len: int, dist: int)
    requires
        match_at(input, st.2, hashlog, st.0) == Some((len, dist)),
    ensures
        ({
            let anchor = st.0;
            let htab1 = st.2.update(slot_at(input, hashlog, anchor), anchor as usize);
            let closed = if st.1 > 0 { st.3.push(lit_run(input, anchor, st.1)) } else { st.3 };
            let ip = anchor + len;
            let htab2 = if ip + 4 <= input.len() {
                let h1 = htab1.update(slot_at(input, hashlog, ip), ip as usize);
                if clevel == 9 {
                    h1.update(hash_spec((u32_le_at(input, ip) as u32) >> 8u32, hashlog) as int, (ip + 1) as usize)
                } else {
                    h1
                }
            } else {
                htab1
            };
            enc_step(input, clevel, hashlog, st)
                == (ip + 2, 0int, htab2, closed.push(LzToken::Match { len: len as nat, dist: dist as nat }))
        }),
{
    reveal(enc_step);
}

/// The main loop goes on from the next state, or stops once the position reaches the limit.
proof fn lemma_enc_loop_unfold(input: Seq<u8>, clevel: i32, hashlog: usize, limit: int, st: EncState, nx: EncState)
    requires
        nx == enc_step(input, clevel, hashlog, st),
        st.0 < limit ==> nx.0 > st.0,
    ensures
        st.0 < limit ==> enc_loop(input, clevel, hashlog, limit, st) == enc_loop(input, clevel, hashlog, limit, nx),
        st.0 >= limit ==> enc_loop(input, clevel, hashlog, limit, st) == st,
{
    reveal(enc_loop);
    if st.0 < limit && nx.0 >= limit {
        reveal(enc_loop);
        assert(enc_loop(input, clevel, hashlog, limit, nx) == nx);
    }
}

/// The tail goes on from the next literal, or stops at the end of the input.
proof fn lemma_enc_tail_unfold(input: Seq<u8>, st: EncState)
    ensures
        st.0 < input.len() ==> enc_tail(input, st) == enc_tail(input, enc_literal(input, st, st.2)),
        st.0 >= input.len() ==> enc_tail(input, st) == st,
{
    reveal(enc_tail);
}

/// The output position of a compressor state: the closed tokens' bytes, then the open run's
/// control byte and literals.
pub open spec fn enc_op(st: EncState) -> int {
    enc_toks(st.3).len() + 1 + st.1
}

/// Whether one step of the main loop finds room in `room` bytes of output: two bytes for a
/// literal; for a match, its encoding and the control byte of the next run.
pub open spec fn enc_step_fits(input: Seq<u8>, hashlog: usize, room: int, st: EncState) -> bool {
    match match_at(input, st.2, hashlog, st.0) {
        None => enc_op(st) + 2 <= room,
        Some((len, dist)) => enc_op(st) - (if st.1 == 0 { 1int } else { 0int })
            + enc_match(len as nat, dist as nat).len() + 1 <= room,
    }
}

/// Whether every step of the main loop from `st` finds room.
#[verifier::opaque]
pub open spec fn enc_loop_fits(input: Seq<u8>, clevel: i32, hashlog: usize, limit: int, room: int, st: EncState) -> bool
    decreases limit - st.0,
{
    if st.0 >= limit {
        true
    } else {
        let nx = enc_step(input, clevel, hashlog, st);
        enc_step_fits(input, hashlog, room, st)
            && (nx.0 <= st.0 || nx.0 >= limit || enc_loop_fits(input, clevel, hashlog, limit, room, nx))
    }
}

/// Whether every literal of the tail from `st` finds room (two bytes each).
#[verifier::opaque]
pub open spec fn enc_tail_fits(input: Seq<u8>, room: int, st: EncState) -> bool
    decreases input.len() - st.0,
{
    if st.0 >= input.len() {
        true
    } else {
        enc_op(st) + 2 <= room && enc_tail_fits(input, room, enc_literal(input, st, st.2))
    }
}

proof fn lemma_enc_loop_fits_unfold(input: Seq<u8>, clevel: i32, hashlog: usize, limit: int, room: int, st: EncState,
    nx: EncState)
    requires
        nx == enc_step(input, clevel, hashlog, st),
        st.0 < limit ==> nx.0 > st.0,
    ensures
        st.0 < limit ==> enc_loop_fits(input, clevel, hashlog, limit, room, st)
            == (enc_step_fits(input, hashlog, room, st) && (nx.0 >= limit
                || enc_loop_fits(input, clevel, hashlog, limit, room, nx))),
        st.0 >= limit ==> enc_loop_fits(input, clevel, hashlog, limit, room, st),
{
    reveal(enc_loop_fits);
}

/// A step that finds room leaves the question to the next state; one that does not ends it.
proof fn lemma_enc_loop_fits_step(input: Seq<u8>, clevel: i32, hashlog: usize, limit: int, room: int,
    st: EncState, nx: EncState)
    requires
        nx == enc_step(input, clevel, hashlog, st),
        st.0 < limit,
        nx.0 > st.0,
    ensures
        enc_step_fits(input, hashlog, room, st) ==> enc_loop_fits(input, clevel, hashlog, limit, room, st)
            == enc_loop_fits(input, clevel, hashlog, limit, room, nx),
        !enc_step_fits(input, hashlog, room, st) ==> !enc_loop_fits(input, clevel, hashlog, limit, room, st),
{
    reveal(enc_loop_fits);
}

proof fn lemma_enc_loop_fits_fail(input: Seq<u8>, clevel: i32, hashlog: usize, limit: int, room: int, st: EncState)
    requires
        st.0 < limit,
        !enc_step_fits(input, hashlog, room, st),
    ensures
        !enc_loop_fits(input, clevel, hashlog, limit, room, st),
{
    reveal(enc_loop_fits);
}

proof fn lemma_enc_loop_fits_done(input: Seq<u8>, clevel: i32, hashlog: usize, limit: int, room: int, st: EncState)
    requires
        st.0 >= limit,
    ensures
        enc_loop_fits(input, clevel, hashlog, limit, room, st),
{
    reveal(enc_loop_fits);
}

proof fn lemma_enc_tail_fits_unfold(input: Seq<u8>, room: int, st: EncState)
    ensures
        st.0 < input.len() ==> enc_tail_fits(input, room, st)
            == (enc_op(st) + 2 <= room && enc_tail_fits(input, room, enc_literal(input, st, st.2))),
        st.0 >= input.len() ==> enc_tail_fits(input, room, st),
{
    reveal(enc_tail_fits);
}

/// The compressor's first state: four literals in an open run, an empty hash table.
pub open spec fn enc_start(clevel: i32) -> EncState {
    (4, 4, Seq::new(hash_slots(clevel_hashlog(clevel)), |i: int| 0usize), Seq::empty())
}

/// Whether the compressor finds room for its whole stream in `room` bytes of output.
pub open spec fn enc_fits(input: Seq<u8>, clevel: i32, room: int) -> bool {
    let hashlog = clevel_hashlog(clevel);
    &&& enc_loop_fits(input, clevel, hashlog, input.len() - 12, room, enc_start(clevel))
    &&& enc_tail_fits(input, room, enc_loop(input, clevel, hashlog, input.len() - 12, enc_start(clevel)))
}

/// What the compressor returns for `input` at level `clevel` with `room` bytes of output: 0 for
/// an input under 16 bytes, a room under 66 bytes, a probe below the level's threshold, or a
/// stream that runs out of room; else the length of [`blosclz_stream`].
#[verifier::opaque]
pub open spec fn blosclz_result(input: Seq<u8>, clevel: i32, room: int) -> nat {
    if input.len() < 16 || room < 66 || ratio_below_spec(compress_probe(input, clevel), clevel) {
        0
    } else if enc_fits(input, clevel, room) {
        blosclz_stream(input, clevel).len()
    } else {
        0
    }
}

/// The tokens the compressor writes for `input` at level `clevel`: four literals, the main loop
/// up to twelve bytes before the end, literals for the rest, and the open run closed.
pub open spec fn blosclz_tokens(input: Seq<u8>, clevel: i32) -> Seq<LzToken> {
    let hashlog = clevel_hashlog(clevel);
    let start: EncState = (4, 4, Seq::new(hash_slots(hashlog), |i: int| 0usize), Seq::empty());
    tail_tokens(input, enc_loop(input, clevel, hashlog, input.len() - 12, start))
}

/// The stream the compressor writes for `input` at level `clevel`: the encoding of
/// [`blosclz_tokens`], with bit 5 of its first byte set as the format's mark.
pub open spec fn blosclz_stream(input: Seq<u8>, clevel: i32) -> Seq<u8> {
    marked(enc_toks(blosclz_tokens(input, clevel)))
}

/// The compressor's state between tokens: `output[ob..]` holds the encoding of the closed
/// tokens, then the control byte of the open literal run (31 until it is closed) and the
/// `copy` literal bytes of that run; the closed tokens and the open run stand for
/// `input[0..ip]`.
spec fn lz_state(out: Seq<u8>, ob: int, input: Seq<u8>, ip: int, op: int, copy: int, toks: Seq<LzToken>) -> bool {
    &&& 0 <= copy < 32
    &&& 0 <= ob
    &&& ob + op <= out.len()
    &&& copy + 1 <= op
    &&& copy <= ip <= input.len()
    &&& out.subrange(ob, ob + op - copy - 1) == enc_toks(toks)
    &&& out[ob + op - copy - 1] == 31u8
    &&& out.subrange(ob + op - copy, ob + op) == input.subrange(ip - copy, ip)
    &&& apply_toks(toks) == input.subrange(0, ip - copy)
    &&& toks_ok(toks)
    &&& toks.len() > 0 ==> is_literal(toks[0])
    &&& toks.len() == 0 ==> copy > 0 && ip == copy
    &&& (copy == 0 && toks.len() > 0 && !is_literal(toks.last())) ==> ip + 3 <= input.len()
}

/// Appends `input[ip]` to the open literal run, closing the run when it reaches 32 bytes and
/// opening the next one.
fn emit_literal(
    output: &mut [u8],
    ob: usize,
    input: &[u8],
    ip: usize,
    op: usize,
    copy: usize,
    Ghost(toks): Ghost<Seq<LzToken>>,
    Ghost(good): Ghost<bool>,
) -> (res: (usize, usize, Ghost<Seq<LzToken>>))
    requires
        ob + op + 2 <= old(output).len(),
        ip < input.len(),
        copy < 32,
        copy + 1 <= op,
        good ==> lz_state(old(output)@, ob as int, input@, ip as int, op as int, copy as int, toks),
    ensures
        final(output).len() == old(output).len(),
        forall|k: int| 0 <= k < ob + op ==> final(output)@[k] == old(output)@[k],
        res.1 == (copy + 1) % 32,
        res.0 == op + 1 + (if res.1 == 0 { 1int } else { 0int }),
        res.1 + 1 <= res.0,
        good ==> lz_state(final(output)@, ob as int, input@, ip + 1, res.0 as int, res.1 as int, res.2@),
        good ==> res.2@ == (if res.1 == 0 { toks.push(lit_run(input@, ip + 1, 32)) } else { toks }),
{
    let ghost old_out = output@;
    output[ob + op] = input[ip];
    let mut op = op + 1;
    let mut copy = copy + 1;
    let ghost mut toks2 = toks;
    proof {
        if good {
            assert(output@.subrange(ob + op - copy, ob + op as int)
                =~= input@.subrange(ip + 1 - copy, ip + 1));
            assert(output@.subrange(ob as int, ob + op - copy - 1)
                =~= old_out.subrange(ob as int, ob + op - copy - 1));
        }
    }
    if copy == MAX_COPY {
        let ghost run = input@.subrange(ip + 1 - 32, ip + 1);
        proof {
            if good {
                let t = LzToken::Literal { bytes: run };
                lemma_enc_toks_push(toks, t);
                assert(output@.subrange(ob as int, ob + op) =~= enc_toks(toks) + enc_tok(t));
                assert(input@.subrange(0, ip + 1) =~= input@.subrange(0, ip + 1 - 32) + run);
                toks2 = toks.push(t);
                if toks.len() > 0 {
                    assert(toks2[0] == toks[0]);
                }
            }
        }
        copy = 0;
        output[ob + op] = (MAX_COPY - 1) as u8;
        op += 1;
        proof {
            if good {
                assert(output@.subrange(ob as int, ob + op - 1) =~= enc_toks(toks2));
                assert(output@.subrange(ob + op, ob + op as int) =~= input@.subrange(ip + 1, ip + 1));
            }
        }
    }
    (op, copy, Ghost(toks2))
}

/// How writing a match ended: with the new output position, or at the output limit
/// (`Full` where the compressor gives up, `FarFull` where it stops the main loop).
enum MatchWrite {
    Written(usize),
    Full,
    FarFull,
}

/// `new` is `old` with the first `w` bytes of `e` written at `at`.
pub open spec fn prefix_written(old: Seq<u8>, new: Seq<u8>, at: int, e: Seq<u8>, w: int) -> bool {
    &&& 0 <= at
    &&& 0 <= w <= e.len()
    &&& at + w <= old.len()
    &&& new == old.subrange(0, at) + e.subrange(0, w) + old.skip(at + w)
}

/// Whether the encoding of a match with biased length `len` and distance `dist` fits in
/// `room` bytes after `op`.
pub open spec fn match_fits(op: int, room: int, len: nat, dist: nat) -> bool {
    op + enc_match(len, dist).len() <= room
}

proof fn lemma_ext_index(len: nat, k: nat)
    requires
        7 <= len,
        255 * k <= len - 7,
    ensures
        k <= (len - 7) / 255,
{
    vstd::arithmetic::div_mod::lemma_fundamental_div_mod((len - 7) as int, 255);
    assert(k <= (len - 7) / 255) by (nonlinear_arith)
        requires 255 * k <= len - 7, len - 7 == 255 * ((len - 7) / 255) + (len - 7) % 255,
            (len - 7) % 255 < 255;
}

/// What writing a match leaves: the output with a prefix of the encoding written at
/// `ob + op_start`; the whole encoding (`Written` with the new position) exactly where it fits,
/// and otherwise `FarFull` for a short far match and `Full` for the others.
spec fn match_written(old: Seq<u8>, new: Seq<u8>, ob: int, op_start: int, len: nat, dist: nat,
    r: MatchWrite) -> bool
{
    let e = enc_match(len, dist);
    let fits = match_fits(op_start, old.len() - ob, len, dist);
    &&& new.len() == old.len()
    &&& (r is Written) == fits
    &&& (r is FarFull) == (!fits && dist >= 8191 && len < 7)
    &&& (r matches MatchWrite::Written(o) ==> o == op_start + e.len())
    &&& (fits ==> prefix_written(old, new, ob + op_start, e, e.len() as int))
    &&& exists|w: int| #[trigger] prefix_written(old, new, ob + op_start, e, w)
}

fn write_short_near(output: &mut [u8], ob: usize, op_start: usize, len: usize, dist: usize) -> (r: MatchWrite)
    requires
        ob + op_start <= old(output).len(),
        4 <= len < 7,
        dist < MAX_DISTANCE,
    ensures
        match_written(old(output)@, final(output)@, ob as int, op_start as int, len as nat, dist as nat, r),
{
    let ghost e = enc_match(len as nat, dist as nat);
    let ghost at = (ob + op_start) as int;
    let ghost o0 = old(output)@;
    assert(output@ =~= o0.subrange(0, at) + e.subrange(0, 0) + o0.skip(at));
    assert(prefix_written(o0, output@, at, e, 0));
    if output.len() - ob - op_start < 2 {
        return MatchWrite::Full;
    }
    output[ob + op_start] = (len * 32 + dist / 256) as u8;
    output[ob + op_start + 1] = (dist % 256) as u8;
    assert(e.len() == 2);
    assert(output@ =~= o0.subrange(0, at) + e.subrange(0, 2) + o0.skip(at + 2));
    assert(prefix_written(o0, output@, at, e, 2));
    assert(match_fits(op_start as int, o0.len() - ob, len as nat, dist as nat));
    MatchWrite::Written(op_start + 2)
}

fn write_short_far(output: &mut [u8], ob: usize, op_start: usize, len: usize, dist: usize) -> (r: MatchWrite)
    requires
        ob + op_start <= old(output).len(),
        4 <= len < 7,
        MAX_DISTANCE <= dist < 65535 + MAX_DISTANCE - 1,
    ensures
        match_written(old(output)@, final(output)@, ob as int, op_start as int, len as nat, dist as nat, r),
{
    let ghost e = enc_match(len as nat, dist as nat);
    let ghost at = (ob + op_start) as int;
    let ghost o0 = old(output)@;
    assert(output@ =~= o0.subrange(0, at) + e.subrange(0, 0) + o0.skip(at));
    assert(prefix_written(o0, output@, at, e, 0));
    if output.len() - ob - op_start < 4 {
        return MatchWrite::FarFull;
    }
    let dist_far = dist - MAX_DISTANCE;
    output[ob + op_start] = (len * 32 + 31) as u8;
    output[ob + op_start + 1] = 255;
    output[ob + op_start + 2] = (dist_far / 256) as u8;
    output[ob + op_start + 3] = (dist_far % 256) as u8;
    assert(e.len() == 4);
    assert(output@ =~= o0.subrange(0, at) + e.subrange(0, 4) + o0.skip(at + 4));
    assert(prefix_written(o0, output@, at, e, 4));
    assert(match_fits(op_start as int, o0.len() - ob, len as nat, dist as nat));
    MatchWrite::Written(op_start + 4)
}

/// Writes a long match: a first byte, the length extension of `255`s, then `tail`.
#[verifier::rlimit(100)]
#[verifier::spinoff_prover]
fn write_long(output: &mut [u8], ob: usize, op_start: usize, len: usize, dist: usize) -> (r: MatchWrite)
    requires
        ob + op_start <= old(output).len(),
        7 <= len,
        dist < 65535 + MAX_DISTANCE - 1,
    ensures
        match_written(old(output)@, final(output)@, ob as int, op_start as int, len as nat, dist as nat, r),
{
    let ghost e = enc_match(len as nat, dist as nat);
    let ghost at = (ob + op_start) as int;
    let ghost o0 = old(output)@;
    let ghost kk = ((len - 7) / 255) as nat;
    let near = dist < MAX_DISTANCE;
    let first: u8 = if near { (224 + dist / 256) as u8 } else { 255u8 };
    let tail_len: usize = if near { 2 } else { 4 };
    let ghost tail: Seq<u8> = if near {
        seq![((len - 7) % 255) as u8, (dist % 256) as u8]
    } else {
        seq![((len - 7) % 255) as u8, 255u8, ((dist - 8191) / 256) as u8, ((dist - 8191) % 256) as u8]
    };
    proof {
        assert(e == seq![first] + Seq::new(kk, |i: int| 255u8) + tail);
        assert(e.len() == 1 + kk + tail_len);
        assert(forall|j: int| 1 <= j <= kk ==> e[j] == 255u8);
        assert(e[0] == first);
        assert(forall|j: int| 0 <= j < tail_len ==> e[1 + kk + j] == tail[j]);
    }
    assert(output@ =~= o0.subrange(0, at) + e.subrange(0, 0) + o0.skip(at));
    assert(prefix_written(o0, output@, at, e, 0));
    let op_limit = output.len() - ob;
    let mut op = op_start;
    if op_limit - op < 1 {
        return MatchWrite::Full;
    }
    output[ob + op] = first;
    op += 1;
    assert(output@ =~= o0.subrange(0, at) + e.subrange(0, 1) + o0.skip(at + 1));
    let mut l = len - 7;
    let ghost mut k: nat = 0;
    while l >= 255
        invariant
            ob + op <= output.len(),
            op_limit == output.len() - ob,
            output.len() == o0.len(),
            o0 == old(output)@,
            e == enc_match(len as nat, dist as nat),
            at == ob + op_start,
            e.len() == 1 + kk + tail_len,
            forall|j: int| 1 <= j <= kk ==> e[j] == 255u8,
            kk == (len - 7) / 255,
            7 <= len,
            op == op_start + 1 + k,
            l + 255 * k == len - 7,
            prefix_written(o0, output@, at, e, op - op_start),
        decreases l,
    {
        proof { lemma_ext_index(len as nat, k + 1); }
        if op_limit - op < 1 {
            assert(!match_fits(op_start as int, op_limit as int, len as nat, dist as nat));
            assert(prefix_written(o0, output@, at, e, op - op_start));
            return MatchWrite::Full;
        }
        output[ob + op] = 255;
        proof {
            assert(e[op - op_start] == 255u8);
            assert(output@ =~= o0.subrange(0, at) + e.subrange(0, op + 1 - op_start) + o0.skip(at + op + 1 - op_start));
        }
        op += 1;
        l -= 255;
        proof { k = k + 1; }
    }
    proof {
        vstd::arithmetic::div_mod::lemma_fundamental_div_mod_converse((len - 7) as int, 255, k as int, l as int);
        assert(k == kk);
    }
    if op_limit - op < tail_len {
        return MatchWrite::Full;
    }
    output[ob + op] = l as u8;
    if near {
        output[ob + op + 1] = (dist % 256) as u8;
    } else {
        let dist_far = dist - MAX_DISTANCE;
        output[ob + op + 1] = 255;
        output[ob + op + 2] = (dist_far / 256) as u8;
        output[ob + op + 3] = (dist_far % 256) as u8;
    }
    proof {
        assert(l as u8 == ((len - 7) % 255) as u8);
        assert(output@ =~= o0.subrange(0, at) + e.subrange(0, e.len() as int) + o0.skip(at + e.len()));
        assert(prefix_written(o0, output@, at, e, e.len() as int));
        assert(match_fits(op_start as int, o0.len() - ob, len as nat, dist as nat));
    }
    MatchWrite::Written(op + tail_len)
}

/// Writes the encoding of a match with biased length `len` and biased distance `dist` at
/// `output[ob + op..]`, checking the room left as it goes. It is written in full where it fits
/// (`Written` with the new position); otherwise the result is `FarFull` for a short far match
/// and `Full` for the others, and a prefix of the encoding may have been written.
fn write_match(output: &mut [u8], ob: usize, op_start: usize, len: usize, dist: usize) -> (r: MatchWrite)
    requires
        ob + op_start <= old(output).len(),
        4 <= len,
        dist < 65535 + MAX_DISTANCE - 1,
    ensures
        match_written(old(output)@, final(output)@, ob as int, op_start as int, len as nat, dist as nat, r),
        final(output).len() == old(output).len(),
        forall|k: int| 0 <= k < ob + op_start ==> final(output)@[k] == old(output)@[k],
        r matches MatchWrite::Written(o) ==> o <= final(output).len() - ob
            && o == op_start + enc_match(len as nat, dist as nat).len()
            && final(output)@.subrange(ob + op_start, ob + o) == enc_match(len as nat, dist as nat),
        r matches MatchWrite::FarFull ==> op_start + 4 > old(output).len() - ob
            && dist >= MAX_DISTANCE && len < 7,
{
    let ghost o0 = old(output)@;
    let r = if len >= 7 {
        write_long(output, ob, op_start, len, dist)
    } else if dist < MAX_DISTANCE {
        write_short_near(output, ob, op_start, len, dist)
    } else {
        write_short_far(output, ob, op_start, len, dist)
    };
    proof {
        let e = enc_match(len as nat, dist as nat);
        let w = choose|w: int| #[trigger] prefix_written(o0, output@, (ob + op_start) as int, e, w);
        assert(prefix_written(o0, output@, (ob + op_start) as int, e, w));
        assert forall|k: int| 0 <= k < ob + op_start implies output@[k] == o0[k] by {
            assert(output@[k] == o0.subrange(0, (ob + op_start) as int)[k]);
        }
        if r is Written {
            assert(output@.subrange(ob + op_start, ob + op_start + e.len()) =~= e);
        }
    }
    r
}

} // verus!

verus! {

proof fn lemma_marker_keeps_low_bits(x: u8)
    ensures
        (x | 32u8) % 32 == x % 32,
{
    assert((x | 32u8) % 32 == x % 32) by (bit_vector);
}

/// Setting the format bit in the first byte of an encoded token list keeps it decoding to
/// what the tokens build.
proof fn lemma_marked_stream_decodes(before: Seq<u8>, after: Seq<u8>, ob: int, op: int, toks: Seq<LzToken>,
    input: Seq<u8>)
    requires
        0 <= ob,
        0 < op,
        ob + op <= before.len(),
        after == before.update(ob, before[ob] | 32u8),
        before.subrange(ob, ob + op) == enc_toks(toks),
        toks.len() > 0,
        toks_ok(toks),
        is_literal(toks[0]),
        is_literal(toks.last()),
        apply_toks(toks) == input,
    ensures
        forall|cap: nat| cap >= input.len() ==> #[trigger] blosclz_decode(after.subrange(ob, ob + op), cap)
            == Some(input),
{
    let s = after.subrange(ob, ob + op);
    lemma_marker_keeps_low_bits(before[ob]);
    assert(s[0] == after[ob]);
    assert(before.subrange(ob, ob + op)[0] == before[ob]);
    assert forall|k: int| 1 <= k < s.len() implies s[k] == enc_toks(toks)[k] by {
        assert(s[k] == before.subrange(ob, ob + op)[k]);
    }
    assert forall|cap: nat| cap >= input.len() implies #[trigger] blosclz_decode(s, cap) == Some(input) by {
        lemma_decode_toks(s, toks, cap as int);
    }
}

/// A match found at `anchor`: biased length `len` and biased distance `dist`.
struct FoundMatch {
    len: usize,
    dist: usize,
}

/// The slot of the hash table that the four bytes at `pos` fall in.
pub open spec fn slot_at(input: Seq<u8>, hashlog: usize, pos: int) -> int {
    hash_spec(u32_le_at(input, pos) as u32, hashlog) as int
}

/// The match the compressor takes at `anchor`, as (biased length, biased distance): the earlier
/// position that the hash table holds for the four bytes at `anchor`, when it is within reach
/// and its four bytes agree, extended as a run (distance one) or a match up to the last byte,
/// minus the four bytes that the extension overshoots; `None` where there is no such position
/// or the match is too short to be worth encoding (under 4, or under 6 at a far distance).
pub open spec fn match_at(input: Seq<u8>, htab: Seq<usize>, hashlog: usize, anchor: int) -> Option<(int, int)> {
    let rf = htab[slot_at(input, hashlog, anchor)] as int;
    let distance = anchor - rf;
    if distance == 0 || distance >= MAX_FARDISTANCE {
        None
    } else if !(input[rf] == input[anchor] && input[rf + 1] == input[anchor + 1]
        && input[rf + 2] == input[anchor + 2] && input[rf + 3] == input[anchor + 3]) {
        None
    } else {
        let dist = distance - 1;
        let e = if dist == 0 {
            run_end(input, anchor + 4, input.len() - 1, rf + 4, input[anchor + 3])
        } else {
            match_end(input, anchor + 4, input.len() - 1, rf + 4)
        };
        let len = e - 4 - anchor;
        if len < 4 || (len <= 5 && dist >= MAX_DISTANCE) { None } else { Some((len, dist)) }
    }
}

/// Looks up the hash table for an earlier occurrence of the four bytes at `anchor`, records
/// `anchor` in the table, and extends a match when there is one worth encoding.
fn find_match(input: &[u8], htab: &mut Vec<usize>, hashlog: usize, anchor: usize) -> (r: Option<FoundMatch>)
    requires
        16 <= input.len(),
        4 <= anchor < input.len() - 12,
        hashlog_ok(hashlog),
        old(htab).len() == hash_slots(hashlog),
        forall|j: int| 0 <= j < old(htab).len() ==> old(htab)@[j] < anchor,
    ensures
        final(htab)@ == old(htab)@.update(slot_at(input@, hashlog, anchor as int), anchor),
        match_at(input@, old(htab)@, hashlog, anchor as int) == (match r {
            Some(m) => Some((m.len as int, m.dist as int)),
            None => None::<(int, int)>,
        }),
        final(htab).len() == old(htab).len(),
        forall|j: int| 0 <= j < final(htab).len() ==> final(htab)@[j] <= anchor,
        r matches Some(m) ==> {
            &&& 4 <= m.len
            &&& !(m.len <= 5 && m.dist >= MAX_DISTANCE)
            &&& m.dist + 1 <= anchor
            &&& m.dist < 65535 + MAX_DISTANCE - 1
            &&& anchor + m.len + 2 + 3 <= input.len()
            &&& run_copy(input@.subrange(0, anchor as int), (m.dist + 1) as nat, (m.len + 2) as nat)
                == input@.subrange(0, anchor + m.len + 2)
        },
{
    let length = input.len();
    let ip_bound = length - 1;
    let seq = read_u32_le(input, anchor);
    let hval = hash_function(seq, hashlog);
    let ref_pos = htab[hval];
    let distance = anchor - ref_pos;
    htab.set(hval, anchor);
    if distance == 0 || distance >= MAX_FARDISTANCE {
        return None;
    }
    if !(input[ref_pos] == input[anchor] && input[ref_pos + 1] == input[anchor + 1]
        && input[ref_pos + 2] == input[anchor + 2] && input[ref_pos + 3] == input[anchor + 3]) {
        return None;
    }
    let ip = anchor + 4;
    let dist = distance - 1;
    let ref_after = ref_pos + 4;
    let e = if dist == 0 {
        get_run(input, ip, ip_bound, ref_after)
    } else {
        get_match(input, ip, ip_bound, ref_after)
    };
    let ip = e - 4;
    let len = ip - anchor;
    if len < 4 || (len <= 5 && dist >= MAX_DISTANCE) {
        return None;
    }
    proof {
        assert forall|k: int| anchor <= k < anchor + len + 2
            implies #[trigger] input@[k] == input@[k - distance] by {
            if k >= anchor + 4 {
                if dist == 0 {
                    assert(input@[k] == input@[anchor + 3]);
                    assert(input@[k - 1] == input@[anchor + 3]);
                }
            } else {
                assert(input@[ref_pos + (k - anchor)] == input@[anchor + (k - anchor)]);
            }
        }
        lemma_run_copy_matches(input@, anchor as int, distance as int, len + 2);
    }
    Some(FoundMatch { len, dist })
}

/// How one step of the compressor ended.
enum Step {
    Next,
    GiveUp,
    Stop,
}

/// Closes the open literal run (or drops its empty control byte) and writes the match.
fn emit_match(
    output: &mut [u8],
    ob: usize,
    input: &[u8],
    anchor: usize,
    op: usize,
    copy: usize,
    m: &FoundMatch,
    Ghost(toks): Ghost<Seq<LzToken>>,
) -> (res: (Step, usize, Ghost<Seq<LzToken>>))
    requires
        lz_state(old(output)@, ob as int, input@, anchor as int, op as int, copy as int, toks),
        4 <= m.len,
        !(m.len <= 5 && m.dist >= MAX_DISTANCE),
        m.dist + 1 <= anchor,
        m.dist < 65535 + MAX_DISTANCE - 1,
        anchor + m.len + 2 + 3 <= input.len(),
        run_copy(input@.subrange(0, anchor as int), (m.dist + 1) as nat, (m.len + 2) as nat)
            == input@.subrange(0, anchor + m.len + 2),
    ensures
        final(output).len() == old(output).len(),
        forall|k: int| 0 <= k < ob ==> final(output)@[k] == old(output)@[k],
        res.0 is GiveUp || res.0 is Next || res.0 is Stop,
        res.0 is Next ==> res.1 == op - (if copy == 0 { 1int } else { 0int })
            + enc_match(m.len as nat, m.dist as nat).len(),
        !(res.0 is Next) ==> op - (if copy == 0 { 1int } else { 0int })
            + enc_match(m.len as nat, m.dist as nat).len() > old(output).len() - ob,
        res.0 is Stop ==> res.1 + 4 > old(output).len() - ob && 1 <= res.1 <= old(output).len() - ob,
        res.0 is Next ==> {
            &&& ob + res.1 <= final(output).len()
            &&& final(output)@.subrange(ob as int, ob + res.1) == enc_toks(res.2@)
            &&& apply_toks(res.2@) == input@.subrange(0, anchor + m.len + 2)
            &&& toks_ok(res.2@)
            &&& res.2@.len() > 0
            &&& is_literal(res.2@[0])
            &&& !is_literal(res.2@.last())
            &&& res.2@ == (if copy > 0 { toks.push(lit_run(input@, anchor as int, copy as int)) } else { toks })
                .push(LzToken::Match { len: m.len as nat, dist: m.dist as nat })
        },
{
    let len = m.len;
    let dist = m.dist;
    let mut op = op;
    let ghost closed: Seq<LzToken>;
    if copy > 0 {
        let ghost run = input@.subrange(anchor - copy, anchor as int);
        output[ob + op - copy - 1] = (copy - 1) as u8;
        proof {
            let t = LzToken::Literal { bytes: run };
            lemma_enc_toks_push(toks, t);
            assert(output@.subrange(ob as int, ob + op) =~= enc_toks(toks) + enc_tok(t));
            assert(input@.subrange(0, anchor as int) =~= input@.subrange(0, anchor - copy) + run);
            closed = toks.push(t);
            if toks.len() > 0 {
                assert(closed[0] == toks[0]);
            }
        }
    } else {
        op -= 1;
        proof { closed = toks; }
    }
    let ghost mt = LzToken::Match { len: len as nat, dist: dist as nat };
    assert(apply_toks(closed) == input@.subrange(0, anchor as int));
    assert(output@.subrange(ob as int, ob + op) == enc_toks(closed));
    match write_match(output, ob, op, len, dist) {
        MatchWrite::Full => {
            (Step::GiveUp, op, Ghost(closed))
        },
        MatchWrite::FarFull => {
            assert(op >= 1) by {
                if closed.len() > 0 {
                    lemma_enc_toks_first(closed);
                }
            }
            (Step::Stop, op, Ghost(closed))
        },
        MatchWrite::Written(o) => {
            let ghost toks2 = closed.push(mt);
            proof {
                lemma_enc_toks_push(closed, mt);
                assert(output@.subrange(ob as int, ob + o)
                    =~= output@.subrange(ob as int, ob + op) + enc_match(len as nat, dist as nat));
                assert(output@.subrange(ob as int, ob + o) =~= enc_toks(toks2));
                assert(toks2[0] == closed[0]);
            }
            (Step::Next, o, Ghost(toks2))
        },
    }
}

/// A match's encoding, with the control byte of the literal run after it, takes fewer bytes
/// than it stands for, in the ratio that bounds the output size.
proof fn lemma_enc_match_small(len: nat, dist: nat)
    requires
        4 <= len,
        !(len <= 5 && dist >= 8191),
    ensures
        32 * (enc_match(len, dist).len() + 1) <= 33 * (len + 2),
{
    if len >= 7 {
        let k = (len - 7) / 255;
        vstd::arithmetic::div_mod::lemma_fundamental_div_mod((len - 7) as int, 255);
        assert(len >= 7 + 255 * k) by (nonlinear_arith)
            requires len - 7 == 255 * k + (len - 7) % 255, (len - 7) % 255 >= 0;
        assert(enc_match(len, dist).len() <= 5 + k);
        assert(32 * (5 + k + 1) <= 33 * (len + 2)) by (nonlinear_arith) requires len >= 7 + 255 * k, k >= 0;
    }
}

/// The base-2 logarithm of the hash table size at level `clevel`.
pub open spec fn clevel_hashlog(clevel: i32) -> usize {
    if clevel == 0 { 0 } else if clevel == 1 { 12 } else if clevel == 2 { 13 } else { 14 }
}

/// How many of the last bytes of an `n`-byte input the probe looks at, by level.
pub open spec fn probe_maxlen(clevel: i32, n: nat) -> nat {
    if clevel < 2 { n / 8 } else if clevel < 4 { n / 4 } else if clevel < 7 { n / 2 } else { n }
}

/// The probe's ratio for `input` at level `clevel`: over the last `probe_maxlen` bytes.
pub open spec fn compress_probe(input: Seq<u8>, clevel: i32) -> Option<ProbeRatio> {
    let maxlen = probe_maxlen(clevel, input.len());
    cratio_spec(input, input.len() - maxlen, maxlen as int, 4, clevel_hashlog(clevel))
}

/// Whether the output room is large enough for any input of `n` bytes: the output of the
/// compressor never exceeds `n + n / 32 + 1` bytes, and it needs a few bytes of slack.
pub open spec fn room_suffices(n: nat, room: int) -> bool {
    32 * room >= 33 * n + 128
}

/// One step of the compressor's main loop at `ip`: a literal, or a match and the control byte of
/// the next literal run. `None` where the output runs out.
#[verifier::rlimit(100)]
#[verifier::spinoff_prover]
fn compress_step(clevel: i32, input: &[u8], output: &mut [u8], ob: usize, htab: &mut Vec<usize>, hashlog: usize,
    ip: usize, op: usize, copy: usize, Ghost(toks): Ghost<Seq<LzToken>>)
    -> (res: Option<(usize, usize, usize, Ghost<Seq<LzToken>>)>)
    requires
        ob <= old(output).len(),
        66 <= old(output).len() - ob,
        16 <= input.len(),
        ip < input.len() - 12,
        0 <= clevel <= 9,
        hashlog == clevel_hashlog(clevel),
        hashlog_ok(hashlog),
        old(htab).len() == hash_slots(hashlog),
        forall|j: int| 0 <= j < old(htab).len() ==> old(htab)@[j] < ip,
        4 <= ip,
        lz_state(old(output)@, ob as int, input@, ip as int, op as int, copy as int, toks),
        32 * op + copy <= 33 * ip + 32,
    ensures
        final(output).len() == old(output).len(),
        forall|k: int| 0 <= k < ob ==> final(output)@[k] == old(output)@[k],
        final(htab).len() == old(htab).len(),
        res is None ==> !room_suffices(input.len() as nat, old(output).len() - ob),
        res is None <==> !enc_step_fits(input@, hashlog, old(output).len() - ob,
            (ip as int, copy as int, old(htab)@, toks)),
        res matches Some((ip2, op2, copy2, t2)) ==> {
            &&& ip < ip2 <= input.len() - 3
            &&& forall|j: int| 0 <= j < final(htab).len() ==> final(htab)@[j] < ip2
            &&& lz_state(final(output)@, ob as int, input@, ip2 as int, op2 as int, copy2 as int, t2@)
            &&& 32 * op2 + copy2 <= 33 * ip2 + 32
            &&& enc_step(input@, clevel, hashlog, (ip as int, copy as int, old(htab)@, toks))
                == (ip2 as int, copy2 as int, final(htab)@, t2@)
        },
{
    let op_limit = output.len() - ob;
    let length = input.len();
    let ghost big = room_suffices(length as nat, op_limit as int);
    let mut ip = ip;
    let mut op = op;
    let mut copy = copy;
    let ghost mut toks = toks;
    let anchor = ip;
    let ghost st: EncState = (ip as int, copy as int, htab@, toks);
    assert(enc_toks(toks).len() == op - copy - 1);
    assert(enc_op(st) == op);
        match find_match(input, htab, hashlog, anchor) {
            None => {
                if op_limit - op < 2 {
                    return None;
                }
                let res = emit_literal(output, ob, input, anchor, op, copy, Ghost(toks), Ghost(true));
                op = res.0;
                copy = res.1;
                proof { toks = res.2@; }
                ip = anchor + 1;
                proof {
                    lemma_enc_step_literal(input@, clevel, hashlog, st);
                    let nx: EncState = (ip as int, copy as int, htab@, toks);
                    assert(enc_step(input@, clevel, hashlog, st) == nx);
                }
            },
            Some(m) => {
                proof { lemma_enc_match_small(m.len as nat, m.dist as nat); }
                let res = emit_match(output, ob, input, anchor, op, copy, &m, Ghost(toks));
                op = res.1;
                proof { toks = res.2@; }
                copy = 0;
                match res.0 {
                    Step::GiveUp => {
                        return None;
                    },
                    Step::Stop => {
                        return None;
                    },
                    Step::Next => {},
                }
                ip = anchor + m.len;
                if ip + 4 <= input.len() {
                    let seq2 = read_u32_le(input, ip);
                    let hval2 = hash_function(seq2, hashlog);
                    htab.set(hval2, ip);
                    ip += 1;
                    if clevel == 9 {
                        let seq_shifted = seq2 >> 8;
                        let hval_shifted = hash_function(seq_shifted, hashlog);
                        htab.set(hval_shifted, ip);
                    }
                    ip += 1;
                } else {
                    ip += 2;
                }
                proof {
                    lemma_enc_step_match(input@, clevel, hashlog, st, m.len as int, m.dist as int);
                    let nx: EncState = (ip as int, copy as int, htab@, toks);
                    assert(enc_step(input@, clevel, hashlog, st) == nx);
                }
                if op_limit - op < 1 {
                    return None;
                }
                output[ob + op] = (MAX_COPY - 1) as u8;
                op += 1;
                proof {
                    assert(output@.subrange(ob as int, ob + op - 1) =~= enc_toks(toks));
                    assert(output@.subrange(ob + op, ob + op as int) =~= input@.subrange(ip as int, ip as int));
                }
            },
        }
    Some((ip, op, copy, Ghost(toks)))
}

/// The literals from `st.0` to the end, and the open run closed: the tokens that end the stream.
pub open spec fn tail_tokens(input: Seq<u8>, st: EncState) -> Seq<LzToken> {
    let fin = enc_tail(input, st);
    if fin.1 > 0 { fin.3.push(lit_run(input, fin.0, fin.1)) } else { fin.3 }
}

/// A stream with bit 5 of its first byte set, the format's mark.
pub open spec fn marked(e: Seq<u8>) -> Seq<u8> {
    e.update(0, e[0] | 32u8)
}

/// Writes the bytes from `ip` on as literals, closes the last run and marks the stream; returns
/// its length, or 0 where the output runs out.
#[verifier::rlimit(100)]
#[verifier::spinoff_prover]
fn finish_literals(input: &[u8], output: &mut [u8], ob: usize, ip_start: usize, op_start: usize, copy_start: usize,
    Ghost(toks_start): Ghost<Seq<LzToken>>, Ghost(htab): Ghost<Seq<usize>>) -> (r: usize)
    requires
        ob <= old(output).len(),
        16 <= input.len(),
        4 <= ip_start <= input.len(),
        lz_state(old(output)@, ob as int, input@, ip_start as int, op_start as int, copy_start as int, toks_start),
        32 * op_start + copy_start <= 33 * ip_start + 32,
    ensures
        final(output).len() == old(output).len(),
        forall|k: int| 0 <= k < ob ==> final(output)@[k] == old(output)@[k],
        r <= old(output).len() - ob,
        r == 0 ==> !room_suffices(input.len() as nat, old(output).len() - ob),
        room_suffices(input.len() as nat, old(output).len() - ob) ==> r > 0 && r + 3 <= old(output).len() - ob,
        r > 0 <==> enc_tail_fits(input@, old(output).len() - ob,
            (ip_start as int, copy_start as int, htab, toks_start)),
        r > 0 ==> final(output)@.subrange(ob as int, ob + r)
            == marked(enc_toks(tail_tokens(input@, (ip_start as int, copy_start as int, htab, toks_start)))),
        r > 0 ==> forall|cap: nat| cap >= input.len()
            ==> #[trigger] blosclz_decode(final(output)@.subrange(ob as int, ob + r), cap) == Some(input@),
{
    let ghost ip0 = ip_start;
    let ghost copy0 = copy_start;
    let ghost toks0 = toks_start;
    let ghost mut toks = toks_start;
    let mut ip = ip_start;
    let mut op = op_start;
    let mut copy = copy_start;
    let length = input.len();
    let ip_bound = length - 1;
    let op_limit = output.len() - ob;
    let ghost big = room_suffices(length as nat, op_limit as int);
    let ghost corrupt = false;
    let ghost mut iterated = false;
    let ghost fin_tail = enc_tail(input@, (ip as int, copy as int, htab, toks));
    while ip <= ip_bound
        invariant
            !corrupt,
            ip0 == ip_start && copy0 == copy_start && toks0 == toks_start,
            fin_tail == enc_tail(input@, (ip0 as int, copy0 as int, htab, toks0)),
            enc_tail(input@, (ip as int, copy as int, htab, toks)) == fin_tail,
            enc_tail_fits(input@, op_limit as int, (ip as int, copy as int, htab, toks))
                == enc_tail_fits(input@, op_limit as int, (ip0 as int, copy0 as int, htab, toks0)),
            big == room_suffices(length as nat, op_limit as int),
            big ==> !corrupt,
            !corrupt ==> 32 * op + copy <= 33 * ip + 32,
            ob <= output.len(),
            op_limit == output.len() - ob,
            output.len() == old(output).len(),
            forall|k: int| 0 <= k < ob ==> output@[k] == old(output)@[k],
            length == input.len(),
            16 <= length,
            ip_bound == length - 1,
            ip <= length,
            copy < 32,
            copy + 1 <= op <= op_limit,
            !corrupt ==> lz_state(output@, ob as int, input@, ip as int, op as int, copy as int, toks),
            corrupt && !iterated ==> op + 4 > op_limit && copy == 0 && ip + 3 <= length,
            corrupt && iterated ==> op + 2 >= op_limit && (copy == 0 ==> op >= op_limit),
        decreases length - ip,
    {
        let ghost st: EncState = (ip as int, copy as int, htab, toks);
        proof {
            assert(enc_toks(toks).len() == op - copy - 1);
            lemma_enc_tail_fits_unfold(input@, op_limit as int, st);
        }
        if op_limit - op < 2 {
            assert(!big);
            return 0;
        }
        let res = emit_literal(output, ob, input, ip, op, copy, Ghost(toks), Ghost(!corrupt));
        op = res.0;
        copy = res.1;
        proof {
            toks = res.2@;
            iterated = true;
        }
        ip += 1;
        proof {
            lemma_enc_tail_unfold(input@, st);
            assert(enc_literal(input@, st, st.2) == (ip as int, copy as int, htab, toks));
        }
    }
    proof {
        lemma_enc_tail_unfold(input@, (ip as int, copy as int, htab, toks));
        lemma_enc_tail_fits_unfold(input@, op_limit as int, (ip as int, copy as int, htab, toks));
    }
    assert(fin_tail == (ip as int, copy as int, htab, toks));
    if copy > 0 {
        let ghost run = input@.subrange(ip - copy, ip as int);
        output[ob + op - copy - 1] = (copy - 1) as u8;
        proof {
            if !corrupt {
                let t = LzToken::Literal { bytes: run };
                lemma_enc_toks_push(toks, t);
                assert(output@.subrange(ob as int, ob + op) =~= enc_toks(toks) + enc_tok(t));
                assert(input@.subrange(0, ip as int) =~= input@.subrange(0, ip - copy) + run);
                let old_toks = toks;
                toks = toks.push(t);
                if old_toks.len() > 0 {
                    assert(toks[0] == old_toks[0]);
                }
            }
        }
    } else {
        proof {
            if !corrupt {
                assert(toks.len() > 0);
                lemma_enc_toks_first(toks);
                assert(output@.subrange(ob as int, ob + op - copy - 1) == enc_toks(toks));
            }
        }
        op -= 1;
    }
    assert(toks == tail_tokens(input@, (ip0 as int, copy0 as int, htab, toks0)));
    let ghost before_marker = output@;
    output[ob] = output[ob] | 32u8;
    proof {
        if !corrupt {
            assert(ip == length);
            assert(input@.subrange(0, length as int) =~= input@);
            assert(before_marker.subrange(ob as int, ob + op) == enc_toks(toks));
            assert(toks.len() > 0);
            assert(is_literal(toks.last()));
            assert(output@ == before_marker.update(ob as int, before_marker[ob as int] | 32u8));
            lemma_marked_stream_decodes(before_marker, output@, ob as int, op as int, toks, input@);
            assert(output@.subrange(ob as int, ob + op) =~= marked(enc_toks(toks)));
            lemma_enc_toks_first(toks);
        }
    }
    assert(op > 0);
    op
}

/// Compresses `input` into `output[ob..]` with the BloscLZ algorithm at level `clevel` and
/// returns the number of bytes written, 0 when the input is too short, the output too
/// small, the entropy probe judges the data incompressible at this level, or the output
/// runs out. Nothing before `ob` is written.
///
/// A positive result decodes back to `input`; with room for `n + n / 32 + 4` bytes the call
/// is never refused for lack of room.
#[verifier::rlimit(100)]
#[verifier::spinoff_prover]
pub fn compress_at(clevel: i32, input: &[u8], output: &mut [u8], ob: usize) -> (r: usize)
    requires
        ob <= old(output).len(),
        input.len() >= 16 && old(output).len() - ob >= 66 ==> 0 <= clevel <= 9,
    ensures
        final(output).len() == old(output).len(),
        forall|k: int| 0 <= k < ob ==> final(output)@[k] == old(output)@[k],
        r <= old(output).len() - ob,
        input.len() < 16 || old(output).len() - ob < 66 ==> r == 0,
        ratio_below_spec(compress_probe(input@, clevel), clevel) ==> r == 0,
        input.len() >= 16 && old(output).len() - ob >= 66 && room_suffices(input.len() as nat, old(output).len() - ob)
            && !ratio_below_spec(compress_probe(input@, clevel), clevel) ==> r > 0 && r + 3 <= old(output).len() - ob,
        r == blosclz_result(input@, clevel, old(output).len() - ob),
        r > 0 ==> final(output)@.subrange(ob as int, ob + r) == blosclz_stream(input@, clevel),
        r > 0 ==> forall|cap: nat| cap >= input.len()
            ==> #[trigger] blosclz_decode(final(output)@.subrange(ob as int, ob + r), cap) == Some(input@),
{
    proof { reveal(blosclz_result); }
    if input.len() == 0 {
        return 0;
    }
    let length = input.len();
    let op_limit = output.len() - ob;
    if length < 16 || op_limit < 66 {
        return 0;
    }
    let ipshift: usize = 4;
    let minlen: usize = 4;
    let hashlog: usize = if clevel == 0 { 0 } else if clevel == 1 { HASH_LOG - 2 } else if clevel == 2 {
        HASH_LOG - 1
    } else {
        HASH_LOG
    };
    let hash_size: usize = 1usize << hashlog;
    proof {
        assert(1usize << 0usize == 1usize) by (bit_vector);
        assert(1usize << 12usize == 4096usize) by (bit_vector);
        assert(1usize << 13usize == 8192usize) by (bit_vector);
        assert(1usize << 14usize == 16384usize) by (bit_vector);
    }
    let mut htab: Vec<usize> = vec![0usize; hash_size];
    let maxlen = if clevel < 2 { length / 8 } else if clevel < 4 { length / 4 } else if clevel < 7 {
        length / 2
    } else {
        length
    };
    let shift = length - maxlen;
    let cratio = get_cratio(input, shift, maxlen, minlen, ipshift, &mut htab, hashlog);
    assert(cratio == compress_probe(input@, clevel));
    if ratio_below_threshold(&cratio, clevel) {
        return 0;
    }
    let ghost big = room_suffices(length as nat, op_limit as int);
    let ip_bound = length - 1;
    let ip_limit = length - 12;
    let mut i: usize = 0;
    while i < hash_size
        invariant
            htab.len() == hash_size,
            i <= hash_size,
            forall|j: int| 0 <= j < i ==> htab@[j] == 0,
        decreases hash_size - i,
    {
        htab.set(i, 0);
        i += 1;
    }
    let mut copy: usize = 4;
    let mut op: usize = 0;
    let mut ip: usize = 0;
    output[ob + op] = (MAX_COPY - 1) as u8;
    op += 1;
    output[ob + op] = input[ip];
    op += 1;
    ip += 1;
    output[ob + op] = input[ip];
    op += 1;
    ip += 1;
    output[ob + op] = input[ip];
    op += 1;
    ip += 1;
    output[ob + op] = input[ip];
    op += 1;
    ip += 1;
    let ghost mut toks: Seq<LzToken> = Seq::empty();
    let ghost mut corrupt = false;
    let ghost zero_table = Seq::new(hash_slots(hashlog), |k: int| 0usize);
    assert(htab@ =~= zero_table);
    assert(hashlog == clevel_hashlog(clevel));
    assert(zero_table =~= enc_start(clevel).2);
    let ghost fits_start = enc_loop_fits(input@, clevel, hashlog, ip_limit as int, op_limit as int,
        (4int, 4int, zero_table, Seq::<LzToken>::empty()));
    let ghost fin_loop = enc_loop(input@, clevel, hashlog, ip_limit as int, (4int, 4int, zero_table, Seq::<LzToken>::empty()));
    proof {
        assert(output@.subrange(ob as int, ob as int) =~= enc_toks(toks));
        assert(output@.subrange(ob + 1, ob + 5) =~= input@.subrange(0, 4));
        assert(apply_toks(toks) =~= input@.subrange(0, 0));
    }
    while ip < ip_limit
        invariant_except_break
            !corrupt,
        invariant
            !corrupt,
            hashlog == clevel_hashlog(clevel),
            fin_loop == enc_loop(input@, clevel, hashlog, ip_limit as int, (4int, 4int, zero_table, Seq::<LzToken>::empty())),
            enc_loop(input@, clevel, hashlog, ip_limit as int, (ip as int, copy as int, htab@, toks)) == fin_loop,
            fits_start == enc_loop_fits(input@, clevel, hashlog, ip_limit as int, op_limit as int,
                (4int, 4int, zero_table, Seq::<LzToken>::empty())),
            enc_loop_fits(input@, clevel, hashlog, ip_limit as int, op_limit as int,
                (ip as int, copy as int, htab@, toks)) == fits_start,
            (4int, 4int, zero_table, Seq::<LzToken>::empty()) == enc_start(clevel),
            big == room_suffices(length as nat, op_limit as int),
            big ==> !corrupt,
            !corrupt ==> 32 * op + copy <= 33 * ip + 32,
            ob <= output.len(),
            op_limit == output.len() - ob,
            output.len() == old(output).len(),
            forall|k: int| 0 <= k < ob ==> output@[k] == old(output)@[k],
            length == input.len(),
            16 <= length,
            66 <= op_limit,
            ip_bound == length - 1,
            ip_limit == length - 12,
            0 <= clevel <= 9,
            hashlog_ok(hashlog),
            htab.len() == hash_slots(hashlog),
            !corrupt ==> forall|j: int| 0 <= j < htab.len() ==> htab@[j] < ip,
            !corrupt ==> 4 <= ip <= length - 3,
            !corrupt ==> lz_state(output@, ob as int, input@, ip as int, op as int, copy as int, toks),
            corrupt ==> op + 4 > op_limit && 1 <= op <= op_limit && copy == 0 && ip + 3 <= length,
        ensures
            enc_loop(input@, clevel, hashlog, ip_limit as int, (ip as int, copy as int, htab@, toks)) == fin_loop,
            enc_loop_fits(input@, clevel, hashlog, ip_limit as int, op_limit as int,
                (ip as int, copy as int, htab@, toks)) == fits_start,
            big ==> !corrupt,
            !corrupt ==> 32 * op + copy <= 33 * ip + 32,
            corrupt || ip >= ip_limit,
            !corrupt ==> 4 <= ip <= length - 3,
            !corrupt ==> lz_state(output@, ob as int, input@, ip as int, op as int, copy as int, toks),
            corrupt ==> op + 4 > op_limit && 1 <= op <= op_limit && copy == 0 && ip + 3 <= length,
            output.len() == old(output).len(),
            forall|k: int| 0 <= k < ob ==> output@[k] == old(output)@[k],
        decreases length - ip,
    {
        let ghost st: EncState = (ip as int, copy as int, htab@, toks);
        let step = compress_step(clevel, input, output, ob, &mut htab, hashlog, ip, op, copy, Ghost(toks));
        match step {
            None => {
                assert(!big);
                proof {
                    lemma_enc_loop_fits_fail(input@, clevel, hashlog, ip_limit as int, op_limit as int, st);
                    reveal(blosclz_result);
                }
                assert(!fits_start);
                return 0;
            },
            Some((ip2, op2, copy2, t2)) => {
                ip = ip2;
                op = op2;
                copy = copy2;
                proof {
                    toks = t2@;
                    let nx: EncState = (ip as int, copy as int, htab@, toks);
                    lemma_enc_loop_unfold(input@, clevel, hashlog, ip_limit as int, st, nx);
                    lemma_enc_loop_fits_step(input@, clevel, hashlog, ip_limit as int, op_limit as int, st, nx);
                }
            },
        }
    }
    proof {
        let stt: EncState = (ip as int, copy as int, htab@, toks);
        lemma_enc_loop_unfold(input@, clevel, hashlog, ip_limit as int, stt, enc_step(input@, clevel, hashlog, stt));
        lemma_enc_loop_fits_done(input@, clevel, hashlog, ip_limit as int, op_limit as int, stt);
        assert(fits_start);
    }
    let r = finish_literals(input, output, ob, ip, op, copy, Ghost(toks), Ghost(htab@));
    assert(r > 0 ==> r == blosclz_stream(input@, clevel).len());
    r
}

/// Compresses `input` into `output` using the BloscLZ algorithm.
///
/// - `clevel`: compression level (1–9). Higher levels try harder at the cost of speed.
///
/// Returns the number of compressed bytes written to `output`, or 0 if the data
/// is incompressible at the given level (by the entropy probe) or too short, or the output too
/// small. With room for `n + n / 32 + 4` bytes (and at least 66) an input of at least 16 bytes
/// that the probe accepts is compressed. A positive result is [`blosclz_stream`], which decodes
/// back to `input`.
pub fn compress(clevel: i32, input: &[u8], output: &mut [u8]) -> (r: usize)
    requires
        input.len() >= 16 && old(output).len() >= 66 ==> 0 <= clevel <= 9,
    ensures
        final(output).len() == old(output).len(),
        r <= old(output).len(),
        input.len() < 16 || old(output).len() < 66 ==> r == 0,
        ratio_below_spec(compress_probe(input@, clevel), clevel) ==> r == 0,
        input.len() >= 16 && old(output).len() >= 66 && room_suffices(input.len() as nat, old(output).len() as int)
            && !ratio_below_spec(compress_probe(input@, clevel), clevel) ==> r > 0 && r + 3 <= old(output).len(),
        r == blosclz_result(input@, clevel, old(output).len() as int),
        r > 0 ==> final(output)@.subrange(0, r as int) == blosclz_stream(input@, clevel),
        r > 0 ==> forall|cap: nat| cap >= input.len()
            ==> #[trigger] blosclz_decode(final(output)@.subrange(0, r as int), cap) == Some(input@),
{
    compress_at(clevel, input, output, 0)
}

} // verus!
