use vstd::prelude::*;
use crate::errors::TrieError;

verus! {

/// 256 raised to `k`: the number of values a `k`-byte big-endian field can hold.
pub open spec fn pow256(k: nat) -> nat
    decreases k,
{
    if k == 0 {
        1
    } else {
        256 * pow256((k - 1) as nat)
    }
}

/// Minimal big-endian byte representation of `n`; empty for 0.
pub open spec fn be_bytes(n: nat) -> Seq<u8>
    decreases n,
{
    if n == 0 {
        Seq::empty()
    } else {
        be_bytes(n / 256).push((n % 256) as u8)
    }
}

/// The number read back from a big-endian byte sequence.
pub open spec fn be_val(s: Seq<u8>) -> nat
    decreases s.len(),
{
    if s.len() == 0 {
        0
    } else {
        be_val(s.drop_last()) * 256 + s.last() as nat
    }
}

/// Reading back the minimal big-endian form of `n` gives `n`.
pub proof fn lemma_be_val_be_bytes(n: nat)
    ensures
        be_val(be_bytes(n)) == n,
    decreases n,
{
    if n > 0 {
        lemma_be_val_be_bytes(n / 256);
        assert(be_bytes(n).drop_last() =~= be_bytes(n / 256));
    }
}

/// A number below `pow256(k)` needs at most `k` big-endian bytes.
pub proof fn lemma_be_bytes_len(n: nat, k: nat)
    requires
        n < pow256(k),
    ensures
        be_bytes(n).len() <= k,
    decreases k,
{
    if n > 0 {
        assert(k > 0);
        lemma_be_bytes_len(n / 256, (k - 1) as nat);
    }
}

/// Extending a big-endian field by one byte multiplies its value by 256 at
/// least; the read value never shrinks as the field grows.
pub proof fn lemma_be_val_prefix_grows(s: Seq<u8>, j: int)
    requires
        0 <= j <= s.len(),
    ensures
        be_val(s) >= be_val(s.subrange(0, j)),
    decreases s.len() - j,
{
    if j < s.len() {
        lemma_be_val_prefix_grows(s, j + 1);
        let a = s.subrange(0, j);
        let b = s.subrange(0, j + 1);
        assert(b.drop_last() =~= a);
        assert(be_val(b) == be_val(a) * 256 + b.last());
        assert(be_val(a) * 256 >= be_val(a)) by (nonlinear_arith);
    } else {
        assert(s.subrange(0, j) =~= s);
    }
}

/// Canonical encoding of one byte string: a single byte below 0x80 stands for
/// itself; otherwise a length header precedes the bytes.
pub open spec fn enc_str(b: Seq<u8>) -> Seq<u8> {
    if b.len() == 1 && b[0] < 0x80 {
        b
    } else if b.len() <= 55 {
        seq![(0x80 + b.len()) as u8] + b
    } else {
        seq![(0xb7 + be_bytes(b.len()).len()) as u8] + be_bytes(b.len()) + b
    }
}

/// Canonical list header for a declared length `l`.
pub open spec fn list_header(l: nat) -> Seq<u8> {
    if l <= 55 {
        seq![(0xc0 + l) as u8]
    } else {
        seq![(0xf7 + be_bytes(l).len()) as u8] + be_bytes(l)
    }
}

/// The length a key of `n` nibbles takes in its compact byte form: pairs of
/// nibbles share a byte up to 16 nibbles, longer keys carry one byte per
/// nibble after a marker byte. The leaf record's list header declares this
/// length rather than the payload length; decoders of this format find the
/// payload's extent from the per-string headers.
pub open spec fn compact_len(n: nat) -> nat {
    if n <= 16 {
        n / 2 + 1
    } else {
        n + 1
    }
}

/// Concatenation of the canonical encodings of a sequence of byte strings.
pub open spec fn str_concat(items: Seq<Seq<u8>>) -> Seq<u8>
    decreases items.len(),
{
    if items.len() == 0 {
        Seq::empty()
    } else {
        str_concat(items.drop_last()) + enc_str(items.last())
    }
}

/// Canonical encoding of a list of byte strings: header over the payload
/// length, then the encoded items in order.
pub open spec fn list_of_strings(items: Seq<Seq<u8>>) -> Seq<u8> {
    list_header(str_concat(items).len()) + str_concat(items)
}

/// Canonical encoding of a leaf record: a two-string list of (key, value)
/// whose header declares the key's compact-form length.
pub open spec fn leaf_record(key: Seq<u8>, value: Seq<u8>) -> Seq<u8> {
    list_header(compact_len(key.len())) + enc_str(key) + enc_str(value)
}

/// Parse one canonically encoded byte string at offset `pos`; the parsed
/// string and the offset one past it, or nothing when the bytes do not parse.
pub open spec fn parse_str(bytes: Seq<u8>, pos: nat) -> Option<(Seq<u8>, nat)> {
    if pos >= bytes.len() {
        None
    } else {
        let b0 = bytes[pos as int];
        if b0 < 0x80 {
            Some((seq![b0], pos + 1))
        } else if b0 <= 0xb7 {
            let l = (b0 - 0x80) as nat;
            if pos + 1 + l <= bytes.len() {
                Some((bytes.subrange(pos as int + 1, pos as int + 1 + l), pos + 1 + l))
            } else {
                None
            }
        } else if b0 <= 0xbf {
            let ll = (b0 - 0xb7) as nat;
            if pos + 1 + ll <= bytes.len() {
                let l = be_val(bytes.subrange(pos as int + 1, pos as int + 1 + ll));
                if pos + 1 + ll + l <= bytes.len() {
                    Some((bytes.subrange(pos as int + 1 + ll, pos as int + 1 + ll + l), pos + 1 + ll + l))
                } else {
                    None
                }
            } else {
                None
            }
        } else {
            None
        }
    }
}

/// Decode a leaf record: a list tag, then exactly two byte strings filling
/// the rest of the input. The header's declared length is not relied upon;
/// the strings carry their own extents.
pub open spec fn decode_leaf(bytes: Seq<u8>) -> Option<(Seq<u8>, Seq<u8>)> {
    if bytes.len() == 0 || bytes[0] < 0xc0 {
        None
    } else {
        let hdr: nat = if bytes[0] <= 0xf7 {
            1
        } else {
            1 + (bytes[0] - 0xf7) as nat
        };
        match parse_str(bytes, hdr) {
            None => None,
            Some((k, p1)) => match parse_str(bytes, p1) {
                None => None,
                Some((v, p2)) => if p2 == bytes.len() {
                    Some((k, v))
                } else {
                    None
                },
            },
        }
    }
}

/// Minimal big-endian bytes of `n`.
pub fn be_bytes_exec(n: usize) -> (r: Vec<u8>)
    ensures
        r@ == be_bytes(n as nat),
    decreases n,
{
    if n == 0 {
        Vec::new()
    } else {
        let mut r = be_bytes_exec(n / 256);
        r.push((n % 256) as u8);
        r
    }
}

/// Minimal big-endian bytes of `n + 1`, computed without forming `n + 1`.
pub fn be_bytes_succ(n: usize) -> (r: Vec<u8>)
    ensures
        r@ == be_bytes(n as nat + 1),
    decreases n,
{
    if n % 256 == 255 {
        let mut r = be_bytes_succ(n / 256);
        r.push(0);
        proof {
            assert((n as nat + 1) % 256 == 0 && (n as nat + 1) / 256 == n as nat / 256 + 1) by (nonlinear_arith)
                requires
                    n as nat % 256 == 255,
            ;
        }
        r
    } else {
        let mut r = be_bytes_exec(n / 256);
        r.push((n % 256 + 1) as u8);
        proof {
            assert((n as nat + 1) % 256 == n as nat % 256 + 1 && (n as nat + 1) / 256 == n as nat
                / 256) by (nonlinear_arith)
                requires
                    n as nat % 256 < 255,
            ;
        }
        r
    }
}

/// Append all bytes of `b` to `out`.
pub fn append_bytes(out: &mut Vec<u8>, b: &Vec<u8>)
    ensures
        final(out)@ == old(out)@ + b@,
{
    let mut i: usize = 0;
    while i < b.len()
        invariant
            i <= b.len(),
            out@ == old(out)@ + b@.subrange(0, i as int),
        decreases b.len() - i,
    {
        out.push(b[i]);
        i = i + 1;
        proof {
            assert(old(out)@ + b@.subrange(0, i - 1) + seq![b@[i - 1]] =~= old(out)@ + b@.subrange(
                0,
                i as int,
            ));
        }
    }
    proof {
        assert(old(out)@ + b@.subrange(0, b@.len() as int) =~= old(out)@ + b@);
    }
}

/// Copy the bytes of `v` between `a` and `b`.
pub fn copy_range(v: &Vec<u8>, a: usize, b: usize) -> (r: Vec<u8>)
    requires
        a <= b <= v@.len(),
    ensures
        r@ == v@.subrange(a as int, b as int),
{
    let mut out: Vec<u8> = Vec::new();
    let mut i: usize = a;
    while i < b
        invariant
            a <= i <= b <= v@.len(),
            out@ == v@.subrange(a as int, i as int),
        decreases b - i,
    {
        out.push(v[i]);
        i = i + 1;
        proof {
            assert(out@ =~= v@.subrange(a as int, i as int));
        }
    }
    out
}

/// Append the canonical encoding of the byte string `b` to `out`.
pub fn append_str(out: &mut Vec<u8>, b: &Vec<u8>)
    ensures
        final(out)@ == old(out)@ + enc_str(b@),
{
    if b.len() == 1 && b[0] < 0x80 {
        out.push(b[0]);
        proof {
            assert(old(out)@ + enc_str(b@) =~= out@);
        }
    } else if b.len() <= 55 {
        out.push(0x80 + b.len() as u8);
        append_bytes(&mut *out, b);
        proof {
            assert(old(out)@ + enc_str(b@) =~= out@);
        }
    } else {
        let lb = be_bytes_exec(b.len());
        proof {
            lemma_usize_max_fits();
            lemma_be_bytes_len(b@.len(), 8);
        }
        out.push(0xb7 + lb.len() as u8);
        append_bytes(&mut *out, &lb);
        append_bytes(&mut *out, b);
        proof {
            assert(old(out)@ + enc_str(b@) =~= out@);
        }
    }
}

/// Append the canonical list header for a declared length to `out`.
pub fn append_list_header(out: &mut Vec<u8>, l: usize)
    ensures
        final(out)@ == old(out)@ + list_header(l as nat),
{
    if l <= 55 {
        out.push(0xc0 + l as u8);
        proof {
            assert(old(out)@ + list_header(l as nat) =~= out@);
        }
    } else {
        let lb = be_bytes_exec(l);
        proof {
            lemma_usize_max_fits();
            lemma_be_bytes_len(l as nat, 8);
        }
        out.push(0xf7 + lb.len() as u8);
        append_bytes(&mut *out, &lb);
        proof {
            assert(old(out)@ + list_header(l as nat) =~= out@);
        }
    }
}

/// Every usize value needs at most 8 big-endian bytes.
proof fn lemma_usize_max_fits()
    ensures
        usize::MAX < pow256(8),
        pow256(8) * 256 == pow256(9),
{
    lemma_pow256_values();
}

/// The small powers of 256 that the length headers can need.
proof fn lemma_pow256_values()
    ensures
        pow256(8) == 0x1_0000_0000_0000_0000,
        pow256(9) == 0x100_0000_0000_0000_0000,
{
    assert(pow256(0) == 1);
    assert(pow256(1) == 256);
    assert(pow256(2) == 0x1_0000);
    assert(pow256(3) == 0x100_0000);
    assert(pow256(4) == 0x1_0000_0000);
    assert(pow256(5) == 0x100_0000_0000);
    assert(pow256(6) == 0x1_0000_0000_0000);
    assert(pow256(7) == 0x100_0000_0000_0000);
    assert(pow256(8) == 0x1_0000_0000_0000_0000);
    assert(pow256(9) == 0x100_0000_0000_0000_0000);
}

/// Canonical encoding of a leaf record.
pub fn encode_leaf_record(key: &Vec<u8>, value: &Vec<u8>) -> (r: Vec<u8>)
    ensures
        r@ == leaf_record(key@, value@),
{
    let mut out: Vec<u8> = Vec::new();
    let n = key.len();
    if n <= 16 {
        out.push(0xc0 + (n / 2 + 1) as u8);
        proof {
            assert(out@ =~= list_header(compact_len(key@.len())));
        }
    } else if n <= 54 {
        out.push(0xc1 + n as u8);
        proof {
            assert(out@ =~= list_header(compact_len(key@.len())));
        }
    } else {
        let lb = be_bytes_succ(n);
        proof {
            lemma_usize_max_fits();
            lemma_be_bytes_len(n as nat + 1, 9);
        }
        let hb: u8 = #[verifier::truncate] ((0xf7 + lb.len()) as u8);
        out.push(hb);
        append_bytes(&mut out, &lb);
        proof {
            assert(out@ =~= list_header(compact_len(key@.len())));
        }
    }
    append_str(&mut out, key);
    append_str(&mut out, value);
    proof {
        assert(out@ =~= leaf_record(key@, value@));
    }
    out
}

/// Canonical encoding of a two-string list.
pub fn encode_pair_list(a: &Vec<u8>, b: &Vec<u8>) -> (r: Vec<u8>)
    ensures
        r@ == list_of_strings(seq![a@, b@]),
{
    let mut payload: Vec<u8> = Vec::new();
    append_str(&mut payload, a);
    append_str(&mut payload, b);
    proof {
        let items: Seq<Seq<u8>> = seq![a@, b@];
        assert(items.drop_last() =~= seq![a@]);
        assert(items.last() == b@);
        assert(seq![a@].drop_last() =~= Seq::<Seq<u8>>::empty());
        assert(seq![a@].last() == a@);
        assert(str_concat(seq![a@].drop_last()) == Seq::<u8>::empty());
        assert(str_concat(seq![a@]) == Seq::<u8>::empty() + enc_str(a@));
        assert(Seq::<u8>::empty() + enc_str(a@) =~= enc_str(a@));
        assert(str_concat(items) == str_concat(seq![a@]) + enc_str(b@));
        assert(payload@ =~= str_concat(items));
    }
    let mut out: Vec<u8> = Vec::new();
    append_list_header(&mut out, payload.len());
    append_bytes(&mut out, &payload);
    proof {
        assert(out@ =~= list_of_strings(seq![a@, b@]));
    }
    out
}

/// Canonical encoding of a list of byte strings.
pub fn encode_string_list(items: &Vec<Vec<u8>>) -> (r: Vec<u8>)
    ensures
        r@ == list_of_strings(crate::node::bytes_seq_view(items@)),
{
    let ghost view = crate::node::bytes_seq_view(items@);
    let mut payload: Vec<u8> = Vec::new();
    let mut i: usize = 0;
    proof {
        assert(view.subrange(0, 0) =~= Seq::<Seq<u8>>::empty());
    }
    while i < items.len()
        invariant
            i <= items@.len(),
            view == crate::node::bytes_seq_view(items@),
            view.len() == items@.len(),
            payload@ == str_concat(view.subrange(0, i as int)),
        decreases items@.len() - i,
    {
        append_str(&mut payload, &items[i]);
        i = i + 1;
        proof {
            let pre = view.subrange(0, i - 1);
            let cur = view.subrange(0, i as int);
            assert(cur.drop_last() =~= pre);
            assert(cur.last() == items@[i - 1]@);
        }
    }
    proof {
        assert(view.subrange(0, view.len() as int) =~= view);
    }
    let mut out: Vec<u8> = Vec::new();
    append_list_header(&mut out, payload.len());
    append_bytes(&mut out, &payload);
    out
}

/// Parse one canonically encoded byte string of `bytes` at offset `pos`.
fn parse_str_exec(bytes: &Vec<u8>, pos: usize) -> (r: Result<(Vec<u8>, usize), TrieError>)
    ensures
        match r {
            Ok((s, next)) => parse_str(bytes@, pos as nat) == Some((s@, next as nat)) && pos < next
                <= bytes@.len(),
            Err(e) => parse_str(bytes@, pos as nat) is None && e == TrieError::MalformedProofError,
        },
{
    if pos >= bytes.len() {
        return Err(TrieError::MalformedProofError);
    }
    let b0 = bytes[pos];
    if b0 < 0x80 {
        let mut s: Vec<u8> = Vec::new();
        s.push(b0);
        proof {
            assert(s@ =~= seq![bytes@[pos as int]]);
        }
        Ok((s, pos + 1))
    } else if b0 <= 0xb7 {
        let l = (b0 - 0x80) as usize;
        if l > bytes.len() - (pos + 1) {
            return Err(TrieError::MalformedProofError);
        }
        let s = copy_range(bytes, pos + 1, pos + 1 + l);
        Ok((s, pos + 1 + l))
    } else if b0 <= 0xbf {
        let ll = (b0 - 0xb7) as usize;
        if ll > bytes.len() - (pos + 1) {
            return Err(TrieError::MalformedProofError);
        }
        let ghost lenfield = bytes@.subrange(pos + 1, pos + 1 + ll as int);
        let mut acc: usize = 0;
        let mut j: usize = 0;
        proof {
            assert(lenfield.subrange(0, 0) =~= Seq::<u8>::empty());
        }
        while j < ll
            invariant
                j <= ll,
                bytes@.len() <= usize::MAX,
                pos < bytes@.len(),
                b0 == bytes@[pos as int],
                0xb7 < b0 <= 0xbf,
                ll == b0 - 0xb7,
                pos + 1 + ll <= bytes@.len(),
                lenfield == bytes@.subrange(pos + 1, pos + 1 + ll as int),
                acc == be_val(lenfield.subrange(0, j as int)),
            decreases ll - j,
        {
            let b = bytes[pos + 1 + j];
            proof {
                let cur = lenfield.subrange(0, j + 1);
                assert(cur.drop_last() =~= lenfield.subrange(0, j as int));
                assert(cur.last() == b);
            }
            if acc > usize::MAX / 256 || acc * 256 > usize::MAX - (b as usize) {
                proof {
                    lemma_be_val_prefix_grows(lenfield, j + 1);
                    assert(be_val(lenfield.subrange(0, j + 1)) == acc * 256 + b);
                    assert(acc * 256 + b > usize::MAX) by (nonlinear_arith)
                        requires
                            acc > usize::MAX / 256 || acc * 256 > usize::MAX - (b as usize),
                            acc >= 0,
                            b >= 0,
                    ;
                }
                return Err(TrieError::MalformedProofError);
            }
            acc = acc * 256 + (b as usize);
            j = j + 1;
        }
        proof {
            assert(lenfield.subrange(0, ll as int) =~= lenfield);
        }
        let l = acc;
        if l > bytes.len() - (pos + 1 + ll) {
            return Err(TrieError::MalformedProofError);
        }
        let s = copy_range(bytes, pos + 1 + ll, pos + 1 + ll + l);
        Ok((s, pos + 1 + ll + l))
    } else {
        Err(TrieError::MalformedProofError)
    }
}

/// Parsing starts right after the prefix and yields exactly the encoded
/// string, wherever the encoding stands inside a larger buffer.
pub proof fn lemma_parse_enc_str(prefix: Seq<u8>, b: Seq<u8>, suffix: Seq<u8>)
    requires
        b.len() < pow256(8),
    ensures
        parse_str(prefix + enc_str(b) + suffix, prefix.len()) == Some(
            (b, prefix.len() + enc_str(b).len()),
        ),
{
    let all = prefix + enc_str(b) + suffix;
    let pos = prefix.len();
    let e = enc_str(b);
    assert forall|i: int| 0 <= i < e.len() implies all[pos + i] == e[i] by {}
    assert(all.len() == pos + e.len() + suffix.len());
    if b.len() == 1 && b[0] < 0x80 {
        assert(all[pos as int] == b[0]);
        assert(seq![b[0]] =~= b);
    } else if b.len() <= 55 {
        let b0 = (0x80 + b.len()) as u8;
        assert(all[pos as int] == b0);
        assert(0x80 <= b0 <= 0xb7);
        assert(all.subrange(pos as int + 1, pos as int + 1 + b.len() as int) =~= b);
    } else {
        let lb = be_bytes(b.len());
        lemma_be_bytes_len(b.len(), 8);
        assert(lb.len() >= 1);
        let b0 = (0xb7 + lb.len()) as u8;
        assert(all[pos as int] == b0);
        assert(0xb7 < b0 <= 0xbf);
        let ll = lb.len() as int;
        assert(all.subrange(pos as int + 1, pos as int + 1 + ll) =~= lb);
        lemma_be_val_be_bytes(b.len());
        assert(all.subrange(
            pos as int + 1 + ll,
            pos as int + 1 + ll + b.len() as int,
        ) =~= b);
    }
}

/// Decoding inverts encoding: a canonical leaf record reads back as exactly
/// the key and value it was built from.
pub proof fn lemma_decode_leaf_record(k: Seq<u8>, v: Seq<u8>)
    requires
        compact_len(k.len()) < pow256(8),
        k.len() < pow256(8),
        v.len() < pow256(8),
    ensures
        decode_leaf(leaf_record(k, v)) == Some((k, v)),
{
    let c = compact_len(k.len());
    let lh = list_header(c);
    let ek = enc_str(k);
    let ev = enc_str(v);
    let bytes = leaf_record(k, v);
    assert(bytes =~= lh + ek + ev);
    if c <= 55 {
        assert(bytes[0] == (0xc0 + c) as u8);
        assert(0xc0 <= bytes[0] <= 0xf7);
        assert(lh.len() == 1);
    } else {
        let lb = be_bytes(c);
        lemma_be_bytes_len(c, 8);
        assert(lb.len() >= 1);
        assert(bytes[0] == (0xf7 + lb.len()) as u8);
        assert(bytes[0] > 0xf7);
        assert(1 + (bytes[0] - 0xf7) == lh.len());
    }
    let hdr = lh.len();
    assert(lh + ek + ev =~= lh + (ek + ev));
    lemma_parse_enc_str(lh, k, ev);
    assert(parse_str(bytes, hdr) == Some((k, hdr + ek.len())));
    assert(lh + ek + ev =~= (lh + ek) + v.subrange(0, 0) + ev + Seq::<u8>::empty());
    assert((lh + ek) + ev + Seq::<u8>::empty() =~= bytes);
    lemma_parse_enc_str(lh + ek, v, Seq::<u8>::empty());
    assert((lh + ek).len() == hdr + ek.len());
    assert(parse_str(bytes, hdr + ek.len()) == Some((v, hdr + ek.len() + ev.len())));
    assert(hdr + ek.len() + ev.len() == bytes.len());
}

/// Decode a canonical leaf record into its key and value.
pub fn decode_leaf_record(bytes: &Vec<u8>) -> (r: Result<(Vec<u8>, Vec<u8>), TrieError>)
    ensures
        match r {
            Ok((k, v)) => decode_leaf(bytes@) == Some((k@, v@)),
            Err(e) => decode_leaf(bytes@) is None && e == TrieError::MalformedProofError,
        },
{
    if bytes.len() == 0 {
        return Err(TrieError::MalformedProofError);
    }
    let b0 = bytes[0];
    if b0 < 0xc0 {
        return Err(TrieError::MalformedProofError);
    }
    let hdr: usize = if b0 <= 0xf7 {
        1
    } else {
        1 + (b0 - 0xf7) as usize
    };
    let (k, p1) = match parse_str_exec(bytes, hdr) {
        Ok(x) => x,
        Err(e) => {
            return Err(e);
        },
    };
    let (v, p2) = match parse_str_exec(bytes, p1) {
        Ok(x) => x,
        Err(e) => {
            return Err(e);
        },
    };
    if p2 != bytes.len() {
        return Err(TrieError::MalformedProofError);
    }
    Ok((k, v))
}

} // verus!
