//! The binary chunk codec: flattened (name, entry) pairs to bytes and
//! back. Each chunk is fully self-describing: a pair count, then for each
//! pair the name's byte length, its UTF-8 bytes and four 64-bit
//! little-endian words for the entry.

use vstd::prelude::*;
use vstd::bytes::lemma_auto_spec_u64_to_from_le_bytes;
use vstd::bytes::spec_u64_from_le_bytes;
use vstd::bytes::spec_u64_to_le_bytes;
use vstd::bytes::u64_from_le_bytes;
use vstd::bytes::u64_to_le_bytes;
use vstd::slice::slice_subrange;
use vstd::utf8::decode_utf8;
use vstd::utf8::encode_utf8;
use vstd::utf8::encode_utf8_decode_utf8;
use vstd::utf8::encode_utf8_valid_utf8;
use vstd::utf8::valid_utf8;
use crate::store::DbChunk;
use crate::store::Entry;

verus! {

/// The view of one flattened pair.
pub open spec fn pair_view(p: (String, Entry)) -> (Seq<char>, Entry) {
    (p.0@, p.1)
}

/// The views of a flattened pair list.
pub open spec fn pairs_view(s: Seq<(String, Entry)>) -> Seq<(Seq<char>, Entry)> {
    s.map_values(|p: (String, Entry)| pair_view(p))
}

/// The encoding of one pair: name length, name bytes, then the entry's
/// time (two's complement) and three counters.
pub open spec fn spec_encode_pair(name: Seq<char>, e: Entry) -> Seq<u8> {
    spec_u64_to_le_bytes(encode_utf8(name).len() as u64) + encode_utf8(name)
        + spec_u64_to_le_bytes(e.time as u64) + spec_u64_to_le_bytes(
        e.direct_dependents) + spec_u64_to_le_bytes(e.transitive_dependents)
        + spec_u64_to_le_bytes(e.total_crates)
}

/// The encodings of a pair list, in order.
pub open spec fn spec_encode_pairs(data: Seq<(Seq<char>, Entry)>) -> Seq<u8>
    decreases data.len(),
{
    if data.len() == 0 {
        Seq::empty()
    } else {
        spec_encode_pair(data[0].0, data[0].1) + spec_encode_pairs(data.drop_first())
    }
}

/// The encoding of one chunk: the pair count, then the pair encodings.
pub open spec fn spec_encode_chunk(data: Seq<(Seq<char>, Entry)>) -> Seq<u8> {
    spec_u64_to_le_bytes(data.len() as u64) + spec_encode_pairs(data)
}

/// One decoded pair and the cursor after it, or nothing when the bytes at
/// `pos` do not carry a pair.
pub open spec fn spec_decode_pair(bytes: Seq<u8>, pos: int) -> Option<((Seq<char>,
    Entry), int)> {
    if pos + 8 > bytes.len() {
        None
    } else {
        let nlen = spec_u64_from_le_bytes(bytes.subrange(pos, pos + 8)) as int;
        if pos + 8 + nlen + 32 > bytes.len() {
            None
        } else {
            let nb = bytes.subrange(pos + 8, pos + 8 + nlen);
            if !valid_utf8(nb) {
                None
            } else {
                let e = Entry {
                    time: spec_u64_from_le_bytes(bytes.subrange(pos + 8 + nlen, pos
                        + 16 + nlen)) as i64,
                    direct_dependents: spec_u64_from_le_bytes(bytes.subrange(pos + 16
                        + nlen, pos + 24 + nlen)),
                    transitive_dependents: spec_u64_from_le_bytes(bytes.subrange(pos
                        + 24 + nlen, pos + 32 + nlen)),
                    total_crates: spec_u64_from_le_bytes(bytes.subrange(pos + 32
                        + nlen, pos + 40 + nlen)),
                };
                Some(((decode_utf8(nb), e), pos + 40 + nlen))
            }
        }
    }
}

/// `n` decoded pairs from `pos` on, with the final cursor.
pub open spec fn spec_decode_pairs(bytes: Seq<u8>, pos: int, n: nat) -> Option<(Seq<
    (Seq<char>, Entry)>, int)>
    decreases n,
{
    if n == 0 {
        Some((Seq::empty(), pos))
    } else {
        match spec_decode_pair(bytes, pos) {
            Option::None => None,
            Option::Some((p, pos1)) => match spec_decode_pairs(bytes, pos1, (n
                - 1) as nat) {
                Option::None => None,
                Option::Some((ps, pos2)) => Some((seq![p] + ps, pos2)),
            },
        }
    }
}

/// The decoded content of a chunk: its pairs, provided the count, every
/// pair and the total length line up exactly.
pub open spec fn spec_decode_chunk(bytes: Seq<u8>) -> Option<Seq<(Seq<char>, Entry)>> {
    if bytes.len() < 8 {
        None
    } else {
        let n = spec_u64_from_le_bytes(bytes.subrange(0, 8));
        match spec_decode_pairs(bytes, 8, n as nat) {
            Option::None => None,
            Option::Some((ps, end)) => if end == bytes.len() {
                Some(ps)
            } else {
                None
            },
        }
    }
}

/// Relies on std's `str::from_utf8`: it succeeds exactly on valid UTF-8
/// and the returned text has the input as its byte encoding.
#[verifier::external_body]
fn bytes_to_string(b: &[u8]) -> (r: Option<String>)
    ensures
        r is Some <==> valid_utf8(b@),
        r is Some ==> encode_utf8(r.unwrap()@) == b@,
{
    match core::str::from_utf8(b) {
        Ok(s) => Some(s.to_owned()),
        Err(_) => None,
    }
}

/// Encode one chunk, mirroring `spec_encode_chunk`.
#[verifier::loop_isolation(false)]
pub fn encode_chunk(chunk: &DbChunk) -> (out: Vec<u8>)
    ensures
        out@ == spec_encode_chunk(pairs_view(chunk.data@)),
        forall|k: int|
            0 <= k < chunk.data@.len() ==> encode_utf8((#[trigger] pairs_view(
            chunk.data@)[k]).0).len() <= u64::MAX,
{
    let data = &chunk.data;
    let mut out: Vec<u8> = Vec::new();
    let mut lenb = u64_to_le_bytes(data.len() as u64);
    out.append(&mut lenb);
    let ghost pv = pairs_view(data@);
    proof {
        assert(pv.skip(0) =~= pv);
        assert(pv.len() == data@.len());
        assert(out@ =~= spec_u64_to_le_bytes(pv.len() as u64));
        assert(out@ + spec_encode_pairs(pv) =~= spec_encode_chunk(pv));
    }
    let n = data.len();
    for i in 0..n
        invariant
            n == data@.len(),
            pv == pairs_view(data@),
            pv.len() == n,
            spec_encode_chunk(pv) == out@ + spec_encode_pairs(pv.skip(i as int)),
            forall|k: int|
                0 <= k < i ==> encode_utf8((#[trigger] pv[k]).0).len() <= u64::MAX,
    {
        let ghost pend = pv.skip(i as int);
        let ghost opre = out@;
        proof {
            assert(pend[0] == pv[i as int]);
            assert(pv[i as int] == (data@[i as int].0@, data@[i as int].1));
            assert(pend.drop_first() =~= pv.skip(i + 1));
        }
        let nb = data[i].0.as_str().as_bytes();
        let mut piece = u64_to_le_bytes(nb.len() as u64);
        out.append(&mut piece);
        out.extend_from_slice(nb);
        let e = data[i].1;
        let mut tb = u64_to_le_bytes(e.time as u64);
        out.append(&mut tb);
        let mut db = u64_to_le_bytes(e.direct_dependents);
        out.append(&mut db);
        let mut rb = u64_to_le_bytes(e.transitive_dependents);
        out.append(&mut rb);
        let mut ob = u64_to_le_bytes(e.total_crates);
        out.append(&mut ob);
        proof {
            assert(e == data@[i as int].1);
            assert(nb@ == encode_utf8(data@[i as int].0@));
            assert(encode_utf8(pv[i as int].0).len() <= u64::MAX);
            assert(out@ =~= opre + spec_encode_pair(pv[i as int].0, pv[i as int].1));
            assert(spec_encode_chunk(pv) == out@ + spec_encode_pairs(pv.skip(i
                + 1)));
        }
    }
    proof {
        assert(pv.skip(n as int) =~= Seq::<(Seq<char>, Entry)>::empty());
        assert(out@ =~= spec_encode_chunk(pv));
    }
    out
}

/// Decode one chunk, mirroring `spec_decode_chunk`: the rows when the
/// bytes are exactly one chunk encoding, nothing otherwise.
#[verifier::loop_isolation(false)]
pub fn decode_chunk(bytes: &Vec<u8>) -> (r: Option<DbChunk>)
    ensures
        r is Some <==> spec_decode_chunk(bytes@) is Some,
        r is Some ==> pairs_view(r.unwrap().data@) == spec_decode_chunk(
            bytes@).unwrap(),
{
    let total = bytes.len();
    if total < 8 {
        return None;
    }
    let n64 = u64_from_le_bytes(slice_subrange(bytes.as_slice(), 0, 8));
    proof {
        assert(bytes@.subrange(0, 8) == bytes@.subrange(0int, 8int));
    }
    let mut out: Vec<(String, Entry)> = Vec::new();
    let mut pos: usize = 8;
    let ghost count = n64 as nat;
    let mut k: u64 = 0;
    proof {
        assert(spec_decode_pairs(bytes@, 8, (n64 - k) as nat) is Some
            ==> spec_decode_pairs(bytes@, 8, count) is Some);
        assert(pairs_view(out@) =~= Seq::<(Seq<char>, Entry)>::empty());
    }
    while k < n64
        invariant
            0 <= k <= n64,
            8 <= pos <= bytes@.len(),
            bytes@.len() == total,
            spec_decode_pairs(bytes@, 8, count) == match spec_decode_pairs(bytes@,
                pos as int, (n64 - k) as nat) {
                Option::None => Option::<(Seq<(Seq<char>, Entry)>, int)>::None,
                Option::Some((ps, end)) => Option::Some((pairs_view(out@) + ps, end)),
            },
        decreases n64 - k,
    {
        let ghost rem = (n64 - k) as nat;
        let ghost ppre = pairs_view(out@);
        if total - pos < 8 {
            proof {
                assert(spec_decode_pair(bytes@, pos as int) is None);
            }
            return None;
        }
        let nlen64 = u64_from_le_bytes(slice_subrange(bytes.as_slice(), pos, pos + 8));
        proof {
            assert(bytes@.subrange(pos as int, pos + 8) == bytes@.subrange(
                pos as int, pos as int + 8));
        }
        if ((total - pos - 8) as u64) < 32 || nlen64 > ((total - pos - 8) as u64)
            - 32 {
            proof {
                assert(pos + 8 + (nlen64 as int) + 32 > bytes@.len());
                assert(spec_decode_pair(bytes@, pos as int) is None);
            }
            return None;
        }
        let nlen = nlen64 as usize;
        let nb = slice_subrange(bytes.as_slice(), pos + 8, pos + 8 + nlen);
        proof {
            assert(nb@ == bytes@.subrange(pos + 8, pos + 8 + nlen64 as int));
        }
        let name = match bytes_to_string(nb) {
            Some(s) => s,
            None => {
                proof {
                    assert(spec_decode_pair(bytes@, pos as int) is None);
                }
                return None;
            },
        };
        proof {
            encode_utf8_decode_utf8(name@);
            assert(name@ == decode_utf8(nb@));
        }
        let t = u64_from_le_bytes(slice_subrange(bytes.as_slice(), pos + 8 + nlen, pos
            + 16 + nlen));
        let d = u64_from_le_bytes(slice_subrange(bytes.as_slice(), pos + 16 + nlen,
            pos + 24 + nlen));
        let tr = u64_from_le_bytes(slice_subrange(bytes.as_slice(), pos + 24 + nlen,
            pos + 32 + nlen));
        let tot = u64_from_le_bytes(slice_subrange(bytes.as_slice(), pos + 32 + nlen,
            pos + 40 + nlen));
        let e = Entry {
            time: t as i64,
            direct_dependents: d,
            transitive_dependents: tr,
            total_crates: tot,
        };
        let ghost decoded = spec_decode_pair(bytes@, pos as int);
        proof {
            assert(decoded == Some(((name@, e), pos + 40 + nlen64 as int)));
        }
        out.push((name, e));
        pos = pos + 40 + nlen;
        k = k + 1;
        proof {
            assert(pairs_view(out@) =~= ppre.push((out@[out@.len() - 1].0@, out@[
                out@.len() - 1].1)));
            assert(ppre.push(decoded.unwrap().0) + match spec_decode_pairs(bytes@,
                pos as int, (n64 - k) as nat) {
                Option::None => Seq::<(Seq<char>, Entry)>::empty(),
                Option::Some((ps, end)) => ps,
            } =~= ppre + (seq![decoded.unwrap().0] + match spec_decode_pairs(bytes@,
                pos as int, (n64 - k) as nat) {
                Option::None => Seq::<(Seq<char>, Entry)>::empty(),
                Option::Some((ps, end)) => ps,
            }));
        }
    }
    if pos != total {
        proof {
            assert(spec_decode_pairs(bytes@, pos as int, 0nat) == Some((Seq::<(Seq<
                char>, Entry)>::empty(), pos as int)));
            assert(spec_decode_chunk(bytes@) is None);
        }
        return None;
    }
    proof {
        assert(spec_decode_pairs(bytes@, pos as int, 0nat) == Some((Seq::<(Seq<char>,
            Entry)>::empty(), pos as int)));
        assert(pairs_view(out@) + Seq::<(Seq<char>, Entry)>::empty() =~= pairs_view(
            out@));
        assert(spec_decode_chunk(bytes@) == Some(pairs_view(out@)));
    }
    Some(DbChunk { data: out })
}

/// Decoding inverts encoding: a pair list laid down at `pos` inside a
/// larger byte string parses back to its views, with the cursor after it.
pub proof fn lemma_decode_pairs_at(bytes: Seq<u8>, pos: int, data: Seq<(Seq<char>,
    Entry)>)
    requires
        0 <= pos,
        pos + spec_encode_pairs(data).len() <= bytes.len(),
        bytes.subrange(pos, pos + spec_encode_pairs(data).len()) == spec_encode_pairs(
            data),
        forall|k: int|
            0 <= k < data.len() ==> encode_utf8((#[trigger] data[k]).0).len()
                <= u64::MAX,
    ensures
        spec_decode_pairs(bytes, pos, data.len() as nat) == Some((data, pos
            + spec_encode_pairs(data).len())),
    decreases data.len(),
{
    lemma_auto_spec_u64_to_from_le_bytes();
    let enc = spec_encode_pairs(data);
    assert forall|q: int| 0 <= q < enc.len() implies bytes[pos + q] == enc[q] by {
        assert(bytes.subrange(pos, pos + enc.len())[q] == bytes[pos + q]);
    }
    if data.len() == 0 {
        assert(data =~= Seq::<(Seq<char>, Entry)>::empty());
    } else {
        let name = data[0].0;
        let e = data[0].1;
        let nb = encode_utf8(name);
        let nlen = nb.len() as int;
        let pa = spec_u64_to_le_bytes(nb.len() as u64);
        let pc = spec_u64_to_le_bytes(e.time as u64);
        let pd = spec_u64_to_le_bytes(e.direct_dependents);
        let pe = spec_u64_to_le_bytes(e.transitive_dependents);
        let pf = spec_u64_to_le_bytes(e.total_crates);
        let penc = spec_encode_pair(name, e);
        let rest = spec_encode_pairs(data.drop_first());
        assert(enc == penc + rest);
        let plen = penc.len() as int;
        assert(plen == 40 + nlen);
        assert(bytes.subrange(pos, pos + 8) =~= pa) by {
            assert forall|j: int| 0 <= j < 8 implies bytes.subrange(pos, pos + 8)[j]
                == pa[j] by {
                assert(bytes[pos + j] == enc[j]);
                assert(enc[j] == penc[j]);
                assert(penc[j] == pa[j]);
            }
        }
        assert(spec_u64_from_le_bytes(bytes.subrange(pos, pos + 8)) == nb.len()
            as u64);
        assert(bytes.subrange(pos + 8, pos + 8 + nlen) =~= nb) by {
            assert forall|j: int| 0 <= j < nlen implies bytes.subrange(pos + 8, pos
                + 8 + nlen)[j] == nb[j] by {
                assert(bytes[pos + 8 + j] == enc[8 + j]);
                assert(enc[8 + j] == penc[8 + j]);
                assert(penc[8 + j] == nb[j]);
            }
        }
        encode_utf8_valid_utf8(name);
        encode_utf8_decode_utf8(name);
        assert(bytes.subrange(pos + 8 + nlen, pos + 16 + nlen) =~= pc) by {
            assert forall|j: int| 0 <= j < 8 implies bytes.subrange(pos + 8 + nlen,
                pos + 16 + nlen)[j] == pc[j] by {
                assert(bytes[pos + 8 + nlen + j] == enc[8 + nlen + j]);
                assert(enc[8 + nlen + j] == penc[8 + nlen + j]);
                assert(penc[8 + nlen + j] == pc[j]);
            }
        }
        assert(bytes.subrange(pos + 16 + nlen, pos + 24 + nlen) =~= pd) by {
            assert forall|j: int| 0 <= j < 8 implies bytes.subrange(pos + 16 + nlen,
                pos + 24 + nlen)[j] == pd[j] by {
                assert(bytes[pos + 16 + nlen + j] == enc[16 + nlen + j]);
                assert(enc[16 + nlen + j] == penc[16 + nlen + j]);
                assert(penc[16 + nlen + j] == pd[j]);
            }
        }
        assert(bytes.subrange(pos + 24 + nlen, pos + 32 + nlen) =~= pe) by {
            assert forall|j: int| 0 <= j < 8 implies bytes.subrange(pos + 24 + nlen,
                pos + 32 + nlen)[j] == pe[j] by {
                assert(bytes[pos + 24 + nlen + j] == enc[24 + nlen + j]);
                assert(enc[24 + nlen + j] == penc[24 + nlen + j]);
                assert(penc[24 + nlen + j] == pe[j]);
            }
        }
        assert(bytes.subrange(pos + 32 + nlen, pos + 40 + nlen) =~= pf) by {
            assert forall|j: int| 0 <= j < 8 implies bytes.subrange(pos + 32 + nlen,
                pos + 40 + nlen)[j] == pf[j] by {
                assert(bytes[pos + 32 + nlen + j] == enc[32 + nlen + j]);
                assert(enc[32 + nlen + j] == penc[32 + nlen + j]);
                assert(penc[32 + nlen + j] == pf[j]);
            }
        }
        let tv = e.time;
        assert(((tv as u64) as i64) == tv) by (bit_vector);
        let decoded = spec_decode_pair(bytes, pos);
        assert(decoded == Some(((name, e), pos + plen)));
        assert(bytes.subrange(pos + plen, pos + plen + rest.len() as int) =~= rest)
            by {
            assert forall|j: int| 0 <= j < rest.len() implies bytes.subrange(pos
                + plen, pos + plen + rest.len() as int)[j] == rest[j] by {
                assert(bytes[pos + plen + j] == enc[plen + j]);
                assert(enc[plen + j] == rest[j]);
            }
        }
        assert forall|k: int| 0 <= k < data.drop_first().len() implies encode_utf8((
            #[trigger] data.drop_first()[k]).0).len() <= u64::MAX by {
            assert(data.drop_first()[k] == data[k + 1]);
        }
        lemma_decode_pairs_at(bytes, pos + plen, data.drop_first());
        assert(data =~= seq![(name, e)] + data.drop_first());
    }
}

/// Decoding inverts encoding for a whole chunk.
pub proof fn lemma_decode_encode_chunk(data: Seq<(Seq<char>, Entry)>)
    requires
        data.len() <= u64::MAX,
        forall|k: int|
            0 <= k < data.len() ==> encode_utf8((#[trigger] data[k]).0).len()
                <= u64::MAX,
    ensures
        spec_decode_chunk(spec_encode_chunk(data)) == Some(data),
{
    lemma_auto_spec_u64_to_from_le_bytes();
    let bytes = spec_encode_chunk(data);
    let cnt = spec_u64_to_le_bytes(data.len() as u64);
    assert(bytes.subrange(0, 8) =~= cnt);
    assert(spec_u64_from_le_bytes(bytes.subrange(0, 8)) == data.len() as u64);
    assert(bytes.subrange(8, 8 + spec_encode_pairs(data).len() as int) =~=
        spec_encode_pairs(data));
    lemma_decode_pairs_at(bytes, 8, data);
}

} // verus!
