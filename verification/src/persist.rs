//! Persistence of the store: flatten, sort, split into chunks, encode
//! and hash on the way out; decode and merge on the way in.

use vstd::prelude::*;
use crate::codec::decode_chunk;
use crate::codec::encode_chunk;
use crate::codec::pairs_view;
use crate::codec::spec_decode_chunk;
use crate::codec::spec_encode_chunk;
use crate::codec::lemma_decode_encode_chunk;
use crate::digest::sha256_hex;
use crate::digest::sha256_hex_of;
use crate::names::names_view;
use crate::order::chars_le;
use crate::order::lemma_chars_le_antisym;
use crate::order::names_sorted;
use crate::order::sort_names;
use crate::store::Db;
use crate::store::DbChunk;
use crate::store::DbHeader;
use crate::store::Entry;
use crate::store::db_map_wf;
use crate::store::db_view;
use crate::store::lemma_map_index_exists;
use crate::store::lemma_map_index_of;
use crate::store::lemma_map_push_view;
use crate::store::lemma_map_update_view;
use crate::store::map_as_map;
use crate::store::map_find;
use crate::store::map_index_of;

verus! {

broadcast use vstd::set::group_set_axioms;

/// Rows per chunk of the on-disk format.
pub const CHUNK_ROWS: usize = 1000000;

/// Failure to read a persisted chunk.
#[derive(Clone, Copy, Debug, PartialEq, Eq, Structural)]
pub enum CodecError {
    /// A chunk is corrupt or truncated.
    MalformedChunk,
}

/// The names stored in a map sequence, in map order.
pub open spec fn spec_keys(m: Seq<(String, Vec<Entry>)>) -> Seq<Seq<char>> {
    m.map_values(|p: (String, Vec<Entry>)| p.0@)
}

/// The history of `name` in the map, empty when the map has none.
pub open spec fn spec_entries_of(m: Seq<(String, Vec<Entry>)>, name: Seq<char>) -> Seq<
    Entry> {
    if map_index_of(m, name) >= 0 {
        m[map_index_of(m, name)].1@
    } else {
        Seq::empty()
    }
}

/// All entries of one name as flattened pairs.
pub open spec fn spec_name_block(name: Seq<char>, es: Seq<Entry>) -> Seq<(Seq<char>,
    Entry)> {
    es.map_values(|e: Entry| (name, e))
}

/// The flattened pairs of the named histories, in name-list order.
pub open spec fn spec_blocks(m: Seq<(String, Vec<Entry>)>, names: Seq<Seq<char>>) -> Seq<
    (Seq<char>, Entry)>
    decreases names.len(),
{
    if names.len() == 0 {
        Seq::empty()
    } else {
        spec_name_block(names[0], spec_entries_of(m, names[0])) + spec_blocks(m,
            names.drop_first())
    }
}

/// The store's names in their unique sorted arrangement.
pub open spec fn spec_sorted_keys(m: Seq<(String, Vec<Entry>)>) -> Seq<Seq<char>> {
    choose|s: Seq<Seq<char>>| names_sorted(s) && s.to_set() == spec_keys(m).to_set()
}

/// The flattened content of the store: pairs sorted by name, each name's
/// entries kept in their stored (ascending time) order.
pub open spec fn spec_pairs_of_db(m: Seq<(String, Vec<Entry>)>) -> Seq<(Seq<char>,
    Entry)> {
    spec_blocks(m, spec_sorted_keys(m))
}

/// Split into chunks of at most `k` pairs, in order; the final chunk may
/// be short, and an empty list still yields one empty chunk.
pub open spec fn spec_split(pairs: Seq<(Seq<char>, Entry)>, k: int) -> Seq<Seq<(Seq<
    char>, Entry)>>
    decreases pairs.len(),
    when k > 0
{
    if pairs.len() > k {
        seq![pairs.take(k)] + spec_split(pairs.skip(k), k)
    } else {
        seq![pairs]
    }
}

/// The concatenation of chunked pair lists.
pub open spec fn spec_concat(chunks: Seq<Seq<(Seq<char>, Entry)>>) -> Seq<(Seq<char>,
    Entry)>
    decreases chunks.len(),
{
    if chunks.len() == 0 {
        Seq::empty()
    } else {
        chunks[0] + spec_concat(chunks.drop_first())
    }
}

/// The byte views of a chunk list.
pub open spec fn bytes_views(chunks: Seq<Vec<u8>>) -> Seq<Seq<u8>> {
    chunks.map_values(|c: Vec<u8>| c@)
}

/// Two sorted duplicate-free name lists with the same name set are equal.
pub proof fn lemma_names_sorted_unique(s1: Seq<Seq<char>>, s2: Seq<Seq<char>>)
    requires
        names_sorted(s1),
        names_sorted(s2),
        s1.to_set() == s2.to_set(),
    ensures
        s1 == s2,
    decreases s1.len(),
{
    if s1.len() == 0 {
        if s2.len() > 0 {
            assert(s2.to_set().contains(s2[0]));
            assert(s1.to_set().contains(s2[0]));
        }
        assert(s1 =~= s2);
    } else {
        assert(s2.len() > 0) by {
            assert(s1.to_set().contains(s1[0]));
            assert(s2.to_set().contains(s1[0]));
        }
        assert(s2.to_set().contains(s1[0]));
        let j = choose|j: int| 0 <= j < s2.len() && s2[j] == s1[0];
        assert(s1.to_set().contains(s2[0]));
        let i = choose|i: int| 0 <= i < s1.len() && s1[i] == s2[0];
        assert(s1[0] == s2[0]) by {
            if i > 0 && j > 0 {
                assert(chars_le(s1[0], s1[i]));
                assert(chars_le(s2[0], s2[j]));
                lemma_chars_le_antisym(s1[0], s2[0]);
            }
        }
        let t1 = s1.drop_first();
        let t2 = s2.drop_first();
        assert(names_sorted(t1)) by {
            assert(forall|a: int, b: int|
                0 <= a < b < t1.len() ==> t1[a] == s1[a + 1] && t1[b] == s1[b + 1]);
        }
        assert(names_sorted(t2)) by {
            assert(forall|a: int, b: int|
                0 <= a < b < t2.len() ==> t2[a] == s2[a + 1] && t2[b] == s2[b + 1]);
        }
        assert(t1.to_set() =~= t2.to_set()) by {
            assert forall|x: Seq<char>| t1.to_set().contains(x) implies
                t2.to_set().contains(x) by {
                let a = choose|a: int| 0 <= a < t1.len() && t1[a] == x;
                assert(s1[a + 1] == x);
                assert(x != s1[0]);
                assert(s2.to_set().contains(x));
                let b = choose|b: int| 0 <= b < s2.len() && s2[b] == x;
                assert(b > 0);
                assert(t2[b - 1] == x);
            }
            assert forall|x: Seq<char>| t2.to_set().contains(x) implies
                t1.to_set().contains(x) by {
                let a = choose|a: int| 0 <= a < t2.len() && t2[a] == x;
                assert(s2[a + 1] == x);
                assert(x != s2[0]);
                assert(s1.to_set().contains(x));
                let b = choose|b: int| 0 <= b < s1.len() && s1[b] == x;
                assert(b > 0);
                assert(t1[b - 1] == x);
            }
        }
        lemma_names_sorted_unique(t1, t2);
        assert(s1 =~= seq![s1[0]] + t1);
        assert(s2 =~= seq![s2[0]] + t2);
    }
}

/// Flatten the store into sorted (name, entry) pairs, mirroring
/// `spec_pairs_of_db`.
#[verifier::loop_isolation(false)]
fn flatten_db(db: &Db) -> (out: Vec<(String, Entry)>)
    requires
        db_map_wf(db.map@),
    ensures
        pairs_view(out@) == spec_pairs_of_db(db.map@),
{
    let mut keys: Vec<String> = Vec::new();
    let n = db.map.len();
    proof {
        assert(names_view(keys@) =~= Seq::<Seq<char>>::empty());
        assert(names_view(keys@) =~= spec_keys(db.map@).take(0));
    }
    for i in 0..n
        invariant
            n == db.map@.len(),
            names_view(keys@) == spec_keys(db.map@).take(i as int),
    {
        keys.push(db.map[i].0.clone());
        proof {
            assert(names_view(keys@) =~= spec_keys(db.map@).take(i + 1));
        }
    }
    proof {
        assert(spec_keys(db.map@).take(n as int) =~= spec_keys(db.map@));
        assert(names_view(keys@).no_duplicates()) by {
            assert(forall|a: int, b: int|
                0 <= a < b < names_view(keys@).len() ==> names_view(keys@)[a]
                    == (#[trigger] db.map@[a]).0@ && names_view(keys@)[b] == (
                    #[trigger] db.map@[b]).0@);
        }
    }
    let sorted = sort_names(&keys);
    let ghost ks = spec_sorted_keys(db.map@);
    proof {
        assert(names_sorted(names_view(sorted@)) && names_view(sorted@).to_set()
            == spec_keys(db.map@).to_set());
        assert(names_sorted(ks) && ks.to_set() == spec_keys(db.map@).to_set());
        lemma_names_sorted_unique(names_view(sorted@), ks);
    }
    let mut out: Vec<(String, Entry)> = Vec::new();
    let sn = sorted.len();
    proof {
        assert(ks.skip(0) =~= ks);
        assert(pairs_view(out@) =~= Seq::<(Seq<char>, Entry)>::empty());
    }
    for i in 0..sn
        invariant
            sn == sorted@.len(),
            names_view(sorted@) == ks,
            spec_pairs_of_db(db.map@) == pairs_view(out@) + spec_blocks(db.map@,
                ks.skip(i as int)),
    {
        let ghost nm = ks[i as int];
        proof {
            assert(ks.skip(i as int)[0] == nm);
            assert(ks.skip(i as int).drop_first() =~= ks.skip(i + 1));
            assert(nm == sorted@[i as int]@);
        }
        let hit = map_find(&db.map, &sorted[i]);
        let j = match hit {
            Some(j) => j,
            None => {
                proof {
                    assert(ks.to_set().contains(nm));
                    assert(spec_keys(db.map@).to_set().contains(nm));
                    let q = choose|q: int|
                        0 <= q < spec_keys(db.map@).len() && spec_keys(db.map@)[q]
                            == nm;
                    lemma_map_index_exists(db.map@, nm, q);
                    assert(false);
                }
                0
            },
        };
        let ghost es = db.map@[j as int].1@;
        proof {
            assert(spec_entries_of(db.map@, nm) == es);
            assert(es.map_values(|e: Entry| (nm, e)).take(0) =~= Seq::<(Seq<char>,
                Entry)>::empty());
            assert(pairs_view(out@) + spec_name_block(nm, es).take(0) =~= pairs_view(
                out@));
        }
        let ghost obase = pairs_view(out@);
        let m = db.map[j].1.len();
        for q in 0..m
            invariant
                m == db.map@[j as int].1@.len(),
                j < db.map@.len(),
                es == db.map@[j as int].1@,
                nm == sorted@[i as int]@,
                i < sn,
                sn == sorted@.len(),
                pairs_view(out@) == obase + spec_name_block(nm, es).take(q as int),
        {
            let e = db.map[j].1[q];
            out.push((sorted[i].clone(), e));
            proof {
                assert(spec_name_block(nm, es).take(q + 1) =~= spec_name_block(nm,
                    es).take(q as int).push((nm, e)));
                assert(pairs_view(out@) =~= (obase + spec_name_block(nm, es).take(
                    q as int)).push((nm, e)));
                assert(obase + spec_name_block(nm, es).take(q + 1) =~= (obase
                    + spec_name_block(nm, es).take(q as int)).push((nm, e)));
            }
        }
        proof {
            assert(spec_name_block(nm, es).take(m as int) =~= spec_name_block(nm,
                es));
            assert(spec_pairs_of_db(db.map@) == pairs_view(out@) + spec_blocks(
                db.map@, ks.skip(i + 1)));
        }
    }
    proof {
        assert(ks.skip(sn as int) =~= Seq::<Seq<char>>::empty());
        assert(pairs_view(out@) =~= pairs_view(out@) + Seq::<(Seq<char>,
            Entry)>::empty());
    }
    out
}

/// Split flattened pairs into chunks of at most `chunk_rows` rows,
/// mirroring `spec_split`.
#[verifier::loop_isolation(false)]
fn split_pairs(data: Vec<(String, Entry)>, chunk_rows: usize) -> (chunks: Vec<DbChunk>)
    requires
        chunk_rows > 0,
    ensures
        chunks@.map_values(|c: DbChunk| pairs_view(c.data@)) == spec_split(
            pairs_view(data@), chunk_rows as int),
{
    let ghost full = pairs_view(data@);
    let mut chunks: Vec<DbChunk> = Vec::new();
    let mut data = data;
    proof {
        assert(chunks@.map_values(|c: DbChunk| pairs_view(c.data@)) =~= Seq::<
            Seq<(Seq<char>, Entry)>>::empty());
    }
    while data.len() > chunk_rows
        invariant
            spec_split(full, chunk_rows as int) == chunks@.map_values(
                |c: DbChunk| pairs_view(c.data@)) + spec_split(pairs_view(
                data@), chunk_rows as int),
        decreases data@.len(),
    {
        let ghost dpre = data@;
        let rest = data.split_off(chunk_rows);
        let ghost cpre = chunks@;
        chunks.push(DbChunk { data });
        data = rest;
        proof {
            assert(pairs_view(dpre).len() == dpre.len());
            assert(pairs_view(chunks@[chunks@.len() - 1].data@) =~= pairs_view(
                dpre).take(chunk_rows as int));
            assert(pairs_view(data@) =~= pairs_view(dpre).skip(chunk_rows as int));
            assert(chunks@.map_values(|c: DbChunk| pairs_view(c.data@)) =~=
                cpre.map_values(|c: DbChunk| pairs_view(c.data@)).push(
                pairs_view(dpre).take(chunk_rows as int)));
            assert(cpre.map_values(|c: DbChunk| pairs_view(c.data@)).push(
                pairs_view(dpre).take(chunk_rows as int)) + spec_split(pairs_view(
                data@), chunk_rows as int) =~= cpre.map_values(
                |c: DbChunk| pairs_view(c.data@)) + (seq![pairs_view(
                dpre).take(chunk_rows as int)] + spec_split(pairs_view(data@),
                chunk_rows as int)));
        }
    }
    let ghost cpre = chunks@;
    let ghost dlast = pairs_view(data@);
    chunks.push(DbChunk { data });
    proof {
        assert(chunks@.map_values(|c: DbChunk| pairs_view(c.data@)) =~=
            cpre.map_values(|c: DbChunk| pairs_view(c.data@)).push(dlast));
        assert(cpre.map_values(|c: DbChunk| pairs_view(c.data@)).push(dlast)
            =~= cpre.map_values(|c: DbChunk| pairs_view(c.data@))
            + seq![dlast]);
        assert(spec_split(dlast, chunk_rows as int) == seq![dlast]);
    }
    chunks
}

impl Db {
    /// Serialize the store: flatten to sorted pairs, split into chunks of
    /// at most `chunk_rows` rows, binary-encode each chunk and digest it.
    /// Returns the header (high-water mark and digests, in chunk order)
    /// and the encoded chunks; every chunk decodes back to exactly the
    /// rows it was built from.
    #[verifier::loop_isolation(false)]
    pub fn to_chunks(&self, chunk_rows: usize) -> (r: (DbHeader, Vec<Vec<u8>>))
        requires
            chunk_rows > 0,
            db_map_wf(self.map@),
        ensures
            r.0.update == self.update,
            r.0.hash@.len() == r.1@.len(),
            bytes_views(r.1@) == spec_split(spec_pairs_of_db(self.map@),
                chunk_rows as int).map_values(|c: Seq<(Seq<char>, Entry)>|
                spec_encode_chunk(c)),
            forall|i: int|
                0 <= i < r.1@.len() ==> (#[trigger] r.0.hash@[i])@ == sha256_hex_of(
                r.1@[i]@),
            forall|i: int|
                0 <= i < r.1@.len() ==> #[trigger] spec_decode_chunk(r.1@[i]@)
                    == Some(spec_split(spec_pairs_of_db(self.map@),
                    chunk_rows as int)[i]),
    {
        let data = flatten_db(self);
        let parts = split_pairs(data, chunk_rows);
        let ghost split = spec_split(spec_pairs_of_db(self.map@), chunk_rows as int);
        proof {
            assert(parts@.map_values(|c: DbChunk| pairs_view(c.data@)) == split);
        }
        let mut chunks: Vec<Vec<u8>> = Vec::new();
        let mut hashes: Vec<String> = Vec::new();
        let pn = parts.len();
        for i in 0..pn
            invariant
                pn == parts@.len(),
                split.len() == pn,
                parts@.map_values(|c: DbChunk| pairs_view(c.data@)) == split,
                chunks@.len() == i,
                hashes@.len() == i,
                forall|q: int|
                    0 <= q < i ==> (#[trigger] chunks@[q])@ == spec_encode_chunk(
                    split[q]),
                forall|q: int|
                    0 <= q < i ==> (#[trigger] hashes@[q])@ == sha256_hex_of(
                    chunks@[q]@),
                forall|q: int|
                    0 <= q < i ==> #[trigger] spec_decode_chunk(chunks@[q]@)
                        == Some(split[q]),
        {
            proof {
                assert(pairs_view(parts@[i as int].data@) == split[i as int]);
            }
            let rows = parts[i].data.len();
            let enc = encode_chunk(&parts[i]);
            proof {
                assert(split[i as int].len() == rows as int);
                lemma_decode_encode_chunk(split[i as int]);
            }
            let h = sha256_hex(&enc);
            chunks.push(enc);
            hashes.push(h);
        }
        proof {
            assert(bytes_views(chunks@) =~= split.map_values(
                |c: Seq<(Seq<char>, Entry)>| spec_encode_chunk(c)));
        }
        (DbHeader { update: self.update, hash: hashes }, chunks)
    }
}

/// One pair folded into the map content: the entry is appended to its
/// name's history, which starts empty.
pub open spec fn spec_merge_one(
    m: Map<Seq<char>, Seq<Entry>>,
    name: Seq<char>,
    e: Entry,
) -> Map<Seq<char>, Seq<Entry>> {
    if m.contains_key(name) {
        m.insert(name, m[name].push(e))
    } else {
        m.insert(name, seq![e])
    }
}

/// Pairs folded into map content in order, starting from `m`.
pub open spec fn spec_merge_from(
    m: Map<Seq<char>, Seq<Entry>>,
    pairs: Seq<(Seq<char>, Entry)>,
) -> Map<Seq<char>, Seq<Entry>>
    decreases pairs.len(),
{
    if pairs.len() == 0 {
        m
    } else {
        spec_merge_from(spec_merge_one(m, pairs[0].0, pairs[0].1), pairs.drop_first())
    }
}

/// The map content read back from flattened pairs.
pub open spec fn spec_merge_map(pairs: Seq<(Seq<char>, Entry)>) -> Map<Seq<char>, Seq<
    Entry>> {
    spec_merge_from(Map::empty(), pairs)
}

/// The decoded pairs of a chunk list, concatenated in order; meaningful
/// when every chunk decodes.
pub open spec fn spec_decoded_pairs(chunks: Seq<Seq<u8>>) -> Seq<(Seq<char>, Entry)>
    decreases chunks.len(),
{
    if chunks.len() == 0 {
        Seq::empty()
    } else {
        match spec_decode_chunk(chunks[0]) {
            Option::Some(ps) => ps + spec_decoded_pairs(chunks.drop_first()),
            Option::None => spec_decoded_pairs(chunks.drop_first()),
        }
    }
}

/// Merge a list of pairs into the store map, mirroring `spec_merge_from`.
#[verifier::loop_isolation(false)]
fn merge_pairs(map: &mut Vec<(String, Vec<Entry>)>, pairs: &Vec<(String, Entry)>)
    requires
        forall|a: int, b: int|
            0 <= a < b < old(map)@.len() ==> (#[trigger] old(map)@[a]).0@ != (
            #[trigger] old(map)@[b]).0@,
    ensures
        forall|a: int, b: int|
            0 <= a < b < final(map)@.len() ==> (#[trigger] final(map)@[a]).0@ != (
            #[trigger] final(map)@[b]).0@,
        map_as_map(final(map)@) == spec_merge_from(map_as_map(old(map)@), pairs_view(
            pairs@)),
{
    let ghost pv = pairs_view(pairs@);
    proof {
        assert(pv.skip(0) =~= pv);
    }
    let n = pairs.len();
    for i in 0..n
        invariant
            n == pairs@.len(),
            pv.len() == n,
            pv == pairs_view(pairs@),
            forall|a: int, b: int|
                0 <= a < b < map@.len() ==> (#[trigger] map@[a]).0@ != (
                #[trigger] map@[b]).0@,
            spec_merge_from(map_as_map(old(map)@), pv) == spec_merge_from(map_as_map(
                map@), pv.skip(i as int)),
    {
        let ghost mpre = map@;
        let ghost nm = pv[i as int].0;
        let ghost e_spec = pv[i as int].1;
        proof {
            assert(pv.skip(i as int)[0] == pv[i as int]);
            assert(pv.skip(i as int).drop_first() =~= pv.skip(i + 1));
            assert(nm == pairs@[i as int].0@);
            assert(e_spec == pairs@[i as int].1);
        }
        let e = pairs[i].1;
        let hit = map_find(map, &pairs[i].0);
        match hit {
            Some(j) => {
                proof {
                    assert(map_as_map(mpre).contains_key(nm));
                    assert(map_as_map(mpre)[nm] == mpre[j as int].1@);
                }
                crate::store::map_append_at(map, j, e);
                proof {
                    lemma_map_update_view(mpre, map@, j as int);
                    assert(map_as_map(map@) =~= spec_merge_one(map_as_map(mpre), nm,
                        e_spec));
                }
            },
            None => {
                proof {
                    lemma_map_index_of(mpre, nm);
                    assert(!map_as_map(mpre).contains_key(nm));
                }
                let mut es: Vec<Entry> = Vec::new();
                es.push(e);
                map.push((pairs[i].0.clone(), es));
                proof {
                    assert(map@.drop_last() =~= mpre);
                    assert(map@[map@.len() - 1].0@ == nm);
                    assert(map@[map@.len() - 1].1@ =~= seq![e_spec]);
                    lemma_map_push_view(mpre, map@, nm);
                    assert(map_as_map(map@) =~= spec_merge_one(map_as_map(mpre), nm,
                        e_spec));
                    assert forall|a: int, b: int|
                        0 <= a < b < map@.len() implies (#[trigger] map@[a]).0@ != (
                        #[trigger] map@[b]).0@ by {
                        if b == map@.len() - 1 {
                            lemma_map_index_of(mpre, nm);
                            assert(map@[a] == mpre[a]);
                        }
                    }
                }
            },
        }
    }
    proof {
        assert(pv.skip(n as int) =~= Seq::<(Seq<char>, Entry)>::empty());
    }
}

impl Db {
    /// Rebuild a store from its high-water mark and its encoded chunks,
    /// grouping the pairs by name in order of appearance. Fails exactly
    /// when some chunk is not a well-formed encoding.
    #[verifier::loop_isolation(false)]
    pub fn from_chunks(update: i64, chunks: &Vec<Vec<u8>>) -> (r: Result<Db,
        CodecError>)
        ensures
            r is Ok <==> (forall|i: int|
                0 <= i < chunks@.len() ==> #[trigger] spec_decode_chunk(chunks@[i]@)
                    is Some),
            r is Ok ==> r.unwrap().update == update,
            r is Ok ==> db_view(r.unwrap()) == spec_merge_map(spec_decoded_pairs(
                bytes_views(chunks@))),
            r is Ok ==> forall|a: int, b: int|
                0 <= a < b < r.unwrap().map@.len() ==> (#[trigger] r.unwrap().map@[
                a]).0@ != (#[trigger] r.unwrap().map@[b]).0@,
    {
        let mut map: Vec<(String, Vec<Entry>)> = Vec::new();
        let cn = chunks.len();
        let ghost cv = bytes_views(chunks@);
        proof {
            assert(cv.skip(0) =~= cv);
            assert(map_as_map(map@) =~= Map::<Seq<char>, Seq<Entry>>::empty());
        }
        for i in 0..cn
            invariant
                cn == chunks@.len(),
                cv == bytes_views(chunks@),
                cv.len() == cn,
                forall|q: int|
                    0 <= q < i ==> #[trigger] spec_decode_chunk(chunks@[q]@) is Some,
                forall|a: int, b: int|
                    0 <= a < b < map@.len() ==> (#[trigger] map@[a]).0@ != (
                    #[trigger] map@[b]).0@,
                spec_merge_map(spec_decoded_pairs(cv)) == spec_merge_from(map_as_map(
                    map@), spec_decoded_pairs(cv.skip(i as int))),
        {
            let ghost rest = cv.skip(i as int);
            proof {
                assert(rest[0] == cv[i as int]);
                assert(rest.drop_first() =~= cv.skip(i + 1));
            }
            let decoded = decode_chunk(&chunks[i]);
            let part = match decoded {
                Some(part) => part,
                None => {
                    return Err(CodecError::MalformedChunk);
                },
            };
            proof {
                assert(spec_decoded_pairs(rest) == pairs_view(part.data@)
                    + spec_decoded_pairs(cv.skip(i + 1)));
                lemma_merge_from_concat(map_as_map(map@), pairs_view(part.data@),
                    spec_decoded_pairs(cv.skip(i + 1)));
            }
            merge_pairs(&mut map, &part.data);
        }
        proof {
            assert(cv.skip(cn as int) =~= Seq::<Seq<u8>>::empty());
        }
        Ok(Db { update: update, map: map })
    }
}

/// Folding a concatenation is folding the parts in turn.
pub proof fn lemma_merge_from_concat(
    m: Map<Seq<char>, Seq<Entry>>,
    a: Seq<(Seq<char>, Entry)>,
    b: Seq<(Seq<char>, Entry)>,
)
    ensures
        spec_merge_from(m, a + b) == spec_merge_from(spec_merge_from(m, a), b),
    decreases a.len(),
{
    if a.len() == 0 {
        assert(a + b =~= b);
    } else {
        assert((a + b)[0] == a[0]);
        assert((a + b).drop_first() =~= a.drop_first() + b);
        lemma_merge_from_concat(spec_merge_one(m, a[0].0, a[0].1), a.drop_first(), b);
    }
}

/// Merging one name's block into content that does not hold the name yet
/// records exactly its entry list.
pub proof fn lemma_merge_block(
    m: Map<Seq<char>, Seq<Entry>>,
    name: Seq<char>,
    es: Seq<Entry>,
    rest: Seq<(Seq<char>, Entry)>,
)
    requires
        es.len() > 0,
        !m.contains_key(name),
    ensures
        spec_merge_from(m, spec_name_block(name, es) + rest) == spec_merge_from(
            m.insert(name, es), rest),
    decreases es.len(),
{
    lemma_merge_block_aux(m, name, es, 0, rest);
    assert(es.skip(0) =~= es);
    assert(spec_name_block(name, es.skip(0)) =~= spec_name_block(name, es));
}

/// After the first `q` entries of a block are merged, the rest of the
/// block extends the recorded prefix.
proof fn lemma_merge_block_aux(
    m: Map<Seq<char>, Seq<Entry>>,
    name: Seq<char>,
    es: Seq<Entry>,
    q: int,
    rest: Seq<(Seq<char>, Entry)>,
)
    requires
        0 <= q < es.len(),
        q == 0 ==> !m.contains_key(name),
        q > 0 ==> m.contains_key(name) && m[name] == es.take(q),
    ensures
        spec_merge_from(m, spec_name_block(name, es.skip(q)) + rest)
            == spec_merge_from(m.insert(name, es), rest),
    decreases es.len() - q,
{
    let block = spec_name_block(name, es.skip(q));
    assert(block.len() == es.len() - q);
    assert(block[0] == (name, es[q]));
    assert((block + rest)[0] == (name, es[q]));
    let m1 = spec_merge_one(m, name, es[q]);
    assert(m1 == m.insert(name, es.take(q + 1))) by {
        if q == 0 {
            assert(seq![es[0]] =~= es.take(1));
        } else {
            assert(es.take(q).push(es[q]) =~= es.take(q + 1));
        }
    }
    assert((block + rest).drop_first() =~= spec_name_block(name, es.skip(q + 1))
        + rest) by {
        assert(spec_name_block(name, es.skip(q)).drop_first() =~= spec_name_block(
            name, es.skip(q + 1)));
    }
    if q + 1 < es.len() {
        lemma_merge_block_aux(m1, name, es, q + 1, rest);
        assert(m1.insert(name, es) =~= m.insert(name, es));
    } else {
        assert(es.take(q + 1) =~= es);
        assert(spec_name_block(name, es.skip(q + 1)).len() == 0);
        assert(spec_name_block(name, es.skip(q + 1)) + rest =~= rest);
        assert(m1 =~= m.insert(name, es));
    }
}

/// Merging the blocks of distinct stored names records each name's
/// history unchanged.
proof fn lemma_merge_blocks(
    m: Seq<(String, Vec<Entry>)>,
    names: Seq<Seq<char>>,
    acc: Map<Seq<char>, Seq<Entry>>,
)
    requires
        db_map_wf(m),
        forall|i: int, j: int| 0 <= i < j < names.len() ==> names[i] != names[j],
        forall|i: int| 0 <= i < names.len() ==> map_index_of(m, #[trigger] names[i])
            >= 0,
        forall|i: int| 0 <= i < names.len() ==> !acc.contains_key(#[trigger] names[i]),
    ensures
        forall|n: Seq<char>|
            #[trigger] spec_merge_from(acc, spec_blocks(m, names)).contains_key(n)
                == (acc.contains_key(n) || names.contains(n)),
        forall|n: Seq<char>|
            names.contains(n) ==> #[trigger] spec_merge_from(acc, spec_blocks(m,
            names))[n] == spec_entries_of(m, n),
        forall|n: Seq<char>|
            acc.contains_key(n) && !names.contains(n) ==> #[trigger] spec_merge_from(
            acc, spec_blocks(m, names))[n] == acc[n],
    decreases names.len(),
{
    if names.len() == 0 {
        assert(spec_blocks(m, names) =~= Seq::<(Seq<char>, Entry)>::empty());
    } else {
        let n0 = names[0];
        let es0 = spec_entries_of(m, n0);
        lemma_map_index_of(m, n0);
        assert(es0.len() > 0);
        lemma_merge_block(acc, n0, es0, spec_blocks(m, names.drop_first()));
        let acc1 = acc.insert(n0, es0);
        assert forall|i: int| 0 <= i < names.drop_first().len() implies
            !acc1.contains_key(#[trigger] names.drop_first()[i]) by {
            assert(names.drop_first()[i] == names[i + 1]);
        }
        lemma_merge_blocks(m, names.drop_first(), acc1);
        assert forall|n: Seq<char>| #[trigger] names.contains(n) implies
            spec_merge_from(acc, spec_blocks(m, names))[n] == spec_entries_of(m, n)
            by {
            let j = choose|j: int| 0 <= j < names.len() && names[j] == n;
            if j == 0 {
                assert(!names.drop_first().contains(n)) by {
                    if names.drop_first().contains(n) {
                        let q = choose|q: int|
                            0 <= q < names.drop_first().len() && names.drop_first()[
                            q] == n;
                        assert(names[q + 1] == n);
                    }
                }
            } else {
                assert(names.drop_first()[j - 1] == n);
                assert(names.drop_first().contains(n));
            }
        }
        assert forall|n: Seq<char>|
            #[trigger] spec_merge_from(acc, spec_blocks(m, names)).contains_key(n)
            implies acc.contains_key(n) || names.contains(n) by {
            if !acc.contains_key(n) && !names.contains(n) {
                assert(!names.drop_first().contains(n)) by {
                    if names.drop_first().contains(n) {
                        let q = choose|q: int|
                            0 <= q < names.drop_first().len() && names.drop_first()[
                            q] == n;
                        assert(names[q + 1] == n);
                    }
                }
                assert(n != n0) by {
                    assert(names[0] == n0);
                }
            }
        }
        assert forall|n: Seq<char>|
            acc.contains_key(n) || names.contains(n) implies #[trigger]
            spec_merge_from(acc, spec_blocks(m, names)).contains_key(n) by {
            if names.contains(n) {
                let j = choose|j: int| 0 <= j < names.len() && names[j] == n;
                if j > 0 {
                    assert(names.drop_first()[j - 1] == n);
                }
            }
        }
    }
}

/// Round trip: splitting the sorted flattened pairs of a well-formed
/// store into chunks of any positive size, concatenating them again and
/// merging the pairs by name reproduces exactly the store's content.
pub proof fn lemma_save_load_round_trip(m: Seq<(String, Vec<Entry>)>, k: int)
    requires
        db_map_wf(m),
        k > 0,
    ensures
        spec_concat(spec_split(spec_pairs_of_db(m), k)) == spec_pairs_of_db(m),
        spec_merge_map(spec_pairs_of_db(m)) == map_as_map(m),
{
    lemma_split_concat(spec_pairs_of_db(m), k);
    let ks = spec_sorted_keys(m);
    lemma_sorted_keys_exist(m);
    assert forall|i: int| 0 <= i < ks.len() implies map_index_of(m,
        #[trigger] ks[i]) >= 0 by {
        assert(ks.to_set().contains(ks[i]));
        assert(spec_keys(m).to_set().contains(ks[i]));
        let q = choose|q: int| 0 <= q < spec_keys(m).len() && spec_keys(m)[q] == ks[i];
        lemma_map_index_exists(m, ks[i], q);
    }
    lemma_merge_blocks(m, ks, Map::empty());
    assert forall|n: Seq<char>| true implies (ks.contains(n) <==> map_index_of(m, n)
        >= 0) by {
        if ks.contains(n) {
        } else {
            if map_index_of(m, n) >= 0 {
                lemma_map_index_of(m, n);
                assert(spec_keys(m)[map_index_of(m, n)] == n);
                assert(spec_keys(m).to_set().contains(n));
                assert(ks.to_set().contains(n));
            }
        }
    }
    assert(spec_merge_map(spec_pairs_of_db(m)) =~= map_as_map(m));
}

/// Concatenating the chunks of a split restores the pair list.
pub proof fn lemma_split_concat(pairs: Seq<(Seq<char>, Entry)>, k: int)
    requires
        k > 0,
    ensures
        spec_concat(spec_split(pairs, k)) == pairs,
    decreases pairs.len(),
{
    if pairs.len() > k {
        assert(spec_split(pairs, k).drop_first() =~= spec_split(pairs.skip(k), k));
        lemma_split_concat(pairs.skip(k), k);
        assert(pairs.take(k) + pairs.skip(k) =~= pairs);
    } else {
        assert(spec_split(pairs, k)[0] == pairs);
        assert(spec_split(pairs, k).drop_first() =~= Seq::<Seq<(Seq<char>,
            Entry)>>::empty());
        assert(spec_concat(Seq::<Seq<(Seq<char>, Entry)>>::empty()) =~= Seq::<(Seq<
            char>, Entry)>::empty());
        assert(spec_concat(spec_split(pairs, k)) =~= pairs + Seq::<(Seq<char>,
            Entry)>::empty());
        assert(pairs + Seq::<(Seq<char>, Entry)>::empty() =~= pairs);
    }
}

/// A sorted arrangement of the store's names exists, so the chosen one
/// satisfies its defining property.
pub proof fn lemma_sorted_keys_exist(m: Seq<(String, Vec<Entry>)>)
    requires
        db_map_wf(m),
    ensures
        names_sorted(spec_sorted_keys(m)),
        spec_sorted_keys(m).to_set() == spec_keys(m).to_set(),
{
    let s = lemma_sorted_arrangement(spec_keys(m));
    assert(names_sorted(s) && s.to_set() == spec_keys(m).to_set());
    assert(exists|s2: Seq<Seq<char>>|
        names_sorted(s2) && s2.to_set() == spec_keys(m).to_set());
}

/// Any finite name list has a sorted duplicate-free arrangement of its
/// name set.
proof fn lemma_sorted_arrangement(names: Seq<Seq<char>>) -> (s: Seq<Seq<char>>)
    ensures
        names_sorted(s),
        s.to_set() == names.to_set(),
    decreases names.len(),
{
    if names.len() == 0 {
        let s = Seq::<Seq<char>>::empty();
        assert(s.to_set() =~= names.to_set());
        s
    } else {
        let tail = lemma_sorted_arrangement(names.drop_first());
        let x = names[0];
        assert(names.to_set() =~= names.drop_first().to_set().insert(x)) by {
            assert forall|y: Seq<char>| names.to_set().contains(y) implies
                names.drop_first().to_set().insert(x).contains(y) by {
                let j = choose|j: int| 0 <= j < names.len() && names[j] == y;
                if j > 0 {
                    assert(names.drop_first()[j - 1] == y);
                }
            }
            assert forall|y: Seq<char>| names.drop_first().to_set().insert(
                x).contains(y) implies names.to_set().contains(y) by {
                if y == x {
                    assert(names[0] == y);
                } else {
                    let j = choose|j: int|
                        0 <= j < names.drop_first().len() && names.drop_first()[j]
                            == y;
                    assert(names[j + 1] == y);
                }
            }
        }
        if tail.to_set().contains(x) {
            assert(tail.to_set().insert(x) =~= tail.to_set());
            tail
        } else {
            let s = lemma_sorted_insert(tail, x);
            s
        }
    }
}

/// Insert a fresh name into a sorted list, keeping it sorted.
proof fn lemma_sorted_insert(tail: Seq<Seq<char>>, x: Seq<char>) -> (s: Seq<Seq<char>>)
    requires
        names_sorted(tail),
        !tail.to_set().contains(x),
    ensures
        names_sorted(s),
        s.to_set() == tail.to_set().insert(x),
    decreases tail.len(),
{
    if tail.len() == 0 {
        let s = seq![x];
        assert(s.to_set() =~= tail.to_set().insert(x)) by {
            assert(s[0] == x);
            assert forall|y: Seq<char>| s.to_set().contains(y) implies y == x by {
                let j = choose|j: int| 0 <= j < s.len() && s[j] == y;
            }
        }
        s
    } else if chars_le(x, tail[0]) {
        let s = seq![x] + tail;
        assert(names_sorted(s)) by {
            assert forall|a: int, b: int| 0 <= a < b < s.len() implies chars_le(
                #[trigger] s[a], #[trigger] s[b]) && s[a] != s[b] by {
                if a == 0 {
                    assert(s[0] == x);
                    assert(s[b] == tail[b - 1]);
                    if b > 1 {
                        crate::order::lemma_chars_le_trans(x, tail[0], tail[b - 1]);
                    }
                    assert(tail.to_set().contains(tail[b - 1]));
                } else {
                    assert(s[a] == tail[a - 1]);
                    assert(s[b] == tail[b - 1]);
                }
            }
        }
        assert(s.to_set() =~= tail.to_set().insert(x)) by {
            assert forall|y: Seq<char>| s.to_set().contains(y) implies
                tail.to_set().insert(x).contains(y) by {
                let j = choose|j: int| 0 <= j < s.len() && s[j] == y;
                if j > 0 {
                    assert(tail[j - 1] == y);
                }
            }
            assert forall|y: Seq<char>| tail.to_set().insert(x).contains(y) implies
                s.to_set().contains(y) by {
                if y == x {
                    assert(s[0] == y);
                } else {
                    let j = choose|j: int| 0 <= j < tail.len() && tail[j] == y;
                    assert(s[j + 1] == y);
                }
            }
        }
        s
    } else {
        crate::order::lemma_chars_le_total(x, tail[0]);
        assert(names_sorted(tail.drop_first())) by {
            assert(forall|a: int, b: int|
                0 <= a < b < tail.drop_first().len() ==> tail.drop_first()[a]
                    == tail[a + 1] && tail.drop_first()[b] == tail[b + 1]);
        }
        assert(!tail.drop_first().to_set().contains(x)) by {
            if tail.drop_first().to_set().contains(x) {
                let j = choose|j: int|
                    0 <= j < tail.drop_first().len() && tail.drop_first()[j] == x;
                assert(tail[j + 1] == x);
                assert(tail.to_set().contains(x));
            }
        }
        let s1 = lemma_sorted_insert(tail.drop_first(), x);
        let s = seq![tail[0]] + s1;
        assert(names_sorted(s)) by {
            assert forall|a: int, b: int| 0 <= a < b < s.len() implies chars_le(
                #[trigger] s[a], #[trigger] s[b]) && s[a] != s[b] by {
                if a == 0 {
                    assert(s[0] == tail[0]);
                    assert(s[b] == s1[b - 1]);
                    assert(s1.to_set().contains(s1[b - 1]));
                    if s1[b - 1] == x {
                        assert(chars_le(tail[0], x));
                        assert(tail.to_set().contains(tail[0]));
                    } else {
                        assert(tail.drop_first().to_set().contains(s1[b - 1]));
                        let j = choose|j: int|
                            0 <= j < tail.drop_first().len() && tail.drop_first()[j]
                                == s1[b - 1];
                        assert(tail[j + 1] == s1[b - 1]);
                        assert(chars_le(tail[0], tail[j + 1]));
                    }
                } else {
                    assert(s[a] == s1[a - 1]);
                    assert(s[b] == s1[b - 1]);
                }
            }
        }
        assert(s.to_set() =~= tail.to_set().insert(x)) by {
            assert forall|y: Seq<char>| s.to_set().contains(y) implies
                tail.to_set().insert(x).contains(y) by {
                let j = choose|j: int| 0 <= j < s.len() && s[j] == y;
                if j > 0 {
                    assert(s1[j - 1] == y);
                    assert(s1.to_set().contains(y));
                    if y != x {
                        assert(tail.drop_first().to_set().contains(y));
                        let q = choose|q: int|
                            0 <= q < tail.drop_first().len() && tail.drop_first()[q]
                                == y;
                        assert(tail[q + 1] == y);
                    }
                } else {
                    assert(y == tail[0]);
                }
            }
            assert forall|y: Seq<char>| tail.to_set().insert(x).contains(y) implies
                s.to_set().contains(y) by {
                if y == x {
                    assert(s1.to_set().contains(y));
                    let q = choose|q: int| 0 <= q < s1.len() && s1[q] == y;
                    assert(s[q + 1] == y);
                } else {
                    let j = choose|j: int| 0 <= j < tail.len() && tail[j] == y;
                    if j == 0 {
                        assert(s[0] == y);
                    } else {
                        assert(tail.drop_first()[j - 1] == y);
                        assert(s1.to_set().contains(y));
                        let q = choose|q: int| 0 <= q < s1.len() && s1[q] == y;
                        assert(s[q + 1] == y);
                    }
                }
            }
        }
        s
    }
}

} // verus!
