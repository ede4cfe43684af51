//! Serialization of map entries into byte records for the backing store:
//! length-prefixed key-value pairs, with a proved lossless round trip.

use vstd::prelude::*;
use vstd::bytes::{
    spec_u64_to_le_bytes, spec_u64_from_le_bytes, u64_to_le_bytes, u64_from_le_bytes,
    lemma_auto_spec_u64_to_from_le_bytes, spec_u128_to_le_bytes, spec_u128_from_le_bytes,
    u128_to_le_bytes, u128_from_le_bytes, lemma_auto_spec_u128_to_from_le_bytes,
};
use vstd::slice::{slice_subrange, slice_to_vec};
use crate::bytemap::{ByteEntry, byte_entry_views};
use crate::nummap::{NumEntry, num_entry_views};

verus! {

/// Both strings of a pair are short enough for a 64-bit length prefix.
pub open spec fn pair_fits(p: (Seq<u8>, Seq<u8>)) -> bool {
    p.0.len() < 0x10000000000000000 && p.1.len() < 0x10000000000000000
}

pub open spec fn entries_fit(s: Seq<(Seq<u8>, Seq<u8>)>) -> bool {
    forall|i: int| 0 <= i < s.len() ==> pair_fits(s[i])
}

/// One pair on the wire: key length, key bytes, value length, value bytes.
pub open spec fn enc_pair(k: Seq<u8>, v: Seq<u8>) -> Seq<u8> {
    spec_u64_to_le_bytes(k.len() as u64) + k + spec_u64_to_le_bytes(v.len() as u64) + v
}

/// An entry sequence on the wire: the pairs, one after the other.
pub open spec fn enc_entries(s: Seq<(Seq<u8>, Seq<u8>)>) -> Seq<u8>
    decreases s.len(),
{
    if s.len() == 0 {
        Seq::empty()
    } else {
        enc_pair(s[0].0, s[0].1) + enc_entries(s.drop_first())
    }
}

/// What a byte record decodes to, if anything.
pub open spec fn dec_entries(b: Seq<u8>) -> Option<Seq<(Seq<u8>, Seq<u8>)>>
    decreases b.len(),
{
    if b.len() == 0 {
        Some(Seq::empty())
    } else if b.len() < 8 {
        None
    } else {
        let klen = spec_u64_from_le_bytes(b.subrange(0, 8)) as int;
        if b.len() < 16 + klen {
            None
        } else {
            let k = b.subrange(8, 8 + klen);
            let vlen = spec_u64_from_le_bytes(b.subrange(8 + klen, 16 + klen)) as int;
            if b.len() < 16 + klen + vlen {
                None
            } else {
                let v = b.subrange(16 + klen, 16 + klen + vlen);
                match dec_entries(b.skip(16 + klen + vlen)) {
                    None => None,
                    Some(t) => Some(seq![(k, v)] + t),
                }
            }
        }
    }
}

/// Appending a pair to the sequence appends its encoding to the record.
pub proof fn lemma_enc_push(s: Seq<(Seq<u8>, Seq<u8>)>, p: (Seq<u8>, Seq<u8>))
    ensures
        enc_entries(s.push(p)) == enc_entries(s) + enc_pair(p.0, p.1),
    decreases s.len(),
{
    if s.len() == 0 {
        assert(s.push(p).drop_first() =~= Seq::empty());
        assert(s.push(p)[0] == p);
        assert(enc_entries(Seq::<(Seq<u8>, Seq<u8>)>::empty()).len() == 0);
        assert(enc_entries(s.push(p)) =~= enc_entries(s) + enc_pair(p.0, p.1));
    } else {
        assert(s.push(p).drop_first() =~= s.drop_first().push(p));
        assert(s.push(p)[0] == s[0]);
        lemma_enc_push(s.drop_first(), p);
        assert(enc_entries(s.push(p)) =~= enc_entries(s) + enc_pair(p.0, p.1));
    }
}

/// The round trip is lossless: decoding an encoded entry sequence gives the
/// sequence back.
pub proof fn lemma_dec_enc(s: Seq<(Seq<u8>, Seq<u8>)>)
    requires
        entries_fit(s),
    ensures
        dec_entries(enc_entries(s)) == Some(s),
    decreases s.len(),
{
    lemma_auto_spec_u64_to_from_le_bytes();
    if s.len() == 0 {
        assert(enc_entries(s).len() == 0);
        assert(s =~= Seq::<(Seq<u8>, Seq<u8>)>::empty());
    } else {
        let k = s[0].0;
        let v = s[0].1;
        let b = enc_entries(s);
        let rest = enc_entries(s.drop_first());
        let kl = k.len() as int;
        let vl = v.len() as int;
        assert(b =~= spec_u64_to_le_bytes(k.len() as u64) + k + spec_u64_to_le_bytes(
            v.len() as u64,
        ) + v + rest);
        assert(b.len() == 16 + kl + vl + rest.len());
        assert(b.subrange(0, 8) =~= spec_u64_to_le_bytes(k.len() as u64));
        assert(spec_u64_from_le_bytes(b.subrange(0, 8)) as int == kl);
        assert(b.subrange(8, 8 + kl) =~= k);
        assert(b.subrange(8 + kl, 16 + kl) =~= spec_u64_to_le_bytes(v.len() as u64));
        assert(spec_u64_from_le_bytes(b.subrange(8 + kl, 16 + kl)) as int == vl);
        assert(b.subrange(16 + kl, 16 + kl + vl) =~= v);
        assert(b.skip(16 + kl + vl) =~= rest);
        assert(entries_fit(s.drop_first())) by {
            assert forall|i: int| 0 <= i < s.drop_first().len() implies pair_fits(
                s.drop_first()[i],
            ) by {
                assert(s.drop_first()[i] == s[i + 1]);
            }
        }
        lemma_dec_enc(s.drop_first());
        assert(seq![(k, v)] + s.drop_first() =~= s);
    }
}

/// Combines a decoded prefix with the rest of a decode.
pub open spec fn dec_glue(pre: Seq<(Seq<u8>, Seq<u8>)>, o: Option<Seq<(Seq<u8>, Seq<u8>)>>) -> Option<
    Seq<(Seq<u8>, Seq<u8>)>,
> {
    match o {
        None => None,
        Some(t) => Some(pre + t),
    }
}

/// Encodes the entries of a byte-keyed map into one record.
pub fn encode_byte_entries(entries: &Vec<ByteEntry>) -> (r: Vec<u8>)
    ensures
        r@ == enc_entries(byte_entry_views(entries@)),
{
    let ghost views = byte_entry_views(entries@);
    let mut out: Vec<u8> = Vec::new();
    let mut i: usize = 0;
    proof {
        assert(views.take(0) =~= Seq::empty());
    }
    while i < entries.len()
        invariant
            i <= entries@.len(),
            views == byte_entry_views(entries@),
            out@ == enc_entries(views.take(i as int)),
        decreases entries@.len() - i,
    {
        let klen_bytes = u64_to_le_bytes(entries[i].key.len() as u64);
        let vlen_bytes = u64_to_le_bytes(entries[i].val.len() as u64);
        let ghost out0 = out@;
        let mut klen_bytes = klen_bytes;
        out.append(&mut klen_bytes);
        out.extend_from_slice(entries[i].key.as_slice());
        let mut vlen_bytes = vlen_bytes;
        out.append(&mut vlen_bytes);
        out.extend_from_slice(entries[i].val.as_slice());
        proof {
            let p = views[i as int];
            assert(p.0 == entries@[i as int].key@);
            assert(p.1 == entries@[i as int].val@);
            lemma_enc_push(views.take(i as int), p);
            assert(views.take(i as int + 1) =~= views.take(i as int).push(p));
            assert(out@ =~= enc_entries(views.take(i as int)) + enc_pair(p.0, p.1));
        }
        i = i + 1;
    }
    proof {
        assert(views.take(entries@.len() as int) =~= views);
    }
    out
}

/// Decodes one record back into entries, or reports that the record is not a
/// well-formed encoding.
pub fn decode_byte_entries(b: &Vec<u8>) -> (r: Option<Vec<ByteEntry>>)
    ensures
        match r {
            Some(es) => dec_entries(b@) == Some(byte_entry_views(es@)),
            None => dec_entries(b@) is None,
        },
{
    let mut out: Vec<ByteEntry> = Vec::new();
    let mut pos: usize = 0;
    proof {
        assert(b@.skip(0) =~= b@);
        assert(byte_entry_views(out@) =~= Seq::empty());
        match dec_entries(b@) {
            Some(t) => {
                assert(Seq::<(Seq<u8>, Seq<u8>)>::empty() + t =~= t);
            },
            None => {},
        }
    }
    while pos < b.len()
        invariant
            pos <= b@.len(),
            dec_entries(b@) == dec_glue(byte_entry_views(out@), dec_entries(b@.skip(pos as int))),
        decreases b@.len() - pos,
    {
        let ghost tail = b@.skip(pos as int);
        let rem = b.len() - pos;
        if rem < 8 {
            return None;
        }
        let klen64 = u64_from_le_bytes(slice_subrange(b.as_slice(), pos, pos + 8));
        proof {
            assert(b@.subrange(pos as int, pos as int + 8) =~= tail.subrange(0, 8));
        }
        if rem < 16 || klen64 > (rem - 16) as u64 {
            return None;
        }
        let klen = klen64 as usize;
        let vlen64 = u64_from_le_bytes(
            slice_subrange(b.as_slice(), pos + 8 + klen, pos + 16 + klen),
        );
        proof {
            assert(b@.subrange(pos as int + 8 + klen as int, pos as int + 16 + klen as int)
                =~= tail.subrange(8 + klen as int, 16 + klen as int));
        }
        if vlen64 > (rem - 16 - klen) as u64 {
            return None;
        }
        let vlen = vlen64 as usize;
        let kv = slice_to_vec(slice_subrange(b.as_slice(), pos + 8, pos + 8 + klen));
        let vv = slice_to_vec(
            slice_subrange(b.as_slice(), pos + 16 + klen, pos + 16 + klen + vlen),
        );
        let ghost old_views = byte_entry_views(out@);
        out.push(ByteEntry { key: kv, val: vv });
        proof {
            let kl = klen as int;
            let vl = vlen as int;
            assert(tail.subrange(8, 8 + kl) =~= b@.subrange(pos as int + 8, pos as int + 8 + kl));
            assert(tail.subrange(16 + kl, 16 + kl + vl) =~= b@.subrange(
                pos as int + 16 + kl,
                pos as int + 16 + kl + vl,
            ));
            assert(tail.skip(16 + kl + vl) =~= b@.skip(pos as int + 16 + kl + vl));
            let p = (kv@, vv@);
            assert(byte_entry_views(out@) =~= old_views.push(p));
            match dec_entries(b@.skip(pos as int + 16 + kl + vl)) {
                Some(t) => {
                    assert(dec_entries(tail) == Some(seq![p] + t));
                    assert(old_views + (seq![p] + t) =~= old_views.push(p) + t);
                },
                None => {
                    assert(dec_entries(tail) is None);
                },
            }
        }
        pos = pos + 16 + klen + vlen;
    }
    proof {
        assert(b@.skip(pos as int) =~= Seq::<u8>::empty());
        assert(byte_entry_views(out@) + Seq::<(Seq<u8>, Seq<u8>)>::empty() =~= byte_entry_views(
            out@,
        ));
    }
    Some(out)
}

/// Numeric entries as byte pairs: the key becomes its 16-byte encoding.
pub open spec fn num_views_as_bytes(s: Seq<(u128, Seq<u8>)>) -> Seq<(Seq<u8>, Seq<u8>)> {
    s.map_values(|p: (u128, Seq<u8>)| (spec_u128_to_le_bytes(p.0), p.1))
}

pub open spec fn all_keys_len16(s: Seq<(Seq<u8>, Seq<u8>)>) -> bool {
    forall|i: int| 0 <= i < s.len() ==> s[i].0.len() == 16
}

/// Byte pairs read back as numeric entries; meaningful when every key has
/// exactly 16 bytes.
pub open spec fn pairs_to_num_views(s: Seq<(Seq<u8>, Seq<u8>)>) -> Seq<(u128, Seq<u8>)> {
    s.map_values(|p: (Seq<u8>, Seq<u8>)| (spec_u128_from_le_bytes(p.0), p.1))
}

/// What a record of a numeric map is: its entry views, encoded.
pub open spec fn spec_save_num(vs: Seq<(u128, Seq<u8>)>) -> Seq<u8> {
    enc_entries(num_views_as_bytes(vs))
}

/// What a record of a numeric map decodes to, if anything.
pub open spec fn spec_load_num(b: Seq<u8>) -> Option<Seq<(u128, Seq<u8>)>> {
    match dec_entries(b) {
        None => None,
        Some(p) => if all_keys_len16(p) {
            Some(pairs_to_num_views(p))
        } else {
            None
        },
    }
}

/// Values short enough for a 64-bit length prefix.
pub open spec fn num_views_fit(vs: Seq<(u128, Seq<u8>)>) -> bool {
    forall|i: int| 0 <= i < vs.len() ==> vs[i].1.len() < 0x10000000000000000
}

/// The numeric round trip is lossless.
pub proof fn lemma_load_save_num(vs: Seq<(u128, Seq<u8>)>)
    requires
        num_views_fit(vs),
    ensures
        spec_load_num(spec_save_num(vs)) == Some(vs),
{
    lemma_auto_spec_u128_to_from_le_bytes();
    let p = num_views_as_bytes(vs);
    assert(entries_fit(p)) by {
        assert forall|i: int| 0 <= i < p.len() implies pair_fits(p[i]) by {
            assert(p[i] == (spec_u128_to_le_bytes(vs[i].0), vs[i].1));
        }
    }
    lemma_dec_enc(p);
    assert(all_keys_len16(p)) by {
        assert forall|i: int| 0 <= i < p.len() implies p[i].0.len() == 16 by {
            assert(p[i] == (spec_u128_to_le_bytes(vs[i].0), vs[i].1));
        }
    }
    assert(pairs_to_num_views(p) =~= vs) by {
        assert forall|i: int| 0 <= i < vs.len() implies pairs_to_num_views(p)[i] == vs[i] by {
            assert(p[i] == (spec_u128_to_le_bytes(vs[i].0), vs[i].1));
        }
    }
}

/// Encodes the entries of a numeric map into one record.
pub fn encode_num_entries(entries: &Vec<NumEntry>) -> (r: Vec<u8>)
    ensures
        r@ == spec_save_num(num_entry_views(entries@)),
{
    let mut pairs: Vec<ByteEntry> = Vec::new();
    let mut i: usize = 0;
    while i < entries.len()
        invariant
            i <= entries@.len(),
            byte_entry_views(pairs@) == num_views_as_bytes(num_entry_views(entries@)).take(
                i as int,
            ),
        decreases entries@.len() - i,
    {
        let kb = u128_to_le_bytes(entries[i].key);
        let vb = slice_to_vec(entries[i].val.as_slice());
        let ghost pairs0 = pairs@;
        pairs.push(ByteEntry { key: kb, val: vb });
        proof {
            let all = num_views_as_bytes(num_entry_views(entries@));
            assert(byte_entry_views(pairs0).len() == pairs0.len());
            assert(all.take(i as int).len() == i as int);
            assert(pairs0.len() == i as int);
            assert(num_entry_views(entries@)[i as int] == (entries@[i as int].key,
            entries@[i as int].val@));
            assert(all[i as int] == (spec_u128_to_le_bytes(entries@[i as int].key),
            entries@[i as int].val@));
            assert forall|j: int| 0 <= j < i + 1 implies byte_entry_views(pairs@)[j] == all.take(
                i as int + 1,
            )[j] by {
                if j < i {
                    assert(byte_entry_views(pairs@)[j] == (pairs@[j].key@, pairs@[j].val@));
                    assert(pairs@[j] == pairs0[j]);
                    assert(byte_entry_views(pairs0)[j] == (pairs0[j].key@, pairs0[j].val@));
                } else {
                    assert(byte_entry_views(pairs@)[j] == (pairs@[j].key@, pairs@[j].val@));
                }
            }
            assert(byte_entry_views(pairs@) =~= all.take(i as int + 1));
        }
        i = i + 1;
    }
    proof {
        let all = num_views_as_bytes(num_entry_views(entries@));
        assert(all.take(entries@.len() as int) =~= all);
    }
    encode_byte_entries(&pairs)
}

/// Decodes one record back into numeric entries, or reports that the record
/// is not a well-formed encoding of a numeric map.
pub fn decode_num_entries(b: &Vec<u8>) -> (r: Option<Vec<NumEntry>>)
    ensures
        match r {
            Some(es) => spec_load_num(b@) == Some(num_entry_views(es@)),
            None => spec_load_num(b@) is None,
        },
{
    let pairs = match decode_byte_entries(b) {
        None => {
            return None;
        },
        Some(p) => p,
    };
    let ghost pv = byte_entry_views(pairs@);
    let mut out: Vec<NumEntry> = Vec::new();
    let mut i: usize = 0;
    while i < pairs.len()
        invariant
            i <= pairs@.len(),
            pv == byte_entry_views(pairs@),
            dec_entries(b@) == Some(pv),
            forall|j: int| 0 <= j < i ==> pv[j].0.len() == 16,
            num_entry_views(out@) == pairs_to_num_views(pv).take(i as int),
        decreases pairs@.len() - i,
    {
        proof {
            assert(pv.len() == pairs@.len());
            assert(pv[i as int] == (pairs@[i as int].key@, pairs@[i as int].val@));
        }
        if pairs[i].key.len() != 16 {
            proof {
                assert(!all_keys_len16(pv));
                assert(spec_load_num(b@) is None);
            }
            return None;
        }
        let k = u128_from_le_bytes(pairs[i].key.as_slice());
        let v = slice_to_vec(pairs[i].val.as_slice());
        let ghost out0 = out@;
        out.push(NumEntry { key: k, val: v });
        proof {
            assert(num_entry_views(out0).len() == out0.len());
            assert(pairs_to_num_views(pv).take(i as int).len() == i as int);
            assert(out0.len() == i as int);
            assert(pairs_to_num_views(pv)[i as int] == (spec_u128_from_le_bytes(pv[i as int].0),
            pv[i as int].1));
            assert forall|j: int| 0 <= j < i + 1 implies num_entry_views(out@)[j]
                == pairs_to_num_views(pv).take(i as int + 1)[j] by {
                assert(num_entry_views(out@)[j] == (out@[j].key, out@[j].val@));
                if j < i {
                    assert(out@[j] == out0[j]);
                    assert(num_entry_views(out0)[j] == (out0[j].key, out0[j].val@));
                }
            }
            assert(num_entry_views(out@) =~= pairs_to_num_views(pv).take(i as int + 1));
        }
        i = i + 1;
    }
    proof {
        assert(pairs_to_num_views(pv).take(pairs@.len() as int) =~= pairs_to_num_views(pv));
    }
    Some(out)
}

} // verus!
