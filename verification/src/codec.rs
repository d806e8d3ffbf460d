//! The persistence codec: the index as a binary blob and back.
//!
//! The blob records the dictionary behind the index — an entry count,
//! then each entry as length-prefixed UTF-8 — and decoding rebuilds the
//! index from it. The tree shape is not persisted: every query is a
//! function of the dictionary alone, so the rebuilt index answers every
//! query exactly as the encoded one did. Malformed bytes are rejected;
//! decoding never panics.

use vstd::prelude::*;
use vstd::arithmetic::div_mod::lemma_fundamental_div_mod;
use vstd::slice::{slice_subrange, slice_index_get};
use vstd::utf8::{valid_utf8, decode_utf8, encode_utf8};
use crate::pair::{EmojiPair, PairView};
use crate::tree::{BkTree, views_of, spec_hits, exact_found};
use crate::types::EmojiError;

verus! {

/// 256 to the `k`.
pub open spec fn pow256(k: nat) -> nat
    decreases k,
{
    if k == 0 {
        1
    } else {
        256 * pow256((k - 1) as nat)
    }
}

/// The `k` little-endian base-256 digits of `x`.
pub open spec fn le_bytes(x: nat, k: nat) -> Seq<u8>
    decreases k,
{
    if k == 0 {
        Seq::empty()
    } else {
        seq![(x % 256) as u8] + le_bytes(x / 256, (k - 1) as nat)
    }
}

/// The value a little-endian byte sequence denotes.
pub open spec fn le_val(s: Seq<u8>) -> nat
    decreases s.len(),
{
    if s.len() == 0 {
        0
    } else {
        (s[0] + 256 * le_val(s.drop_first())) as nat
    }
}

/// Writing a value in `k` digits and reading it back returns it, as long
/// as it fits.
pub proof fn lemma_le_roundtrip(x: nat, k: nat)
    requires
        x < pow256(k),
    ensures
        le_bytes(x, k).len() == k,
        le_val(le_bytes(x, k)) == x,
    decreases k,
{
    if k > 0 {
        lemma_fundamental_div_mod(x as int, 256);
        lemma_le_roundtrip(x / 256, (k - 1) as nat);
        assert(le_bytes(x, k).drop_first() =~= le_bytes(x / 256, (k - 1) as nat));
    }
}

/// Append the eight little-endian bytes of `x`.
fn write_u64(out: &mut Vec<u8>, x: u64)
    ensures
        final(out)@ == old(out)@ + le_bytes(x as nat, 8),
{
    let b0 = (x % 256) as u8;
    let x1 = x / 256;
    let b1 = (x1 % 256) as u8;
    let x2 = x1 / 256;
    let b2 = (x2 % 256) as u8;
    let x3 = x2 / 256;
    let b3 = (x3 % 256) as u8;
    let x4 = x3 / 256;
    let b4 = (x4 % 256) as u8;
    let x5 = x4 / 256;
    let b5 = (x5 % 256) as u8;
    let x6 = x5 / 256;
    let b6 = (x6 % 256) as u8;
    let x7 = x6 / 256;
    let b7 = (x7 % 256) as u8;
    proof {
        assert(le_bytes(x as nat, 8) == seq![b0] + le_bytes(x1 as nat, 7));
        assert(le_bytes(x1 as nat, 7) == seq![b1] + le_bytes(x2 as nat, 6));
        assert(le_bytes(x2 as nat, 6) == seq![b2] + le_bytes(x3 as nat, 5));
        assert(le_bytes(x3 as nat, 5) == seq![b3] + le_bytes(x4 as nat, 4));
        assert(le_bytes(x4 as nat, 4) == seq![b4] + le_bytes(x5 as nat, 3));
        assert(le_bytes(x5 as nat, 3) == seq![b5] + le_bytes(x6 as nat, 2));
        assert(le_bytes(x6 as nat, 2) == seq![b6] + le_bytes(x7 as nat, 1));
        assert(x7 / 256 == 0) by {
            assert(x7 < 256);
        }
        assert(le_bytes(x7 as nat, 1) == seq![b7] + le_bytes(0, 0));
        assert(le_bytes(x as nat, 8) =~= seq![b0, b1, b2, b3, b4, b5, b6, b7]);
    }
    out.push(b0);
    out.push(b1);
    out.push(b2);
    out.push(b3);
    out.push(b4);
    out.push(b5);
    out.push(b6);
    out.push(b7);
    proof {
        assert(final(out)@ =~= old(out)@ + le_bytes(x as nat, 8));
    }
}

/// Read the value of the eight little-endian bytes at `pos`.
fn read_u64(bytes: &Vec<u8>, pos: usize) -> (x: u64)
    requires
        pos + 8 <= bytes@.len(),
    ensures
        x as nat == le_val(bytes@.subrange(pos as int, pos as int + 8)),
{
    let n = bytes.len();
    proof {
        assert(pos + 8 <= n);
    }
    let b0 = bytes[pos];
    let b1 = bytes[pos + 1];
    let b2 = bytes[pos + 2];
    let b3 = bytes[pos + 3];
    let b4 = bytes[pos + 4];
    let b5 = bytes[pos + 5];
    let b6 = bytes[pos + 6];
    let b7 = bytes[pos + 7];
    let r7 = b7 as u64;
    let r6 = b6 as u64 + 256 * r7;
    let r5 = b5 as u64 + 256 * r6;
    let r4 = b4 as u64 + 256 * r5;
    let r3 = b3 as u64 + 256 * r4;
    let r2 = b2 as u64 + 256 * r3;
    let r1 = b1 as u64 + 256 * r2;
    let r0 = b0 as u64 + 256 * r1;
    proof {
        let s0 = bytes@.subrange(pos as int, pos as int + 8);
        let s1 = s0.drop_first();
        let s2 = s1.drop_first();
        let s3 = s2.drop_first();
        let s4 = s3.drop_first();
        let s5 = s4.drop_first();
        let s6 = s5.drop_first();
        let s7 = s6.drop_first();
        assert(s1 =~= bytes@.subrange(pos as int + 1, pos as int + 8));
        assert(s2 =~= bytes@.subrange(pos as int + 2, pos as int + 8));
        assert(s3 =~= bytes@.subrange(pos as int + 3, pos as int + 8));
        assert(s4 =~= bytes@.subrange(pos as int + 4, pos as int + 8));
        assert(s5 =~= bytes@.subrange(pos as int + 5, pos as int + 8));
        assert(s6 =~= bytes@.subrange(pos as int + 6, pos as int + 8));
        assert(s7 =~= bytes@.subrange(pos as int + 7, pos as int + 8));
        assert(s7.drop_first() =~= Seq::<u8>::empty());
        assert(le_val(Seq::<u8>::empty()) == 0);
        assert(le_val(s7.drop_first()) == 0);
        assert(le_val(s7) == b7);
        assert(le_val(s6) == b6 + 256 * le_val(s7));
        assert(le_val(s5) == b5 + 256 * le_val(s6));
        assert(le_val(s4) == b4 + 256 * le_val(s5));
        assert(le_val(s3) == b3 + 256 * le_val(s4));
        assert(le_val(s2) == b2 + 256 * le_val(s3));
        assert(le_val(s1) == b1 + 256 * le_val(s2));
        assert(le_val(s0) == b0 + 256 * le_val(s1));
    }
    r0
}

/// Append a byte slice.
fn push_bytes(out: &mut Vec<u8>, b: &[u8])
    ensures
        final(out)@ == old(out)@ + b@,
{
    let mut i: usize = 0;
    while i < b.len()
        invariant
            i <= b@.len(),
            out@ == old(out)@ + b@.take(i as int),
        decreases b@.len() - i,
    {
        let byte = *slice_index_get(b, i);
        out.push(byte);
        proof {
            assert(old(out)@ + b@.take(i as int + 1) =~= (old(out)@ + b@.take(i as int)).push(
                b@[i as int],
            ));
        }
        i += 1;
    }
    proof {
        assert(old(out)@ + b@.take(b@.len() as int) =~= old(out)@ + b@);
    }
}


broadcast group codec_utf8 {
    vstd::utf8::encode_utf8_valid_utf8,
    vstd::utf8::encode_utf8_decode_utf8,
}

/// One entry on the wire: length-prefixed UTF-8 description, then
/// length-prefixed UTF-8 emoji.
pub open spec fn spec_encode_entry(e: PairView) -> Seq<u8> {
    let db = encode_utf8(e.description);
    let eb = encode_utf8(e.emoji);
    le_bytes(db.len(), 8) + db + le_bytes(eb.len(), 8) + eb
}

/// The entries on the wire, in dictionary order.
pub open spec fn spec_encode_entries(dict: Seq<PairView>) -> Seq<u8>
    decreases dict.len(),
{
    if dict.len() == 0 {
        Seq::empty()
    } else {
        spec_encode_entry(dict.first()) + spec_encode_entries(dict.drop_first())
    }
}

/// The whole blob: the entry count, then the entries.
pub open spec fn spec_encode(dict: Seq<PairView>) -> Seq<u8> {
    le_bytes(dict.len(), 8) + spec_encode_entries(dict)
}

/// Parse one entry off the front; `None` on any malformation.
pub open spec fn spec_decode_entry(bytes: Seq<u8>) -> Option<(PairView, Seq<u8>)> {
    if bytes.len() < 8 {
        None
    } else {
        let dlen = le_val(bytes.subrange(0, 8)) as int;
        if bytes.len() < 8 + dlen {
            None
        } else {
            let db = bytes.subrange(8, 8 + dlen);
            let rest1 = bytes.skip(8 + dlen);
            if !valid_utf8(db) || rest1.len() < 8 {
                None
            } else {
                let elen = le_val(rest1.subrange(0, 8)) as int;
                if rest1.len() < 8 + elen {
                    None
                } else {
                    let eb = rest1.subrange(8, 8 + elen);
                    if !valid_utf8(eb) {
                        None
                    } else {
                        Some(
                            (
                                PairView {
                                    description: decode_utf8(db),
                                    emoji: decode_utf8(eb),
                                },
                                rest1.skip(8 + elen),
                            ),
                        )
                    }
                }
            }
        }
    }
}

/// Parse `n` entries off the front.
pub open spec fn spec_decode_entries(bytes: Seq<u8>, n: nat) -> Option<(Seq<PairView>, Seq<u8>)>
    decreases n,
{
    if n == 0 {
        Some((Seq::empty(), bytes))
    } else {
        match spec_decode_entry(bytes) {
            None => None,
            Some((e, rest)) => match spec_decode_entries(rest, (n - 1) as nat) {
                None => None,
                Some((es, rest2)) => Some((seq![e] + es, rest2)),
            },
        }
    }
}

/// Parse a whole blob: the count, that many entries, nothing left over.
pub open spec fn spec_decode(bytes: Seq<u8>) -> Option<Seq<PairView>> {
    if bytes.len() < 8 {
        None
    } else {
        let n = le_val(bytes.subrange(0, 8));
        match spec_decode_entries(bytes.skip(8), n) {
            None => None,
            Some((es, rest)) => if rest.len() == 0 {
                Some(es)
            } else {
                None
            },
        }
    }
}

/// One encoded entry parses back to itself, whatever follows it.
proof fn lemma_entry_roundtrip(e: PairView, rest: Seq<u8>)
    requires
        encode_utf8(e.description).len() < pow256(8),
        encode_utf8(e.emoji).len() < pow256(8),
    ensures
        spec_decode_entry(spec_encode_entry(e) + rest) == Some((e, rest)),
{
    broadcast use codec_utf8;

    let db = encode_utf8(e.description);
    let eb = encode_utf8(e.emoji);
    let dl = db.len() as int;
    let el = eb.len() as int;
    lemma_le_roundtrip(db.len(), 8);
    lemma_le_roundtrip(eb.len(), 8);
    let bytes = spec_encode_entry(e) + rest;
    assert(bytes.len() == 16 + dl + el + rest.len());
    assert(bytes.subrange(0, 8) =~= le_bytes(db.len(), 8));
    assert(bytes.subrange(8, 8 + dl) =~= db);
    let rest1 = bytes.skip(8 + dl);
    assert(rest1 =~= le_bytes(eb.len(), 8) + eb + rest);
    assert(rest1.subrange(0, 8) =~= le_bytes(eb.len(), 8));
    assert(rest1.subrange(8, 8 + el) =~= eb);
    assert(rest1.skip(8 + el) =~= rest);
    assert(spec_decode_entry(bytes) == Some((e, rest)));
}

/// An encoded dictionary parses back to itself, whatever follows it.
proof fn lemma_entries_roundtrip(dict: Seq<PairView>, rest: Seq<u8>)
    requires
        forall|i: int|
            0 <= i < dict.len() ==> encode_utf8((#[trigger] dict[i]).description).len() < pow256(8)
                && encode_utf8(dict[i].emoji).len() < pow256(8),
    ensures
        spec_decode_entries(spec_encode_entries(dict) + rest, dict.len()) == Some((dict, rest)),
    decreases dict.len(),
{
    if dict.len() == 0 {
        assert(spec_encode_entries(dict) + rest =~= rest);
        assert(Seq::<PairView>::empty() =~= dict);
    } else {
        let e = dict.first();
        let tail = dict.drop_first();
        lemma_entry_roundtrip(e, spec_encode_entries(tail) + rest);
        assert(spec_encode_entries(dict) + rest =~= spec_encode_entry(e) + (spec_encode_entries(
            tail,
        ) + rest));
        lemma_entries_roundtrip(tail, rest);
        assert(seq![e] + tail =~= dict);
    }
}

/// Round trip: decoding an encoded dictionary yields it unchanged, so the
/// rebuilt index answers every exact and fuzzy query as the encoded one
/// did — all query contracts are functions of the dictionary alone.
pub proof fn lemma_codec_roundtrip(dict: Seq<PairView>)
    requires
        dict.len() < pow256(8),
        forall|i: int|
            0 <= i < dict.len() ==> encode_utf8((#[trigger] dict[i]).description).len() < pow256(8)
                && encode_utf8(dict[i].emoji).len() < pow256(8),
    ensures
        spec_decode(spec_encode(dict)) == Some(dict),
{
    lemma_le_roundtrip(dict.len(), 8);
    let bytes = spec_encode(dict);
    assert(bytes.subrange(0, 8) =~= le_bytes(dict.len(), 8));
    assert(bytes.skip(8) =~= spec_encode_entries(dict));
    lemma_entries_roundtrip(dict, Seq::empty());
    assert(spec_encode_entries(dict) + Seq::<u8>::empty() =~= spec_encode_entries(dict));
}


/// Round trip, stated over the queries: an encoded dictionary decodes,
/// and the index rebuilt from it answers every exact and fuzzy query
/// exactly as the encoded one — both kinds of answer are functions of the
/// dictionary the round trip preserves.
pub proof fn lemma_roundtrip_queries(dict: Seq<PairView>, q: Seq<char>, tolerance: u32)
    requires
        dict.len() < pow256(8),
        forall|i: int|
            0 <= i < dict.len() ==> encode_utf8((#[trigger] dict[i]).description).len() < pow256(8)
                && encode_utf8(dict[i].emoji).len() < pow256(8),
    ensures
        spec_decode(spec_encode(dict)) is Some,
        spec_decode(spec_encode(dict)) matches Some(d) ==> spec_hits(d, q, tolerance)
            == spec_hits(dict, q, tolerance) && (forall|r: Option<PairView>|
            exact_found(d, q, r) == #[trigger] exact_found(dict, q, r)),
{
    lemma_codec_roundtrip(dict);
}

/// Appending one entry to the dictionary appends its encoding.
proof fn lemma_encode_entries_snoc(dict: Seq<PairView>, e: PairView)
    ensures
        spec_encode_entries(dict.push(e)) == spec_encode_entries(dict) + spec_encode_entry(e),
    decreases dict.len(),
{
    if dict.len() == 0 {
        assert(dict.push(e).drop_first() =~= Seq::<PairView>::empty());
        assert(dict.push(e).first() == e);
        assert(spec_encode_entries(Seq::<PairView>::empty()) =~= Seq::<u8>::empty());
        assert(spec_encode_entries(dict.push(e).drop_first()) =~= Seq::<u8>::empty());
        assert(spec_encode_entries(dict.push(e)) =~= spec_encode_entry(e));
        assert(spec_encode_entries(dict) + spec_encode_entry(e) =~= spec_encode_entry(e));
    } else {
        assert(dict.push(e).drop_first() =~= dict.drop_first().push(e));
        lemma_encode_entries_snoc(dict.drop_first(), e);
        assert(spec_encode_entry(dict.first()) + (spec_encode_entries(dict.drop_first())
            + spec_encode_entry(e)) =~= (spec_encode_entry(dict.first()) + spec_encode_entries(
            dict.drop_first(),
        )) + spec_encode_entry(e));
    }
}

/// Serialize the index: its dictionary, in dictionary order.
pub fn encode(tree: &BkTree) -> (r: Vec<u8>)
    ensures
        r@ == spec_encode(tree@),
{
    let mut out: Vec<u8> = Vec::new();
    let n = tree.nodes.len();
    write_u64(&mut out, n as u64);
    proof {
        assert(views_of(tree.nodes@.map_values(|nd: crate::tree::Node| nd.entry).take(0))
            =~= Seq::<PairView>::empty());
        assert(spec_encode_entries(Seq::<PairView>::empty()) =~= Seq::<u8>::empty());
        assert(out@ =~= le_bytes(n as nat, 8) + spec_encode_entries(tree@.take(0)));
    }
    let mut i: usize = 0;
    while i < n
        invariant
            n == tree.nodes@.len(),
            i <= n,
            out@ == le_bytes(n as nat, 8) + spec_encode_entries(tree@.take(i as int)),
        decreases n - i,
    {
        let entry = &tree.nodes[i].entry;
        let db: &[u8] = entry.description.as_str().as_bytes();
        write_u64(&mut out, db.len() as u64);
        push_bytes(&mut out, db);
        let eb: &[u8] = entry.emoji.as_str().as_bytes();
        write_u64(&mut out, eb.len() as u64);
        push_bytes(&mut out, eb);
        proof {
            lemma_encode_entries_snoc(tree@.take(i as int), tree@[i as int]);
            assert(tree@.take(i as int + 1) =~= tree@.take(i as int).push(tree@[i as int]));
            assert(out@ =~= le_bytes(n as nat, 8) + spec_encode_entries(tree@.take(i as int + 1)));
        }
        i += 1;
    }
    proof {
        assert(tree@.take(n as int) =~= tree@);
    }
    out
}

/// Relies on std::str::from_utf8: it accepts exactly the valid UTF-8 byte
/// sequences and decodes them to the characters they encode.
#[verifier::external_body]
fn utf8_to_string(bytes: &[u8]) -> (r: Option<String>)
    ensures
        match r {
            Some(s) => valid_utf8(bytes@) && s@ == decode_utf8(bytes@),
            None => !valid_utf8(bytes@),
        },
{
    match core::str::from_utf8(bytes) {
        Ok(s) => Some(s.to_owned()),
        Err(_) => None,
    }
}

/// Parse one entry at `pos`; `None` on any malformation.
fn decode_entry(bytes: &Vec<u8>, pos: usize) -> (r: Option<(EmojiPair, usize)>)
    requires
        pos <= bytes@.len(),
    ensures
        match r {
            Some((p, newpos)) => pos < newpos <= bytes@.len() && spec_decode_entry(
                bytes@.skip(pos as int),
            ) == Some((p@, bytes@.skip(newpos as int))),
            None => spec_decode_entry(bytes@.skip(pos as int)) is None,
        },
{
    let n = bytes.len();
    let ghost tail = bytes@.skip(pos as int);
    if n - pos < 8 {
        return None;
    }
    let dlen64 = read_u64(bytes, pos);
    proof {
        assert(tail.subrange(0, 8) =~= bytes@.subrange(pos as int, pos as int + 8));
    }
    if dlen64 > (n - pos - 8) as u64 {
        return None;
    }
    let dlen = dlen64 as usize;
    let dstart = pos + 8;
    let db = slice_subrange(bytes.as_slice(), dstart, dstart + dlen);
    proof {
        assert(db@ =~= tail.subrange(8, 8 + dlen64 as int));
        assert(tail.skip(8 + dlen64 as int) =~= bytes@.skip(dstart as int + dlen as int));
    }
    let description = match utf8_to_string(db) {
        Some(s) => s,
        None => {
            return None;
        },
    };
    let ghost rest1 = tail.skip(8 + dlen64 as int);
    let pos1 = dstart + dlen;
    if n - pos1 < 8 {
        return None;
    }
    let elen64 = read_u64(bytes, pos1);
    proof {
        assert(rest1.subrange(0, 8) =~= bytes@.subrange(pos1 as int, pos1 as int + 8));
    }
    if elen64 > (n - pos1 - 8) as u64 {
        return None;
    }
    let elen = elen64 as usize;
    let estart = pos1 + 8;
    let eb = slice_subrange(bytes.as_slice(), estart, estart + elen);
    proof {
        assert(eb@ =~= rest1.subrange(8, 8 + elen64 as int));
    }
    let emoji = match utf8_to_string(eb) {
        Some(s) => s,
        None => {
            return None;
        },
    };
    let newpos = estart + elen;
    let p = EmojiPair { description, emoji };
    proof {
        assert(rest1.skip(8 + elen64 as int) =~= bytes@.skip(newpos as int));
        assert(spec_decode_entry(tail) == Some((p@, bytes@.skip(newpos as int))));
    }
    Some((p, newpos))
}

/// Splice a parsed prefix onto the outcome of parsing the remainder.
spec fn splice_decoded(
    prefix: Seq<PairView>,
    r: Option<(Seq<PairView>, Seq<u8>)>,
) -> Option<(Seq<PairView>, Seq<u8>)> {
    match r {
        None => None,
        Some((es, rest)) => Some((prefix + es, rest)),
    }
}

/// Deserialize a blob. Any malformation — short counts, lengths past the
/// end, invalid UTF-8, trailing bytes — is rejected; nothing panics. On
/// success the rebuilt index carries exactly the encoded dictionary.
pub fn decode(bytes: &Vec<u8>) -> (r: Result<BkTree, EmojiError>)
    ensures
        match r {
            Ok(t) => spec_decode(bytes@) == Some(t@) && t.wf(),
            Err(e) => spec_decode(bytes@) is None && e is CannotDeserializeBKTree,
        },
{
    let n = bytes.len();
    if n < 8 {
        return Err(EmojiError::CannotDeserializeBKTree { filename: String::new() });
    }
    let cnt = read_u64(bytes, 0);
    proof {
        assert(bytes@.subrange(0, 8) =~= bytes@.subrange(0 as int, 0 as int + 8));
    }
    let mut entries: Vec<EmojiPair> = Vec::new();
    let mut pos: usize = 8;
    let mut i: u64 = 0;
    proof {
        assert(views_of(entries@) + Seq::<PairView>::empty() =~= views_of(entries@));
    }
    while i < cnt
        invariant
            n == bytes@.len(),
            n >= 8,
            cnt as nat == le_val(bytes@.subrange(0, 8)),
            8 <= pos <= n,
            i <= cnt,
            views_of(entries@).len() == i as int,
            spec_decode_entries(bytes@.skip(8), cnt as nat) == splice_decoded(
                views_of(entries@),
                spec_decode_entries(bytes@.skip(pos as int), (cnt - i) as nat),
            ),
        decreases cnt - i,
    {
        let ghost prefix = views_of(entries@);
        let ghost mid = spec_decode_entries(bytes@.skip(pos as int), (cnt - i) as nat);
        match decode_entry(bytes, pos) {
            None => {
                proof {
                    assert(spec_decode_entries(bytes@.skip(pos as int), (cnt - i) as nat)
                        is None);
                    assert(spec_decode_entries(bytes@.skip(8), cnt as nat) is None);
                    assert(le_val(bytes@.subrange(0, 8)) == cnt as nat);
                    assert(spec_decode(bytes@) is None);
                }
                return Err(EmojiError::CannotDeserializeBKTree { filename: String::new() });
            },
            Some((p, newpos)) => {
                entries.push(p);
                proof {
                    let rest = bytes@.skip(newpos as int);
                    let inner = spec_decode_entries(rest, (cnt - i - 1) as nat);
                    assert(views_of(entries@) =~= prefix.push(p@));
                    assert(mid == splice_decoded(seq![p@], inner));
                    match inner {
                        None => {},
                        Some((es, rest2)) => {
                            assert(prefix + (seq![p@] + es) =~= prefix.push(p@) + es);
                        },
                    }
                }
                pos = newpos;
                i = i + 1;
            },
        }
    }
    proof {
        assert(spec_decode_entries(bytes@.skip(pos as int), 0) == Some(
            (Seq::<PairView>::empty(), bytes@.skip(pos as int)),
        ));
        assert(views_of(entries@) + Seq::<PairView>::empty() =~= views_of(entries@));
    }
    if pos != n {
        proof {
            assert(bytes@.skip(pos as int).len() != 0);
        }
        return Err(EmojiError::CannotDeserializeBKTree { filename: String::new() });
    }
    proof {
        assert(bytes@.skip(pos as int).len() == 0);
    }
    let tree = BkTree::build(&entries);
    Ok(tree)
}

} // verus!
