use vstd::prelude::*;
use vstd::bytes::*;
use vstd::slice::slice_subrange;
use crate::assets::{Asset, AssetList};
use crate::program::{Call, Instruction, OriginKind, Program, Response, Ticket, WeightLimit};
use crate::location::{Junction, Location, MAX_JUNCTIONS};
use crate::weight::Weight;

verus! {

/// `b` holds the bytes `e` from position `pos` on.
pub open spec fn holds(b: Seq<u8>, pos: int, e: Seq<u8>) -> bool {
    0 <= pos && pos + e.len() <= b.len() && b.subrange(pos, pos + e.len()) == e
}

pub proof fn lemma_holds_split(b: Seq<u8>, pos: int, e1: Seq<u8>, e2: Seq<u8>)
    requires
        holds(b, pos, e1 + e2),
    ensures
        holds(b, pos, e1),
        holds(b, pos + e1.len(), e2),
{
    assert(b.subrange(pos, pos + e1.len()) =~= (e1 + e2).subrange(0, e1.len() as int));
    assert(b.subrange(pos + e1.len(), pos + e1.len() + e2.len()) =~= (e1 + e2).subrange(e1.len() as int, (e1 + e2).len() as int));
    assert((e1 + e2).subrange(0, e1.len() as int) =~= e1);
    assert((e1 + e2).subrange(e1.len() as int, (e1 + e2).len() as int) =~= e2);
}

/// The bytes of `b` from `pos` up to `end` are exactly `e`.
pub open spec fn reads(b: Seq<u8>, pos: int, end: int, e: Seq<u8>) -> bool {
    0 <= pos <= end <= b.len() && b.subrange(pos, end) == e
}

pub proof fn lemma_reads_join(b: Seq<u8>, p: int, q: int, r: int, e1: Seq<u8>, e2: Seq<u8>)
    requires
        reads(b, p, q, e1),
        reads(b, q, r, e2),
    ensures
        reads(b, p, r, e1 + e2),
{
    assert(b.subrange(p, r) =~= b.subrange(p, q) + b.subrange(q, r));
}

pub open spec fn enc_u32(x: u32) -> Seq<u8> {
    spec_u32_to_le_bytes(x)
}

pub open spec fn enc_u64(x: u64) -> Seq<u8> {
    spec_u64_to_le_bytes(x)
}

pub open spec fn enc_u128(x: u128) -> Seq<u8> {
    spec_u128_to_le_bytes(x)
}

pub open spec fn enc_weight(w: Weight) -> Seq<u8> {
    enc_u64(w.ref_time) + enc_u64(w.proof_size)
}

pub open spec fn enc_asset(a: Asset) -> Seq<u8> {
    enc_u64(a.id) + enc_u128(a.amount)
}

pub open spec fn enc_junction(j: Junction) -> Seq<u8> {
    match j {
        Junction::Parachain(x) => seq![0u8] + enc_u32(x),
        Junction::AccountIndex64(x) => seq![1u8] + enc_u64(x),
        Junction::PalletInstance(x) => seq![2u8, x],
        Junction::GeneralIndex(x) => seq![3u8] + enc_u128(x),
    }
}

pub open spec fn enc_junctions(s: Seq<Junction>) -> Seq<u8>
    decreases s.len(),
{
    if s.len() == 0 { Seq::empty() } else { enc_junctions(s.drop_last()) + enc_junction(s.last()) }
}

/// A location: parents, number of junctions, then the junctions.
pub open spec fn enc_location(l: (u8, Seq<Junction>)) -> Seq<u8> {
    seq![l.0, l.1.len() as u8] + enc_junctions(l.1)
}

pub fn put_u8(out: &mut Vec<u8>, x: u8)
    ensures
        final(out)@ == old(out)@ + seq![x],
{
    out.push(x);
    proof { assert(out@ =~= old(out)@ + seq![x]); }
}

pub fn put_u32(out: &mut Vec<u8>, x: u32)
    ensures
        final(out)@ == old(out)@ + enc_u32(x),
{
    let mut v = u32_to_le_bytes(x);
    out.append(&mut v);
}

pub fn put_u64(out: &mut Vec<u8>, x: u64)
    ensures
        final(out)@ == old(out)@ + enc_u64(x),
{
    let mut v = u64_to_le_bytes(x);
    out.append(&mut v);
}

pub fn put_u128(out: &mut Vec<u8>, x: u128)
    ensures
        final(out)@ == old(out)@ + enc_u128(x),
{
    let mut v = u128_to_le_bytes(x);
    out.append(&mut v);
}

fn get_u8(b: &Vec<u8>, pos: usize, Ghost(x): Ghost<u8>) -> (r: Option<(u8, usize)>)
    ensures
        holds(b@, pos as int, seq![x]) ==> (r matches Some((y, e)) && y == x && e == pos + 1),
        r matches Some((y, e)) ==> reads(b@, pos as int, e as int, seq![y]),
{
    if pos >= b.len() {
        return None;
    }
    proof {
        if holds(b@, pos as int, seq![x]) {
            assert(b@.subrange(pos as int, pos + 1)[0] == b@[pos as int]);
        }
    }
    proof { assert(b@.subrange(pos as int, pos + 1) =~= seq![b@[pos as int]]); }
    Some((b[pos], pos + 1))
}

fn get_u32(b: &Vec<u8>, pos: usize, Ghost(x): Ghost<u32>) -> (r: Option<(u32, usize)>)
    ensures
        holds(b@, pos as int, enc_u32(x)) ==> (r matches Some((y, e)) && y == x && e == pos + 4),
        r matches Some((y, e)) ==> reads(b@, pos as int, e as int, enc_u32(y)),
{
    proof { lemma_auto_spec_u32_to_from_le_bytes(); }
    if pos > b.len() || b.len() - pos < 4 {
        return None;
    }
    let s = slice_subrange(b.as_slice(), pos, pos + 4);
    Some((u32_from_le_bytes(s), pos + 4))
}

fn get_u64(b: &Vec<u8>, pos: usize, Ghost(x): Ghost<u64>) -> (r: Option<(u64, usize)>)
    ensures
        holds(b@, pos as int, enc_u64(x)) ==> (r matches Some((y, e)) && y == x && e == pos + 8),
        r matches Some((y, e)) ==> reads(b@, pos as int, e as int, enc_u64(y)),
{
    proof { lemma_auto_spec_u64_to_from_le_bytes(); }
    if pos > b.len() || b.len() - pos < 8 {
        return None;
    }
    let s = slice_subrange(b.as_slice(), pos, pos + 8);
    Some((u64_from_le_bytes(s), pos + 8))
}

fn get_u128(b: &Vec<u8>, pos: usize, Ghost(x): Ghost<u128>) -> (r: Option<(u128, usize)>)
    ensures
        holds(b@, pos as int, enc_u128(x)) ==> (r matches Some((y, e)) && y == x && e == pos + 16),
        r matches Some((y, e)) ==> reads(b@, pos as int, e as int, enc_u128(y)),
{
    proof { lemma_auto_spec_u128_to_from_le_bytes(); }
    if pos > b.len() || b.len() - pos < 16 {
        return None;
    }
    let s = slice_subrange(b.as_slice(), pos, pos + 16);
    Some((u128_from_le_bytes(s), pos + 16))
}

pub fn put_weight(out: &mut Vec<u8>, w: Weight)
    ensures
        final(out)@ == old(out)@ + enc_weight(w),
{
    put_u64(out, w.ref_time);
    put_u64(out, w.proof_size);
    proof { assert(out@ =~= old(out)@ + enc_weight(w)); }
}

fn get_weight(b: &Vec<u8>, pos: usize, Ghost(x): Ghost<Weight>) -> (r: Option<(Weight, usize)>)
    ensures
        holds(b@, pos as int, enc_weight(x)) ==> (r matches Some((y, e)) && y == x && e == pos + enc_weight(x).len()),
        r matches Some((y, e)) ==> reads(b@, pos as int, e as int, enc_weight(y)),
{
    proof {
        lemma_auto_spec_u64_to_from_le_bytes();
        if holds(b@, pos as int, enc_weight(x)) {
            lemma_holds_split(b@, pos as int, enc_u64(x.ref_time), enc_u64(x.proof_size));
            assert(enc_u64(x.ref_time).len() == 8);
            assert(holds(b@, pos + 8, enc_u64(x.proof_size)));
        }
    }
    let (ref_time, p1) = match get_u64(b, pos, Ghost(x.ref_time)) { Some(v) => v, None => return None };
    let (proof_size, p2) = match get_u64(b, p1, Ghost(x.proof_size)) { Some(v) => v, None => return None };
    proof { lemma_reads_join(b@, pos as int, p1 as int, p2 as int, enc_u64(ref_time), enc_u64(proof_size)); }
    Some((Weight { ref_time, proof_size }, p2))
}

pub fn put_asset(out: &mut Vec<u8>, a: Asset)
    ensures
        final(out)@ == old(out)@ + enc_asset(a),
{
    put_u64(out, a.id);
    put_u128(out, a.amount);
    proof { assert(out@ =~= old(out)@ + enc_asset(a)); }
}

fn get_asset(b: &Vec<u8>, pos: usize, Ghost(x): Ghost<Asset>) -> (r: Option<(Asset, usize)>)
    ensures
        holds(b@, pos as int, enc_asset(x)) ==> (r matches Some((y, e)) && y == x && e == pos + enc_asset(x).len()),
        r matches Some((y, e)) ==> reads(b@, pos as int, e as int, enc_asset(y)),
{
    proof {
        lemma_auto_spec_u64_to_from_le_bytes();
        lemma_auto_spec_u128_to_from_le_bytes();
        if holds(b@, pos as int, enc_asset(x)) {
            lemma_holds_split(b@, pos as int, enc_u64(x.id), enc_u128(x.amount));
            assert(enc_u64(x.id).len() == 8);
            assert(enc_u128(x.amount).len() == 16);
        }
    }
    let (id, p1) = match get_u64(b, pos, Ghost(x.id)) { Some(v) => v, None => return None };
    let (amount, p2) = match get_u128(b, p1, Ghost(x.amount)) { Some(v) => v, None => return None };
    proof { lemma_reads_join(b@, pos as int, p1 as int, p2 as int, enc_u64(id), enc_u128(amount)); }
    Some((Asset { id, amount }, p2))
}

pub fn put_junction(out: &mut Vec<u8>, j: Junction)
    ensures
        final(out)@ == old(out)@ + enc_junction(j),
{
    match j {
        Junction::Parachain(x) => { put_u8(out, 0); put_u32(out, x); },
        Junction::AccountIndex64(x) => { put_u8(out, 1); put_u64(out, x); },
        Junction::PalletInstance(x) => { put_u8(out, 2); put_u8(out, x); },
        Junction::GeneralIndex(x) => { put_u8(out, 3); put_u128(out, x); },
    }
    proof { assert(out@ =~= old(out)@ + enc_junction(j)); }
}

fn get_junction(b: &Vec<u8>, pos: usize, Ghost(x): Ghost<Junction>) -> (r: Option<(Junction, usize)>)
    ensures
        holds(b@, pos as int, enc_junction(x)) ==> (r matches Some((y, e)) && y == x && e == pos + enc_junction(x).len()),
        r matches Some((y, e)) ==> reads(b@, pos as int, e as int, enc_junction(y)),
{
    proof {
        lemma_auto_spec_u32_to_from_le_bytes();
        lemma_auto_spec_u64_to_from_le_bytes();
        lemma_auto_spec_u128_to_from_le_bytes();
    }
    let tag_of = Ghost(match x {
        Junction::Parachain(_) => 0u8,
        Junction::AccountIndex64(_) => 1u8,
        Junction::PalletInstance(_) => 2u8,
        Junction::GeneralIndex(_) => 3u8,
    });
    let ghost rest = enc_junction(x).subrange(1, enc_junction(x).len() as int);
    proof {
        assert(enc_junction(x) =~= seq![tag_of@] + rest);
        if holds(b@, pos as int, enc_junction(x)) {
            lemma_holds_split(b@, pos as int, seq![tag_of@], rest);
        }
        match x {
            Junction::Parachain(v) => { assert(rest =~= enc_u32(v)); assert(enc_u32(v).len() == 4); },
            Junction::AccountIndex64(v) => { assert(rest =~= enc_u64(v)); assert(enc_u64(v).len() == 8); },
            Junction::PalletInstance(v) => { assert(rest =~= seq![v]); },
            Junction::GeneralIndex(v) => { assert(rest =~= enc_u128(v)); assert(enc_u128(v).len() == 16); },
        }
    }
    let (tag, p1) = match get_u8(b, pos, tag_of) { Some(v) => v, None => return None };
    if tag == 0 {
        let g = Ghost(match x { Junction::Parachain(v) => v, _ => 0u32 });
        let (v, p2) = match get_u32(b, p1, g) { Some(v) => v, None => return None };
        proof { lemma_reads_join(b@, pos as int, p1 as int, p2 as int, seq![tag], enc_u32(v));
            assert(enc_junction(Junction::Parachain(v)) =~= seq![tag] + enc_u32(v)); }
        Some((Junction::Parachain(v), p2))
    } else if tag == 1 {
        let g = Ghost(match x { Junction::AccountIndex64(v) => v, _ => 0u64 });
        let (v, p2) = match get_u64(b, p1, g) { Some(v) => v, None => return None };
        proof { lemma_reads_join(b@, pos as int, p1 as int, p2 as int, seq![tag], enc_u64(v));
            assert(enc_junction(Junction::AccountIndex64(v)) =~= seq![tag] + enc_u64(v)); }
        Some((Junction::AccountIndex64(v), p2))
    } else if tag == 2 {
        let g = Ghost(match x { Junction::PalletInstance(v) => v, _ => 0u8 });
        let (v, p2) = match get_u8(b, p1, g) { Some(v) => v, None => return None };
        proof { lemma_reads_join(b@, pos as int, p1 as int, p2 as int, seq![tag], seq![v]);
            assert(enc_junction(Junction::PalletInstance(v)) =~= seq![tag] + seq![v]); }
        Some((Junction::PalletInstance(v), p2))
    } else if tag == 3 {
        let g = Ghost(match x { Junction::GeneralIndex(v) => v, _ => 0u128 });
        let (v, p2) = match get_u128(b, p1, g) { Some(v) => v, None => return None };
        proof { lemma_reads_join(b@, pos as int, p1 as int, p2 as int, seq![tag], enc_u128(v));
            assert(enc_junction(Junction::GeneralIndex(v)) =~= seq![tag] + enc_u128(v)); }
        Some((Junction::GeneralIndex(v), p2))
    } else {
        None
    }
}

pub fn put_location(out: &mut Vec<u8>, l: &Location)
    requires
        l.wf(),
    ensures
        final(out)@ == old(out)@ + enc_location(l@),
{
    put_u8(out, l.parents);
    put_u8(out, l.interior.len() as u8);
    let ghost start = out@;
    let mut i: usize = 0;
    while i < l.interior.len()
        invariant
            i <= l.interior@.len(),
            out@ == start + enc_junctions(l.interior@.subrange(0, i as int)),
        decreases l.interior@.len() - i,
    {
        put_junction(out, l.interior[i]);
        proof {
            let pre = l.interior@.subrange(0, i + 1);
            assert(pre.drop_last() =~= l.interior@.subrange(0, i as int));
        }
        i = i + 1;
    }
    proof {
        assert(l.interior@.subrange(0, l.interior@.len() as int) =~= l.interior@);
        assert(out@ =~= old(out)@ + enc_location(l@));
    }
}

fn get_location(b: &Vec<u8>, pos: usize, Ghost(x): Ghost<(u8, Seq<Junction>)>) -> (r: Option<(Location, usize)>)
    requires
        crate::location::location_wf(x),
    ensures
        holds(b@, pos as int, enc_location(x)) ==> (r matches Some((l, end))
            && l@ == x && end == pos + enc_location(x).len()),
        r matches Some((l, end)) ==> l.wf() && reads(b@, pos as int, end as int, enc_location(l@)),
{
    let ghost ok = holds(b@, pos as int, enc_location(x));
    proof {
        if ok {
            assert(seq![x.0] + (seq![x.1.len() as u8] + enc_junctions(x.1)) =~= enc_location(x));
            lemma_holds_split(b@, pos as int, seq![x.0], seq![x.1.len() as u8] + enc_junctions(x.1));
            lemma_holds_split(b@, pos + 1, seq![x.1.len() as u8], enc_junctions(x.1));
        }
    }
    let (parents, p1) = match get_u8(b, pos, Ghost(x.0)) { Some(v) => v, None => return None };
    let (n, p2) = match get_u8(b, p1, Ghost(x.1.len() as u8)) { Some(v) => v, None => return None };
    if n as usize > MAX_JUNCTIONS {
        return None;
    }
    proof { lemma_reads_join(b@, pos as int, p1 as int, p2 as int, seq![parents], seq![n]); }
    let mut interior: Vec<Junction> = Vec::new();
    proof {
        assert(b@.subrange(p2 as int, p2 as int) =~= Seq::<u8>::empty());
        assert(enc_junctions(interior@) =~= Seq::<u8>::empty());
    }
    let mut p = p2;
    let mut i: usize = 0;
    while i < n as usize
        invariant
            ok == holds(b@, pos as int, enc_location(x)),
            ok ==> p2 == pos + 2,
            ok ==> n as nat == x.1.len(),
            ok ==> holds(b@, p2 as int, enc_junctions(x.1)),
            i <= n,
            n <= MAX_JUNCTIONS,
            interior@.len() == i,
            ok ==> interior@ == x.1.subrange(0, i as int),
            ok ==> p == p2 + enc_junctions(x.1.subrange(0, i as int)).len(),
            reads(b@, pos as int, p2 as int, seq![parents] + seq![n]),
            reads(b@, p2 as int, p as int, enc_junctions(interior@)),
        decreases n - i,
    {
        let ghost xi = if ok { x.1[i as int] } else { Junction::Parachain(0) };
        proof {
            if ok {
                lemma_enc_junctions_prefix(x.1, i as int);
                let pre = x.1.subrange(0, i as int);
                let e = enc_junctions(x.1);
                let before = enc_junctions(pre);
                let rest = e.subrange(before.len() as int, e.len() as int);
                assert(e =~= before + rest);
                lemma_holds_split(b@, p2 as int, before, rest);
                let upto = enc_junctions(x.1.subrange(0, i + 1));
                assert(x.1.subrange(0, i + 1).drop_last() =~= pre);
                assert(upto =~= before + enc_junction(xi));
                lemma_enc_junctions_prefix(x.1, i + 1);
                assert(e =~= upto + e.subrange(upto.len() as int, e.len() as int));
                lemma_holds_split(b@, p2 as int, upto, e.subrange(upto.len() as int, e.len() as int));
                lemma_holds_split(b@, p2 as int, before, enc_junction(xi));
            }
        }
        let (j, pn) = match get_junction(b, p, Ghost(xi)) { Some(v) => v, None => return None };
        let ghost prev = interior@;
        proof { lemma_reads_join(b@, p2 as int, p as int, pn as int, enc_junctions(prev), enc_junction(j)); }
        interior.push(j);
        proof { assert(interior@.drop_last() =~= prev); }
        p = pn;
        i = i + 1;
        proof {
            if ok {
                assert(interior@ =~= x.1.subrange(0, i as int));
                assert(x.1.subrange(0, i as int).drop_last() =~= x.1.subrange(0, i - 1));
            }
        }
    }
    proof {
        if ok {
            assert(x.1.subrange(0, n as int) =~= x.1);
        }
    }
    proof {
        lemma_reads_join(b@, pos as int, p2 as int, p as int, seq![parents] + seq![n], enc_junctions(interior@));
        assert(seq![parents] + seq![n] + enc_junctions(interior@) =~= enc_location((parents, interior@)));
    }
    Some((Location { parents, interior }, p))
}

/// The encoding of a prefix of `s` is a prefix of the encoding of `s`.
pub proof fn lemma_enc_junctions_prefix(s: Seq<Junction>, i: int)
    requires
        0 <= i <= s.len(),
    ensures
        enc_junctions(s.subrange(0, i)) == enc_junctions(s).subrange(0, enc_junctions(s.subrange(0, i)).len() as int),
        enc_junctions(s.subrange(0, i)).len() <= enc_junctions(s).len(),
    decreases s.len() - i,
{
    if i == s.len() {
        assert(s.subrange(0, i) =~= s);
        assert(enc_junctions(s).subrange(0, enc_junctions(s).len() as int) =~= enc_junctions(s));
    } else {
        lemma_enc_junctions_prefix(s, i + 1);
        let a = s.subrange(0, i);
        let b = s.subrange(0, i + 1);
        assert(b.drop_last() =~= a);
        let ea = enc_junctions(a);
        let eb = enc_junctions(b);
        assert(eb == ea + enc_junction(s[i]));
        assert(eb.subrange(0, ea.len() as int) =~= ea);
        assert(enc_junctions(s).subrange(0, ea.len() as int) =~= enc_junctions(s).subrange(0, eb.len() as int).subrange(0, ea.len() as int));
    }
}

pub open spec fn enc_asset_seq(s: Seq<Asset>) -> Seq<u8>
    decreases s.len(),
{
    if s.len() == 0 { Seq::empty() } else { enc_asset_seq(s.drop_last()) + enc_asset(s.last()) }
}

/// An asset list: the number of entries, then the entries.
pub open spec fn enc_asset_list(s: Seq<Asset>) -> Seq<u8> {
    enc_u32(s.len() as u32) + enc_asset_seq(s)
}

pub proof fn lemma_enc_asset_seq_prefix(s: Seq<Asset>, i: int)
    requires
        0 <= i <= s.len(),
    ensures
        enc_asset_seq(s.subrange(0, i)) == enc_asset_seq(s).subrange(0, enc_asset_seq(s.subrange(0, i)).len() as int),
        enc_asset_seq(s.subrange(0, i)).len() <= enc_asset_seq(s).len(),
    decreases s.len() - i,
{
    if i == s.len() {
        assert(s.subrange(0, i) =~= s);
        assert(enc_asset_seq(s).subrange(0, enc_asset_seq(s).len() as int) =~= enc_asset_seq(s));
    } else {
        lemma_enc_asset_seq_prefix(s, i + 1);
        let a = s.subrange(0, i);
        let b = s.subrange(0, i + 1);
        assert(b.drop_last() =~= a);
        let ea = enc_asset_seq(a);
        let eb = enc_asset_seq(b);
        assert(eb == ea + enc_asset(s[i]));
        assert(eb.subrange(0, ea.len() as int) =~= ea);
        assert(enc_asset_seq(s).subrange(0, ea.len() as int) =~= enc_asset_seq(s).subrange(0, eb.len() as int).subrange(0, ea.len() as int));
    }
}

pub fn put_asset_list(out: &mut Vec<u8>, l: &AssetList)
    requires
        l@.len() <= u32::MAX,
    ensures
        final(out)@ == old(out)@ + enc_asset_list(l@),
{
    put_u32(out, l.items.len() as u32);
    let ghost start = out@;
    let mut i: usize = 0;
    while i < l.items.len()
        invariant
            i <= l@.len(),
            out@ == start + enc_asset_seq(l@.subrange(0, i as int)),
        decreases l@.len() - i,
    {
        put_asset(out, l.items[i]);
        proof {
            assert(l@.subrange(0, i + 1).drop_last() =~= l@.subrange(0, i as int));
        }
        i = i + 1;
    }
    proof {
        assert(l@.subrange(0, l@.len() as int) =~= l@);
        assert(out@ =~= old(out)@ + enc_asset_list(l@));
    }
}

fn get_asset_list(b: &Vec<u8>, pos: usize, Ghost(x): Ghost<Seq<Asset>>) -> (r: Option<(AssetList, usize)>)
    requires
        x.len() <= u32::MAX,
    ensures
        holds(b@, pos as int, enc_asset_list(x)) ==> (r matches Some((l, end))
            && l@ == x && end == pos + enc_asset_list(x).len()),
        r matches Some((l, end)) ==> l@.len() <= u32::MAX && reads(b@, pos as int, end as int, enc_asset_list(l@)),
{
    let ghost ok = holds(b@, pos as int, enc_asset_list(x));
    proof {
        lemma_auto_spec_u32_to_from_le_bytes();
        if ok {
            lemma_holds_split(b@, pos as int, enc_u32(x.len() as u32), enc_asset_seq(x));
        }
    }
    let (n, p2) = match get_u32(b, pos, Ghost(x.len() as u32)) { Some(v) => v, None => return None };
    let mut items: Vec<Asset> = Vec::new();
    proof {
        assert(b@.subrange(p2 as int, p2 as int) =~= Seq::<u8>::empty());
        assert(enc_asset_seq(items@) =~= Seq::<u8>::empty());
    }
    let mut p = p2;
    let mut i: usize = 0;
    while i < n as usize
        invariant
            ok == holds(b@, pos as int, enc_asset_list(x)),
            ok ==> p2 == pos + 4,
            ok ==> n as nat == x.len(),
            ok ==> holds(b@, p2 as int, enc_asset_seq(x)),
            i <= n,
            items@.len() == i,
            ok ==> items@ == x.subrange(0, i as int),
            ok ==> p == p2 + enc_asset_seq(x.subrange(0, i as int)).len(),
            reads(b@, pos as int, p2 as int, enc_u32(n)),
            reads(b@, p2 as int, p as int, enc_asset_seq(items@)),
        decreases n - i,
    {
        let ghost xi = if ok { x[i as int] } else { Asset { id: 0, amount: 0 } };
        proof {
            if ok {
                lemma_enc_asset_seq_prefix(x, i as int);
                let pre = x.subrange(0, i as int);
                let e = enc_asset_seq(x);
                let before = enc_asset_seq(pre);
                let upto = enc_asset_seq(x.subrange(0, i + 1));
                assert(x.subrange(0, i + 1).drop_last() =~= pre);
                assert(upto =~= before + enc_asset(xi));
                lemma_enc_asset_seq_prefix(x, i + 1);
                assert(e =~= upto + e.subrange(upto.len() as int, e.len() as int));
                lemma_holds_split(b@, p2 as int, upto, e.subrange(upto.len() as int, e.len() as int));
                lemma_holds_split(b@, p2 as int, before, enc_asset(xi));
            }
        }
        let (a, pn) = match get_asset(b, p, Ghost(xi)) { Some(v) => v, None => return None };
        let ghost prev = items@;
        proof { lemma_reads_join(b@, p2 as int, p as int, pn as int, enc_asset_seq(prev), enc_asset(a)); }
        items.push(a);
        proof { assert(items@.drop_last() =~= prev); }
        p = pn;
        i = i + 1;
        proof {
            if ok {
                assert(items@ =~= x.subrange(0, i as int));
            }
        }
    }
    proof {
        if ok {
            assert(x.subrange(0, n as int) =~= x);
        }
    }
    proof {
        assert(p2 as int >= pos as int);
        lemma_reads_join(b@, pos as int, p2 as int, p as int, enc_u32(n), enc_asset_seq(items@));
        assert(items@.len() as u32 == n);
    }
    Some((AssetList { items }, p))
}

pub open spec fn enc_bool(v: bool) -> Seq<u8> {
    seq![if v { 1u8 } else { 0u8 }]
}

pub open spec fn enc_response(r: Response) -> Seq<u8> {
    match r {
        Response::Null => seq![0u8],
        Response::Assets(l) => seq![1u8] + enc_asset_list(l@),
        Response::Version(v) => seq![2u8] + enc_u32(v),
    }
}

pub open spec fn enc_limit(l: WeightLimit) -> Seq<u8> {
    match l {
        WeightLimit::Unlimited => seq![0u8],
        WeightLimit::Limited(w) => seq![1u8] + enc_weight(w),
    }
}

pub open spec fn enc_kind(k: OriginKind) -> Seq<u8> {
    match k {
        OriginKind::Native => seq![0u8],
        OriginKind::SovereignAccount => seq![1u8],
        OriginKind::Superuser => seq![2u8],
    }
}

pub open spec fn enc_instr(i: Instruction) -> Seq<u8> {
    match i {
        Instruction::WithdrawAsset(a) => seq![0u8] + enc_asset(a),
        Instruction::ReserveAssetDeposited(a) => seq![1u8] + enc_asset(a),
        Instruction::ReceiveTeleportedAsset(a) => seq![2u8] + enc_asset(a),
        Instruction::QueryResponse { query_id, response } => seq![3u8] + enc_u64(query_id) + enc_response(response),
        Instruction::BuyExecution { fees, weight_limit } => seq![4u8] + enc_asset(fees) + enc_limit(weight_limit),
        Instruction::DepositAsset { asset, beneficiary } => seq![5u8] + enc_asset(asset) + enc_location(beneficiary@),
        Instruction::Transact { origin_kind, require_weight_at_most, call } =>
            seq![6u8] + enc_kind(origin_kind) + enc_weight(require_weight_at_most) + enc_weight(call.weight) + enc_bool(call.succeeds),
        Instruction::DescendOrigin(js) => seq![7u8] + enc_location((0u8, js@)),
        Instruction::ClearOrigin => seq![8u8],
        Instruction::InitiateTeleport { asset, dest, beneficiary } =>
            seq![9u8] + enc_asset(asset) + enc_location(dest@) + enc_location(beneficiary@),
        Instruction::InitiateReserveWithdraw { asset, reserve, beneficiary } =>
            seq![10u8] + enc_asset(asset) + enc_location(reserve@) + enc_location(beneficiary@),
        Instruction::ReportHolding { dest, query_id } => seq![11u8] + enc_location(dest@) + enc_u64(query_id),
        Instruction::ClaimAsset { assets, ticket } => seq![12u8] + enc_asset_list(assets@) + enc_u32(ticket.version),
        Instruction::SubscribeVersion { query_id } => seq![13u8] + enc_u64(query_id),
    }
}

/// Every location and list in `i` fits the wire form.
pub open spec fn instr_encodable(i: Instruction) -> bool {
    match i {
        Instruction::QueryResponse { response: Response::Assets(l), .. } => l@.len() <= u32::MAX,
        Instruction::DepositAsset { beneficiary, .. } => beneficiary.wf(),
        Instruction::DescendOrigin(js) => js@.len() <= MAX_JUNCTIONS,
        Instruction::InitiateTeleport { dest, beneficiary, .. } => dest.wf() && beneficiary.wf(),
        Instruction::InitiateReserveWithdraw { reserve, beneficiary, .. } => reserve.wf() && beneficiary.wf(),
        Instruction::ReportHolding { dest, .. } => dest.wf(),
        Instruction::ClaimAsset { assets, .. } => assets@.len() <= u32::MAX,
        _ => true,
    }
}

pub fn put_response(out: &mut Vec<u8>, r: &Response)
    requires
        r matches Response::Assets(l) ==> l@.len() <= u32::MAX,
    ensures
        final(out)@ == old(out)@ + enc_response(*r),
{
    match r {
        Response::Null => put_u8(out, 0),
        Response::Assets(l) => { put_u8(out, 1); put_asset_list(out, l); },
        Response::Version(v) => { put_u8(out, 2); put_u32(out, *v); },
    }
    proof { assert(out@ =~= old(out)@ + enc_response(*r)); }
}

fn get_response(b: &Vec<u8>, pos: usize, Ghost(x): Ghost<Response>) -> (r: Option<(Response, usize)>)
    requires
        x matches Response::Assets(l) ==> l@.len() <= u32::MAX,
    ensures
        holds(b@, pos as int, enc_response(x)) ==> (r matches Some((y, e))
            && enc_response(y) == enc_response(x) && e == pos + enc_response(x).len()),
        r matches Some((y, e)) ==> (y matches Response::Assets(l) ==> l@.len() <= u32::MAX)
            && reads(b@, pos as int, e as int, enc_response(y)),
{
    let ghost ok = holds(b@, pos as int, enc_response(x));
    let ghost t: u8 = match x { Response::Null => 0u8, Response::Assets(_) => 1u8, Response::Version(_) => 2u8 };
    let ghost gl: Seq<Asset> = match x { Response::Assets(l) => l@, _ => Seq::empty() };
    let ghost gv: u32 = match x { Response::Version(v) => v, _ => 0u32 };
    let ghost rest = enc_response(x).subrange(1, enc_response(x).len() as int);
    proof {
        lemma_auto_spec_u32_to_from_le_bytes();
        assert(enc_response(x) =~= seq![t] + rest);
        if ok {
            lemma_holds_split(b@, pos as int, seq![t], rest);
        }
        match x {
            Response::Assets(l) => { assert(rest =~= enc_asset_list(l@)); },
            Response::Version(v) => { assert(rest =~= enc_u32(v)); },
            _ => {},
        }
    }
    let (tag, p1) = match get_u8(b, pos, Ghost(t)) { Some(v) => v, None => return None };
    if tag == 0 {
        proof { assert(seq![0u8] =~= enc_response(Response::Null)); }
        Some((Response::Null, p1))
    } else if tag == 1 {
        let (l, p2) = match get_asset_list(b, p1, Ghost(gl)) { Some(v) => v, None => return None };
        proof { lemma_reads_join(b@, pos as int, p1 as int, p2 as int, seq![tag], enc_asset_list(l@)); }
        Some((Response::Assets(l), p2))
    } else if tag == 2 {
        let (v, p2) = match get_u32(b, p1, Ghost(gv)) { Some(v) => v, None => return None };
        proof { lemma_reads_join(b@, pos as int, p1 as int, p2 as int, seq![tag], enc_u32(v)); }
        Some((Response::Version(v), p2))
    } else {
        None
    }
}

pub fn put_instr(out: &mut Vec<u8>, i: &Instruction)
    requires
        instr_encodable(*i),
    ensures
        final(out)@ == old(out)@ + enc_instr(*i),
{
    match i {
        Instruction::WithdrawAsset(a) => { put_u8(out, 0); put_asset(out, *a); },
        Instruction::ReserveAssetDeposited(a) => { put_u8(out, 1); put_asset(out, *a); },
        Instruction::ReceiveTeleportedAsset(a) => { put_u8(out, 2); put_asset(out, *a); },
        Instruction::QueryResponse { query_id, response } => {
            put_u8(out, 3);
            put_u64(out, *query_id);
            put_response(out, response);
        },
        Instruction::BuyExecution { fees, weight_limit } => {
            put_u8(out, 4);
            put_asset(out, *fees);
            match weight_limit {
                WeightLimit::Unlimited => put_u8(out, 0),
                WeightLimit::Limited(w) => { put_u8(out, 1); put_weight(out, *w); },
            }
        },
        Instruction::DepositAsset { asset, beneficiary } => {
            put_u8(out, 5);
            put_asset(out, *asset);
            put_location(out, beneficiary);
        },
        Instruction::Transact { origin_kind, require_weight_at_most, call } => {
            put_u8(out, 6);
            put_u8(out, match origin_kind { OriginKind::Native => 0, OriginKind::SovereignAccount => 1, OriginKind::Superuser => 2 });
            put_weight(out, *require_weight_at_most);
            put_weight(out, call.weight);
            put_u8(out, if call.succeeds { 1 } else { 0 });
        },
        Instruction::DescendOrigin(js) => {
            put_u8(out, 7);
            let l = Location { parents: 0, interior: crate::location::copy_junctions(js) };
            put_location(out, &l);
        },
        Instruction::ClearOrigin => put_u8(out, 8),
        Instruction::InitiateTeleport { asset, dest, beneficiary } => {
            put_u8(out, 9);
            put_asset(out, *asset);
            put_location(out, dest);
            put_location(out, beneficiary);
        },
        Instruction::InitiateReserveWithdraw { asset, reserve, beneficiary } => {
            put_u8(out, 10);
            put_asset(out, *asset);
            put_location(out, reserve);
            put_location(out, beneficiary);
        },
        Instruction::ReportHolding { dest, query_id } => {
            put_u8(out, 11);
            put_location(out, dest);
            put_u64(out, *query_id);
        },
        Instruction::ClaimAsset { assets, ticket } => {
            put_u8(out, 12);
            put_asset_list(out, assets);
            put_u32(out, ticket.version);
        },
        Instruction::SubscribeVersion { query_id } => {
            put_u8(out, 13);
            put_u64(out, *query_id);
        },
    }
    proof {
        match *i {
            Instruction::BuyExecution { fees, weight_limit } => {
                match weight_limit {
                    WeightLimit::Unlimited => {},
                    WeightLimit::Limited(w) => {},
                }
            },
            Instruction::Transact { origin_kind, .. } => {
                match origin_kind { _ => {} }
            },
            _ => {},
        }
        assert(out@ =~= old(out)@ + enc_instr(*i));
    }
}

pub proof fn lemma_holds_split3(b: Seq<u8>, pos: int, e1: Seq<u8>, e2: Seq<u8>, e3: Seq<u8>)
    requires
        holds(b, pos, e1 + e2 + e3),
    ensures
        holds(b, pos, e1),
        holds(b, pos + e1.len(), e2),
        holds(b, pos + e1.len() + e2.len(), e3),
{
    lemma_holds_split(b, pos, e1 + e2, e3);
    lemma_holds_split(b, pos, e1, e2);
}

pub proof fn lemma_holds_split4(b: Seq<u8>, pos: int, e1: Seq<u8>, e2: Seq<u8>, e3: Seq<u8>, e4: Seq<u8>)
    requires
        holds(b, pos, e1 + e2 + e3 + e4),
    ensures
        holds(b, pos, e1),
        holds(b, pos + e1.len(), e2),
        holds(b, pos + e1.len() + e2.len(), e3),
        holds(b, pos + e1.len() + e2.len() + e3.len(), e4),
{
    lemma_holds_split(b, pos, e1 + e2 + e3, e4);
    lemma_holds_split3(b, pos, e1, e2, e3);
}

pub open spec fn tag_of(x: Instruction) -> u8 {
    match x {
        Instruction::WithdrawAsset(_) => 0,
        Instruction::ReserveAssetDeposited(_) => 1,
        Instruction::ReceiveTeleportedAsset(_) => 2,
        Instruction::QueryResponse { .. } => 3,
        Instruction::BuyExecution { .. } => 4,
        Instruction::DepositAsset { .. } => 5,
        Instruction::Transact { .. } => 6,
        Instruction::DescendOrigin(_) => 7,
        Instruction::ClearOrigin => 8,
        Instruction::InitiateTeleport { .. } => 9,
        Instruction::InitiateReserveWithdraw { .. } => 10,
        Instruction::ReportHolding { .. } => 11,
        Instruction::ClaimAsset { .. } => 12,
        Instruction::SubscribeVersion { .. } => 13,
    }
}

pub open spec fn no_location() -> (u8, Seq<Junction>) {
    (0u8, Seq::empty())
}

fn get_instr(b: &Vec<u8>, pos: usize, Ghost(x): Ghost<Instruction>) -> (r: Option<(Instruction, usize)>)
    requires
        instr_encodable(x),
    ensures
        holds(b@, pos as int, enc_instr(x)) ==> (r matches Some((y, e))
            && enc_instr(y) == enc_instr(x) && e == pos + enc_instr(x).len()),
        r matches Some((y, e)) ==> instr_encodable(y) && reads(b@, pos as int, e as int, enc_instr(y)),
{
    let ghost ok = holds(b@, pos as int, enc_instr(x));
    let ghost e = enc_instr(x);
    proof {
        lemma_auto_spec_u32_to_from_le_bytes();
        lemma_auto_spec_u64_to_from_le_bytes();
        if ok {
            assert(e[0] == tag_of(x));
            assert(b@.subrange(pos as int, pos + 1) =~= seq![tag_of(x)]) by {
                assert(b@.subrange(pos as int, pos + e.len())[0] == e[0]);
            }
        }
    }
    let (tag, p1) = match get_u8(b, pos, Ghost(tag_of(x))) { Some(v) => v, None => return None };
    if tag <= 2 {
        let ghost ga = match x {
            Instruction::WithdrawAsset(a) => a,
            Instruction::ReserveAssetDeposited(a) => a,
            Instruction::ReceiveTeleportedAsset(a) => a,
            _ => Asset { id: 0, amount: 0 },
        };
        proof { if ok { lemma_holds_split(b@, pos as int, seq![tag], enc_asset(ga)); } }
        let (a, p2) = match get_asset(b, p1, Ghost(ga)) { Some(v) => v, None => return None };
        let y = if tag == 0 {
            Instruction::WithdrawAsset(a)
        } else if tag == 1 {
            Instruction::ReserveAssetDeposited(a)
        } else {
            Instruction::ReceiveTeleportedAsset(a)
        };
        proof {
            lemma_reads_join(b@, pos as int, p1 as int, p2 as int, seq![tag], enc_asset(a));
            assert(enc_instr(y) =~= seq![tag] + enc_asset(a));
        }
        Some((y, p2))
    } else if tag == 3 {
        let ghost (gq, gr) = match x {
            Instruction::QueryResponse { query_id, response } => (query_id, response),
            _ => (0u64, Response::Null),
        };
        proof { if ok { lemma_holds_split3(b@, pos as int, seq![tag], enc_u64(gq), enc_response(gr)); } }
        let (q, p2) = match get_u64(b, p1, Ghost(gq)) { Some(v) => v, None => return None };
        let (resp, p3) = match get_response(b, p2, Ghost(gr)) { Some(v) => v, None => return None };
        proof {
            lemma_reads_join(b@, pos as int, p1 as int, p2 as int, seq![tag], enc_u64(q));
            lemma_reads_join(b@, pos as int, p2 as int, p3 as int, seq![tag] + enc_u64(q), enc_response(resp));
        }
        Some((Instruction::QueryResponse { query_id: q, response: resp }, p3))
    } else if tag == 4 {
        let ghost (ga, gl) = match x {
            Instruction::BuyExecution { fees, weight_limit } => (fees, weight_limit),
            _ => (Asset { id: 0, amount: 0 }, WeightLimit::Unlimited),
        };
        let ghost lt: u8 = match gl { WeightLimit::Unlimited => 0u8, WeightLimit::Limited(_) => 1u8 };
        let ghost gw = match gl { WeightLimit::Limited(w) => w, _ => Weight { ref_time: 0, proof_size: 0 } };
        proof {
            if ok {
                assert(enc_limit(gl) =~= seq![lt] + enc_limit(gl).subrange(1, enc_limit(gl).len() as int));
                assert(seq![tag] + enc_asset(ga) + enc_limit(gl) =~= seq![tag] + enc_asset(ga) + seq![lt] + enc_limit(gl).subrange(1, enc_limit(gl).len() as int));
                lemma_holds_split4(b@, pos as int, seq![tag], enc_asset(ga), seq![lt], enc_limit(gl).subrange(1, enc_limit(gl).len() as int));
                if lt == 1 {
                    assert(enc_limit(gl).subrange(1, enc_limit(gl).len() as int) =~= enc_weight(gw));
                }
            }
        }
        let (fees, p2) = match get_asset(b, p1, Ghost(ga)) { Some(v) => v, None => return None };
        let (lt2, p3) = match get_u8(b, p2, Ghost(lt)) { Some(v) => v, None => return None };
        if lt2 == 0 {
            proof { if ok { assert(enc_limit(gl) =~= seq![0u8]); } }
            proof {
                lemma_reads_join(b@, pos as int, p1 as int, p2 as int, seq![tag], enc_asset(fees));
                lemma_reads_join(b@, pos as int, p2 as int, p3 as int, seq![tag] + enc_asset(fees), seq![lt2]);
                assert(enc_limit(WeightLimit::Unlimited) =~= seq![lt2]);
            }
            Some((Instruction::BuyExecution { fees, weight_limit: WeightLimit::Unlimited }, p3))
        } else if lt2 == 1 {
            let (w, p4) = match get_weight(b, p3, Ghost(gw)) { Some(v) => v, None => return None };
            proof {
                lemma_reads_join(b@, pos as int, p1 as int, p2 as int, seq![tag], enc_asset(fees));
                lemma_reads_join(b@, pos as int, p2 as int, p3 as int, seq![tag] + enc_asset(fees), seq![lt2]);
                lemma_reads_join(b@, pos as int, p3 as int, p4 as int, seq![tag] + enc_asset(fees) + seq![lt2], enc_weight(w));
                assert(seq![tag] + enc_asset(fees) + seq![lt2] + enc_weight(w) =~= seq![tag] + enc_asset(fees) + enc_limit(WeightLimit::Limited(w)));
            }
            Some((Instruction::BuyExecution { fees, weight_limit: WeightLimit::Limited(w) }, p4))
        } else {
            None
        }
    } else if tag == 5 {
        let ghost (ga, gl) = match x {
            Instruction::DepositAsset { asset, beneficiary } => (asset, beneficiary@),
            _ => (Asset { id: 0, amount: 0 }, no_location()),
        };
        proof { if ok { lemma_holds_split3(b@, pos as int, seq![tag], enc_asset(ga), enc_location(gl)); } }
        let (asset, p2) = match get_asset(b, p1, Ghost(ga)) { Some(v) => v, None => return None };
        let (beneficiary, p3) = match get_location(b, p2, Ghost(gl)) { Some(v) => v, None => return None };
        proof {
            lemma_reads_join(b@, pos as int, p1 as int, p2 as int, seq![tag], enc_asset(asset));
            lemma_reads_join(b@, pos as int, p2 as int, p3 as int, seq![tag] + enc_asset(asset), enc_location(beneficiary@));
        }
        Some((Instruction::DepositAsset { asset, beneficiary }, p3))
    } else if tag == 6 {
        let ghost (gk, gw, gc) = match x {
            Instruction::Transact { origin_kind, require_weight_at_most, call } => (origin_kind, require_weight_at_most, call),
            _ => (OriginKind::Native, Weight { ref_time: 0, proof_size: 0 }, Call { weight: Weight { ref_time: 0, proof_size: 0 }, succeeds: false }),
        };
        let ghost kt: u8 = match gk { OriginKind::Native => 0u8, OriginKind::SovereignAccount => 1u8, OriginKind::Superuser => 2u8 };
        let ghost bt: u8 = if gc.succeeds { 1u8 } else { 0u8 };
        proof {
            if ok {
                assert(enc_kind(gk) =~= seq![kt]);
                assert(enc_bool(gc.succeeds) =~= seq![bt]);
                assert(seq![tag] + enc_kind(gk) + enc_weight(gw) + enc_weight(gc.weight) + enc_bool(gc.succeeds)
                    =~= seq![tag] + seq![kt] + enc_weight(gw) + (enc_weight(gc.weight) + seq![bt]));
                lemma_holds_split4(b@, pos as int, seq![tag], seq![kt], enc_weight(gw), enc_weight(gc.weight) + seq![bt]);
                lemma_holds_split(b@, pos + 2 + enc_weight(gw).len(), enc_weight(gc.weight), seq![bt]);
            }
        }
        let (k, p2) = match get_u8(b, p1, Ghost(kt)) { Some(v) => v, None => return None };
        let origin_kind = if k == 0 {
            OriginKind::Native
        } else if k == 1 {
            OriginKind::SovereignAccount
        } else if k == 2 {
            OriginKind::Superuser
        } else {
            return None;
        };
        let (require, p3) = match get_weight(b, p2, Ghost(gw)) { Some(v) => v, None => return None };
        let (cw, p4) = match get_weight(b, p3, Ghost(gc.weight)) { Some(v) => v, None => return None };
        let (s, p5) = match get_u8(b, p4, Ghost(bt)) { Some(v) => v, None => return None };
        if s > 1 {
            return None;
        }
        let call = Call { weight: cw, succeeds: s == 1 };
        proof {
            lemma_reads_join(b@, pos as int, p1 as int, p2 as int, seq![tag], seq![k]);
            lemma_reads_join(b@, pos as int, p2 as int, p3 as int, seq![tag] + seq![k], enc_weight(require));
            lemma_reads_join(b@, pos as int, p3 as int, p4 as int, seq![tag] + seq![k] + enc_weight(require), enc_weight(cw));
            lemma_reads_join(b@, pos as int, p4 as int, p5 as int, seq![tag] + seq![k] + enc_weight(require) + enc_weight(cw), seq![s]);
            assert(enc_kind(origin_kind) =~= seq![k]);
            assert(enc_bool(call.succeeds) =~= seq![s]);
        }
        Some((Instruction::Transact { origin_kind, require_weight_at_most: require, call }, p5))
    } else if tag == 7 {
        let ghost gl = match x {
            Instruction::DescendOrigin(js) => (0u8, js@),
            _ => no_location(),
        };
        proof { if ok { lemma_holds_split(b@, pos as int, seq![tag], enc_location(gl)); } }
        let (l, p2) = match get_location(b, p1, Ghost(gl)) { Some(v) => v, None => return None };
        if l.parents != 0 {
            return None;
        }
        proof {
            lemma_reads_join(b@, pos as int, p1 as int, p2 as int, seq![tag], enc_location(l@));
            assert(l@ == (0u8, l.interior@));
        }
        Some((Instruction::DescendOrigin(l.interior), p2))
    } else if tag == 8 {
        proof { if ok { assert(e =~= seq![8u8]); } }
        proof { assert(enc_instr(Instruction::ClearOrigin) =~= seq![tag]); }
        Some((Instruction::ClearOrigin, p1))
    } else if tag == 9 || tag == 10 {
        let ghost (ga, gd, gb) = match x {
            Instruction::InitiateTeleport { asset, dest, beneficiary } => (asset, dest@, beneficiary@),
            Instruction::InitiateReserveWithdraw { asset, reserve, beneficiary } => (asset, reserve@, beneficiary@),
            _ => (Asset { id: 0, amount: 0 }, no_location(), no_location()),
        };
        proof { if ok { lemma_holds_split4(b@, pos as int, seq![tag], enc_asset(ga), enc_location(gd), enc_location(gb)); } }
        let (asset, p2) = match get_asset(b, p1, Ghost(ga)) { Some(v) => v, None => return None };
        let (dest, p3) = match get_location(b, p2, Ghost(gd)) { Some(v) => v, None => return None };
        let (beneficiary, p4) = match get_location(b, p3, Ghost(gb)) { Some(v) => v, None => return None };
        proof {
            lemma_reads_join(b@, pos as int, p1 as int, p2 as int, seq![tag], enc_asset(asset));
            lemma_reads_join(b@, pos as int, p2 as int, p3 as int, seq![tag] + enc_asset(asset), enc_location(dest@));
            lemma_reads_join(b@, pos as int, p3 as int, p4 as int, seq![tag] + enc_asset(asset) + enc_location(dest@), enc_location(beneficiary@));
        }
        if tag == 9 {
            Some((Instruction::InitiateTeleport { asset, dest, beneficiary }, p4))
        } else {
            Some((Instruction::InitiateReserveWithdraw { asset, reserve: dest, beneficiary }, p4))
        }
    } else if tag == 11 {
        let ghost (gd, gq) = match x {
            Instruction::ReportHolding { dest, query_id } => (dest@, query_id),
            _ => (no_location(), 0u64),
        };
        proof { if ok { lemma_holds_split3(b@, pos as int, seq![tag], enc_location(gd), enc_u64(gq)); } }
        let (dest, p2) = match get_location(b, p1, Ghost(gd)) { Some(v) => v, None => return None };
        let (query_id, p3) = match get_u64(b, p2, Ghost(gq)) { Some(v) => v, None => return None };
        proof {
            lemma_reads_join(b@, pos as int, p1 as int, p2 as int, seq![tag], enc_location(dest@));
            lemma_reads_join(b@, pos as int, p2 as int, p3 as int, seq![tag] + enc_location(dest@), enc_u64(query_id));
        }
        Some((Instruction::ReportHolding { dest, query_id }, p3))
    } else if tag == 12 {
        let ghost (gl, gt) = match x {
            Instruction::ClaimAsset { assets, ticket } => (assets@, ticket.version),
            _ => (Seq::<Asset>::empty(), 0u32),
        };
        proof { if ok { lemma_holds_split3(b@, pos as int, seq![tag], enc_asset_list(gl), enc_u32(gt)); } }
        let (assets, p2) = match get_asset_list(b, p1, Ghost(gl)) { Some(v) => v, None => return None };
        let (version, p3) = match get_u32(b, p2, Ghost(gt)) { Some(v) => v, None => return None };
        proof {
            lemma_reads_join(b@, pos as int, p1 as int, p2 as int, seq![tag], enc_asset_list(assets@));
            lemma_reads_join(b@, pos as int, p2 as int, p3 as int, seq![tag] + enc_asset_list(assets@), enc_u32(version));
        }
        Some((Instruction::ClaimAsset { assets, ticket: Ticket { version } }, p3))
    } else if tag == 13 {
        let ghost gq = match x {
            Instruction::SubscribeVersion { query_id } => query_id,
            _ => 0u64,
        };
        proof { if ok { lemma_holds_split(b@, pos as int, seq![tag], enc_u64(gq)); } }
        let (query_id, p2) = match get_u64(b, p1, Ghost(gq)) { Some(v) => v, None => return None };
        proof { lemma_reads_join(b@, pos as int, p1 as int, p2 as int, seq![tag], enc_u64(query_id)); }
        Some((Instruction::SubscribeVersion { query_id }, p2))
    } else {
        None
    }
}

pub open spec fn enc_instrs(s: Seq<Instruction>) -> Seq<u8>
    decreases s.len(),
{
    if s.len() == 0 { Seq::empty() } else { enc_instrs(s.drop_last()) + enc_instr(s.last()) }
}

/// A program: its version, the number of instructions, then the instructions.
pub open spec fn enc_program(p: &Program) -> Seq<u8> {
    enc_u32(p.version) + enc_u32(p.instructions@.len() as u32) + enc_instrs(p.instructions@)
}

pub open spec fn program_encodable(p: &Program) -> bool {
    &&& p.instructions@.len() <= u32::MAX
    &&& forall|k: int| 0 <= k < p.instructions@.len() ==> instr_encodable(#[trigger] p.instructions@[k])
}

/// What `decode` promises of `bytes`: it gives a program exactly when they are the encoding of
/// one, and then a program with exactly that encoding.
pub open spec fn decode_post(bytes: Seq<u8>, r: Option<Program>) -> bool {
    &&& (exists|p: Program| program_encodable(&p) && #[trigger] enc_program(&p) == bytes)
        ==> (r matches Some(q) && enc_program(&q) == bytes)
    &&& r matches Some(q) ==> program_encodable(&q) && enc_program(&q) == bytes
}

pub proof fn lemma_enc_instrs_prefix(s: Seq<Instruction>, i: int)
    requires
        0 <= i <= s.len(),
    ensures
        enc_instrs(s.subrange(0, i)) == enc_instrs(s).subrange(0, enc_instrs(s.subrange(0, i)).len() as int),
        enc_instrs(s.subrange(0, i)).len() <= enc_instrs(s).len(),
    decreases s.len() - i,
{
    if i == s.len() {
        assert(s.subrange(0, i) =~= s);
        assert(enc_instrs(s).subrange(0, enc_instrs(s).len() as int) =~= enc_instrs(s));
    } else {
        lemma_enc_instrs_prefix(s, i + 1);
        let a = s.subrange(0, i);
        let b = s.subrange(0, i + 1);
        assert(b.drop_last() =~= a);
        let ea = enc_instrs(a);
        let eb = enc_instrs(b);
        assert(eb == ea + enc_instr(s[i]));
        assert(eb.subrange(0, ea.len() as int) =~= ea);
        assert(enc_instrs(s).subrange(0, ea.len() as int) =~= enc_instrs(s).subrange(0, eb.len() as int).subrange(0, ea.len() as int));
    }
}

/// The wire form of `p`.
pub fn encode(p: &Program) -> (r: Vec<u8>)
    requires
        program_encodable(p),
    ensures
        r@ == enc_program(p),
{
    let mut out: Vec<u8> = Vec::new();
    put_u32(&mut out, p.version);
    put_u32(&mut out, p.instructions.len() as u32);
    let ghost start = out@;
    let mut i: usize = 0;
    while i < p.instructions.len()
        invariant
            program_encodable(p),
            i <= p.instructions@.len(),
            out@ == start + enc_instrs(p.instructions@.subrange(0, i as int)),
        decreases p.instructions@.len() - i,
    {
        put_instr(&mut out, &p.instructions[i]);
        proof {
            assert(p.instructions@.subrange(0, i + 1).drop_last() =~= p.instructions@.subrange(0, i as int));
        }
        i = i + 1;
    }
    proof {
        assert(p.instructions@.subrange(0, p.instructions@.len() as int) =~= p.instructions@);
        assert(out@ =~= enc_program(p));
    }
    out
}

fn get_program(b: &Vec<u8>, Ghost(x): Ghost<Program>) -> (r: Option<(Program, usize)>)
    requires
        program_encodable(&x),
    ensures
        holds(b@, 0, enc_program(&x)) ==> (r matches Some((y, e))
            && enc_program(&y) == enc_program(&x) && e == enc_program(&x).len()),
        r matches Some((y, e)) ==> program_encodable(&y) && reads(b@, 0, e as int, enc_program(&y)),
{
    let ghost ok = holds(b@, 0, enc_program(&x));
    let ghost xs = x.instructions@;
    proof {
        lemma_auto_spec_u32_to_from_le_bytes();
        if ok {
            lemma_holds_split3(b@, 0, enc_u32(x.version), enc_u32(xs.len() as u32), enc_instrs(xs));
        }
    }
    let (version, p1) = match get_u32(b, 0, Ghost(x.version)) { Some(v) => v, None => return None };
    let (n, p2) = match get_u32(b, p1, Ghost(xs.len() as u32)) { Some(v) => v, None => return None };
    let mut instructions: Vec<Instruction> = Vec::new();
    proof {
        lemma_reads_join(b@, 0, p1 as int, p2 as int, enc_u32(version), enc_u32(n));
        assert(b@.subrange(p2 as int, p2 as int) =~= Seq::<u8>::empty());
        assert(enc_instrs(instructions@) =~= Seq::<u8>::empty());
    }
    let mut p = p2;
    let mut i: usize = 0;
    while i < n as usize
        invariant
            program_encodable(&x),
            xs == x.instructions@,
            ok == holds(b@, 0, enc_program(&x)),
            ok ==> p2 == 8,
            ok ==> n as nat == xs.len(),
            ok ==> version == x.version,
            ok ==> holds(b@, p2 as int, enc_instrs(xs)),
            i <= n,
            instructions@.len() == i,
            ok ==> enc_instrs(instructions@) == enc_instrs(xs.subrange(0, i as int)),
            ok ==> p == p2 + enc_instrs(xs.subrange(0, i as int)).len(),
            reads(b@, 0, p2 as int, enc_u32(version) + enc_u32(n)),
            reads(b@, p2 as int, p as int, enc_instrs(instructions@)),
            forall|k: int| 0 <= k < instructions@.len() ==> instr_encodable(#[trigger] instructions@[k]),
        decreases n - i,
    {
        let ghost xi = if ok { xs[i as int] } else { Instruction::ClearOrigin };
        proof {
            if ok {
                lemma_enc_instrs_prefix(xs, i as int);
                let pre = xs.subrange(0, i as int);
                let e = enc_instrs(xs);
                let before = enc_instrs(pre);
                let upto = enc_instrs(xs.subrange(0, i + 1));
                assert(xs.subrange(0, i + 1).drop_last() =~= pre);
                assert(upto =~= before + enc_instr(xi));
                lemma_enc_instrs_prefix(xs, i + 1);
                assert(e =~= upto + e.subrange(upto.len() as int, e.len() as int));
                lemma_holds_split(b@, p2 as int, upto, e.subrange(upto.len() as int, e.len() as int));
                lemma_holds_split(b@, p2 as int, before, enc_instr(xi));
            }
        }
        let (y, pn) = match get_instr(b, p, Ghost(xi)) { Some(v) => v, None => return None };
        let ghost prev = instructions@;
        proof { lemma_reads_join(b@, p2 as int, p as int, pn as int, enc_instrs(prev), enc_instr(y)); }
        instructions.push(y);
        proof {
            assert(instructions@.drop_last() =~= prev);
            assert forall|k: int| 0 <= k < instructions@.len() implies instr_encodable(#[trigger] instructions@[k]) by {
                if k < prev.len() { assert(instructions@[k] == prev[k]); }
            }
        }
        p = pn;
        i = i + 1;
        proof {
            if ok {
                assert(instructions@.drop_last() =~= prev);
                assert(xs.subrange(0, i as int).drop_last() =~= xs.subrange(0, i - 1));
            }
        }
    }
    proof {
        if ok {
            assert(xs.subrange(0, n as int) =~= xs);
        }
    }
    proof {
        lemma_reads_join(b@, 0, p2 as int, p as int, enc_u32(version) + enc_u32(n), enc_instrs(instructions@));
        assert(instructions@.len() as u32 == n);
    }
    Some((Program { version, instructions }, p))
}

/// Reads a program from its wire form; the whole input must be used.
pub fn decode(bytes: &Vec<u8>) -> (r: Option<Program>)
    ensures
        decode_post(bytes@, r),
{
    let empty = Program { version: 0, instructions: Vec::new() };
    let ghost found = exists|p: Program| program_encodable(&p) && #[trigger] enc_program(&p) == bytes@;
    let ghost x = if found {
        choose|p: Program| program_encodable(&p) && #[trigger] enc_program(&p) == bytes@
    } else {
        empty
    };
    proof {
        if !found {
            assert(x.instructions@.len() == 0);
            assert(program_encodable(&x));
        } else {
            assert(bytes@.subrange(0, bytes@.len() as int) =~= bytes@);
        }
    }
    match get_program(bytes, Ghost(x)) {
        Some((p, end)) => {
            if end == bytes.len() {
                proof { assert(bytes@.subrange(0, bytes@.len() as int) =~= bytes@); }
                Some(p)
            } else {
                None
            }
        },
        None => None,
    }
}

/// Round trip: decoding the encoding of a program succeeds and gives a program with exactly the
/// same encoding.
pub proof fn lemma_round_trip(p: Program, r: Option<Program>)
    requires
        program_encodable(&p),
        decode_post(enc_program(&p), r),
    ensures
        r matches Some(q) && enc_program(&q) == enc_program(&p),
{
    assert(program_encodable(&p) && enc_program(&p) == enc_program(&p));
}

} // verus!
