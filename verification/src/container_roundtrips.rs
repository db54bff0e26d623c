//! Decoding what the container encoders write gives the containers back:
//! the payload of an encoded container splits into the boxes its children
//! were encoded to, each interpreted child decodes to the field it came
//! from, and the unknown children come back as they were.
use vstd::prelude::*;

use crate::boxes::{BoxSize, BoxType, SampleEntry, UnknownBox};
use crate::boxes_moov_tree::{
    box_payload_of, full_box_header, full_box_v0, raw_entry_matches, stsd_code, stsd_decode_spec,
    stsd_matches, unknown_list_matches, DinfBox, DrefBox, EdtsBox, ElstBox, MediaHeader, MehdBox, MvexBox,
    StsdBox, TrexBox, UrlBox,
};
use crate::codec::{
    box_bytes, box_header_spec, box_type_bytes, concat_records, lemma_be_roundtrip, lemma_be_value_prefix,
    lemma_be_value_suffix, lemma_box_bytes_header, lemma_pow256_values, split_boxes, take_boxes,
    unknown_box_bytes, unknown_boxes_bytes, unknown_matches, uuid_code, width_sum,
};
use crate::containers::{
    children_matching, container_children, dinf_box_bytes, dinf_code, dinf_decodable, dinf_decoded,
    dinf_interp, dref_box_bytes, dref_children, dref_code, dref_decodable, dref_decoded, dref_interp,
    edts_box_bytes, edts_code, edts_decodable, edts_decoded, edts_interp, first_matching, is_dref, is_elst,
    is_mehd, is_trex, is_url, lemma_box_bytes_len, lemma_first_matching_extend, lemma_first_matching_push,
    media_header_bytes, media_header_decodable, media_header_decoded, mvex_box_bytes, mvex_code,
    mvex_decodable, mvex_decoded, mvex_interp, opt_bytes, raw_children, trex_boxes_bytes, trex_decodable,
    trex_decoded,
};
use crate::header_boxes::{
    elst_box_bytes, elst_code, fixed_decode_spec, lemma_elst_codec_roundtrip, lemma_mehd_codec_roundtrip,
    lemma_smhd_codec_roundtrip, lemma_trex_codec_roundtrip, lemma_url_codec_roundtrip,
    lemma_vmhd_codec_roundtrip, mehd_box_bytes, mehd_code, nmhd_code, sthd_code, trex_box_bytes, trex_code,
    url_box_bytes, url_code,
};
use crate::moov_encoders::stsd_box_bytes;
use crate::nal::{be_bytes, be_value};
use crate::sample_entries::sample_entry_bytes;

verus! {

/// `c` is one whole box of type `code` whose size field states its length
/// (not the "to the end" size 0).
#[verifier::opaque]
pub open spec fn closed_box(c: Seq<u8>, code: Seq<u8>) -> bool {
    &&& box_header_spec(c) matches Some((t, _, size)) && t == code && size == c.len()
    &&& be_value(c, 0, 4) != 0
}

/// The header of a whole box reads the same with bytes after it.
pub proof fn lemma_closed_box_extend(c: Seq<u8>, code: Seq<u8>, rest: Seq<u8>)
    requires
        closed_box(c, code),
    ensures
        box_header_spec(c + rest) == box_header_spec(c),
{
    reveal(closed_box);
    let s = c + rest;
    lemma_be_value_prefix(c, rest, 0, 4);
    assert(s.subrange(4, 8) =~= c.subrange(4, 8));
    if be_value(c, 0, 4) == 1 {
        lemma_be_value_prefix(c, rest, 8, 8);
        if c.subrange(4, 8) == uuid_code() {
            assert(s.subrange(16, 32) =~= c.subrange(16, 32));
        }
    } else {
        if c.subrange(4, 8) == uuid_code() {
            assert(s.subrange(8, 24) =~= c.subrange(8, 24));
        }
    }
}

/// A whole box in front of more bytes splits off first.
pub proof fn lemma_split_cons(c: Seq<u8>, code: Seq<u8>, rest: Seq<u8>)
    requires
        closed_box(c, code),
    ensures
        split_boxes(c + rest) == match split_boxes(rest) {
            None => None,
            Some(r) => Some(seq![(code, c)] + r),
        },
{
    reveal(closed_box);
    lemma_closed_box_extend(c, code, rest);
    let s = c + rest;
    assert(s.subrange(c.len() as int, s.len() as int) =~= rest);
    assert(s.subrange(0, c.len() as int) =~= c);
}

/// Children as (type code, box bytes), written one after another.
pub open spec fn kids_bytes(kids: Seq<(Seq<u8>, Seq<u8>)>) -> Seq<u8> {
    concat_records(kids.map_values(|k: (Seq<u8>, Seq<u8>)| k.1))
}

/// Every child is a whole box of its type.
pub open spec fn all_closed(kids: Seq<(Seq<u8>, Seq<u8>)>) -> bool {
    forall|i: int| 0 <= i < kids.len() ==> closed_box((#[trigger] kids[i]).1, kids[i].0)
}

/// `concat_records` peels from the front too.
pub proof fn lemma_concat_records_front(recs: Seq<Seq<u8>>)
    requires
        recs.len() > 0,
    ensures
        concat_records(recs) == recs[0] + concat_records(recs.drop_first()),
    decreases recs.len(),
{
    if recs.len() == 1 {
        assert(recs.drop_first() =~= Seq::<Seq<u8>>::empty());
        assert(recs.drop_last() =~= Seq::<Seq<u8>>::empty());
        assert(concat_records(recs.drop_last()) == Seq::<u8>::empty());
        assert(concat_records(recs.drop_first()) == Seq::<u8>::empty());
        assert(concat_records(recs) =~= recs[0] + Seq::<u8>::empty());
    } else {
        lemma_concat_records_front(recs.drop_last());
        assert(recs.drop_last().drop_first() =~= recs.drop_first().drop_last());
        assert(recs.drop_first().last() == recs.last());
        assert(concat_records(recs) =~= recs[0] + concat_records(recs.drop_first()));
    }
}

/// `concat_records` of two lists one after the other.
pub proof fn lemma_concat_records_append(a: Seq<Seq<u8>>, b: Seq<Seq<u8>>)
    ensures
        concat_records(a + b) == concat_records(a) + concat_records(b),
    decreases b.len(),
{
    if b.len() == 0 {
        assert(a + b =~= a);
        assert(concat_records(a) + Seq::<u8>::empty() =~= concat_records(a));
    } else {
        lemma_concat_records_append(a, b.drop_last());
        assert((a + b).drop_last() =~= a + b.drop_last());
        assert((a + b).last() == b.last());
        assert(concat_records(a + b) =~= concat_records(a) + concat_records(b));
    }
}

/// The bytes of two child lists one after the other.
pub proof fn lemma_kids_bytes_append(a: Seq<(Seq<u8>, Seq<u8>)>, b: Seq<(Seq<u8>, Seq<u8>)>)
    ensures
        kids_bytes(a + b) == kids_bytes(a) + kids_bytes(b),
{
    let f = |k: (Seq<u8>, Seq<u8>)| k.1;
    assert((a + b).map_values(f) =~= a.map_values(f) + b.map_values(f));
    lemma_concat_records_append(a.map_values(f), b.map_values(f));
}

/// Whole boxes written one after another split back into themselves.
pub proof fn lemma_split_kids(kids: Seq<(Seq<u8>, Seq<u8>)>)
    requires
        all_closed(kids),
    ensures
        split_boxes(kids_bytes(kids)) == Some(kids),
    decreases kids.len(),
{
    if kids.len() == 0 {
        assert(kids_bytes(kids) =~= Seq::<u8>::empty());
        assert(kids =~= Seq::<(Seq<u8>, Seq<u8>)>::empty());
    } else {
        let f = |k: (Seq<u8>, Seq<u8>)| k.1;
        let rest = kids.drop_first();
        assert forall|i: int| 0 <= i < rest.len() implies closed_box((#[trigger] rest[i]).1, rest[i].0) by {
            assert(rest[i] == kids[i + 1]);
        }
        lemma_split_kids(rest);
        lemma_concat_records_front(kids.map_values(f));
        assert(kids.map_values(f).drop_first() =~= rest.map_values(f));
        assert(closed_box(kids[0].1, kids[0].0));
        lemma_split_cons(kids[0].1, kids[0].0, kids_bytes(rest));
        assert(seq![(kids[0].0, kids[0].1)] + rest =~= kids);
    }
}

/// A box written by [`box_bytes`] with a four character code other than
/// `uuid` is whole, and its payload follows its header.
pub proof fn lemma_box_bytes_closed(code: [u8; 4], payload: Seq<u8>)
    requires
        code@ != uuid_code(),
        payload.len() + 32 <= u64::MAX,
    ensures
        closed_box(box_bytes(BoxType::Normal(code), payload), code@),
        box_header_spec(box_bytes(BoxType::Normal(code), payload)) matches Some((t, hl, size)) && t == code@
            && size == box_bytes(BoxType::Normal(code), payload).len()
            && box_bytes(BoxType::Normal(code), payload).subrange(hl as int, box_bytes(
            BoxType::Normal(code),
            payload,
        ).len() as int) == payload,
{
    reveal(closed_box);
    lemma_box_bytes_header(code, payload);
    let s = box_bytes(BoxType::Normal(code), payload);
    let small = 8 + payload.len();
    lemma_pow256_values();
    if small <= u32::MAX {
        lemma_be_roundtrip(small, 4);
        lemma_be_value_prefix(be_bytes(small, 4), code@ + payload, 0, 4);
        assert(s =~= be_bytes(small, 4) + (code@ + payload));
    } else {
        lemma_be_roundtrip(1, 4);
        lemma_be_value_prefix(be_bytes(1, 4), code@ + be_bytes((small + 8) as nat, 8) + payload, 0, 4);
        assert(s =~= be_bytes(1, 4) + (code@ + be_bytes((small + 8) as nat, 8) + payload));
    }
}

/// An unknown box whose size field states its length, with a `uuid` type
/// only as [`BoxType::Uuid`].
pub open spec fn unknown_wf(u: UnknownBox) -> bool {
    let ext: nat = match u.box_type {
        BoxType::Normal(_) => 0,
        BoxType::Uuid(_) => 16,
    };
    &&& (u.box_type matches BoxType::Normal(b) ==> b@ != uuid_code())
    &&& match u.box_size {
        BoxSize::U32(n) => n == 8 + ext + u.payload@.len(),
        BoxSize::U64(n) => n == 16 + ext + u.payload@.len(),
    }
}

/// The header of a box: its size fields, code and user type, then its payload.
proof fn lemma_header_fields(c: Seq<u8>, size: Seq<u8>, code: Seq<u8>, large: Seq<u8>, user: Seq<u8>, payload: Seq<u8>)
    requires
        c == size + code + large + user + payload,
        size.len() == 4,
        code.len() == 4,
    ensures
        be_value(c, 0, 4) == be_value(size, 0, 4),
        c.subrange(4, 8) == code,
        large.len() == 8 ==> be_value(c, 8, 8) == be_value(large, 0, 8),
        c.subrange(8 + large.len() as int, 8 + large.len() + user.len() as int) == user,
        c.subrange(8 + large.len() + user.len() as int, c.len() as int) == payload,
{
    assert(c =~= size + (code + large + user + payload));
    lemma_be_value_prefix(size, code + large + user + payload, 0, 4);
    assert(c.subrange(4, 8) =~= code);
    if large.len() == 8 {
        assert(c =~= (size + code) + (large + (user + payload)));
        lemma_be_value_suffix(size + code, large + (user + payload), 0, 8);
        lemma_be_value_prefix(large, user + payload, 0, 8);
    }
    assert(c.subrange(8 + large.len() as int, 8 + large.len() + user.len() as int) =~= user);
    assert(c.subrange(8 + large.len() + user.len() as int, c.len() as int) =~= payload);
}

/// A well-formed unknown box is written as a whole box that reads back as it.
pub proof fn lemma_unknown_closed(u: UnknownBox)
    requires
        unknown_wf(u),
    ensures
        closed_box(unknown_box_bytes(u), box_type_bytes(u.box_type)),
        unknown_matches(u, unknown_box_bytes(u)),
{
    reveal(closed_box);
    lemma_pow256_values();
    let code = match u.box_type {
        BoxType::Normal(b) => b@,
        BoxType::Uuid(_) => uuid_code(),
    };
    let user = match u.box_type {
        BoxType::Normal(_) => Seq::<u8>::empty(),
        BoxType::Uuid(b) => b@,
    };
    let c = unknown_box_bytes(u);
    match u.box_size {
        BoxSize::U32(n) => {
            lemma_be_roundtrip(n as nat, 4);
            lemma_header_fields(c, be_bytes(n as nat, 4), code, Seq::empty(), user, u.payload@);
        },
        BoxSize::U64(n) => {
            lemma_be_roundtrip(1, 4);
            lemma_be_roundtrip(n as nat, 8);
            lemma_header_fields(c, be_bytes(1, 4), code, be_bytes(n as nat, 8), user, u.payload@);
        },
    }
}

/// Unknown boxes as children.
pub open spec fn unknown_kids(us: Seq<UnknownBox>) -> Seq<(Seq<u8>, Seq<u8>)> {
    us.map_values(|u: UnknownBox| (box_type_bytes(u.box_type), unknown_box_bytes(u)))
}

/// The bytes of unknown boxes are those of their children.
pub proof fn lemma_unknown_kids(us: Seq<UnknownBox>)
    ensures
        kids_bytes(unknown_kids(us)) == unknown_boxes_bytes(us),
        unknown_kids(us).len() == us.len(),
        (forall|i: int| 0 <= i < us.len() ==> unknown_wf(#[trigger] us[i])) ==> all_closed(unknown_kids(us)),
{
    let f = |k: (Seq<u8>, Seq<u8>)| k.1;
    assert(unknown_kids(us).map_values(f) =~= us.map_values(|u: UnknownBox| unknown_box_bytes(u)));
    if forall|i: int| 0 <= i < us.len() ==> unknown_wf(#[trigger] us[i]) {
        assert forall|i: int| 0 <= i < unknown_kids(us).len() implies closed_box(
            (#[trigger] unknown_kids(us)[i]).1,
            unknown_kids(us)[i].0,
        ) by {
            lemma_unknown_closed(us[i]);
        }
    }
}

/// The first child whose type satisfies `pred` is the `k`-th when the
/// `k`-th does and none before it.
pub proof fn lemma_first_matching_at(cs: Seq<(Seq<u8>, Seq<u8>)>, k: int, pred: spec_fn(Seq<u8>) -> bool)
    requires
        0 <= k < cs.len(),
        pred(cs[k].0),
        forall|i: int| 0 <= i < k ==> !pred(#[trigger] cs[i].0),
    ensures
        first_matching(cs, pred) == Some(k),
{
    lemma_first_matching_none(cs.take(k), pred);
    lemma_first_matching_push(cs, k, pred);
    lemma_first_matching_extend(cs, k + 1, pred);
}

/// No child found when none satisfies `pred`.
pub proof fn lemma_first_matching_none(cs: Seq<(Seq<u8>, Seq<u8>)>, pred: spec_fn(Seq<u8>) -> bool)
    requires
        forall|i: int| 0 <= i < cs.len() ==> !pred(#[trigger] cs[i].0),
    ensures
        first_matching(cs, pred) is None,
    decreases cs.len(),
{
    if cs.len() > 0 {
        let pre = cs.drop_last();
        assert forall|i: int| 0 <= i < pre.len() implies !pred(#[trigger] pre[i].0) by {
            assert(pre[i] == cs[i]);
        }
        lemma_first_matching_none(pre, pred);
        assert(!pred(cs[cs.len() - 1].0));
    }
}

/// The raw children are those from `m` on when `interp` takes exactly
/// the children before `m`.
pub proof fn lemma_raw_children_from(cs: Seq<(Seq<u8>, Seq<u8>)>, interp: spec_fn(int) -> bool, m: int, k: int)
    requires
        0 <= m <= k <= cs.len(),
        forall|i: int| 0 <= i < m ==> #[trigger] interp(i),
        forall|i: int| m <= i < cs.len() ==> !#[trigger] interp(i),
    ensures
        raw_children(cs, k, interp) == cs.subrange(m, k).map_values(|c: (Seq<u8>, Seq<u8>)| c.1),
    decreases k,
{
    if k == m {
        lemma_raw_children_interpreted(cs, interp, m);
        assert(cs.subrange(m, k).map_values(|c: (Seq<u8>, Seq<u8>)| c.1) =~= Seq::<Seq<u8>>::empty());
    } else {
        lemma_raw_children_from(cs, interp, m, k - 1);
        assert(!interp(k - 1));
        assert(cs.subrange(m, k).map_values(|c: (Seq<u8>, Seq<u8>)| c.1) =~= cs.subrange(m, k - 1).map_values(
            |c: (Seq<u8>, Seq<u8>)| c.1,
        ).push(cs[k - 1].1));
    }
}

/// No raw children among the first `m` when `interp` takes them all.
pub proof fn lemma_raw_children_interpreted(cs: Seq<(Seq<u8>, Seq<u8>)>, interp: spec_fn(int) -> bool, m: int)
    requires
        0 <= m,
        forall|i: int| 0 <= i < m ==> #[trigger] interp(i),
    ensures
        raw_children(cs, m, interp) == Seq::<Seq<u8>>::empty(),
    decreases m,
{
    if m > 0 {
        lemma_raw_children_interpreted(cs, interp, m - 1);
        assert(interp(m - 1));
    }
}

/// Unknown boxes come back from their bytes.
pub proof fn lemma_unknowns_match(us: Seq<UnknownBox>, cs: Seq<(Seq<u8>, Seq<u8>)>)
    requires
        forall|i: int| 0 <= i < us.len() ==> unknown_wf(#[trigger] us[i]),
        cs == unknown_kids(us),
    ensures
        unknown_list_matches(us, cs.map_values(|c: (Seq<u8>, Seq<u8>)| c.1)),
{
    assert forall|i: int| 0 <= i < us.len() implies unknown_matches(
        #[trigger] us[i],
        cs.map_values(|c: (Seq<u8>, Seq<u8>)| c.1)[i],
    ) by {
        lemma_unknown_closed(us[i]);
    }
}

/// A container of type `code` whose payload is its children written one
/// after another splits back into them.
pub proof fn lemma_container_kids(code: [u8; 4], kids: Seq<(Seq<u8>, Seq<u8>)>)
    requires
        code@ != uuid_code(),
        all_closed(kids),
        kids_bytes(kids).len() + 32 <= u64::MAX,
    ensures
        container_children(box_bytes(BoxType::Normal(code), kids_bytes(kids)), code@) == Some(
            (kids, box_bytes(BoxType::Normal(code), kids_bytes(kids)).len()),
        ),
        closed_box(box_bytes(BoxType::Normal(code), kids_bytes(kids)), code@),
{
    lemma_box_bytes_closed(code, kids_bytes(kids));
    lemma_split_kids(kids);
}

/// One child as a list.
pub open spec fn one_kid(code: Seq<u8>, c: Seq<u8>) -> Seq<(Seq<u8>, Seq<u8>)> {
    seq![(code, c)]
}

/// An optional child as a list.
pub open spec fn opt_kid<T>(o: Option<T>, code: Seq<u8>, f: spec_fn(T) -> Seq<u8>) -> Seq<(Seq<u8>, Seq<u8>)> {
    match o {
        None => Seq::empty(),
        Some(x) => one_kid(code, f(x)),
    }
}

/// The bytes of one child.
pub proof fn lemma_one_kid(code: Seq<u8>, c: Seq<u8>)
    ensures
        kids_bytes(one_kid(code, c)) == c,
{
    let k = one_kid(code, c);
    let f = |k: (Seq<u8>, Seq<u8>)| k.1;
    assert(k.map_values(f) =~= seq![c]);
    assert(seq![c].drop_last() =~= Seq::<Seq<u8>>::empty());
    assert(concat_records(seq![c].drop_last()) == Seq::<u8>::empty());
    assert(concat_records(seq![c]) =~= c);
}

/// The bytes of an optional child.
pub proof fn lemma_opt_kid<T>(o: Option<T>, code: Seq<u8>, f: spec_fn(T) -> Seq<u8>)
    ensures
        kids_bytes(opt_kid(o, code, f)) == opt_bytes(o, f),
{
    match o {
        None => {
            assert(kids_bytes(opt_kid(o, code, f)) =~= Seq::<u8>::empty());
        },
        Some(x) => {
            lemma_one_kid(code, f(x));
        },
    }
}

/// Every box of type `code` written by [`box_bytes`] that fits 64 bit
/// sizes is whole.
pub proof fn lemma_box_bytes_closed_all(code: [u8; 4])
    requires
        code@ != uuid_code(),
    ensures
        forall|p: Seq<u8>|
            (#[trigger] box_bytes(BoxType::Normal(code), p)).len() + 32 <= u64::MAX ==> closed_box(
                box_bytes(BoxType::Normal(code), p),
                code@,
            ),
{
    assert forall|p: Seq<u8>| (#[trigger] box_bytes(BoxType::Normal(code), p)).len() + 32 <= u64::MAX implies closed_box(
        box_bytes(BoxType::Normal(code), p),
        code@,
    ) by {
        lemma_box_bytes_len(BoxType::Normal(code), p);
        lemma_box_bytes_closed(code, p);
    }
}

/// A record is no longer than the records written one after another.
pub proof fn lemma_concat_records_elem_len(recs: Seq<Seq<u8>>, i: int)
    requires
        0 <= i < recs.len(),
    ensures
        recs[i].len() <= concat_records(recs).len(),
    decreases recs.len(),
{
    if i < recs.len() - 1 {
        lemma_concat_records_elem_len(recs.drop_last(), i);
        assert(recs.drop_last()[i] == recs[i]);
    }
}

/// A child is no longer than the children written one after another.
pub proof fn lemma_kid_len(kids: Seq<(Seq<u8>, Seq<u8>)>, i: int)
    requires
        0 <= i < kids.len(),
    ensures
        kids[i].1.len() <= kids_bytes(kids).len(),
{
    let f = |k: (Seq<u8>, Seq<u8>)| k.1;
    lemma_concat_records_elem_len(kids.map_values(f), i);
}

/// Unknown boxes that can be written back and read again, none of a type
/// in `codes`.
pub open spec fn unknowns_keep(us: Seq<UnknownBox>, codes: Seq<Seq<u8>>) -> bool {
    forall|i: int|
        0 <= i < us.len() ==> unknown_wf(#[trigger] us[i]) && !codes.contains(box_type_bytes(us[i].box_type))
}

/// The `edts` boxes whose encoding decodes back: the edit list's entry
/// count fits 32 bits, the unknown children are well formed and none is
/// an `elst`, and the box fits 64 bit sizes.
pub open spec fn edts_roundtrips(b: EdtsBox) -> bool {
    &&& (b.elst_box matches Some(e) ==> e.entries@.len() <= u32::MAX)
    &&& unknowns_keep(b.unknown_boxes@, seq![elst_code()])
    &&& edts_box_bytes(b).len() + 32 <= u64::MAX
}

/// The children of an `edts` box: its `elst`, then its unknown children.
pub open spec fn edts_kids(b: EdtsBox) -> Seq<(Seq<u8>, Seq<u8>)> {
    opt_kid(b.elst_box, elst_code(), |e: ElstBox| elst_box_bytes(e.entries@)) + unknown_kids(b.unknown_boxes@)
}

/// The children of an encoded `edts` box read back as they were written.
#[verifier::spinoff_prover]
#[verifier::rlimit(50)]
proof fn lemma_edts_children(b: EdtsBox)
    requires
        edts_roundtrips(b),
    ensures
        container_children(edts_box_bytes(b), edts_code()) == Some((edts_kids(b), edts_box_bytes(b).len())),
        closed_box(edts_box_bytes(b), edts_code()),
{
    let fe = |e: ElstBox| elst_box_bytes(e.entries@);
    let head = opt_kid(b.elst_box, elst_code(), fe);
    let tail = unknown_kids(b.unknown_boxes@);
    let kids = edts_kids(b);
    lemma_opt_kid(b.elst_box, elst_code(), fe);
    lemma_unknown_kids(b.unknown_boxes@);
    lemma_kids_bytes_append(head, tail);
    assert(kids_bytes(kids) == opt_bytes(b.elst_box, fe) + unknown_boxes_bytes(b.unknown_boxes@));
    assert([0x65u8, 0x64, 0x74, 0x73]@ =~= edts_code());
    lemma_box_bytes_len(BoxType::Normal([0x65u8, 0x64, 0x74, 0x73]), kids_bytes(kids));
    assert([0x65u8, 0x6c, 0x73, 0x74]@ =~= elst_code());
    lemma_box_bytes_closed_all([0x65u8, 0x6c, 0x73, 0x74]);
    assert forall|i: int| 0 <= i < kids.len() implies closed_box((#[trigger] kids[i]).1, kids[i].0) by {
        lemma_kid_len(kids, i);
        if i < head.len() {
            assert(kids[i] == head[i]);
        } else {
            assert(kids[i] == tail[i - head.len()]);
        }
    }
    lemma_container_kids([0x65u8, 0x64, 0x74, 0x73], kids);
}

/// Decoding an encoded `edts` box gives the box back, at its full size.
#[verifier::spinoff_prover]
pub proof fn lemma_edts_codec_roundtrip(b: EdtsBox)
    requires
        edts_roundtrips(b),
    ensures
        edts_decodable(edts_box_bytes(b)),
        edts_decoded(edts_box_bytes(b), b, edts_box_bytes(b).len()),
        closed_box(edts_box_bytes(b), edts_code()),
{
    reveal(edts_decodable);
    reveal(edts_decoded);
    lemma_edts_children(b);
    let head = opt_kid(b.elst_box, elst_code(), |e: ElstBox| elst_box_bytes(e.entries@));
    let tail = unknown_kids(b.unknown_boxes@);
    let cs = edts_kids(b);
    lemma_unknown_kids(b.unknown_boxes@);
    let pred = is_elst();
    assert forall|i: int| head.len() <= i < cs.len() implies !pred(#[trigger] cs[i].0) by {
        assert(cs[i] == tail[i - head.len()]);
        lemma_not_listed(box_type_bytes(b.unknown_boxes@[i - head.len()].box_type), seq![elst_code()], 0);
    }
    match b.elst_box {
        None => {
            lemma_first_matching_none(cs, pred);
        },
        Some(e) => {
            lemma_listed(elst_code());
            lemma_first_matching_at(cs, 0, pred);
            lemma_elst_codec_roundtrip(e.entries@);
        },
    }
    let interp = edts_interp(cs);
    lemma_raw_children_from(cs, interp, head.len() as int, cs.len() as int);
    assert(cs.subrange(head.len() as int, cs.len() as int) =~= tail);
    lemma_unknowns_match(b.unknown_boxes@, tail);
}

/// Whole boxes written one after another are read back by counting them.
pub proof fn lemma_take_kids(kids: Seq<(Seq<u8>, Seq<u8>)>)
    requires
        all_closed(kids),
    ensures
        take_boxes(kids_bytes(kids), kids.len()) == Some(kids),
    decreases kids.len(),
{
    reveal(closed_box);
    if kids.len() == 0 {
        assert(kids =~= Seq::<(Seq<u8>, Seq<u8>)>::empty());
    } else {
        let f = |k: (Seq<u8>, Seq<u8>)| k.1;
        let rest = kids.drop_first();
        assert forall|i: int| 0 <= i < rest.len() implies closed_box((#[trigger] rest[i]).1, rest[i].0) by {
            assert(rest[i] == kids[i + 1]);
        }
        lemma_take_kids(rest);
        lemma_concat_records_front(kids.map_values(f));
        assert(kids.map_values(f).drop_first() =~= rest.map_values(f));
        assert(closed_box(kids[0].1, kids[0].0));
        let c = kids[0].1;
        let q = c + kids_bytes(rest);
        lemma_closed_box_extend(c, kids[0].0, kids_bytes(rest));
        assert(q.subrange(c.len() as int, q.len() as int) =~= kids_bytes(rest));
        assert(q.subrange(0, c.len() as int) =~= c);
        assert(seq![(kids[0].0, kids[0].1)] + rest =~= kids);
    }
}

/// `!codes.contains(c)` rules out every code listed in `codes`.
pub proof fn lemma_not_listed(c: Seq<u8>, codes: Seq<Seq<u8>>, j: int)
    requires
        !codes.contains(c),
        0 <= j < codes.len(),
    ensures
        !seq![codes[j]].contains(c),
{
    if seq![codes[j]].contains(c) {
        assert(seq![codes[j]][0] == codes[j]);
        assert(codes[j] == c);
    }
}

/// A code is listed in a list holding only it.
pub proof fn lemma_listed(c: Seq<u8>)
    ensures
        seq![c].contains(c),
{
    assert(seq![c][0] == c);
}

/// The `dref` boxes whose encoding decodes back: a `url ` location holds no
/// 0 byte and fits 32 bit sizes, the unknown entries are well formed and
/// none is a `url `, the entry count fits 32 bits, and the box fits 64 bit
/// sizes.
pub open spec fn dref_roundtrips(b: DrefBox) -> bool {
    &&& (b.url_box matches Some(u) ==> (u.location matches Some(l) ==> l@.len() <= u32::MAX && forall|i: int|
        0 <= i < l@.len() ==> #[trigger] l@[i] != 0))
    &&& unknowns_keep(b.unknown_boxes@, seq![url_code()])
    &&& b.unknown_boxes@.len() < u32::MAX
    &&& dref_box_bytes(b).len() + 32 <= u64::MAX
}

/// The entries of a `dref` box as children: its `url `, then its unknown entries.
pub open spec fn dref_kids(b: DrefBox) -> Seq<(Seq<u8>, Seq<u8>)> {
    opt_kid(b.url_box, url_code(), |u: UrlBox| url_box_bytes(u)) + unknown_kids(b.unknown_boxes@)
}

/// A counted payload: 4 bytes, a 32 bit count, then the body.
proof fn lemma_counted_payload(head: Seq<u8>, count: nat, body: Seq<u8>)
    requires
        head.len() == 4,
        count < 0x1_0000_0000,
    ensures
        ({
            let p = head + be_bytes(count, 4) + body;
            &&& p.len() == 8 + body.len()
            &&& be_value(p, 4, 4) == count
            &&& p.subrange(8, p.len() as int) == body
        }),
{
    lemma_pow256_values();
    let p = head + be_bytes(count, 4) + body;
    lemma_be_roundtrip(count, 4);
    assert(p =~= (head + be_bytes(count, 4)) + body);
    lemma_be_value_prefix(head + be_bytes(count, 4), body, 4, 4);
    lemma_be_value_suffix(head, be_bytes(count, 4), 0, 4);
    assert(p.subrange(8, p.len() as int) =~= body);
}

/// The payload of an encoded `dref` box: version and flags 0, the entry
/// count, then its entries.
pub open spec fn dref_payload(b: DrefBox) -> Seq<u8> {
    Seq::new(4, |i: int| 0u8) + be_bytes(
        (if b.url_box is Some { 1nat } else { 0nat }) + b.unknown_boxes@.len(),
        4,
    ) + kids_bytes(dref_kids(b))
}

/// The entries of a `dref` box written one after another.
#[verifier::spinoff_prover]
proof fn lemma_dref_kids_bytes(b: DrefBox)
    ensures
        dref_box_bytes(b) == box_bytes(BoxType::Normal([0x64u8, 0x72, 0x65, 0x66]), dref_payload(b)),
{
    let fu = |u: UrlBox| url_box_bytes(u);
    let head = opt_kid(b.url_box, url_code(), fu);
    let tail = unknown_kids(b.unknown_boxes@);
    lemma_opt_kid(b.url_box, url_code(), fu);
    lemma_unknown_kids(b.unknown_boxes@);
    lemma_kids_bytes_append(head, tail);
    let count: nat = (if b.url_box is Some { 1nat } else { 0nat }) + b.unknown_boxes@.len();
    assert(dref_payload(b) =~= Seq::new(4, |i: int| 0u8) + be_bytes(count, 4) + opt_bytes(b.url_box, fu)
        + unknown_boxes_bytes(b.unknown_boxes@));
}

/// The entries of a `dref` box are whole boxes.
#[verifier::spinoff_prover]
proof fn lemma_dref_kids(b: DrefBox)
    requires
        dref_roundtrips(b),
    ensures
        all_closed(dref_kids(b)),
{
    lemma_dref_kids_bytes(b);
    lemma_box_bytes_len(BoxType::Normal([0x64u8, 0x72, 0x65, 0x66]), dref_payload(b));
    let head = opt_kid(b.url_box, url_code(), |u: UrlBox| url_box_bytes(u));
    let tail = unknown_kids(b.unknown_boxes@);
    let kids = dref_kids(b);
    lemma_unknown_kids(b.unknown_boxes@);
    assert(kids_bytes(kids).len() + 40 <= u64::MAX);
    assert([0x75u8, 0x72, 0x6c, 0x20]@ =~= url_code());
    lemma_box_bytes_closed_all([0x75u8, 0x72, 0x6c, 0x20]);
    assert forall|i: int| 0 <= i < kids.len() implies closed_box((#[trigger] kids[i]).1, kids[i].0) by {
        lemma_kid_len(kids, i);
        if i < head.len() {
            assert(kids[i] == head[i]);
        } else {
            assert(kids[i] == tail[i - head.len()]);
        }
    }
}

/// The entries of an encoded `dref` box read back as its children.
#[verifier::spinoff_prover]
#[verifier::rlimit(50)]
proof fn lemma_dref_children(b: DrefBox)
    requires
        dref_roundtrips(b),
    ensures
        dref_children(dref_box_bytes(b)) == Some((dref_kids(b), dref_box_bytes(b).len())),
        all_closed(dref_kids(b)),
{
    lemma_dref_kids(b);
    lemma_dref_kids_bytes(b);
    let kids = dref_kids(b);
    let count: nat = (if b.url_box is Some { 1nat } else { 0nat }) + b.unknown_boxes@.len();
    lemma_unknown_kids(b.unknown_boxes@);
    assert(kids.len() == count);
    let p = dref_payload(b);
    let s = dref_box_bytes(b);
    assert([0x64u8, 0x72, 0x65, 0x66]@ =~= dref_code());
    lemma_box_bytes_len(BoxType::Normal([0x64u8, 0x72, 0x65, 0x66]), p);
    lemma_box_bytes_closed([0x64u8, 0x72, 0x65, 0x66], p);
    assert(box_payload_of(s, dref_code()) == Some((p, s.len())));
    lemma_counted_payload(Seq::new(4, |i: int| 0u8), count, kids_bytes(kids));
    assert(be_value(p, 4, 4) == kids.len());
    assert(p.subrange(8, p.len() as int) == kids_bytes(kids));
    lemma_take_kids(kids);
}

/// Decoding an encoded `dref` box gives the box back, at its full size.
#[verifier::spinoff_prover]
pub proof fn lemma_dref_codec_roundtrip(b: DrefBox)
    requires
        dref_roundtrips(b),
    ensures
        dref_decodable(dref_box_bytes(b)),
        dref_decoded(dref_box_bytes(b), b, dref_box_bytes(b).len()),
{
    reveal(dref_decodable);
    reveal(dref_decoded);
    let head = opt_kid(b.url_box, url_code(), |u: UrlBox| url_box_bytes(u));
    let tail = unknown_kids(b.unknown_boxes@);
    let cs = dref_kids(b);
    lemma_dref_children(b);
    let pred = is_url();
    assert forall|i: int| head.len() <= i < cs.len() implies !pred(#[trigger] cs[i].0) by {
        assert(cs[i] == tail[i - head.len()]);
        lemma_not_listed(box_type_bytes(b.unknown_boxes@[i - head.len()].box_type), seq![url_code()], 0);
    }
    match b.url_box {
        None => {
            lemma_first_matching_none(cs, pred);
        },
        Some(u) => {
            lemma_listed(url_code());
            lemma_first_matching_at(cs, 0, pred);
            lemma_url_codec_roundtrip(u);
        },
    }
    let interp = dref_interp(cs);
    lemma_raw_children_from(cs, interp, head.len() as int, cs.len() as int);
    assert(cs.subrange(head.len() as int, cs.len() as int) =~= tail);
    lemma_unknowns_match(b.unknown_boxes@, tail);
}

/// The `dinf` boxes whose encoding decodes back: the `dref` does, the
/// unknown children are well formed and none is a `dref`, and the box fits
/// 64 bit sizes.
pub open spec fn dinf_roundtrips(b: DinfBox) -> bool {
    &&& dref_roundtrips(b.dref_box)
    &&& unknowns_keep(b.unknown_boxes@, seq![dref_code()])
    &&& dinf_box_bytes(b).len() + 32 <= u64::MAX
}

/// Decoding an encoded `dinf` box gives the box back, at its full size.
#[verifier::spinoff_prover]
#[verifier::rlimit(50)]
pub proof fn lemma_dinf_codec_roundtrip(b: DinfBox)
    requires
        dinf_roundtrips(b),
    ensures
        dinf_decodable(dinf_box_bytes(b)),
        dinf_decoded(dinf_box_bytes(b), b, dinf_box_bytes(b).len()),
        closed_box(dinf_box_bytes(b), dinf_code()),
{
    reveal(dinf_decodable);
    reveal(dinf_decoded);
    let head = one_kid(dref_code(), dref_box_bytes(b.dref_box));
    let tail = unknown_kids(b.unknown_boxes@);
    let kids = head + tail;
    lemma_one_kid(dref_code(), dref_box_bytes(b.dref_box));
    lemma_unknown_kids(b.unknown_boxes@);
    lemma_kids_bytes_append(head, tail);
    assert([0x64u8, 0x69, 0x6e, 0x66]@ =~= dinf_code());
    assert([0x64u8, 0x72, 0x65, 0x66]@ =~= dref_code());
    lemma_box_bytes_len(BoxType::Normal([0x64u8, 0x69, 0x6e, 0x66]), kids_bytes(kids));
    lemma_box_bytes_closed_all([0x64u8, 0x72, 0x65, 0x66]);
    assert forall|i: int| 0 <= i < kids.len() implies closed_box((#[trigger] kids[i]).1, kids[i].0) by {
        lemma_kid_len(kids, i);
        if i < head.len() {
            assert(kids[i] == head[i]);
        } else {
            assert(kids[i] == tail[i - head.len()]);
        }
    }
    lemma_container_kids([0x64u8, 0x69, 0x6e, 0x66], kids);
    let cs = kids;
    let pred = is_dref();
    assert forall|i: int| head.len() <= i < cs.len() implies !pred(#[trigger] cs[i].0) by {
        assert(cs[i] == tail[i - head.len()]);
        lemma_not_listed(box_type_bytes(b.unknown_boxes@[i - head.len()].box_type), seq![dref_code()], 0);
    }
    lemma_listed(dref_code());
    lemma_first_matching_at(cs, 0, pred);
    lemma_dref_codec_roundtrip(b.dref_box);
    let interp = dinf_interp(cs);
    lemma_raw_children_from(cs, interp, 1, cs.len() as int);
    assert(cs.subrange(1, cs.len() as int) =~= tail);
    lemma_unknowns_match(b.unknown_boxes@, tail);
}

/// Two codes that differ at a byte differ, and one is not listed with only the other.
pub proof fn lemma_codes_differ(a: Seq<u8>, b: Seq<u8>, k: int)
    requires
        0 <= k < a.len(),
        k < b.len(),
        a[k] != b[k],
    ensures
        a != b,
        !seq![a].contains(b),
{
    if seq![a].contains(b) {
        assert(seq![a][0] == a);
    }
}

/// Records of one type as children.
pub open spec fn code_kids(code: Seq<u8>, recs: Seq<Seq<u8>>) -> Seq<(Seq<u8>, Seq<u8>)> {
    recs.map_values(|r: Seq<u8>| (code, r))
}

/// The bytes of records of one type are the records one after another.
pub proof fn lemma_code_kids(code: Seq<u8>, recs: Seq<Seq<u8>>)
    ensures
        kids_bytes(code_kids(code, recs)) == concat_records(recs),
        code_kids(code, recs).len() == recs.len(),
{
    assert(code_kids(code, recs).map_values(|k: (Seq<u8>, Seq<u8>)| k.1) =~= recs);
}

/// The children whose type satisfies `pred` are those from `m` to `e`.
pub proof fn lemma_children_matching_range(
    cs: Seq<(Seq<u8>, Seq<u8>)>,
    pred: spec_fn(Seq<u8>) -> bool,
    m: int,
    e: int,
    k: int,
)
    requires
        0 <= m <= e <= cs.len(),
        0 <= k <= cs.len(),
        forall|i: int| 0 <= i < m ==> !pred(#[trigger] cs[i].0),
        forall|i: int| m <= i < e ==> pred(#[trigger] cs[i].0),
        forall|i: int| e <= i < cs.len() ==> !pred(#[trigger] cs[i].0),
    ensures
        children_matching(cs, k, pred) == cs.subrange(m, if k < m { m } else if k > e { e } else { k }).map_values(
            |c: (Seq<u8>, Seq<u8>)| c.1,
        ),
    decreases k,
{
    let f = |c: (Seq<u8>, Seq<u8>)| c.1;
    if k == 0 {
        assert(cs.subrange(m, m).map_values(f) =~= Seq::<Seq<u8>>::empty());
    } else {
        lemma_children_matching_range(cs, pred, m, e, k - 1);
        if k - 1 < m {
            assert(!pred(cs[k - 1].0));
        } else if k - 1 < e {
            assert(pred(cs[k - 1].0));
            assert(cs.subrange(m, k).map_values(f) =~= cs.subrange(m, k - 1).map_values(f).push(cs[k - 1].1));
        } else {
            assert(!pred(cs[k - 1].0));
        }
    }
}

/// The `mvex` boxes whose encoding decodes back: the unknown children are
/// well formed and none is an `mehd` or `trex`, and the box fits 64 bit sizes.
pub open spec fn mvex_roundtrips(b: MvexBox) -> bool {
    &&& unknowns_keep(b.unknown_boxes@, seq![mehd_code(), trex_code()])
    &&& mvex_box_bytes(b).len() + 32 <= u64::MAX
}

/// The children of an `mvex` box: its `mehd`, its `trex` boxes, then its unknown children.
pub open spec fn mvex_kids(b: MvexBox) -> Seq<(Seq<u8>, Seq<u8>)> {
    opt_kid(b.mehd_box, mehd_code(), |m: MehdBox| mehd_box_bytes(m)) + code_kids(
        trex_code(),
        b.trex_boxes@.map_values(|t: TrexBox| trex_box_bytes(t)),
    ) + unknown_kids(b.unknown_boxes@)
}

/// The children of an encoded `mvex` box read back as they were written.
#[verifier::spinoff_prover]
#[verifier::rlimit(50)]
proof fn lemma_mvex_children(b: MvexBox)
    requires
        mvex_roundtrips(b),
    ensures
        container_children(mvex_box_bytes(b), mvex_code()) == Some((mvex_kids(b), mvex_box_bytes(b).len())),
        closed_box(mvex_box_bytes(b), mvex_code()),
{
    let fm = |m: MehdBox| mehd_box_bytes(m);
    let recs = b.trex_boxes@.map_values(|t: TrexBox| trex_box_bytes(t));
    let head = opt_kid(b.mehd_box, mehd_code(), fm);
    let mid = code_kids(trex_code(), recs);
    let tail = unknown_kids(b.unknown_boxes@);
    let kids = mvex_kids(b);
    lemma_opt_kid(b.mehd_box, mehd_code(), fm);
    lemma_code_kids(trex_code(), recs);
    lemma_unknown_kids(b.unknown_boxes@);
    lemma_kids_bytes_append(head, mid);
    lemma_kids_bytes_append(head + mid, tail);
    assert(kids_bytes(kids) =~= opt_bytes(b.mehd_box, fm) + trex_boxes_bytes(b.trex_boxes@) + unknown_boxes_bytes(
        b.unknown_boxes@,
    ));
    assert([0x6du8, 0x76, 0x65, 0x78]@ =~= mvex_code());
    lemma_box_bytes_len(BoxType::Normal([0x6du8, 0x76, 0x65, 0x78]), kids_bytes(kids));
    assert([0x6du8, 0x65, 0x68, 0x64]@ =~= mehd_code());
    assert([0x74u8, 0x72, 0x65, 0x78]@ =~= trex_code());
    lemma_box_bytes_closed_all([0x6du8, 0x65, 0x68, 0x64]);
    lemma_box_bytes_closed_all([0x74u8, 0x72, 0x65, 0x78]);
    assert forall|i: int| 0 <= i < kids.len() implies closed_box((#[trigger] kids[i]).1, kids[i].0) by {
        lemma_kid_len(kids, i);
        if i < head.len() {
            assert(kids[i] == head[i]);
        } else if i < head.len() + mid.len() {
            assert(kids[i] == mid[i - head.len()]);
        } else {
            assert(kids[i] == tail[i - head.len() - mid.len()]);
        }
    }
    lemma_container_kids([0x6du8, 0x76, 0x65, 0x78], kids);
}

/// Decoding an encoded `mvex` box gives the box back, at its full size.
#[verifier::spinoff_prover]
#[verifier::rlimit(50)]
pub proof fn lemma_mvex_codec_roundtrip(b: MvexBox)
    requires
        mvex_roundtrips(b),
    ensures
        mvex_decodable(mvex_box_bytes(b)),
        mvex_decoded(mvex_box_bytes(b), b, mvex_box_bytes(b).len()),
        closed_box(mvex_box_bytes(b), mvex_code()),
{
    reveal(mvex_decodable);
    reveal(mvex_decoded);
    lemma_mvex_children(b);
    let recs = b.trex_boxes@.map_values(|t: TrexBox| trex_box_bytes(t));
    let head = opt_kid(b.mehd_box, mehd_code(), |m: MehdBox| mehd_box_bytes(m));
    let mid = code_kids(trex_code(), recs);
    let tail = unknown_kids(b.unknown_boxes@);
    let cs = mvex_kids(b);
    lemma_code_kids(trex_code(), recs);
    lemma_unknown_kids(b.unknown_boxes@);
    let h = head.len() as int;
    let e = h + mid.len();
    lemma_codes_differ(mehd_code(), trex_code(), 0);
    lemma_codes_differ(trex_code(), mehd_code(), 0);
    lemma_listed(mehd_code());
    lemma_listed(trex_code());
    assert forall|i: int| e <= i < cs.len() implies !is_mehd()(#[trigger] cs[i].0) && !is_trex()(cs[i].0) by {
        assert(cs[i] == tail[i - e]);
        let c = box_type_bytes(b.unknown_boxes@[i - e].box_type);
        lemma_not_listed(c, seq![mehd_code(), trex_code()], 0);
        lemma_not_listed(c, seq![mehd_code(), trex_code()], 1);
    }
    assert forall|i: int| h <= i < e implies is_trex()(#[trigger] cs[i].0) && !is_mehd()(cs[i].0) by {
        assert(cs[i] == mid[i - h]);
    }
    assert forall|i: int| 0 <= i < h implies !is_trex()(#[trigger] cs[i].0) && is_mehd()(cs[i].0) by {
        assert(cs[i] == head[i]);
    }
    match b.mehd_box {
        None => {
            lemma_first_matching_none(cs, is_mehd());
        },
        Some(m) => {
            lemma_first_matching_at(cs, 0, is_mehd());
            lemma_mehd_codec_roundtrip(m);
        },
    }
    lemma_children_matching_range(cs, is_trex(), h, e, cs.len() as int);
    let got = cs.subrange(h, e).map_values(|c: (Seq<u8>, Seq<u8>)| c.1);
    assert(got =~= recs);
    assert forall|i: int| 0 <= i < recs.len() implies trex_decoded(recs[i], #[trigger] b.trex_boxes@[i]) by {
        lemma_trex_codec_roundtrip(b.trex_boxes@[i]);
    }
    assert forall|i: int| 0 <= i < cs.len() && is_trex()((#[trigger] cs[i]).0) implies trex_decodable(cs[i].1) by {
        assert(cs[i] == mid[i - h]);
        lemma_trex_codec_roundtrip(b.trex_boxes@[i - h]);
    }
    let interp = mvex_interp(cs);
    lemma_raw_children_from(cs, interp, e, cs.len() as int);
    assert(cs.subrange(e, cs.len() as int) =~= tail);
    lemma_unknowns_match(b.unknown_boxes@, tail);
}

/// A box of a media header type holding only version and flags 0 decodes
/// with no fields.
proof fn lemma_empty_full_box(code: [u8; 4])
    requires
        code@ != uuid_code(),
    ensures
        fixed_decode_spec(box_bytes(BoxType::Normal(code), full_box_header(0)), code@, Seq::empty()) is Some,
{
    lemma_box_bytes_closed(code, full_box_header(0));
    assert(width_sum(Seq::<nat>::empty()) == 0);
}

/// Decoding an encoded media header gives it back.
pub proof fn lemma_media_header_roundtrip(h: MediaHeader)
    ensures
        media_header_decodable(media_header_bytes(h)),
        media_header_decoded(media_header_bytes(h), h),
{
    reveal(media_header_decodable);
    reveal(media_header_decoded);
    match h {
        MediaHeader::Smhd(x) => {
            lemma_smhd_codec_roundtrip(x);
        },
        MediaHeader::Vmhd(x) => {
            lemma_vmhd_codec_roundtrip(x);
        },
        MediaHeader::Sthd(_) => {
            assert([0x73u8, 0x74, 0x68, 0x64]@ =~= sthd_code());
            lemma_empty_full_box([0x73u8, 0x74, 0x68, 0x64]);
        },
        MediaHeader::Nmhd(_) => {
            assert([0x6eu8, 0x6d, 0x68, 0x64]@ =~= nmhd_code());
            lemma_empty_full_box([0x6eu8, 0x6d, 0x68, 0x64]);
        },
    }
}

/// A sample entry as a child: its type and its bytes.
pub open spec fn entry_kid(e: SampleEntry) -> (Seq<u8>, Seq<u8>) {
    match e {
        SampleEntry::Unknown(u) => (box_type_bytes(u.box_type), unknown_box_bytes(u)),
        _ => (Seq::empty(), sample_entry_bytes(e)),
    }
}

/// The `stsd` boxes whose encoding decodes back: every entry is kept raw
/// (as `stsd` decodes them) and well formed, the entry count fits 32 bits,
/// and the box fits 64 bit sizes.
pub open spec fn stsd_roundtrips(b: StsdBox) -> bool {
    &&& forall|i: int|
        0 <= i < b.entries@.len() ==> (#[trigger] b.entries@[i] matches SampleEntry::Unknown(u) && unknown_wf(u))
    &&& b.entries@.len() < u32::MAX
    &&& stsd_box_bytes(b).len() + 32 <= u64::MAX
}

/// Decoding an encoded `stsd` box gives the entries back, at its full size.
#[verifier::spinoff_prover]
#[verifier::rlimit(50)]
pub proof fn lemma_stsd_codec_roundtrip(b: StsdBox)
    requires
        stsd_roundtrips(b),
    ensures
        stsd_decode_spec(stsd_box_bytes(b)) is Some,
        stsd_decode_spec(stsd_box_bytes(b)).unwrap().1 == stsd_box_bytes(b).len(),
        stsd_matches(b, stsd_box_bytes(b)),
{
    let es = b.entries@;
    let kids = es.map_values(|e: SampleEntry| entry_kid(e));
    let recs = es.map_values(|e: SampleEntry| sample_entry_bytes(e));
    assert(kids.map_values(|k: (Seq<u8>, Seq<u8>)| k.1) =~= recs);
    let p = full_box_v0() + be_bytes(es.len(), 4) + kids_bytes(kids);
    assert(stsd_box_bytes(b) == box_bytes(BoxType::Normal([0x73u8, 0x74, 0x73, 0x64]), p));
    assert([0x73u8, 0x74, 0x73, 0x64]@ =~= stsd_code());
    lemma_box_bytes_len(BoxType::Normal([0x73u8, 0x74, 0x73, 0x64]), p);
    lemma_box_bytes_closed([0x73u8, 0x74, 0x73, 0x64], p);
    crate::codec::lemma_be_bytes_len(0, 4);
    lemma_counted_payload(full_box_v0(), es.len(), kids_bytes(kids));
    assert forall|i: int| 0 <= i < kids.len() implies closed_box((#[trigger] kids[i]).1, kids[i].0) by {
        assert(es[i] matches SampleEntry::Unknown(u) && unknown_wf(u));
        if let SampleEntry::Unknown(u) = es[i] {
            lemma_unknown_closed(u);
        }
    }
    lemma_take_kids(kids);
    let got = kids.map_values(|e: (Seq<u8>, Seq<u8>)| e.1);
    assert forall|i: int| 0 <= i < got.len() implies raw_entry_matches(#[trigger] es[i], got[i]) by {
        assert(es[i] matches SampleEntry::Unknown(u) && unknown_wf(u));
        if let SampleEntry::Unknown(u) = es[i] {
            lemma_unknown_closed(u);
        }
    }
}

} // verus!
