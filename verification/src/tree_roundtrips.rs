//! Decoding what the encoders of the `stbl` ... `moov` containers write
//! gives the containers back (see [`crate::container_roundtrips`] for the
//! smaller containers and the shared lemmas).
use vstd::prelude::*;

use crate::boxes::{BoxType, Either, UnknownBox};
use crate::boxes_moov_tree::{
    co64_box_bytes, co64_code, co64_matches, cslg_box_bytes, cslg_code, cslg_encodable, cslg_matches,
    ctts_box_bytes, ctts_code, ctts_encodable, ctts_matches, first_index, lemma_co64_codec_roundtrip,
    lemma_cslg_codec_roundtrip, lemma_ctts_codec_roundtrip, lemma_sdtp_codec_roundtrip,
    lemma_stbl_codes_distinct, lemma_stbl_push, lemma_stco_codec_roundtrip, lemma_stsc_codec_roundtrip,
    lemma_stss_codec_roundtrip, lemma_stsz_codec_roundtrip, lemma_stts_codec_roundtrip, sdtp_box_bytes,
    sdtp_code, sdtp_matches, stbl_child_decodes, stbl_children, stbl_children_decode, stbl_code,
    stbl_decodable, stbl_decoded, stbl_known, stbl_unknown, stco_box_bytes, stco_code, stco_matches,
    stsc_box_bytes, stsc_code, stsc_matches, stsd_code, stsd_matches, stss_box_bytes, stss_code, stss_matches,
    stsz_box_bytes, stsz_code, stsz_matches, stts_box_bytes, stts_code, stts_matches, unknown_list_matches,
    CslgBox, CttsBox, EdtsBox, MdiaBox, MediaHeader, MinfBox, MoovBox, MvexBox, SdtpBox, StblBox, StssBox,
    StszBox, TrakBox,
};
use crate::codec::box_type_bytes;
use crate::container_roundtrips::{
    all_closed, closed_box, code_kids, dinf_roundtrips, edts_roundtrips, kids_bytes,
    lemma_box_bytes_closed_all, lemma_children_matching_range, lemma_code_kids, lemma_container_kids,
    lemma_dinf_codec_roundtrip, lemma_edts_codec_roundtrip, lemma_first_matching_at, lemma_kid_len,
    lemma_kids_bytes_append, lemma_media_header_roundtrip, lemma_mvex_codec_roundtrip, lemma_one_kid,
    lemma_opt_kid, lemma_raw_children_from, lemma_stsd_codec_roundtrip, lemma_unknown_kids,
    lemma_unknowns_match, mvex_roundtrips, one_kid, opt_kid, stsd_roundtrips, unknown_kids, unknown_wf,
};
use crate::containers::{
    all_decode, children_matching, container_children, dinf_box_bytes, dinf_code, edts_box_bytes, edts_code,
    first_matching, is_dinf, is_edts, is_hdlr, is_mdhd, is_mdia, is_media_header, is_minf, is_mvex, is_mvhd,
    is_stbl, is_tkhd, is_trak, lemma_box_bytes_len, list_matches, mdia_code, mdia_decodable, mdia_decoded,
    mdia_interp, media_header_bytes, minf_code, minf_decodable, minf_decoded, minf_interp, moov_code,
    moov_decodable, moov_decoded, moov_interp, mvex_box_bytes, mvex_code, opt_bytes, raw_children, stbl_type,
    trak_code, trak_decodable, trak_decoded, trak_interp,
};
use crate::header_boxes::{
    hdlr_box_bytes, hdlr_code, language_ok, lemma_hdlr_codec_roundtrip, lemma_mdhd_codec_roundtrip,
    lemma_mvhd_codec_roundtrip, lemma_tkhd_codec_roundtrip, mdhd_box_bytes, mdhd_code, mvhd_box_bytes,
    mvhd_code, nmhd_code, smhd_code, sthd_code, tkhd_box_bytes, tkhd_code, vmhd_code,
};
use crate::moov_encoders::{
    chunk_offsets_box_bytes, mdia_box_bytes, mdia_payload, minf_box_bytes, minf_payload, moov_box_bytes,
    moov_payload, stbl_box_bytes, stbl_payload, stsd_box_bytes, trak_box_bytes, trak_payload,
};

verus! {

/// Children list type.
pub type Kids = Seq<(Seq<u8>, Seq<u8>)>;

/// Appends an optional child.
pub open spec fn push_opt(cs: Kids, x: Option<(Seq<u8>, Seq<u8>)>) -> Kids {
    match x {
        None => cs,
        Some(k) => cs.push(k),
    }
}

/// An optional field as an optional child.
pub open spec fn opt_child<T>(o: Option<T>, code: Seq<u8>, f: spec_fn(T) -> Seq<u8>) -> Option<(Seq<u8>, Seq<u8>)> {
    match o {
        None => None,
        Some(v) => Some((code, f(v))),
    }
}

/// The bytes of an optional child.
pub open spec fn opt_child_bytes(x: Option<(Seq<u8>, Seq<u8>)>) -> Seq<u8> {
    match x {
        None => Seq::empty(),
        Some(k) => k.1,
    }
}

/// The bytes of a list grown by one child.
pub proof fn lemma_kids_push(cs: Kids, x: (Seq<u8>, Seq<u8>))
    ensures
        kids_bytes(cs.push(x)) == kids_bytes(cs) + x.1,
{
    let f = |k: (Seq<u8>, Seq<u8>)| k.1;
    assert(cs.push(x).map_values(f) =~= cs.map_values(f).push(x.1));
    assert(cs.map_values(f).push(x.1).drop_last() =~= cs.map_values(f));
}

/// The bytes of a list grown by an optional child.
pub proof fn lemma_kids_push_opt(cs: Kids, x: Option<(Seq<u8>, Seq<u8>)>)
    ensures
        kids_bytes(push_opt(cs, x)) == kids_bytes(cs) + opt_child_bytes(x),
{
    match x {
        None => {
            assert(kids_bytes(cs) + Seq::<u8>::empty() =~= kids_bytes(cs));
        },
        Some(k) => {
            lemma_kids_push(cs, k);
        },
    }
}

/// The chunk offset box of `stbl` as a child.
pub open spec fn chunk_child(b: StblBox) -> (Seq<u8>, Seq<u8>) {
    match b.stco_or_co64_box {
        Either::A(s) => (stco_code(), stco_box_bytes(s.chunk_offsets@)),
        Either::B(c) => (co64_code(), co64_box_bytes(c.chunk_offsets@)),
    }
}

/// The first six interpreted children of `stbl`, as its encoder writes them.
pub open spec fn stbl_head6(b: StblBox) -> Kids {
    push_opt(
        push_opt(
            Seq::empty().push((stsd_code(), stsd_box_bytes(b.stsd_box))).push(
                (stts_code(), stts_box_bytes(b.stts_box.entries@)),
            ),
            opt_child(b.ctts_box, ctts_code(), |c: CttsBox| ctts_box_bytes(c.version, c.entries@)),
        ),
        opt_child(b.cslg_box, cslg_code(), |c: CslgBox| cslg_box_bytes(c)),
    ).push((stsc_code(), stsc_box_bytes(b.stsc_box.entries@))).push((stsz_code(), stsz_box_bytes(b.stsz_box)))
}

/// The interpreted children of `stbl`, as its encoder writes them.
pub open spec fn stbl_head(b: StblBox) -> Kids {
    push_opt(
        push_opt(
            stbl_head6(b).push(chunk_child(b)),
            opt_child(b.stss_box, stss_code(), |s: StssBox| stss_box_bytes(s.sample_numbers@)),
        ),
        opt_child(b.sdtp_box, sdtp_code(), |s: SdtpBox| sdtp_box_bytes(s.entries@)),
    )
}

/// The children of `stbl`, as its encoder writes them.
pub open spec fn stbl_kids(b: StblBox) -> Kids {
    stbl_head(b) + unknown_kids(b.unknown_boxes@)
}

/// The children of `stbl` written one after another are its payload.
pub proof fn lemma_stbl_kids_bytes(b: StblBox)
    ensures
        kids_bytes(stbl_kids(b)) == stbl_payload(b),
{
    let e: Kids = Seq::empty();
    let k0 = e.push((stsd_code(), stsd_box_bytes(b.stsd_box)));
    let k1 = k0.push((stts_code(), stts_box_bytes(b.stts_box.entries@)));
    let o2 = opt_child(b.ctts_box, ctts_code(), |c: CttsBox| ctts_box_bytes(c.version, c.entries@));
    let k2 = push_opt(k1, o2);
    let o3 = opt_child(b.cslg_box, cslg_code(), |c: CslgBox| cslg_box_bytes(c));
    let k3 = push_opt(k2, o3);
    let k4 = k3.push((stsc_code(), stsc_box_bytes(b.stsc_box.entries@)));
    let k5 = k4.push((stsz_code(), stsz_box_bytes(b.stsz_box)));
    let k6 = k5.push(chunk_child(b));
    let o7 = opt_child(b.stss_box, stss_code(), |s: StssBox| stss_box_bytes(s.sample_numbers@));
    let k7 = push_opt(k6, o7);
    let o8 = opt_child(b.sdtp_box, sdtp_code(), |s: SdtpBox| sdtp_box_bytes(s.entries@));
    let k8 = push_opt(k7, o8);
    assert(kids_bytes(e) =~= Seq::<u8>::empty());
    lemma_kids_push(e, (stsd_code(), stsd_box_bytes(b.stsd_box)));
    lemma_kids_push(k0, (stts_code(), stts_box_bytes(b.stts_box.entries@)));
    lemma_kids_push_opt(k1, o2);
    lemma_kids_push_opt(k2, o3);
    lemma_kids_push(k3, (stsc_code(), stsc_box_bytes(b.stsc_box.entries@)));
    lemma_kids_push(k4, (stsz_code(), stsz_box_bytes(b.stsz_box)));
    lemma_kids_push(k5, chunk_child(b));
    lemma_kids_push_opt(k6, o7);
    lemma_kids_push_opt(k7, o8);
    lemma_unknown_kids(b.unknown_boxes@);
    lemma_kids_bytes_append(k8, unknown_kids(b.unknown_boxes@));
    assert(opt_child_bytes(o2) == opt_bytes(b.ctts_box, |c: CttsBox| ctts_box_bytes(c.version, c.entries@)));
    assert(opt_child_bytes(o3) == opt_bytes(b.cslg_box, |c: CslgBox| cslg_box_bytes(c)));
    assert(opt_child_bytes(o7) == opt_bytes(b.stss_box, |s: StssBox| stss_box_bytes(s.sample_numbers@)));
    assert(opt_child_bytes(o8) == opt_bytes(b.sdtp_box, |s: SdtpBox| sdtp_box_bytes(s.entries@)));
    assert(chunk_child(b).1 == chunk_offsets_box_bytes(b));
    assert(kids_bytes(stbl_kids(b)) =~= stbl_payload(b));
}

/// Closed children stay closed with one more closed child.
pub proof fn lemma_all_closed_push(cs: Kids, x: (Seq<u8>, Seq<u8>))
    requires
        all_closed(cs),
        closed_box(x.1, x.0),
    ensures
        all_closed(cs.push(x)),
{
    assert forall|i: int| 0 <= i < cs.push(x).len() implies closed_box(
        (#[trigger] cs.push(x)[i]).1,
        cs.push(x)[i].0,
    ) by {
        if i < cs.len() {
            assert(cs.push(x)[i] == cs[i]);
        }
    }
}

/// Closed children stay closed with one more optional closed child.
pub proof fn lemma_all_closed_push_opt(cs: Kids, x: Option<(Seq<u8>, Seq<u8>)>)
    requires
        all_closed(cs),
        x matches Some(k) ==> closed_box(k.1, k.0),
    ensures
        all_closed(push_opt(cs, x)),
{
    if let Some(k) = x {
        lemma_all_closed_push(cs, k);
    }
}

/// Closed children stay closed with more closed children after them.
pub proof fn lemma_all_closed_append(a: Kids, b: Kids)
    requires
        all_closed(a),
        all_closed(b),
    ensures
        all_closed(a + b),
{
    assert forall|i: int| 0 <= i < (a + b).len() implies closed_box((#[trigger] (a + b)[i]).1, (a + b)[i].0) by {
        if i < a.len() {
            assert((a + b)[i] == a[i]);
        } else {
            assert((a + b)[i] == b[i - a.len()]);
        }
    }
}

/// The `stbl` boxes whose encoding decodes back: `stsd` does, each table
/// fits its 32 bit count, `ctts` and `cslg` fit their versions, `stsc`
/// entries and `stss` sample numbers are not 0, a fixed `stsz` sample size
/// is not 0, the unknown children are well formed and of types `stbl` does
/// not interpret, and the box fits 64 bit sizes.
pub open spec fn stbl_roundtrips(b: StblBox) -> bool {
    &&& stsd_roundtrips(b.stsd_box)
    &&& b.stts_box.entries@.len() <= u32::MAX
    &&& (b.ctts_box matches Some(c) ==> c.entries@.len() <= u32::MAX && ctts_encodable(c.version, c.entries@))
    &&& (b.cslg_box matches Some(c) ==> cslg_encodable(c))
    &&& b.stsc_box.entries@.len() <= u32::MAX
    &&& forall|i: int|
        0 <= i < b.stsc_box.entries@.len() ==> (#[trigger] b.stsc_box.entries@[i]).first_chunk != 0
            && b.stsc_box.entries@[i].sample_description_index != 0
    &&& match b.stsz_box {
        StszBox::Fixed { sample_size, .. } => sample_size != 0,
        StszBox::Variable { entry_sizes } => entry_sizes@.len() <= u32::MAX,
    }
    &&& match b.stco_or_co64_box {
        Either::A(s) => s.chunk_offsets@.len() <= u32::MAX,
        Either::B(c) => c.chunk_offsets@.len() <= u32::MAX,
    }
    &&& (b.stss_box matches Some(s) ==> s.sample_numbers@.len() <= u32::MAX && forall|i: int|
        0 <= i < s.sample_numbers@.len() ==> #[trigger] s.sample_numbers@[i] != 0)
    &&& (b.sdtp_box matches Some(s) ==> s.entries@.len() <= u32::MAX)
    &&& forall|i: int|
        0 <= i < b.unknown_boxes@.len() ==> unknown_wf(#[trigger] b.unknown_boxes@[i]) && !stbl_known(
            box_type_bytes(b.unknown_boxes@[i].box_type),
        )
    &&& stbl_box_bytes(b).len() + 32 <= u64::MAX
}

/// The children of an encoded `stbl` box are whole boxes.
#[verifier::spinoff_prover]
#[verifier::rlimit(50)]
pub proof fn lemma_stbl_kids_closed(b: StblBox)
    requires
        stbl_roundtrips(b),
    ensures
        all_closed(stbl_kids(b)),
        container_children(stbl_box_bytes(b), stbl_code()) == Some((stbl_kids(b), stbl_box_bytes(b).len())),
        closed_box(stbl_box_bytes(b), stbl_code()),
{
    reveal(stbl_box_bytes);
    let e: Kids = Seq::empty();
    let k0 = e.push((stsd_code(), stsd_box_bytes(b.stsd_box)));
    let k1 = k0.push((stts_code(), stts_box_bytes(b.stts_box.entries@)));
    let o2 = opt_child(b.ctts_box, ctts_code(), |c: CttsBox| ctts_box_bytes(c.version, c.entries@));
    let k2 = push_opt(k1, o2);
    let o3 = opt_child(b.cslg_box, cslg_code(), |c: CslgBox| cslg_box_bytes(c));
    let k3 = push_opt(k2, o3);
    let k4 = k3.push((stsc_code(), stsc_box_bytes(b.stsc_box.entries@)));
    let k5 = k4.push((stsz_code(), stsz_box_bytes(b.stsz_box)));
    let k6 = k5.push(chunk_child(b));
    let o7 = opt_child(b.stss_box, stss_code(), |s: StssBox| stss_box_bytes(s.sample_numbers@));
    let k7 = push_opt(k6, o7);
    let o8 = opt_child(b.sdtp_box, sdtp_code(), |s: SdtpBox| sdtp_box_bytes(s.entries@));
    let k8 = push_opt(k7, o8);
    let tail = unknown_kids(b.unknown_boxes@);
    lemma_stbl_kids_bytes(b);
    assert(kids_bytes(e) =~= Seq::<u8>::empty());
    lemma_kids_push(e, (stsd_code(), stsd_box_bytes(b.stsd_box)));
    lemma_kids_push(k0, (stts_code(), stts_box_bytes(b.stts_box.entries@)));
    lemma_kids_push_opt(k1, o2);
    lemma_kids_push_opt(k2, o3);
    lemma_kids_push(k3, (stsc_code(), stsc_box_bytes(b.stsc_box.entries@)));
    lemma_kids_push(k4, (stsz_code(), stsz_box_bytes(b.stsz_box)));
    lemma_kids_push(k5, chunk_child(b));
    lemma_kids_push_opt(k6, o7);
    lemma_kids_push_opt(k7, o8);
    lemma_unknown_kids(b.unknown_boxes@);
    lemma_kids_bytes_append(k8, tail);
    assert([0x73u8, 0x74, 0x62, 0x6c]@ =~= stbl_code());
    lemma_box_bytes_len(BoxType::Normal([0x73u8, 0x74, 0x62, 0x6c]), stbl_payload(b));
    assert([0x73u8, 0x74, 0x73, 0x64]@ =~= stsd_code());
    assert([0x73u8, 0x74, 0x74, 0x73]@ =~= stts_code());
    assert([0x63u8, 0x74, 0x74, 0x73]@ =~= ctts_code());
    assert([0x63u8, 0x73, 0x6c, 0x67]@ =~= cslg_code());
    assert([0x73u8, 0x74, 0x73, 0x63]@ =~= stsc_code());
    assert([0x73u8, 0x74, 0x73, 0x7a]@ =~= stsz_code());
    assert([0x73u8, 0x74, 0x63, 0x6f]@ =~= stco_code());
    assert([0x63u8, 0x6f, 0x36, 0x34]@ =~= co64_code());
    assert([0x73u8, 0x74, 0x73, 0x73]@ =~= stss_code());
    assert([0x73u8, 0x64, 0x74, 0x70]@ =~= sdtp_code());
    lemma_box_bytes_closed_all([0x73u8, 0x74, 0x73, 0x64]);
    lemma_box_bytes_closed_all([0x73u8, 0x74, 0x74, 0x73]);
    lemma_box_bytes_closed_all([0x63u8, 0x74, 0x74, 0x73]);
    lemma_box_bytes_closed_all([0x63u8, 0x73, 0x6c, 0x67]);
    lemma_box_bytes_closed_all([0x73u8, 0x74, 0x73, 0x63]);
    lemma_box_bytes_closed_all([0x73u8, 0x74, 0x73, 0x7a]);
    lemma_box_bytes_closed_all([0x73u8, 0x74, 0x63, 0x6f]);
    lemma_box_bytes_closed_all([0x63u8, 0x6f, 0x36, 0x34]);
    lemma_box_bytes_closed_all([0x73u8, 0x74, 0x73, 0x73]);
    lemma_box_bytes_closed_all([0x73u8, 0x64, 0x74, 0x70]);
    assert(all_closed(e));
    lemma_all_closed_push(e, (stsd_code(), stsd_box_bytes(b.stsd_box)));
    lemma_all_closed_push(k0, (stts_code(), stts_box_bytes(b.stts_box.entries@)));
    lemma_all_closed_push_opt(k1, o2);
    lemma_all_closed_push_opt(k2, o3);
    lemma_all_closed_push(k3, (stsc_code(), stsc_box_bytes(b.stsc_box.entries@)));
    lemma_all_closed_push(k4, (stsz_code(), stsz_box_bytes(b.stsz_box)));
    lemma_all_closed_push(k5, chunk_child(b));
    lemma_all_closed_push_opt(k6, o7);
    lemma_all_closed_push_opt(k7, o8);
    lemma_all_closed_append(k8, tail);
    lemma_container_kids([0x73u8, 0x74, 0x62, 0x6c], stbl_kids(b));
}

/// `o` is the first child of type `code` in `cs`, or there is none.
pub open spec fn first_is(cs: Kids, code: Seq<u8>, o: Option<(Seq<u8>, Seq<u8>)>) -> bool {
    match o {
        None => first_index(cs, code) is None,
        Some(k) => first_index(cs, code) matches Some(i) && 0 <= i < cs.len() && cs[i] == k,
    }
}

/// `first_is` after one more child of another type.
proof fn lemma_first_is_push(cs: Kids, x: (Seq<u8>, Seq<u8>), code: Seq<u8>, o: Option<(Seq<u8>, Seq<u8>)>)
    requires
        first_is(cs, code, o),
        x.0 != code,
    ensures
        first_is(cs.push(x), code, o),
{
    crate::boxes_moov_tree::lemma_first_index_push(cs, x, code);
    if let Some(k) = o {
        assert(cs.push(x)[first_index(cs, code).unwrap()] == k);
    }
}

/// `first_is` after one more optional child of another type.
proof fn lemma_first_is_push_opt(
    cs: Kids,
    x: Option<(Seq<u8>, Seq<u8>)>,
    xcode: Seq<u8>,
    code: Seq<u8>,
    o: Option<(Seq<u8>, Seq<u8>)>,
)
    requires
        first_is(cs, code, o),
        x matches Some(k) ==> k.0 == xcode,
        xcode != code,
    ensures
        first_is(push_opt(cs, x), code, o),
{
    if let Some(k) = x {
        lemma_first_is_push(cs, k, code, o);
    }
}

/// A new child is the first of its type.
proof fn lemma_first_is_new(cs: Kids, x: (Seq<u8>, Seq<u8>))
    requires
        first_index(cs, x.0) is None,
    ensures
        first_is(cs.push(x), x.0, Some(x)),
{
    crate::boxes_moov_tree::lemma_first_index_push(cs, x, x.0);
}

/// A new optional child is the first of its type.
proof fn lemma_first_is_new_opt(cs: Kids, x: Option<(Seq<u8>, Seq<u8>)>, code: Seq<u8>)
    requires
        first_index(cs, code) is None,
        x matches Some(k) ==> k.0 == code,
    ensures
        first_is(push_opt(cs, x), code, x),
{
    if let Some(k) = x {
        lemma_first_is_new(cs, k);
    }
}

/// The types that `stbl` interprets, numbered.
pub open spec fn stbl_code_at(j: int) -> Seq<u8> {
    if j == 0 {
        stsd_code()
    } else if j == 1 {
        stts_code()
    } else if j == 2 {
        ctts_code()
    } else if j == 3 {
        cslg_code()
    } else if j == 4 {
        stsc_code()
    } else if j == 5 {
        stsz_code()
    } else if j == 6 {
        stco_code()
    } else if j == 7 {
        co64_code()
    } else if j == 8 {
        stss_code()
    } else {
        sdtp_code()
    }
}

/// The numbered types differ.
proof fn lemma_stbl_code_at_distinct(j: int, k: int)
    requires
        0 <= j < 10,
        0 <= k < 10,
        j != k,
    ensures
        stbl_code_at(j) != stbl_code_at(k),
        stbl_known(stbl_code_at(j)),
{
    lemma_stbl_codes_distinct();
}

/// For each interpreted type, `f` gives its first child in `cs`, if any.
pub open spec fn stbl_firsts(cs: Kids, f: spec_fn(int) -> Option<(Seq<u8>, Seq<u8>)>) -> bool {
    forall|j: int| 0 <= j < 10 ==> first_is(cs, stbl_code_at(j), #[trigger] f(j))
}

/// `f` with the child of type `jx` set to `o`.
pub open spec fn set_first(
    f: spec_fn(int) -> Option<(Seq<u8>, Seq<u8>)>,
    jx: int,
    o: Option<(Seq<u8>, Seq<u8>)>,
) -> spec_fn(int) -> Option<(Seq<u8>, Seq<u8>)> {
    |j: int| if j == jx { o } else { f(j) }
}

/// [`stbl_firsts`] after one more optional child of a type not seen before.
proof fn lemma_stbl_firsts_push_opt(
    cs: Kids,
    f: spec_fn(int) -> Option<(Seq<u8>, Seq<u8>)>,
    o: Option<(Seq<u8>, Seq<u8>)>,
    jx: int,
)
    requires
        stbl_firsts(cs, f),
        0 <= jx < 10,
        f(jx) is None,
        o matches Some(k) ==> k.0 == stbl_code_at(jx),
    ensures
        stbl_firsts(push_opt(cs, o), set_first(f, jx, o)),
{
    let g = set_first(f, jx, o);
    assert(first_is(cs, stbl_code_at(jx), f(jx)));
    assert forall|j: int| 0 <= j < 10 implies first_is(push_opt(cs, o), stbl_code_at(j), #[trigger] g(j)) by {
        assert(first_is(cs, stbl_code_at(j), f(j)));
        if j == jx {
            lemma_first_is_new_opt(cs, o, stbl_code_at(jx));
        } else {
            lemma_stbl_code_at_distinct(jx, j);
            lemma_first_is_push_opt(cs, o, stbl_code_at(jx), stbl_code_at(j), f(j));
        }
    }
}

/// [`stbl_children_decode`] and [`stbl_unknown`] after one more optional
/// interpreted child of a type not seen before.
proof fn lemma_stbl_decode_push_opt(cs: Kids, o: Option<(Seq<u8>, Seq<u8>)>, code: Seq<u8>)
    requires
        stbl_known(code),
        first_index(cs, code) is None,
        o matches Some(k) ==> k.0 == code && stbl_child_decodes(k.0, k.1),
        stbl_children_decode(cs),
    ensures
        stbl_children_decode(push_opt(cs, o)),
        stbl_unknown(push_opt(cs, o)) == stbl_unknown(cs),
{
    if let Some(k) = o {
        lemma_stbl_push(cs, k);
    }
}

/// The chunk offset child as the child of type `stco` (`co64` when `b` is `false`).
pub open spec fn chunk_first(b: StblBox, stco: bool) -> Option<(Seq<u8>, Seq<u8>)> {
    match b.stco_or_co64_box {
        Either::A(_) => if stco { Some(chunk_child(b)) } else { None },
        Either::B(_) => if stco { None } else { Some(chunk_child(b)) },
    }
}

/// The first child of each interpreted type in the encoding of `b`.
pub open spec fn stbl_expected(b: StblBox) -> spec_fn(int) -> Option<(Seq<u8>, Seq<u8>)> {
    |j: int|
        if j == 0 {
            Some((stsd_code(), stsd_box_bytes(b.stsd_box)))
        } else if j == 1 {
            Some((stts_code(), stts_box_bytes(b.stts_box.entries@)))
        } else if j == 2 {
            opt_child(b.ctts_box, ctts_code(), |c: CttsBox| ctts_box_bytes(c.version, c.entries@))
        } else if j == 3 {
            opt_child(b.cslg_box, cslg_code(), |c: CslgBox| cslg_box_bytes(c))
        } else if j == 4 {
            Some((stsc_code(), stsc_box_bytes(b.stsc_box.entries@)))
        } else if j == 5 {
            Some((stsz_code(), stsz_box_bytes(b.stsz_box)))
        } else if j == 6 {
            chunk_first(b, true)
        } else if j == 7 {
            chunk_first(b, false)
        } else if j == 8 {
            opt_child(b.stss_box, stss_code(), |s: StssBox| stss_box_bytes(s.sample_numbers@))
        } else {
            opt_child(b.sdtp_box, sdtp_code(), |s: SdtpBox| sdtp_box_bytes(s.entries@))
        }
}

/// Every interpreted child in the encoding of `b` decodes as its type.
pub open spec fn stbl_kids_decode(b: StblBox) -> bool {
    forall|j: int| 0 <= j < 10 ==> (#[trigger] stbl_expected(b)(j) matches Some(k) ==> stbl_child_decodes(k.0, k.1))
}

/// The interpretation of the children of an encoded `stbl` box.
#[verifier::spinoff_prover]
#[verifier::rlimit(60)]
proof fn lemma_stbl_chain(b: StblBox)
    requires
        stbl_kids_decode(b),
    ensures
        stbl_children_decode(stbl_head(b)),
        stbl_unknown(stbl_head(b)) == Seq::<Seq<u8>>::empty(),
        stbl_firsts(stbl_head(b), stbl_expected(b)),
{
    let ex = stbl_expected(b);
    let e: Kids = Seq::empty();
    let f0 = |j: int| None::<(Seq<u8>, Seq<u8>)>;
    let o0 = ex(0);
    let o1 = ex(1);
    let o2 = ex(2);
    let o3 = ex(3);
    let o4 = ex(4);
    let o5 = ex(5);
    let o6 = Some(chunk_child(b));
    let j6: int = if b.stco_or_co64_box is A { 6 } else { 7 };
    let o8 = ex(8);
    let o9 = ex(9);
    let k0 = push_opt(e, o0);
    let k1 = push_opt(k0, o1);
    let k2 = push_opt(k1, o2);
    let k3 = push_opt(k2, o3);
    let k4 = push_opt(k3, o4);
    let k5 = push_opt(k4, o5);
    let k6 = push_opt(k5, o6);
    let k7 = push_opt(k6, o8);
    let k8 = push_opt(k7, o9);
    assert(k8 =~= stbl_head(b));
    let f1 = set_first(f0, 0, o0);
    let f2 = set_first(f1, 1, o1);
    let f3 = set_first(f2, 2, o2);
    let f4 = set_first(f3, 3, o3);
    let f5 = set_first(f4, 4, o4);
    let f6 = set_first(f5, 5, o5);
    let f7 = set_first(f6, j6, o6);
    let f8 = set_first(f7, 8, o8);
    let f9 = set_first(f8, 9, o9);
    assert forall|j: int| 0 <= j < 10 implies first_is(e, stbl_code_at(j), #[trigger] f0(j)) by {}
    assert forall|j: int| 0 <= j < 10 implies stbl_known(stbl_code_at(j)) by {
        lemma_stbl_code_at_distinct(j, if j == 0 { 1 } else { 0 });
    }
    assert(stbl_children_decode(e));
    assert(stbl_unknown(e) == Seq::<Seq<u8>>::empty());
    assert(ex(0) matches Some(k) ==> stbl_child_decodes(k.0, k.1));
    assert(ex(1) matches Some(k) ==> stbl_child_decodes(k.0, k.1));
    assert(ex(2) matches Some(k) ==> stbl_child_decodes(k.0, k.1));
    assert(ex(3) matches Some(k) ==> stbl_child_decodes(k.0, k.1));
    assert(ex(4) matches Some(k) ==> stbl_child_decodes(k.0, k.1));
    assert(ex(5) matches Some(k) ==> stbl_child_decodes(k.0, k.1));
    assert(ex(j6) matches Some(k) ==> stbl_child_decodes(k.0, k.1));
    assert(ex(8) matches Some(k) ==> stbl_child_decodes(k.0, k.1));
    assert(ex(9) matches Some(k) ==> stbl_child_decodes(k.0, k.1));
    assert(first_is(e, stbl_code_at(0), f0(0)));
    lemma_stbl_decode_push_opt(e, o0, stbl_code_at(0));
    lemma_stbl_firsts_push_opt(e, f0, o0, 0);
    assert(first_is(k0, stbl_code_at(1), f1(1)));
    lemma_stbl_decode_push_opt(k0, o1, stbl_code_at(1));
    lemma_stbl_firsts_push_opt(k0, f1, o1, 1);
    assert(first_is(k1, stbl_code_at(2), f2(2)));
    lemma_stbl_decode_push_opt(k1, o2, stbl_code_at(2));
    lemma_stbl_firsts_push_opt(k1, f2, o2, 2);
    assert(first_is(k2, stbl_code_at(3), f3(3)));
    lemma_stbl_decode_push_opt(k2, o3, stbl_code_at(3));
    lemma_stbl_firsts_push_opt(k2, f3, o3, 3);
    assert(first_is(k3, stbl_code_at(4), f4(4)));
    lemma_stbl_decode_push_opt(k3, o4, stbl_code_at(4));
    lemma_stbl_firsts_push_opt(k3, f4, o4, 4);
    assert(first_is(k4, stbl_code_at(5), f5(5)));
    lemma_stbl_decode_push_opt(k4, o5, stbl_code_at(5));
    lemma_stbl_firsts_push_opt(k4, f5, o5, 5);
    assert(first_is(k5, stbl_code_at(j6), f6(j6)));
    lemma_stbl_decode_push_opt(k5, o6, stbl_code_at(j6));
    lemma_stbl_firsts_push_opt(k5, f6, o6, j6);
    assert(first_is(k6, stbl_code_at(8), f7(8)));
    lemma_stbl_decode_push_opt(k6, o8, stbl_code_at(8));
    lemma_stbl_firsts_push_opt(k6, f7, o8, 8);
    assert(first_is(k7, stbl_code_at(9), f8(9)));
    lemma_stbl_decode_push_opt(k7, o9, stbl_code_at(9));
    lemma_stbl_firsts_push_opt(k7, f8, o9, 9);
    assert forall|j: int| 0 <= j < 10 implies first_is(stbl_head(b), stbl_code_at(j), #[trigger] ex(j)) by {
        assert(first_is(k8, stbl_code_at(j), f9(j)));
        assert(f9(j) == ex(j));
    }
}

/// Each interpreted child in the encoding of `b` decodes as its type, to its field.
#[verifier::spinoff_prover]
#[verifier::rlimit(60)]
proof fn lemma_stbl_kid_facts(b: StblBox)
    requires
        stbl_roundtrips(b),
    ensures
        stbl_kids_decode(b),
        stsd_matches(b.stsd_box, stsd_box_bytes(b.stsd_box)),
        stts_matches(b.stts_box, stts_box_bytes(b.stts_box.entries@)),
        b.ctts_box matches Some(c) ==> ctts_matches(c, ctts_box_bytes(c.version, c.entries@)),
        b.cslg_box matches Some(c) ==> cslg_matches(c, cslg_box_bytes(c)),
        stsc_matches(b.stsc_box, stsc_box_bytes(b.stsc_box.entries@)),
        stsz_matches(b.stsz_box, stsz_box_bytes(b.stsz_box)),
        b.stco_or_co64_box matches Either::A(x) ==> stco_matches(x, stco_box_bytes(x.chunk_offsets@)),
        b.stco_or_co64_box matches Either::B(y) ==> co64_matches(y, co64_box_bytes(y.chunk_offsets@)),
        b.stss_box matches Some(x) ==> stss_matches(x, stss_box_bytes(x.sample_numbers@)),
        b.sdtp_box matches Some(x) ==> sdtp_matches(x, sdtp_box_bytes(x.entries@)),
{
    lemma_stbl_codes_distinct();
    lemma_stsd_codec_roundtrip(b.stsd_box);
    lemma_stts_codec_roundtrip(b.stts_box.entries@);
    if let Some(c) = b.ctts_box {
        lemma_ctts_codec_roundtrip(c.version, c.entries@);
    }
    if let Some(c) = b.cslg_box {
        lemma_cslg_codec_roundtrip(c);
    }
    lemma_stsc_codec_roundtrip(b.stsc_box.entries@);
    lemma_stsz_codec_roundtrip(b.stsz_box);
    match b.stco_or_co64_box {
        Either::A(x) => {
            lemma_stco_codec_roundtrip(x.chunk_offsets@);
        },
        Either::B(y) => {
            lemma_co64_codec_roundtrip(y.chunk_offsets@);
        },
    }
    if let Some(x) = b.stss_box {
        lemma_stss_codec_roundtrip(x.sample_numbers@);
    }
    if let Some(x) = b.sdtp_box {
        lemma_sdtp_codec_roundtrip(x.entries@);
    }
    let ex = stbl_expected(b);
    assert forall|j: int| 0 <= j < 10 implies (#[trigger] ex(j) matches Some(k) ==> stbl_child_decodes(k.0, k.1)) by {}
}

/// Unknown children after the interpreted ones change neither what is
/// interpreted nor the first child of an interpreted type, and are kept raw.
proof fn lemma_stbl_tail(cs: Kids, us: Seq<UnknownBox>)
    requires
        forall|i: int| 0 <= i < us.len() ==> !stbl_known(box_type_bytes(#[trigger] us[i].box_type)),
    ensures
        stbl_children_decode(cs + unknown_kids(us)) == stbl_children_decode(cs),
        stbl_unknown(cs + unknown_kids(us)) == stbl_unknown(cs) + unknown_kids(us).map_values(
            |c: (Seq<u8>, Seq<u8>)| c.1,
        ),
        forall|c: Seq<u8>| stbl_known(c) ==> first_index(cs + unknown_kids(us), c) == #[trigger] first_index(cs, c),
    decreases us.len(),
{
    let f = |c: (Seq<u8>, Seq<u8>)| c.1;
    if us.len() == 0 {
        assert(cs + unknown_kids(us) =~= cs);
        assert(stbl_unknown(cs) + unknown_kids(us).map_values(f) =~= stbl_unknown(cs));
    } else {
        let pre = us.drop_last();
        lemma_stbl_tail(cs, pre);
        let x = (box_type_bytes(us.last().box_type), crate::codec::unknown_box_bytes(us.last()));
        let a = cs + unknown_kids(pre);
        assert(cs + unknown_kids(us) =~= a.push(x));
        lemma_stbl_push(a, x);
        assert(!stbl_known(x.0));
        assert forall|c: Seq<u8>| stbl_known(c) implies first_index(cs + unknown_kids(us), c) == #[trigger] first_index(
            cs,
            c,
        ) by {
            crate::boxes_moov_tree::lemma_first_index_push(a, x, c);
        }
        assert(unknown_kids(us).map_values(f) =~= unknown_kids(pre).map_values(f).push(x.1));
        assert(stbl_unknown(cs + unknown_kids(us)) =~= stbl_unknown(cs) + unknown_kids(us).map_values(f));
    }
}

/// `first_is` of interpreted types carries over to a list extended after the children.
proof fn lemma_first_is_extend(cs: Kids, more: Kids, code: Seq<u8>, o: Option<(Seq<u8>, Seq<u8>)>)
    requires
        first_is(cs, code, o),
        first_index(cs + more, code) == first_index(cs, code),
    ensures
        first_is(cs + more, code, o),
{
    if let Some(k) = o {
        assert((cs + more)[first_index(cs, code).unwrap()] == k);
    }
}

/// Decoding an encoded `stbl` box gives the box back, at its full size.
#[verifier::spinoff_prover]
#[verifier::rlimit(60)]
pub proof fn lemma_stbl_codec_roundtrip(b: StblBox)
    requires
        stbl_roundtrips(b),
    ensures
        stbl_decodable(stbl_box_bytes(b)),
        stbl_decoded(stbl_box_bytes(b), b, stbl_box_bytes(b).len()),
        closed_box(stbl_box_bytes(b), stbl_code()),
{
    reveal(stbl_decodable);
    reveal(stbl_decoded);
    lemma_stbl_kids_closed(b);
    lemma_stbl_kid_facts(b);
    lemma_stbl_chain(b);
    let head = stbl_head(b);
    let tail = unknown_kids(b.unknown_boxes@);
    let cs = stbl_kids(b);
    lemma_stbl_tail(head, b.unknown_boxes@);
    lemma_unknowns_match(b.unknown_boxes@, tail);
    assert(stbl_unknown(cs) =~= tail.map_values(|c: (Seq<u8>, Seq<u8>)| c.1));
    let ex = stbl_expected(b);
    assert forall|j: int| 0 <= j < 10 implies first_is(cs, stbl_code_at(j), #[trigger] ex(j)) by {
        assert(first_is(head, stbl_code_at(j), ex(j)));
        lemma_stbl_code_at_distinct(j, if j == 0 { 1 } else { 0 });
        lemma_first_is_extend(head, tail, stbl_code_at(j), ex(j));
    }
    assert(first_is(cs, stsd_code(), ex(0)));
    assert(first_is(cs, stts_code(), ex(1)));
    assert(first_is(cs, ctts_code(), ex(2)));
    assert(first_is(cs, cslg_code(), ex(3)));
    assert(first_is(cs, stsc_code(), ex(4)));
    assert(first_is(cs, stsz_code(), ex(5)));
    assert(first_is(cs, stco_code(), ex(6)));
    assert(first_is(cs, co64_code(), ex(7)));
    assert(first_is(cs, stss_code(), ex(8)));
    assert(first_is(cs, sdtp_code(), ex(9)));
    assert(stbl_children(stbl_box_bytes(b)) == Some((cs, stbl_box_bytes(b).len())));
}

/// A four byte code as a number.
pub open spec fn code_word(c: Seq<u8>) -> int {
    c[0] * 0x100_0000 + c[1] * 0x1_0000 + c[2] * 0x100 + c[3]
}

/// A code whose number differs from those of the listed codes is not listed.
pub proof fn lemma_absent(c: Seq<u8>, codes: Seq<Seq<u8>>)
    requires
        forall|i: int| 0 <= i < codes.len() ==> code_word(#[trigger] codes[i]) != code_word(c),
    ensures
        !codes.contains(c),
{
    if codes.contains(c) {
        let i = choose|i: int| 0 <= i < codes.len() && codes[i] == c;
        assert(code_word(codes[i]) != code_word(c));
    }
}

/// A code is listed where it stands.
pub proof fn lemma_present(codes: Seq<Seq<u8>>, i: int)
    requires
        0 <= i < codes.len(),
    ensures
        codes.contains(codes[i]),
{
}

/// A code not among `all` is not among the codes of `some` that are all in `all`.
pub proof fn lemma_absent_sub(c: Seq<u8>, all: Seq<Seq<u8>>, some: Seq<Seq<u8>>)
    requires
        !all.contains(c),
        forall|j: int| 0 <= j < some.len() ==> all.contains(#[trigger] some[j]),
    ensures
        !some.contains(c),
{
    if some.contains(c) {
        let j = choose|j: int| 0 <= j < some.len() && some[j] == c;
        assert(all.contains(some[j]));
    }
}

/// The type code of a media header.
pub open spec fn media_header_code(h: MediaHeader) -> Seq<u8> {
    match h {
        MediaHeader::Smhd(_) => smhd_code(),
        MediaHeader::Vmhd(_) => vmhd_code(),
        MediaHeader::Sthd(_) => sthd_code(),
        MediaHeader::Nmhd(_) => nmhd_code(),
    }
}

/// The types that `minf` interprets.
pub open spec fn minf_codes() -> Seq<Seq<u8>> {
    seq![smhd_code(), vmhd_code(), sthd_code(), nmhd_code(), dinf_code(), stbl_type()]
}

/// The `minf` boxes whose encoding decodes back: `dinf` and `stbl` do, the
/// unknown children are well formed and of types `minf` does not interpret,
/// and the box fits 64 bit sizes.
pub open spec fn minf_roundtrips(b: MinfBox) -> bool {
    &&& dinf_roundtrips(b.dinf_box)
    &&& stbl_roundtrips(b.stbl_box)
    &&& crate::container_roundtrips::unknowns_keep(b.unknown_boxes@, minf_codes())
    &&& minf_box_bytes(b).len() + 32 <= u64::MAX
}

/// The media header of `minf` as children.
pub open spec fn media_header_kids(o: Option<MediaHeader>) -> Kids {
    match o {
        None => Seq::empty(),
        Some(h) => one_kid(media_header_code(h), media_header_bytes(h)),
    }
}

/// The children of `minf`: its media header, `dinf`, `stbl`, then its unknown children.
pub open spec fn minf_kids(b: MinfBox) -> Kids {
    media_header_kids(b.media_header) + one_kid(dinf_code(), dinf_box_bytes(b.dinf_box)) + one_kid(
        stbl_type(),
        stbl_box_bytes(b.stbl_box),
    ) + unknown_kids(b.unknown_boxes@)
}

/// The children of an encoded `minf` box read back as they were written.
#[verifier::spinoff_prover]
#[verifier::rlimit(60)]
proof fn lemma_minf_children(b: MinfBox)
    requires
        minf_roundtrips(b),
    ensures
        container_children(minf_box_bytes(b), minf_code()) == Some((minf_kids(b), minf_box_bytes(b).len())),
        closed_box(minf_box_bytes(b), minf_code()),
{
    let h = media_header_kids(b.media_header);
    let d = one_kid(dinf_code(), dinf_box_bytes(b.dinf_box));
    let t = one_kid(stbl_type(), stbl_box_bytes(b.stbl_box));
    let u = unknown_kids(b.unknown_boxes@);
    match b.media_header {
        None => {
            assert(kids_bytes(h) =~= Seq::<u8>::empty());
        },
        Some(x) => {
            lemma_one_kid(media_header_code(x), media_header_bytes(x));
        },
    }
    lemma_one_kid(dinf_code(), dinf_box_bytes(b.dinf_box));
    lemma_one_kid(stbl_type(), stbl_box_bytes(b.stbl_box));
    lemma_unknown_kids(b.unknown_boxes@);
    lemma_kids_bytes_append(h, d);
    lemma_kids_bytes_append(h + d, t);
    lemma_kids_bytes_append(h + d + t, u);
    assert(kids_bytes(minf_kids(b)) =~= minf_payload(b));
    reveal(minf_box_bytes);
    assert([0x6du8, 0x69, 0x6e, 0x66]@ =~= minf_code());
    lemma_box_bytes_len(BoxType::Normal([0x6du8, 0x69, 0x6e, 0x66]), minf_payload(b));
    assert([0x73u8, 0x6d, 0x68, 0x64]@ =~= smhd_code());
    assert([0x76u8, 0x6d, 0x68, 0x64]@ =~= vmhd_code());
    assert([0x73u8, 0x74, 0x68, 0x64]@ =~= sthd_code());
    assert([0x6eu8, 0x6d, 0x68, 0x64]@ =~= nmhd_code());
    assert(stbl_type() == stbl_code());
    lemma_dinf_codec_roundtrip(b.dinf_box);
    lemma_stbl_codec_roundtrip(b.stbl_box);
    let kids = minf_kids(b);
    if let Some(x) = b.media_header {
        lemma_kid_len(kids, 0);
        assert(kids[0] == h[0]);
        match x {
            MediaHeader::Smhd(_) => lemma_box_bytes_closed_all([0x73u8, 0x6d, 0x68, 0x64]),
            MediaHeader::Vmhd(_) => lemma_box_bytes_closed_all([0x76u8, 0x6d, 0x68, 0x64]),
            MediaHeader::Sthd(_) => lemma_box_bytes_closed_all([0x73u8, 0x74, 0x68, 0x64]),
            MediaHeader::Nmhd(_) => lemma_box_bytes_closed_all([0x6eu8, 0x6d, 0x68, 0x64]),
        }
    }
    assert forall|i: int| 0 <= i < kids.len() implies closed_box((#[trigger] kids[i]).1, kids[i].0) by {
        if i < h.len() {
            assert(kids[i] == h[i]);
        } else if i < h.len() + 2 {
        } else {
            assert(kids[i] == u[i - h.len() - 2]);
        }
    }
    lemma_container_kids([0x6du8, 0x69, 0x6e, 0x66], kids);
}

/// Decoding an encoded `minf` box gives the box back, at its full size.
#[verifier::spinoff_prover]
#[verifier::rlimit(60)]
pub proof fn lemma_minf_codec_roundtrip(b: MinfBox)
    requires
        minf_roundtrips(b),
    ensures
        minf_decodable(minf_box_bytes(b)),
        minf_decoded(minf_box_bytes(b), b, minf_box_bytes(b).len()),
        closed_box(minf_box_bytes(b), minf_code()),
{
    reveal(minf_decodable);
    reveal(minf_decoded);
    lemma_minf_children(b);
    let h = media_header_kids(b.media_header);
    let u = unknown_kids(b.unknown_boxes@);
    let cs = minf_kids(b);
    lemma_unknown_kids(b.unknown_boxes@);
    let n = h.len() as int;
    let mh = seq![smhd_code(), vmhd_code(), sthd_code(), nmhd_code()];
    let all = minf_codes();
    assert(code_word(smhd_code()) == 0x736d6864);
    assert(code_word(vmhd_code()) == 0x766d6864);
    assert(code_word(sthd_code()) == 0x73746864);
    assert(code_word(nmhd_code()) == 0x6e6d6864);
    assert(code_word(dinf_code()) == 0x64696e66);
    assert(code_word(stbl_type()) == 0x7374626c);
    lemma_absent(dinf_code(), mh);
    lemma_absent(stbl_type(), mh);
    lemma_absent(dinf_code(), seq![stbl_type()]);
    lemma_absent(stbl_type(), seq![dinf_code()]);
    assert(seq![dinf_code()][0] == dinf_code());
    assert(seq![stbl_type()][0] == stbl_type());
    if let Some(x) = b.media_header {
        assert(mh.contains(media_header_code(x))) by {
            match x {
                MediaHeader::Smhd(_) => lemma_present(mh, 0),
                MediaHeader::Vmhd(_) => lemma_present(mh, 1),
                MediaHeader::Sthd(_) => lemma_present(mh, 2),
                MediaHeader::Nmhd(_) => lemma_present(mh, 3),
            }
        }
        lemma_absent(media_header_code(x), seq![dinf_code()]);
        lemma_absent(media_header_code(x), seq![stbl_type()]);
        assert(cs[0] == h[0]);
        lemma_first_matching_at(cs, 0, is_media_header());
        lemma_media_header_roundtrip(x);
    } else {
    }
    assert forall|j: int| 0 <= j < mh.len() implies all.contains(#[trigger] mh[j]) by {
        lemma_present(all, j);
    }
    lemma_present(all, 4);
    lemma_present(all, 5);
    assert forall|i: int| n + 2 <= i < cs.len() implies !is_media_header()(#[trigger] cs[i].0) && !is_dinf()(
        cs[i].0,
    ) && !is_stbl()(cs[i].0) by {
        assert(cs[i] == u[i - n - 2]);
        let c = box_type_bytes(b.unknown_boxes@[i - n - 2].box_type);
        assert(!all.contains(c));
        lemma_absent_sub(c, all, mh);
        lemma_absent_sub(c, all, seq![dinf_code()]);
        lemma_absent_sub(c, all, seq![stbl_type()]);
    }
    assert(cs[n] == (dinf_code(), dinf_box_bytes(b.dinf_box)));
    assert(cs[n + 1] == (stbl_type(), stbl_box_bytes(b.stbl_box)));
    lemma_first_matching_at(cs, n, is_dinf());
    lemma_first_matching_at(cs, n + 1, is_stbl());
    lemma_dinf_codec_roundtrip(b.dinf_box);
    lemma_stbl_codec_roundtrip(b.stbl_box);
    if b.media_header is None {
        crate::container_roundtrips::lemma_first_matching_none(cs, is_media_header());
    }
    let interp = minf_interp(cs);
    lemma_raw_children_from(cs, interp, n + 2, cs.len() as int);
    assert(cs.subrange(n + 2, cs.len() as int) =~= u);
    lemma_unknowns_match(b.unknown_boxes@, u);
}

/// The types that `mdia` interprets.
pub open spec fn mdia_codes() -> Seq<Seq<u8>> {
    seq![mdhd_code(), hdlr_code(), minf_code()]
}

/// The `mdia` boxes whose encoding decodes back: the `mdhd` time scale is
/// not 0 and its language lower case, the `hdlr` name fits 32 bit sizes,
/// `minf` decodes back, the unknown children are well formed and of types
/// `mdia` does not interpret, and the box fits 64 bit sizes.
pub open spec fn mdia_roundtrips(b: MdiaBox) -> bool {
    &&& b.mdhd_box.timescale != 0
    &&& language_ok(b.mdhd_box.language)
    &&& b.hdlr_box.name@.len() <= u32::MAX
    &&& minf_roundtrips(b.minf_box)
    &&& crate::container_roundtrips::unknowns_keep(b.unknown_boxes@, mdia_codes())
    &&& mdia_box_bytes(b).len() + 32 <= u64::MAX
}

/// The children of `mdia`: `mdhd`, `hdlr`, `minf`, then its unknown children.
pub open spec fn mdia_kids(b: MdiaBox) -> Kids {
    one_kid(mdhd_code(), mdhd_box_bytes(b.mdhd_box)) + one_kid(hdlr_code(), hdlr_box_bytes(b.hdlr_box)) + one_kid(
        minf_code(),
        minf_box_bytes(b.minf_box),
    ) + unknown_kids(b.unknown_boxes@)
}

/// The children of an encoded `mdia` box read back as they were written.
#[verifier::spinoff_prover]
#[verifier::rlimit(60)]
proof fn lemma_mdia_children(b: MdiaBox)
    requires
        mdia_roundtrips(b),
    ensures
        container_children(mdia_box_bytes(b), mdia_code()) == Some((mdia_kids(b), mdia_box_bytes(b).len())),
        closed_box(mdia_box_bytes(b), mdia_code()),
{
    let a = one_kid(mdhd_code(), mdhd_box_bytes(b.mdhd_box));
    let h = one_kid(hdlr_code(), hdlr_box_bytes(b.hdlr_box));
    let m = one_kid(minf_code(), minf_box_bytes(b.minf_box));
    let u = unknown_kids(b.unknown_boxes@);
    lemma_one_kid(mdhd_code(), mdhd_box_bytes(b.mdhd_box));
    lemma_one_kid(hdlr_code(), hdlr_box_bytes(b.hdlr_box));
    lemma_one_kid(minf_code(), minf_box_bytes(b.minf_box));
    lemma_unknown_kids(b.unknown_boxes@);
    lemma_kids_bytes_append(a, h);
    lemma_kids_bytes_append(a + h, m);
    lemma_kids_bytes_append(a + h + m, u);
    assert(kids_bytes(mdia_kids(b)) =~= mdia_payload(b));
    reveal(mdia_box_bytes);
    assert([0x6du8, 0x64, 0x69, 0x61]@ =~= mdia_code());
    lemma_box_bytes_len(BoxType::Normal([0x6du8, 0x64, 0x69, 0x61]), mdia_payload(b));
    assert([0x6du8, 0x64, 0x68, 0x64]@ =~= mdhd_code());
    assert([0x68u8, 0x64, 0x6c, 0x72]@ =~= hdlr_code());
    lemma_box_bytes_closed_all([0x6du8, 0x64, 0x68, 0x64]);
    lemma_box_bytes_closed_all([0x68u8, 0x64, 0x6c, 0x72]);
    lemma_minf_codec_roundtrip(b.minf_box);
    let kids = mdia_kids(b);
    lemma_kid_len(kids, 0);
    lemma_kid_len(kids, 1);
    assert forall|i: int| 0 <= i < kids.len() implies closed_box((#[trigger] kids[i]).1, kids[i].0) by {
        if i >= 3 {
            assert(kids[i] == u[i - 3]);
        }
    }
    lemma_container_kids([0x6du8, 0x64, 0x69, 0x61], kids);
}

/// Decoding an encoded `mdia` box gives the box back, at its full size.
#[verifier::spinoff_prover]
#[verifier::rlimit(60)]
pub proof fn lemma_mdia_codec_roundtrip(b: MdiaBox)
    requires
        mdia_roundtrips(b),
    ensures
        mdia_decodable(mdia_box_bytes(b)),
        mdia_decoded(mdia_box_bytes(b), b, mdia_box_bytes(b).len()),
        closed_box(mdia_box_bytes(b), mdia_code()),
{
    reveal(mdia_decodable);
    reveal(mdia_decoded);
    lemma_mdia_children(b);
    let u = unknown_kids(b.unknown_boxes@);
    let cs = mdia_kids(b);
    lemma_unknown_kids(b.unknown_boxes@);
    let all = mdia_codes();
    assert(code_word(mdhd_code()) == 0x6d646864);
    assert(code_word(hdlr_code()) == 0x68646c72);
    assert(code_word(minf_code()) == 0x6d696e66);
    lemma_absent(hdlr_code(), seq![mdhd_code()]);
    lemma_absent(minf_code(), seq![mdhd_code()]);
    lemma_absent(minf_code(), seq![hdlr_code()]);
    assert(seq![mdhd_code()][0] == mdhd_code());
    assert(seq![hdlr_code()][0] == hdlr_code());
    assert(seq![minf_code()][0] == minf_code());
    lemma_present(all, 0);
    lemma_present(all, 1);
    lemma_present(all, 2);
    assert forall|i: int| 3 <= i < cs.len() implies !is_mdhd()(#[trigger] cs[i].0) && !is_hdlr()(cs[i].0)
        && !is_minf()(cs[i].0) by {
        assert(cs[i] == u[i - 3]);
        let c = box_type_bytes(b.unknown_boxes@[i - 3].box_type);
        assert(!all.contains(c));
        lemma_absent_sub(c, all, seq![mdhd_code()]);
        lemma_absent_sub(c, all, seq![hdlr_code()]);
        lemma_absent_sub(c, all, seq![minf_code()]);
    }
    lemma_first_matching_at(cs, 0, is_mdhd());
    lemma_first_matching_at(cs, 1, is_hdlr());
    lemma_first_matching_at(cs, 2, is_minf());
    lemma_mdhd_codec_roundtrip(b.mdhd_box);
    lemma_hdlr_codec_roundtrip(b.hdlr_box);
    lemma_minf_codec_roundtrip(b.minf_box);
    let interp = mdia_interp(cs);
    lemma_raw_children_from(cs, interp, 3, cs.len() as int);
    assert(cs.subrange(3, cs.len() as int) =~= u);
    lemma_unknowns_match(b.unknown_boxes@, u);
}

/// The types that `trak` interprets.
pub open spec fn trak_codes() -> Seq<Seq<u8>> {
    seq![tkhd_code(), edts_code(), mdia_code()]
}

/// The `trak` boxes whose encoding decodes back: `edts` and `mdia` do, the
/// unknown children are well formed and of types `trak` does not
/// interpret, and the box fits 64 bit sizes.
#[verifier::opaque]
pub open spec fn trak_roundtrips(b: TrakBox) -> bool {
    &&& (b.edts_box matches Some(e) ==> edts_roundtrips(e))
    &&& mdia_roundtrips(b.mdia_box)
    &&& crate::container_roundtrips::unknowns_keep(b.unknown_boxes@, trak_codes())
    &&& trak_box_bytes(b).len() + 32 <= u64::MAX
}

/// The children of `trak`: `tkhd`, `edts`, `mdia`, then its unknown children.
pub open spec fn trak_kids(b: TrakBox) -> Kids {
    one_kid(tkhd_code(), tkhd_box_bytes(b.tkhd_box)) + opt_kid(b.edts_box, edts_code(), |e: EdtsBox| edts_box_bytes(e))
        + one_kid(mdia_code(), mdia_box_bytes(b.mdia_box)) + unknown_kids(b.unknown_boxes@)
}

/// The children of an encoded `trak` box read back as they were written.
#[verifier::spinoff_prover]
#[verifier::rlimit(60)]
proof fn lemma_trak_children(b: TrakBox)
    requires
        trak_roundtrips(b),
    ensures
        container_children(trak_box_bytes(b), trak_code()) == Some((trak_kids(b), trak_box_bytes(b).len())),
        closed_box(trak_box_bytes(b), trak_code()),
{
    reveal(trak_roundtrips);
    let fe = |e: EdtsBox| edts_box_bytes(e);
    let a = one_kid(tkhd_code(), tkhd_box_bytes(b.tkhd_box));
    let e = opt_kid(b.edts_box, edts_code(), fe);
    let m = one_kid(mdia_code(), mdia_box_bytes(b.mdia_box));
    let u = unknown_kids(b.unknown_boxes@);
    lemma_one_kid(tkhd_code(), tkhd_box_bytes(b.tkhd_box));
    lemma_opt_kid(b.edts_box, edts_code(), fe);
    lemma_one_kid(mdia_code(), mdia_box_bytes(b.mdia_box));
    lemma_unknown_kids(b.unknown_boxes@);
    lemma_kids_bytes_append(a, e);
    lemma_kids_bytes_append(a + e, m);
    lemma_kids_bytes_append(a + e + m, u);
    assert(kids_bytes(trak_kids(b)) =~= trak_payload(b));
    reveal(trak_box_bytes);
    assert([0x74u8, 0x72, 0x61, 0x6b]@ =~= trak_code());
    lemma_box_bytes_len(BoxType::Normal([0x74u8, 0x72, 0x61, 0x6b]), trak_payload(b));
    assert([0x74u8, 0x6b, 0x68, 0x64]@ =~= tkhd_code());
    lemma_box_bytes_closed_all([0x74u8, 0x6b, 0x68, 0x64]);
    lemma_mdia_codec_roundtrip(b.mdia_box);
    if let Some(x) = b.edts_box {
        lemma_edts_codec_roundtrip(x);
    }
    let kids = trak_kids(b);
    let n = e.len() as int;
    lemma_kid_len(kids, 0);
    assert forall|i: int| 0 <= i < kids.len() implies closed_box((#[trigger] kids[i]).1, kids[i].0) by {
        if i == 0 {
        } else if i < 1 + n {
            assert(kids[i] == e[i - 1]);
        } else if i == 1 + n {
        } else {
            assert(kids[i] == u[i - 2 - n]);
        }
    }
    lemma_container_kids([0x74u8, 0x72, 0x61, 0x6b], kids);
}

/// Decoding an encoded `trak` box gives the box back, at its full size.
#[verifier::spinoff_prover]
#[verifier::rlimit(60)]
pub proof fn lemma_trak_codec_roundtrip(b: TrakBox)
    requires
        trak_roundtrips(b),
    ensures
        trak_decodable(trak_box_bytes(b)),
        trak_decoded(trak_box_bytes(b), b, trak_box_bytes(b).len()),
        closed_box(trak_box_bytes(b), trak_code()),
{
    reveal(trak_roundtrips);
    reveal(trak_decodable);
    reveal(trak_decoded);
    lemma_trak_children(b);
    let e = opt_kid(b.edts_box, edts_code(), |e: EdtsBox| edts_box_bytes(e));
    let u = unknown_kids(b.unknown_boxes@);
    let cs = trak_kids(b);
    lemma_unknown_kids(b.unknown_boxes@);
    let n = e.len() as int;
    let all = trak_codes();
    assert(code_word(tkhd_code()) == 0x746b6864);
    assert(code_word(edts_code()) == 0x65647473);
    assert(code_word(mdia_code()) == 0x6d646961);
    lemma_absent(edts_code(), seq![tkhd_code()]);
    lemma_absent(mdia_code(), seq![tkhd_code()]);
    lemma_absent(mdia_code(), seq![edts_code()]);
    lemma_absent(tkhd_code(), seq![edts_code()]);
    lemma_absent(tkhd_code(), seq![mdia_code()]);
    assert(seq![tkhd_code()][0] == tkhd_code());
    assert(seq![edts_code()][0] == edts_code());
    assert(seq![mdia_code()][0] == mdia_code());
    lemma_present(all, 0);
    lemma_present(all, 1);
    lemma_present(all, 2);
    assert forall|i: int| 2 + n <= i < cs.len() implies !is_tkhd()(#[trigger] cs[i].0) && !is_edts()(cs[i].0)
        && !is_mdia()(cs[i].0) by {
        assert(cs[i] == u[i - 2 - n]);
        let c = box_type_bytes(b.unknown_boxes@[i - 2 - n].box_type);
        assert(!all.contains(c));
        lemma_absent_sub(c, all, seq![tkhd_code()]);
        lemma_absent_sub(c, all, seq![edts_code()]);
        lemma_absent_sub(c, all, seq![mdia_code()]);
    }
    assert(cs[1 + n] == (mdia_code(), mdia_box_bytes(b.mdia_box)));
    lemma_first_matching_at(cs, 0, is_tkhd());
    lemma_first_matching_at(cs, 1 + n, is_mdia());
    match b.edts_box {
        None => {
            crate::container_roundtrips::lemma_first_matching_none(cs, is_edts());
        },
        Some(x) => {
            assert(cs[1] == e[0]);
            lemma_first_matching_at(cs, 1, is_edts());
            lemma_edts_codec_roundtrip(x);
        },
    }
    lemma_tkhd_codec_roundtrip(b.tkhd_box);
    lemma_mdia_codec_roundtrip(b.mdia_box);
    let interp = trak_interp(cs);
    lemma_raw_children_from(cs, interp, 2 + n, cs.len() as int);
    assert(cs.subrange(2 + n, cs.len() as int) =~= u);
    lemma_unknowns_match(b.unknown_boxes@, u);
}

/// The types that `moov` interprets.
pub open spec fn moov_codes() -> Seq<Seq<u8>> {
    seq![mvhd_code(), trak_code(), mvex_code()]
}

/// The `moov` boxes whose encoding decodes back: the `mvhd` time scale is
/// not 0, every `trak` and the `mvex` decode back, the unknown children are
/// well formed and of types `moov` does not interpret, and the box fits 64
/// bit sizes.
pub open spec fn moov_roundtrips(b: MoovBox) -> bool {
    &&& b.mvhd_box.timescale != 0
    &&& forall|i: int| 0 <= i < b.trak_boxes@.len() ==> trak_roundtrips(#[trigger] b.trak_boxes@[i])
    &&& (b.mvex_box matches Some(m) ==> mvex_roundtrips(m))
    &&& crate::container_roundtrips::unknowns_keep(b.unknown_boxes@, moov_codes())
    &&& moov_box_bytes(b).len() + 32 <= u64::MAX
}

/// The `trak` children of `moov`.
pub open spec fn trak_kids_of(b: MoovBox) -> Kids {
    code_kids(trak_code(), b.trak_boxes@.map_values(|t: TrakBox| trak_box_bytes(t)))
}

/// The children of `moov`: `mvhd`, the tracks, `mvex`, then its unknown children.
pub open spec fn moov_kids(b: MoovBox) -> Kids {
    one_kid(mvhd_code(), mvhd_box_bytes(b.mvhd_box)) + trak_kids_of(b) + opt_kid(
        b.mvex_box,
        mvex_code(),
        |m: MvexBox| mvex_box_bytes(m),
    ) + unknown_kids(b.unknown_boxes@)
}

/// The children of an encoded `moov` box read back as they were written.
#[verifier::spinoff_prover]
#[verifier::rlimit(60)]
proof fn lemma_moov_children(b: MoovBox)
    requires
        moov_roundtrips(b),
    ensures
        container_children(moov_box_bytes(b), moov_code()) == Some((moov_kids(b), moov_box_bytes(b).len())),
{
    let fm = |m: MvexBox| mvex_box_bytes(m);
    let recs = b.trak_boxes@.map_values(|t: TrakBox| trak_box_bytes(t));
    let a = one_kid(mvhd_code(), mvhd_box_bytes(b.mvhd_box));
    let t = trak_kids_of(b);
    let x = opt_kid(b.mvex_box, mvex_code(), fm);
    let u = unknown_kids(b.unknown_boxes@);
    lemma_one_kid(mvhd_code(), mvhd_box_bytes(b.mvhd_box));
    lemma_code_kids(trak_code(), recs);
    lemma_opt_kid(b.mvex_box, mvex_code(), fm);
    lemma_unknown_kids(b.unknown_boxes@);
    lemma_kids_bytes_append(a, t);
    lemma_kids_bytes_append(a + t, x);
    lemma_kids_bytes_append(a + t + x, u);
    assert(kids_bytes(moov_kids(b)) =~= moov_payload(b));
    assert([0x6du8, 0x6f, 0x6f, 0x76]@ =~= moov_code());
    lemma_box_bytes_len(BoxType::Normal([0x6du8, 0x6f, 0x6f, 0x76]), moov_payload(b));
    assert([0x6du8, 0x76, 0x68, 0x64]@ =~= mvhd_code());
    lemma_box_bytes_closed_all([0x6du8, 0x76, 0x68, 0x64]);
    if let Some(m) = b.mvex_box {
        lemma_mvex_codec_roundtrip(m);
    }
    let kids = moov_kids(b);
    let nt = t.len() as int;
    lemma_kid_len(kids, 0);
    assert forall|i: int| 0 <= i < kids.len() implies closed_box((#[trigger] kids[i]).1, kids[i].0) by {
        if i == 0 {
        } else if i < 1 + nt {
            assert(kids[i] == t[i - 1]);
            lemma_trak_codec_roundtrip(b.trak_boxes@[i - 1]);
        } else if i < 1 + nt + x.len() {
            assert(kids[i] == x[i - 1 - nt]);
        } else {
            assert(kids[i] == u[i - 1 - nt - x.len()]);
        }
    }
    lemma_container_kids([0x6du8, 0x6f, 0x6f, 0x76], kids);
}

/// Where each interpreted type stands among the children of an encoded `moov` box.
#[verifier::spinoff_prover]
proof fn lemma_moov_kinds(b: MoovBox)
    requires
        moov_roundtrips(b),
    ensures
        ({
            let cs = moov_kids(b);
            let nt = b.trak_boxes@.len() as int;
            let e = 1 + nt + (if b.mvex_box is Some { 1int } else { 0int });
            &&& cs.len() == e + b.unknown_boxes@.len()
            &&& is_mvhd()(cs[0].0) && !is_trak()(cs[0].0) && !is_mvex()(cs[0].0)
            &&& forall|i: int| 1 <= i < 1 + nt ==> is_trak()(#[trigger] cs[i].0) && !is_mvhd()(cs[i].0) && !is_mvex()(cs[i].0)
            &&& forall|i: int| 1 + nt <= i < e ==> !is_trak()(#[trigger] cs[i].0) && !is_mvhd()(cs[i].0) && is_mvex()(cs[i].0)
            &&& forall|i: int| e <= i < cs.len() ==> !is_mvhd()(#[trigger] cs[i].0) && !is_trak()(cs[i].0) && !is_mvex()(cs[i].0)
        }),
{
    let recs = b.trak_boxes@.map_values(|t: TrakBox| trak_box_bytes(t));
    let t = trak_kids_of(b);
    let x = opt_kid(b.mvex_box, mvex_code(), |m: MvexBox| mvex_box_bytes(m));
    let u = unknown_kids(b.unknown_boxes@);
    let cs = moov_kids(b);
    lemma_code_kids(trak_code(), recs);
    lemma_unknown_kids(b.unknown_boxes@);
    let nt = t.len() as int;
    let e = 1 + nt + x.len();
    let all = moov_codes();
    assert(code_word(mvhd_code()) == 0x6d766864);
    assert(code_word(trak_code()) == 0x7472616b);
    assert(code_word(mvex_code()) == 0x6d766578);
    lemma_absent(trak_code(), seq![mvhd_code()]);
    lemma_absent(mvex_code(), seq![mvhd_code()]);
    lemma_absent(mvex_code(), seq![trak_code()]);
    lemma_absent(mvhd_code(), seq![trak_code()]);
    lemma_absent(mvhd_code(), seq![mvex_code()]);
    lemma_absent(trak_code(), seq![mvex_code()]);
    assert(seq![mvhd_code()][0] == mvhd_code());
    assert(seq![trak_code()][0] == trak_code());
    assert(seq![mvex_code()][0] == mvex_code());
    lemma_present(all, 0);
    lemma_present(all, 1);
    lemma_present(all, 2);
    assert forall|i: int| e <= i < cs.len() implies !is_mvhd()(#[trigger] cs[i].0) && !is_trak()(cs[i].0)
        && !is_mvex()(cs[i].0) by {
        assert(cs[i] == u[i - e]);
        let c = box_type_bytes(b.unknown_boxes@[i - e].box_type);
        assert(!all.contains(c));
        lemma_absent_sub(c, all, seq![mvhd_code()]);
        lemma_absent_sub(c, all, seq![trak_code()]);
        lemma_absent_sub(c, all, seq![mvex_code()]);
    }
    assert forall|i: int| 1 <= i < 1 + nt implies is_trak()(#[trigger] cs[i].0) && !is_mvhd()(cs[i].0)
        && !is_mvex()(cs[i].0) by {
        assert(cs[i] == t[i - 1]);
    }
    assert forall|i: int| 1 + nt <= i < e implies !is_trak()(#[trigger] cs[i].0) && !is_mvhd()(cs[i].0)
        && is_mvex()(cs[i].0) by {
        assert(cs[i] == x[i - 1 - nt]);
    }
}

/// The tracks of an encoded `moov` box decode back, in order.
#[verifier::spinoff_prover]
#[verifier::rlimit(60)]
proof fn lemma_moov_traks(b: MoovBox)
    requires
        moov_roundtrips(b),
    ensures
        list_matches(
            b.trak_boxes@,
            children_matching(moov_kids(b), moov_kids(b).len() as int, is_trak()),
            |x: TrakBox, c: Seq<u8>| trak_decoded(c, x, c.len()),
        ),
        all_decode(moov_kids(b), is_trak(), |c: Seq<u8>| trak_decodable(c)),
{
    lemma_moov_kinds(b);
    let recs = b.trak_boxes@.map_values(|t: TrakBox| trak_box_bytes(t));
    let t = trak_kids_of(b);
    let cs = moov_kids(b);
    lemma_code_kids(trak_code(), recs);
    let nt = t.len() as int;
    let e = 1 + nt + (if b.mvex_box is Some { 1int } else { 0int });
    assert forall|i: int| 0 <= i < 1 implies !is_trak()(#[trigger] cs[i].0) by {}
    assert forall|i: int| 1 + nt <= i < cs.len() implies !is_trak()(#[trigger] cs[i].0) by {
        if i < e {
        } else {
        }
    }
    lemma_children_matching_range(cs, is_trak(), 1, 1 + nt, cs.len() as int);
    assert(cs.subrange(1, 1 + nt).map_values(|c: (Seq<u8>, Seq<u8>)| c.1) =~= recs) by {
        assert forall|i: int| 0 <= i < nt implies cs[1 + i] == t[i] by {}
    }
    assert forall|i: int| 0 <= i < recs.len() implies trak_decoded(
        recs[i],
        #[trigger] b.trak_boxes@[i],
        recs[i].len(),
    ) by {
        lemma_trak_codec_roundtrip(b.trak_boxes@[i]);
    }
    assert forall|i: int| 0 <= i < cs.len() && is_trak()((#[trigger] cs[i]).0) implies trak_decodable(cs[i].1) by {
        if 1 <= i < 1 + nt {
            assert(cs[i] == t[i - 1]);
            lemma_trak_codec_roundtrip(b.trak_boxes@[i - 1]);
        }
    }
}

/// The first `mvhd` and `mvex` of an encoded `moov` box are its own.
#[verifier::spinoff_prover]
#[verifier::rlimit(60)]
proof fn lemma_moov_firsts(b: MoovBox)
    requires
        moov_roundtrips(b),
    ensures
        first_matching(moov_kids(b), is_mvhd()) == Some(0int),
        moov_kids(b)[0].1 == mvhd_box_bytes(b.mvhd_box),
        match b.mvex_box {
            None => first_matching(moov_kids(b), is_mvex()) is None,
            Some(m) => first_matching(moov_kids(b), is_mvex()) == Some(1 + b.trak_boxes@.len() as int)
                && moov_kids(b)[1 + b.trak_boxes@.len() as int].1 == mvex_box_bytes(m),
        },
{
    lemma_moov_kinds(b);
    let cs = moov_kids(b);
    let nt = b.trak_boxes@.len() as int;
    lemma_code_kids(trak_code(), b.trak_boxes@.map_values(|t: TrakBox| trak_box_bytes(t)));
    lemma_first_matching_at(cs, 0, is_mvhd());
    match b.mvex_box {
        None => {
            crate::container_roundtrips::lemma_first_matching_none(cs, is_mvex());
        },
        Some(m) => {
            lemma_first_matching_at(cs, 1 + nt, is_mvex());
        },
    }
}

/// The unknown children of an encoded `moov` box come back raw.
#[verifier::spinoff_prover]
#[verifier::rlimit(60)]
proof fn lemma_moov_raw(b: MoovBox)
    requires
        moov_roundtrips(b),
    ensures
        unknown_list_matches(
            b.unknown_boxes@,
            raw_children(moov_kids(b), moov_kids(b).len() as int, moov_interp(moov_kids(b))),
        ),
{
    lemma_moov_kinds(b);
    lemma_moov_firsts(b);
    let u = unknown_kids(b.unknown_boxes@);
    let cs = moov_kids(b);
    lemma_unknown_kids(b.unknown_boxes@);
    lemma_code_kids(trak_code(), b.trak_boxes@.map_values(|t: TrakBox| trak_box_bytes(t)));
    let nt = b.trak_boxes@.len() as int;
    let e = 1 + nt + (if b.mvex_box is Some { 1int } else { 0int });
    let interp = moov_interp(cs);
    assert forall|i: int| 0 <= i < e implies #[trigger] interp(i) by {}
    assert forall|i: int| e <= i < cs.len() implies !#[trigger] interp(i) by {}
    lemma_raw_children_from(cs, interp, e, cs.len() as int);
    assert(cs.subrange(e, cs.len() as int) =~= u);
    lemma_unknowns_match(b.unknown_boxes@, u);
}

/// Decoding an encoded `moov` box gives the box back, at its full size.
#[verifier::spinoff_prover]
#[verifier::rlimit(60)]
pub proof fn lemma_moov_codec_roundtrip(b: MoovBox)
    requires
        moov_roundtrips(b),
    ensures
        moov_decodable(moov_box_bytes(b)),
        moov_decoded(moov_box_bytes(b), b, moov_box_bytes(b).len()),
{
    reveal(moov_decodable);
    reveal(moov_decoded);
    lemma_moov_children(b);
    lemma_moov_firsts(b);
    lemma_moov_traks(b);
    lemma_moov_raw(b);
    lemma_mvhd_codec_roundtrip(b.mvhd_box);
    if let Some(m) = b.mvex_box {
        lemma_mvex_codec_roundtrip(m);
    }
}

} // verus!
