//! Decoding of the container boxes of the movie tree (`moov`, `trak`,
//! `edts`, `mdia`, `minf`, `dinf`, `dref`, `mvex`): each splits its payload
//! into child boxes, interprets the first child of each type it holds (all
//! children of the types it holds a list of), and keeps the other children raw.
use vstd::prelude::*;

use crate::boxes::{BoxType, UnknownBox};
use crate::boxes_moov_tree::{
    full_box_header,
    box_payload_of, box_payload_range, stbl_decodable, stbl_decoded, type_is, unknown_list_matches, DinfBox,
    DrefBox, EdtsBox, ElstBox, HdlrBox, MdhdBox, MdiaBox, MediaHeader, MinfBox, MoovBox, MvexBox, MvhdBox,
    MehdBox, NmhdBox, SmhdBox, StblBox, SthdBox, TkhdBox, TrakBox, TrexBox, UrlBox, VmhdBox,
};
use crate::header_boxes::{
    elst_code, elst_decode_spec, fixed_decode_spec, nmhd_code, same_widths, smhd_code, smhd_widths, sthd_code,
    url_code, url_decode_spec, url_location_view, vmhd_code, vmhd_matches, hdlr_code, hdlr_decode_spec,
    mdhd_code, mdhd_decode_spec, mdhd_matches, mehd_code, mehd_decode_spec, mvhd_code, mvhd_decode_spec,
    mvhd_matches, tkhd_code, tkhd_decode_spec, tkhd_matches, trex_code, trex_matches, elst_box_bytes,
    mehd_box_bytes, smhd_box_bytes, trex_box_bytes, url_box_bytes, vmhd_box_bytes,
};
use crate::nal::be_value;
use crate::codec::{
    box_header_spec, box_type_bytes, decode_box_header, lemma_box_header_bounds, lemma_box_header_prefix,
    prepend_boxes, split_boxes, take_boxes, unknown_matches, box_bytes, concat_records, encode_unknown_boxes,
    lemma_be_bytes_len, lemma_concat_records_push, put_be, put_box, put_bytes, unknown_boxes_bytes,
};
use crate::nal::be_bytes;
use crate::error::{Error, ErrorKind};

verus! {

/// Box type codes.
pub type Codes = Seq<Seq<u8>>;

/// Children as (type code, box bytes).
pub type Children = Seq<(Seq<u8>, Seq<u8>)>;

/// Whether a type code is among `codes`.
pub open spec fn in_codes(codes: Codes) -> spec_fn(Seq<u8>) -> bool {
    |c: Seq<u8>| codes.contains(c)
}

/// The index of the first child whose type satisfies `pred`.
pub open spec fn first_matching(cs: Children, pred: spec_fn(Seq<u8>) -> bool) -> Option<int>
    decreases cs.len(),
{
    if cs.len() == 0 {
        None
    } else {
        match first_matching(cs.drop_last(), pred) {
            Some(i) => Some(i),
            None => if pred(cs.last().0) {
                Some(cs.len() - 1)
            } else {
                None
            },
        }
    }
}

/// Whether `o` holds child `pick` as `m` relates them, and is `None` when
/// there is no such child.
pub open spec fn slot<T>(o: Option<T>, cs: Children, pick: Option<int>, m: spec_fn(T, Seq<u8>) -> bool) -> bool {
    match pick {
        None => o is None,
        Some(i) => o matches Some(x) && m(x, cs[i].1),
    }
}

/// The bytes of the children among the first `k` that `interp` does not
/// interpret, in order.
pub open spec fn raw_children(cs: Children, k: int, interp: spec_fn(int) -> bool) -> Seq<Seq<u8>>
    decreases k,
{
    if k <= 0 {
        Seq::empty()
    } else {
        let pre = raw_children(cs, k - 1, interp);
        if interp(k - 1) {
            pre
        } else {
            pre.push(cs[k - 1].1)
        }
    }
}

/// The bytes of the children among the first `k` whose type satisfies `pred`, in order.
pub open spec fn children_matching(cs: Children, k: int, pred: spec_fn(Seq<u8>) -> bool) -> Seq<Seq<u8>>
    decreases k,
{
    if k <= 0 {
        Seq::empty()
    } else {
        let pre = children_matching(cs, k - 1, pred);
        if pred(cs[k - 1].0) {
            pre.push(cs[k - 1].1)
        } else {
            pre
        }
    }
}

/// The children of the container box of type `code` at the start of `s`,
/// and its size.
pub open spec fn container_children(s: Seq<u8>, code: Seq<u8>) -> Option<(Children, nat)> {
    match box_payload_of(s, code) {
        None => None,
        Some((p, size)) => match split_boxes(p) {
            None => None,
            Some(cs) => Some((cs, size)),
        },
    }
}

/// The four character codes as byte strings.
pub open spec fn codes_view(codes: Seq<[u8; 4]>) -> Codes {
    codes.map_values(|c: [u8; 4]| c@)
}

/// Exec children as type codes and bytes.
pub open spec fn children_view(v: Seq<(BoxType, &[u8])>) -> Children {
    v.map_values(|c: (BoxType, &[u8])| (box_type_bytes(c.0), c.1@))
}

/// Whether each child is a whole box whose header reads with its type.
pub open spec fn children_whole(v: Seq<(BoxType, &[u8])>) -> bool {
    forall|i: int|
        0 <= i < v.len() ==> (box_header_spec((#[trigger] v[i]).1@) matches Some((c, _, size)) && c
            == box_type_bytes(v[i].0) && size == v[i].1@.len())
}

/// `first_matching` of a prefix grown by one child.
pub proof fn lemma_first_matching_push(cs: Children, k: int, pred: spec_fn(Seq<u8>) -> bool)
    requires
        0 <= k < cs.len(),
    ensures
        first_matching(cs.take(k + 1), pred) == match first_matching(cs.take(k), pred) {
            Some(i) => Some(i),
            None => if pred(cs[k].0) {
                Some(k)
            } else {
                None
            },
        },
{
    assert(cs.take(k + 1).drop_last() =~= cs.take(k));
}

/// A child found in a prefix stays the first in the whole list.
pub proof fn lemma_first_matching_extend(cs: Children, k: int, pred: spec_fn(Seq<u8>) -> bool)
    requires
        0 <= k <= cs.len(),
        first_matching(cs.take(k), pred) is Some,
    ensures
        first_matching(cs, pred) == first_matching(cs.take(k), pred),
    decreases cs.len() - k,
{
    if k < cs.len() {
        lemma_first_matching_push(cs, k, pred);
        lemma_first_matching_extend(cs, k + 1, pred);
    } else {
        assert(cs.take(k) =~= cs);
    }
}

/// `first_matching` points at a matching child.
pub proof fn lemma_first_matching_bounds(cs: Children, pred: spec_fn(Seq<u8>) -> bool)
    ensures
        first_matching(cs, pred) matches Some(i) ==> 0 <= i < cs.len() && pred(cs[i].0),
    decreases cs.len(),
{
    if cs.len() > 0 {
        lemma_first_matching_bounds(cs.drop_last(), pred);
    }
}

/// Whether the box type is one of `codes`.
fn codes_match(t: &BoxType, codes: &[[u8; 4]]) -> (r: bool)
    ensures
        r == in_codes(codes_view(codes@))(box_type_bytes(*t)),
{
    let mut j: usize = 0;
    while j < codes.len()
        invariant
            j <= codes@.len(),
            forall|i: int| 0 <= i < j ==> (#[trigger] codes@[i])@ != box_type_bytes(*t),
        decreases codes@.len() - j,
    {
        if type_is(t, codes[j]) {
            proof {
                assert(codes_view(codes@)[j as int] == box_type_bytes(*t));
            }
            return true;
        }
        j += 1;
    }
    proof {
        if codes_view(codes@).contains(box_type_bytes(*t)) {
            let i = choose|i: int| 0 <= i < codes_view(codes@).len() && codes_view(codes@)[i] == box_type_bytes(*t);
            assert(codes@[i]@ == codes_view(codes@)[i]);
        }
    }
    false
}

/// The index of the first child whose type is one of `codes`.
fn find_first(v: &Vec<(BoxType, &[u8])>, codes: &[[u8; 4]]) -> (r: Option<usize>)
    ensures
        match r {
            None => first_matching(children_view(v@), in_codes(codes_view(codes@))) is None,
            Some(i) => first_matching(children_view(v@), in_codes(codes_view(codes@))) == Some(i as int),
        },
{
    let ghost cs = children_view(v@);
    let ghost pred = in_codes(codes_view(codes@));
    let mut k: usize = 0;
    proof {
        assert(cs.take(0) =~= Seq::<(Seq<u8>, Seq<u8>)>::empty());
    }
    while k < v.len()
        invariant
            cs == children_view(v@),
            pred == in_codes(codes_view(codes@)),
            k <= v@.len(),
            first_matching(cs.take(k as int), pred) is None,
        decreases v@.len() - k,
    {
        let m = codes_match(&v[k].0, codes);
        proof {
            lemma_first_matching_push(cs, k as int, pred);
        }
        if m {
            proof {
                lemma_first_matching_extend(cs, k + 1, pred);
            }
            return Some(k);
        }
        k += 1;
    }
    proof {
        assert(cs.take(k as int) =~= cs);
    }
    None
}

/// Splits a payload into the boxes that fill it.
fn split_children(p: &[u8]) -> (r: Result<Vec<(BoxType, &[u8])>, Error>)
    ensures
        r is Ok <==> split_boxes(p@) is Some,
        r matches Ok(v) ==> children_view(v@) == split_boxes(p@).unwrap() && children_whole(v@),
        r matches Err(e) ==> e.kind == ErrorKind::InvalidData,
{
    let ghost mut done: Children = Seq::empty();
    proof {
        assert(p@.subrange(0, p@.len() as int) =~= p@);
        match split_boxes(p@) {
            None => {},
            Some(r) => {
                assert(done + r =~= r);
            },
        }
    }
    let mut out: Vec<(BoxType, &[u8])> = Vec::new();
    let mut offset: usize = 0;
    let plen = p.len();
    while offset < p.len()
        invariant
            offset <= p@.len(),
            p@.len() == plen,
            split_boxes(p@) == prepend_boxes(done, split_boxes(p@.subrange(offset as int, p@.len() as int))),
            children_view(out@) == done,
            children_whole(out@),
        decreases p@.len() - offset,
    {
        let rest = &p[offset..p.len()];
        proof {
            assert(rest@ == p@.subrange(offset as int, p@.len() as int));
        }
        let (t, _hl, size) = match decode_box_header(rest) {
            Ok(h) => h,
            Err(e) => {
                proof {
                    assert(split_boxes(rest@) is None);
                }
                return Err(e);
            },
        };
        proof {
            lemma_box_header_bounds(rest@);
            lemma_box_header_prefix(rest@);
        }
        let child = &rest[0..size];
        let ghost x = (box_type_bytes(t), child@);
        proof {
            assert(child@ == rest@.subrange(0, size as int));
            assert(rest@.subrange(size as int, rest@.len() as int) =~= p@.subrange(offset + size, p@.len() as int));
            match split_boxes(p@.subrange(offset + size, p@.len() as int)) {
                None => {},
                Some(r) => {
                    assert(done + (seq![x] + r) =~= done.push(x) + r);
                },
            }
        }
        let ghost before = out@;
        out.push((t, child));
        proof {
            assert(children_view(out@) =~= children_view(before).push(x));
            done = done.push(x);
            assert forall|i: int| 0 <= i < out@.len() implies (box_header_spec((#[trigger] out@[i]).1@) matches Some(
                (c, _, size),
            ) && c == box_type_bytes(out@[i].0) && size == out@[i].1@.len()) by {
                if i < before.len() {
                    assert(out@[i] == before[i]);
                }
            }
        }
        offset = offset + size;
    }
    proof {
        assert(done + Seq::<(Seq<u8>, Seq<u8>)>::empty() =~= done);
    }
    Ok(out)
}

/// Reads `count` boxes one after another from the start of `q`.
fn take_children(q: &[u8], count: u64) -> (r: Result<Vec<(BoxType, &[u8])>, Error>)
    ensures
        r is Ok <==> take_boxes(q@, count as nat) is Some,
        r matches Ok(v) ==> children_view(v@) == take_boxes(q@, count as nat).unwrap() && children_whole(v@),
        r matches Err(e) ==> e.kind == ErrorKind::InvalidData,
{
    let ghost mut done: Children = Seq::empty();
    proof {
        assert(q@.subrange(0, q@.len() as int) =~= q@);
        match take_boxes(q@, count as nat) {
            None => {},
            Some(r) => {
                assert(done + r =~= r);
            },
        }
    }
    let mut out: Vec<(BoxType, &[u8])> = Vec::new();
    let mut offset: usize = 0;
    let mut k: u64 = 0;
    let qlen = q.len();
    while k < count
        invariant
            offset <= q@.len(),
            q@.len() == qlen,
            k <= count,
            take_boxes(q@, count as nat) == prepend_boxes(
                done,
                take_boxes(q@.subrange(offset as int, q@.len() as int), (count - k) as nat),
            ),
            children_view(out@) == done,
            children_whole(out@),
        decreases count - k,
    {
        let rest = &q[offset..q.len()];
        proof {
            assert(rest@ == q@.subrange(offset as int, q@.len() as int));
        }
        let (t, _hl, size) = match decode_box_header(rest) {
            Ok(h) => h,
            Err(e) => {
                proof {
                    assert(take_boxes(rest@, (count - k) as nat) is None);
                }
                return Err(e);
            },
        };
        proof {
            lemma_box_header_bounds(rest@);
            lemma_box_header_prefix(rest@);
        }
        let child = &rest[0..size];
        let ghost x = (box_type_bytes(t), child@);
        proof {
            assert(child@ == rest@.subrange(0, size as int));
            assert(rest@.subrange(size as int, rest@.len() as int) =~= q@.subrange(offset + size, q@.len() as int));
            match take_boxes(q@.subrange(offset + size, q@.len() as int), (count - k - 1) as nat) {
                None => {},
                Some(r) => {
                    assert(done + (seq![x] + r) =~= done.push(x) + r);
                },
            }
        }
        let ghost before = out@;
        out.push((t, child));
        proof {
            assert(children_view(out@) =~= children_view(before).push(x));
            done = done.push(x);
            assert forall|i: int| 0 <= i < out@.len() implies (box_header_spec((#[trigger] out@[i]).1@) matches Some(
                (c, _, size),
            ) && c == box_type_bytes(out@[i].0) && size == out@[i].1@.len()) by {
                if i < before.len() {
                    assert(out@[i] == before[i]);
                }
            }
        }
        offset = offset + size;
        k = k + 1;
    }
    proof {
        assert(done + Seq::<(Seq<u8>, Seq<u8>)>::empty() =~= done);
    }
    Ok(out)
}

/// Decodes, in order, the children that `interp` does not interpret as raw boxes.
fn decode_raw(v: &Vec<(BoxType, &[u8])>, flags: &Vec<bool>, Ghost(interp): Ghost<spec_fn(int) -> bool>) -> (r: Vec<
    UnknownBox,
>)
    requires
        children_whole(v@),
        flags@.len() == v@.len(),
        forall|k: int| 0 <= k < flags@.len() ==> #[trigger] flags@[k] == interp(k),
    ensures
        unknown_list_matches(r@, raw_children(children_view(v@), v@.len() as int, interp)),
{
    let ghost cs = children_view(v@);
    let mut out: Vec<UnknownBox> = Vec::new();
    let mut k: usize = 0;
    while k < v.len()
        invariant
            cs == children_view(v@),
            children_whole(v@),
            flags@.len() == v@.len(),
            forall|j: int| 0 <= j < flags@.len() ==> #[trigger] flags@[j] == interp(j),
            k <= v@.len(),
            unknown_list_matches(out@, raw_children(cs, k as int, interp)),
        decreases v@.len() - k,
    {
        if !flags[k] {
            let child = v[k].1;
            proof {
                assert(box_header_spec(v@[k as int].1@) is Some);
            }
            match UnknownBox::decode(child) {
                Ok((u, _)) => {
                    let ghost before = out@;
                    out.push(u);
                    proof {
                        assert(cs[k as int].1 == child@);
                        let want = raw_children(cs, k + 1, interp);
                        assert(want == raw_children(cs, k as int, interp).push(child@));
                        assert forall|i: int| 0 <= i < want.len() implies unknown_matches(#[trigger] out@[i], want[i]) by {
                            if i < before.len() {
                                assert(out@[i] == before[i]);
                            }
                        }
                    }
                },
                Err(_) => {},
            }
        }
        k += 1;
    }
    out
}

} // verus!

verus! {

/// Type code of `edts`.
pub open spec fn edts_code() -> Seq<u8> {
    seq![0x65u8, 0x64, 0x74, 0x73]
}

/// Picks `elst` children.
pub open spec fn is_elst() -> spec_fn(Seq<u8>) -> bool {
    in_codes(seq![elst_code()])
}

/// The children that `edts` interprets: its first `elst`.
pub open spec fn edts_interp(cs: Children) -> spec_fn(int) -> bool {
    |i: int| first_matching(cs, is_elst()) == Some(i)
}

/// `x` is the `elst` box `c`.
pub open spec fn elst_decoded(c: Seq<u8>, x: ElstBox) -> bool {
    elst_decode_spec(c) matches Some((e, _)) && e == x.entries@
}

/// Whether the `edts` box at the start of `s` decodes: its payload splits
/// into boxes and its first `elst` child, if any, decodes.
#[verifier::opaque]
pub open spec fn edts_decodable(s: Seq<u8>) -> bool {
    container_children(s, edts_code()) matches Some((cs, _)) && (first_matching(cs, is_elst()) matches Some(i)
        ==> elst_decode_spec(cs[i].1) is Some)
}

/// Whether decoding the `edts` box at the start of `s` gives `b` of size `n`.
#[verifier::opaque]
pub open spec fn edts_decoded(s: Seq<u8>, b: EdtsBox, n: nat) -> bool {
    container_children(s, edts_code()) matches Some((cs, size)) && n == size && slot(
        b.elst_box,
        cs,
        first_matching(cs, is_elst()),
        |x: ElstBox, c: Seq<u8>| elst_decoded(c, x),
    ) && unknown_list_matches(b.unknown_boxes@, raw_children(cs, cs.len() as int, edts_interp(cs)))
}

/// Locates and splits the payload of the container of type `code` at the start of `buf`.
fn container_split(buf: &[u8], code: [u8; 4]) -> (r: Result<(Vec<(BoxType, &[u8])>, usize), Error>)
    ensures
        r is Ok <==> container_children(buf@, code@) is Some,
        r matches Ok((v, n)) ==> container_children(buf@, code@) == Some((children_view(v@), n as nat))
            && children_whole(v@),
        r matches Err(e) ==> e.kind == ErrorKind::InvalidData,
{
    let (start, end) = box_payload_range(buf, code)?;
    let payload = &buf[start..end];
    let v = split_children(payload)?;
    Ok((v, end))
}

/// Flags the children that are the child `pick` or whose type is one of `multi`.
fn interp_flags(v: &Vec<(BoxType, &[u8])>, picks: &[Option<usize>], multi: &[[u8; 4]]) -> (r: Vec<bool>)
    ensures
        r@.len() == v@.len(),
        forall|k: int|
            0 <= k < r@.len() ==> #[trigger] r@[k] == ((exists|j: int|
                0 <= j < picks@.len() && picks@[j] == Some(k as usize)) || in_codes(codes_view(multi@))(
                children_view(v@)[k].0,
            )),
{
    let mut r: Vec<bool> = Vec::new();
    let mut k: usize = 0;
    while k < v.len()
        invariant
            k <= v@.len(),
            r@.len() == k,
            forall|i: int|
                0 <= i < k ==> #[trigger] r@[i] == ((exists|j: int|
                    0 <= j < picks@.len() && picks@[j] == Some(i as usize)) || in_codes(codes_view(multi@))(
                    children_view(v@)[i].0,
                )),
        decreases v@.len() - k,
    {
        let mut picked = false;
        let mut j: usize = 0;
        while j < picks.len()
            invariant
                j <= picks@.len(),
                picked <==> exists|jj: int| 0 <= jj < j && picks@[jj] == Some(k),
            decreases picks@.len() - j,
        {
            match picks[j] {
                Some(i) => {
                    if i == k {
                        picked = true;
                    }
                },
                None => {},
            }
            j += 1;
        }
        let m = codes_match(&v[k].0, multi);
        proof {
            assert(children_view(v@)[k as int].0 == box_type_bytes(v@[k as int].0));
        }
        let ghost before = r@;
        r.push(picked || m);
        proof {
            assert forall|i: int| 0 <= i < k + 1 implies #[trigger] r@[i] == ((exists|j: int|
                0 <= j < picks@.len() && picks@[j] == Some(i as usize)) || in_codes(codes_view(multi@))(
                children_view(v@)[i].0,
            )) by {
                if i < k {
                    assert(r@[i] == before[i]);
                }
            }
        }
        k += 1;
    }
    r
}

impl EdtsBox {
    /// Decodes the `edts` box at the start of `buf`, returning it and its size.
    pub fn decode(buf: &[u8]) -> (r: Result<(EdtsBox, usize), Error>)
        ensures
            r is Ok <==> edts_decodable(buf@),
            r matches Ok((b, n)) ==> edts_decoded(buf@, b, n as nat),
            r matches Ok((_, n)) ==> (box_header_spec(buf@) matches Some((_, _, size)) && n == size),
            r matches Err(e) ==> e.kind == ErrorKind::InvalidData,
    {
        proof {
            reveal(edts_decodable);
            reveal(edts_decoded);
        }
        proof {
            assert([0x65u8, 0x64, 0x74, 0x73]@ =~= edts_code());
        }
        let (v, end) = container_split(buf, [0x65u8, 0x64, 0x74, 0x73])?;
        let ghost cs = children_view(v@);
        let elst_codes = [[0x65u8, 0x6c, 0x73, 0x74]];
        proof {
            assert(codes_view(elst_codes@) =~= seq![elst_code()]);
            lemma_first_matching_bounds(cs, is_elst());
        }
        let i_elst = find_first(&v, &elst_codes);
        let elst_box = match i_elst {
            None => None,
            Some(i) => {
                let (x, _) = ElstBox::decode(v[i].1)?;
                Some(x)
            },
        };
        let picks = [i_elst];
        let none: [[u8; 4]; 0] = [];
        let flags = interp_flags(&v, &picks, &none);
        proof {
            assert forall|k: int| 0 <= k < flags@.len() implies #[trigger] flags@[k] == edts_interp(cs)(k) by {
                if flags@[k] {
                    if in_codes(codes_view(none@))(cs[k].0) {
                        assert(codes_view(none@).len() == 0);
                    }
                }
            }
        }
        let unknown_boxes = decode_raw(&v, &flags, Ghost(edts_interp(cs)));
        Ok((EdtsBox { elst_box, unknown_boxes }, end))
    }
}

} // verus!

verus! {

/// Type code of `dref`.
pub open spec fn dref_code() -> Seq<u8> {
    seq![0x64u8, 0x72, 0x65, 0x66]
}

/// Type code of `dinf`.
pub open spec fn dinf_code() -> Seq<u8> {
    seq![0x64u8, 0x69, 0x6e, 0x66]
}

/// Type code of `minf`.
pub open spec fn minf_code() -> Seq<u8> {
    seq![0x6du8, 0x69, 0x6e, 0x66]
}

/// Type code of `stbl`.
pub open spec fn stbl_type() -> Seq<u8> {
    seq![0x73u8, 0x74, 0x62, 0x6c]
}

/// The entries of the `dref` box at the start of `s` (`entry_count` boxes
/// after version, flags and the count), and its size.
pub open spec fn dref_children(s: Seq<u8>) -> Option<(Children, nat)> {
    match box_payload_of(s, dref_code()) {
        None => None,
        Some((p, size)) => if p.len() < 8 {
            None
        } else {
            match take_boxes(p.subrange(8, p.len() as int), be_value(p, 4, 4)) {
                None => None,
                Some(cs) => Some((cs, size)),
            }
        },
    }
}

/// Picks `url ` entries.
pub open spec fn is_url() -> spec_fn(Seq<u8>) -> bool {
    in_codes(seq![url_code()])
}

/// The entries that `dref` interprets: its first `url `.
pub open spec fn dref_interp(cs: Children) -> spec_fn(int) -> bool {
    |i: int| first_matching(cs, is_url()) == Some(i)
}

/// `x` is the `url ` box `c`.
pub open spec fn url_decoded(c: Seq<u8>, x: UrlBox) -> bool {
    url_decode_spec(c) matches Some((l, _)) && l == url_location_view(x)
}

/// Whether the `dref` box at the start of `s` decodes: its entries read
/// and its first `url ` entry, if any, decodes.
#[verifier::opaque]
pub open spec fn dref_decodable(s: Seq<u8>) -> bool {
    dref_children(s) matches Some((cs, _)) && (first_matching(cs, is_url()) matches Some(i)
        ==> url_decode_spec(cs[i].1) is Some)
}

/// Whether decoding the `dref` box at the start of `s` gives `b` of size `n`.
#[verifier::opaque]
pub open spec fn dref_decoded(s: Seq<u8>, b: DrefBox, n: nat) -> bool {
    dref_children(s) matches Some((cs, size)) && n == size && slot(
        b.url_box,
        cs,
        first_matching(cs, is_url()),
        |x: UrlBox, c: Seq<u8>| url_decoded(c, x),
    ) && unknown_list_matches(b.unknown_boxes@, raw_children(cs, cs.len() as int, dref_interp(cs)))
}

impl DrefBox {
    /// Decodes the `dref` box at the start of `buf`, returning it and its size.
    pub fn decode(buf: &[u8]) -> (r: Result<(DrefBox, usize), Error>)
        ensures
            r is Ok <==> dref_decodable(buf@),
            r matches Ok((b, n)) ==> dref_decoded(buf@, b, n as nat),
            r matches Ok((_, n)) ==> (box_header_spec(buf@) matches Some((_, _, size)) && n == size),
            r matches Err(e) ==> e.kind == ErrorKind::InvalidData,
    {
        proof {
            reveal(dref_decodable);
            reveal(dref_decoded);
        }
        proof {
            assert([0x64u8, 0x72, 0x65, 0x66]@ =~= dref_code());
        }
        let (start, end) = box_payload_range(buf, [0x64u8, 0x72, 0x65, 0x66])?;
        let payload = &buf[start..end];
        if payload.len() < 8 {
            return Err(Error::invalid_data("dref box is too short"));
        }
        let count = crate::codec::read_be(payload, 4, 4)?;
        let v = take_children(&payload[8..payload.len()], count)?;
        let ghost cs = children_view(v@);
        let url_codes = [[0x75u8, 0x72, 0x6c, 0x20]];
        proof {
            assert(codes_view(url_codes@) =~= seq![url_code()]);
            lemma_first_matching_bounds(cs, is_url());
        }
        let i_url = find_first(&v, &url_codes);
        let url_box = match i_url {
            None => None,
            Some(i) => {
                let (x, _) = UrlBox::decode(v[i].1)?;
                Some(x)
            },
        };
        let picks = [i_url];
        let none: [[u8; 4]; 0] = [];
        let flags = interp_flags(&v, &picks, &none);
        proof {
            assert forall|k: int| 0 <= k < flags@.len() implies #[trigger] flags@[k] == dref_interp(cs)(k) by {
                if flags@[k] && in_codes(codes_view(none@))(cs[k].0) {
                    assert(codes_view(none@).len() == 0);
                }
            }
        }
        let unknown_boxes = decode_raw(&v, &flags, Ghost(dref_interp(cs)));
        Ok((DrefBox { url_box, unknown_boxes }, end))
    }
}

/// Picks `dref` children.
pub open spec fn is_dref() -> spec_fn(Seq<u8>) -> bool {
    in_codes(seq![dref_code()])
}

/// The children that `dinf` interprets: its first `dref`.
pub open spec fn dinf_interp(cs: Children) -> spec_fn(int) -> bool {
    |i: int| first_matching(cs, is_dref()) == Some(i)
}

/// Whether the `dinf` box at the start of `s` decodes: its payload splits
/// into boxes and it has a `dref` child whose first instance decodes.
#[verifier::opaque]
pub open spec fn dinf_decodable(s: Seq<u8>) -> bool {
    container_children(s, dinf_code()) matches Some((cs, _)) && first_matching(cs, is_dref()) matches Some(i)
        && dref_decodable(cs[i].1)
}

/// Whether decoding the `dinf` box at the start of `s` gives `b` of size `n`.
#[verifier::opaque]
pub open spec fn dinf_decoded(s: Seq<u8>, b: DinfBox, n: nat) -> bool {
    container_children(s, dinf_code()) matches Some((cs, size)) && n == size && slot(
        Some(b.dref_box),
        cs,
        first_matching(cs, is_dref()),
        |x: DrefBox, c: Seq<u8>| dref_decoded(c, x, c.len()),
    ) && unknown_list_matches(b.unknown_boxes@, raw_children(cs, cs.len() as int, dinf_interp(cs)))
}

impl DinfBox {
    /// Decodes the `dinf` box at the start of `buf`, returning it and its size.
    pub fn decode(buf: &[u8]) -> (r: Result<(DinfBox, usize), Error>)
        ensures
            r is Ok <==> dinf_decodable(buf@),
            r matches Ok((b, n)) ==> dinf_decoded(buf@, b, n as nat),
            r matches Ok((_, n)) ==> (box_header_spec(buf@) matches Some((_, _, size)) && n == size),
            r matches Err(e) ==> e.kind == ErrorKind::InvalidData,
    {
        proof {
            reveal(dinf_decodable);
            reveal(dinf_decoded);
        }
        proof {
            assert([0x64u8, 0x69, 0x6e, 0x66]@ =~= dinf_code());
        }
        let (v, end) = container_split(buf, [0x64u8, 0x69, 0x6e, 0x66])?;
        let ghost cs = children_view(v@);
        let dref_codes = [[0x64u8, 0x72, 0x65, 0x66]];
        proof {
            assert(codes_view(dref_codes@) =~= seq![dref_code()]);
            lemma_first_matching_bounds(cs, is_dref());
        }
        let i_dref = find_first(&v, &dref_codes);
        let dref_box = match i_dref {
            None => {
                return Err(Error::invalid_data("Missing mandatory 'dref' box in 'dinf' box"));
            },
            Some(i) => {
                let (x, n) = DrefBox::decode(v[i].1)?;
                proof {
                    assert(box_header_spec(v@[i as int].1@) is Some);
                }
                x
            },
        };
        let picks = [i_dref];
        let none: [[u8; 4]; 0] = [];
        let flags = interp_flags(&v, &picks, &none);
        proof {
            assert forall|k: int| 0 <= k < flags@.len() implies #[trigger] flags@[k] == dinf_interp(cs)(k) by {
                if flags@[k] && in_codes(codes_view(none@))(cs[k].0) {
                    assert(codes_view(none@).len() == 0);
                }
            }
        }
        let unknown_boxes = decode_raw(&v, &flags, Ghost(dinf_interp(cs)));
        Ok((DinfBox { dref_box, unknown_boxes }, end))
    }
}

/// Whether the box `c` decodes as a media header of its type.
#[verifier::opaque]
pub open spec fn media_header_decodable(c: Seq<u8>) -> bool {
    ||| fixed_decode_spec(c, smhd_code(), smhd_widths()) is Some
    ||| fixed_decode_spec(c, vmhd_code(), same_widths(4, 2)) is Some
    ||| fixed_decode_spec(c, sthd_code(), Seq::empty()) is Some
    ||| fixed_decode_spec(c, nmhd_code(), Seq::empty()) is Some
}

/// Whether `h` is the media header box `c`.
#[verifier::opaque]
pub open spec fn media_header_decoded(c: Seq<u8>, h: MediaHeader) -> bool {
    match h {
        MediaHeader::Smhd(x) => fixed_decode_spec(c, smhd_code(), smhd_widths()) matches Some((_, v, _))
            && v.len() == 3 && x.balance.integer == v[0] && x.balance.fraction == v[1],
        MediaHeader::Vmhd(x) => fixed_decode_spec(c, vmhd_code(), same_widths(4, 2)) matches Some((_, v, _))
            && vmhd_matches(x, v),
        MediaHeader::Sthd(_) => fixed_decode_spec(c, sthd_code(), Seq::empty()) is Some,
        MediaHeader::Nmhd(_) => fixed_decode_spec(c, nmhd_code(), Seq::empty()) is Some,
    }
}

impl MediaHeader {
    /// Decodes the media header box (`smhd`, `vmhd`, `sthd` or `nmhd`) at
    /// the start of `buf`, returning it and its size; other types are rejected.
    pub fn decode(buf: &[u8]) -> (r: Result<(MediaHeader, usize), Error>)
        ensures
            r is Ok <==> media_header_decodable(buf@),
            r matches Ok((h, n)) ==> media_header_decoded(buf@, h) && (box_header_spec(buf@) matches Some(
                (_, _, size),
            ) && n == size),
            r matches Err(e) ==> e.kind == ErrorKind::InvalidData,
    {
        proof {
            reveal(media_header_decodable);
            reveal(media_header_decoded);
        }
        let (t, _hl, _size) = decode_box_header(buf)?;
        proof {
            assert([0x73u8, 0x6d, 0x68, 0x64]@ =~= smhd_code());
            assert([0x76u8, 0x6d, 0x68, 0x64]@ =~= vmhd_code());
            assert([0x73u8, 0x74, 0x68, 0x64]@ =~= sthd_code());
            assert([0x6eu8, 0x6d, 0x68, 0x64]@ =~= nmhd_code());
        }
        if type_is(&t, [0x73u8, 0x6d, 0x68, 0x64]) {
            let (b, n) = SmhdBox::decode(buf)?;
            Ok((MediaHeader::Smhd(b), n))
        } else if type_is(&t, [0x76u8, 0x6d, 0x68, 0x64]) {
            let (b, n) = VmhdBox::decode(buf)?;
            Ok((MediaHeader::Vmhd(b), n))
        } else if type_is(&t, [0x73u8, 0x74, 0x68, 0x64]) {
            let (b, n) = SthdBox::decode(buf)?;
            Ok((MediaHeader::Sthd(b), n))
        } else if type_is(&t, [0x6eu8, 0x6d, 0x68, 0x64]) {
            let (b, n) = NmhdBox::decode(buf)?;
            Ok((MediaHeader::Nmhd(b), n))
        } else {
            Err(Error::invalid_data("unexpected box type for a media header"))
        }
    }
}

} // verus!

verus! {

/// Picks media header children (`smhd`, `vmhd`, `sthd`, `nmhd`).
pub open spec fn is_media_header() -> spec_fn(Seq<u8>) -> bool {
    in_codes(seq![smhd_code(), vmhd_code(), sthd_code(), nmhd_code()])
}

/// Picks `dinf` children.
pub open spec fn is_dinf() -> spec_fn(Seq<u8>) -> bool {
    in_codes(seq![dinf_code()])
}

/// Picks `stbl` children.
pub open spec fn is_stbl() -> spec_fn(Seq<u8>) -> bool {
    in_codes(seq![stbl_type()])
}

/// The children that `minf` interprets: its first media header, `dinf` and `stbl`.
pub open spec fn minf_interp(cs: Children) -> spec_fn(int) -> bool {
    |i: int|
        first_matching(cs, is_media_header()) == Some(i) || first_matching(cs, is_dinf()) == Some(i)
            || first_matching(cs, is_stbl()) == Some(i)
}

/// Whether the `minf` box at the start of `s` decodes: its payload splits
/// into boxes, its first media header (if any) decodes, and it has `dinf`
/// and `stbl` children whose first instances decode.
#[verifier::opaque]
pub open spec fn minf_decodable(s: Seq<u8>) -> bool {
    &&& container_children(s, minf_code()) matches Some((cs, _))
    &&& first_matching(cs, is_media_header()) matches Some(i) ==> media_header_decodable(cs[i].1)
    &&& first_matching(cs, is_dinf()) matches Some(i) && dinf_decodable(cs[i].1)
    &&& first_matching(cs, is_stbl()) matches Some(i) && stbl_decodable(cs[i].1)
}

/// Whether decoding the `minf` box at the start of `s` gives `b` of size `n`.
#[verifier::opaque]
pub open spec fn minf_decoded(s: Seq<u8>, b: MinfBox, n: nat) -> bool {
    &&& container_children(s, minf_code()) matches Some((cs, size))
    &&& n == size
    &&& slot(b.media_header, cs, first_matching(cs, is_media_header()), |x: MediaHeader, c: Seq<u8>| media_header_decoded(c, x))
    &&& slot(Some(b.dinf_box), cs, first_matching(cs, is_dinf()), |x: DinfBox, c: Seq<u8>| dinf_decoded(c, x, c.len()))
    &&& slot(Some(b.stbl_box), cs, first_matching(cs, is_stbl()), |x: StblBox, c: Seq<u8>| stbl_decoded(c, x, c.len()))
    &&& unknown_list_matches(b.unknown_boxes@, raw_children(cs, cs.len() as int, minf_interp(cs)))
}

impl MinfBox {
    /// Decodes the `minf` box at the start of `buf`, returning it and its size.
    #[verifier::spinoff_prover]
    #[verifier::rlimit(60)]
    pub fn decode(buf: &[u8]) -> (r: Result<(MinfBox, usize), Error>)
        ensures
            r is Ok <==> minf_decodable(buf@),
            r matches Ok((b, n)) ==> minf_decoded(buf@, b, n as nat),
            r matches Ok((_, n)) ==> (box_header_spec(buf@) matches Some((_, _, size)) && n == size),
            r matches Err(e) ==> e.kind == ErrorKind::InvalidData,
    {
        proof {
            reveal(minf_decodable);
            reveal(minf_decoded);
        }
        proof {
            assert([0x6du8, 0x69, 0x6e, 0x66]@ =~= minf_code());
        }
        let (v, end) = container_split(buf, [0x6du8, 0x69, 0x6e, 0x66])?;
        let ghost cs = children_view(v@);
        let mh_codes = [[0x73u8, 0x6d, 0x68, 0x64], [0x76u8, 0x6d, 0x68, 0x64], [0x73u8, 0x74, 0x68, 0x64], [0x6eu8, 0x6d, 0x68, 0x64]];
        let dinf_codes = [[0x64u8, 0x69, 0x6e, 0x66]];
        let stbl_codes = [[0x73u8, 0x74, 0x62, 0x6c]];
        proof {
            assert(codes_view(mh_codes@) =~= seq![smhd_code(), vmhd_code(), sthd_code(), nmhd_code()]);
            assert(codes_view(dinf_codes@) =~= seq![dinf_code()]);
            assert(codes_view(stbl_codes@) =~= seq![stbl_type()]);
            lemma_first_matching_bounds(cs, is_media_header());
            lemma_first_matching_bounds(cs, is_dinf());
            lemma_first_matching_bounds(cs, is_stbl());
        }
        let i_mh = find_first(&v, &mh_codes);
        let media_header = match i_mh {
            None => None,
            Some(i) => {
                let (x, _) = MediaHeader::decode(v[i].1)?;
                Some(x)
            },
        };
        let i_dinf = find_first(&v, &dinf_codes);
        let dinf_box = match i_dinf {
            None => {
                return Err(Error::invalid_data("Missing mandatory 'dinf' box in 'minf' box"));
            },
            Some(i) => {
                let (x, _) = DinfBox::decode(v[i].1)?;
                x
            },
        };
        let i_stbl = find_first(&v, &stbl_codes);
        let stbl_box = match i_stbl {
            None => {
                return Err(Error::invalid_data("Missing mandatory 'stbl' box in 'minf' box"));
            },
            Some(i) => {
                let (x, _) = StblBox::decode(v[i].1)?;
                x
            },
        };
        let picks = [i_mh, i_dinf, i_stbl];
        let none: [[u8; 4]; 0] = [];
        let flags = interp_flags(&v, &picks, &none);
        proof {
            assert forall|k: int| 0 <= k < flags@.len() implies #[trigger] flags@[k] == minf_interp(cs)(k) by {
                if flags@[k] {
                    if in_codes(codes_view(none@))(cs[k].0) {
                        assert(codes_view(none@).len() == 0);
                    } else {
                        let j = choose|j: int| 0 <= j < picks@.len() && picks@[j] == Some(k as usize);
                        assert(j == 0 || j == 1 || j == 2);
                    }
                }
                if minf_interp(cs)(k) {
                    if first_matching(cs, is_media_header()) == Some(k) {
                        assert(picks@[0] == Some(k as usize));
                    } else if first_matching(cs, is_dinf()) == Some(k) {
                        assert(picks@[1] == Some(k as usize));
                    } else {
                        assert(picks@[2] == Some(k as usize));
                    }
                }
            }
        }
        let unknown_boxes = decode_raw(&v, &flags, Ghost(minf_interp(cs)));
        Ok((MinfBox { media_header, dinf_box, stbl_box, unknown_boxes }, end))
    }
}

} // verus!

verus! {

/// `xs` are the boxes `cs`, one for one, as `m` relates them.
pub open spec fn list_matches<T>(xs: Seq<T>, cs: Seq<Seq<u8>>, m: spec_fn(T, Seq<u8>) -> bool) -> bool {
    xs.len() == cs.len() && forall|i: int| 0 <= i < cs.len() ==> m(#[trigger] xs[i], cs[i])
}

/// Every child whose type satisfies `pred` satisfies `d`.
pub open spec fn all_decode(cs: Children, pred: spec_fn(Seq<u8>) -> bool, d: spec_fn(Seq<u8>) -> bool) -> bool {
    forall|i: int| 0 <= i < cs.len() && pred((#[trigger] cs[i]).0) ==> d(cs[i].1)
}

/// Type code of `mdia`.
pub open spec fn mdia_code() -> Seq<u8> {
    seq![0x6du8, 0x64, 0x69, 0x61]
}

/// Picks `mdhd` children.
pub open spec fn is_mdhd() -> spec_fn(Seq<u8>) -> bool {
    in_codes(seq![mdhd_code()])
}

/// Picks `hdlr` children.
pub open spec fn is_hdlr() -> spec_fn(Seq<u8>) -> bool {
    in_codes(seq![hdlr_code()])
}

/// Picks `minf` children.
pub open spec fn is_minf() -> spec_fn(Seq<u8>) -> bool {
    in_codes(seq![minf_code()])
}

/// `x` is the `mdhd` box `c`.
pub open spec fn mdhd_decoded(c: Seq<u8>, x: MdhdBox) -> bool {
    mdhd_decode_spec(c) matches Some((v, _)) && mdhd_matches(x, v)
}

/// `x` is the `hdlr` box `c`.
pub open spec fn hdlr_decoded(c: Seq<u8>, x: HdlrBox) -> bool {
    hdlr_decode_spec(c) matches Some((t, name, _)) && t == x.handler_type@ && name == x.name@
}

/// The children that `mdia` interprets: its first `mdhd`, `hdlr` and `minf`.
pub open spec fn mdia_interp(cs: Children) -> spec_fn(int) -> bool {
    |i: int|
        first_matching(cs, is_mdhd()) == Some(i) || first_matching(cs, is_hdlr()) == Some(i)
            || first_matching(cs, is_minf()) == Some(i)
}

/// Whether the `mdia` box at the start of `s` decodes: its payload splits
/// into boxes and it has `mdhd`, `hdlr` and `minf` children whose first
/// instances decode.
#[verifier::opaque]
pub open spec fn mdia_decodable(s: Seq<u8>) -> bool {
    &&& container_children(s, mdia_code()) matches Some((cs, _))
    &&& first_matching(cs, is_mdhd()) matches Some(i) && mdhd_decode_spec(cs[i].1) is Some
    &&& first_matching(cs, is_hdlr()) matches Some(i) && hdlr_decode_spec(cs[i].1) is Some
    &&& first_matching(cs, is_minf()) matches Some(i) && minf_decodable(cs[i].1)
}

/// Whether decoding the `mdia` box at the start of `s` gives `b` of size `n`.
#[verifier::opaque]
pub open spec fn mdia_decoded(s: Seq<u8>, b: MdiaBox, n: nat) -> bool {
    &&& container_children(s, mdia_code()) matches Some((cs, size))
    &&& n == size
    &&& slot(Some(b.mdhd_box), cs, first_matching(cs, is_mdhd()), |x: MdhdBox, c: Seq<u8>| mdhd_decoded(c, x))
    &&& slot(Some(b.hdlr_box), cs, first_matching(cs, is_hdlr()), |x: HdlrBox, c: Seq<u8>| hdlr_decoded(c, x))
    &&& slot(Some(b.minf_box), cs, first_matching(cs, is_minf()), |x: MinfBox, c: Seq<u8>| minf_decoded(c, x, c.len()))
    &&& unknown_list_matches(b.unknown_boxes@, raw_children(cs, cs.len() as int, mdia_interp(cs)))
}

impl MdiaBox {
    /// Decodes the `mdia` box at the start of `buf`, returning it and its size.
    #[verifier::spinoff_prover]
    #[verifier::rlimit(60)]
    pub fn decode(buf: &[u8]) -> (r: Result<(MdiaBox, usize), Error>)
        ensures
            r is Ok <==> mdia_decodable(buf@),
            r matches Ok((b, n)) ==> mdia_decoded(buf@, b, n as nat),
            r matches Ok((_, n)) ==> (box_header_spec(buf@) matches Some((_, _, size)) && n == size),
            r matches Err(e) ==> e.kind == ErrorKind::InvalidData,
    {
        proof {
            reveal(mdia_decodable);
            reveal(mdia_decoded);
        }
        proof {
            assert([0x6du8, 0x64, 0x69, 0x61]@ =~= mdia_code());
        }
        let (v, end) = container_split(buf, [0x6du8, 0x64, 0x69, 0x61])?;
        let ghost cs = children_view(v@);
        let mdhd_codes = [[0x6du8, 0x64, 0x68, 0x64]];
        let hdlr_codes = [[0x68u8, 0x64, 0x6c, 0x72]];
        let minf_codes = [[0x6du8, 0x69, 0x6e, 0x66]];
        proof {
            assert(codes_view(mdhd_codes@) =~= seq![mdhd_code()]);
            assert(codes_view(hdlr_codes@) =~= seq![hdlr_code()]);
            assert(codes_view(minf_codes@) =~= seq![minf_code()]);
            lemma_first_matching_bounds(cs, is_mdhd());
            lemma_first_matching_bounds(cs, is_hdlr());
            lemma_first_matching_bounds(cs, is_minf());
        }
        let i_mdhd = find_first(&v, &mdhd_codes);
        let mdhd_box = match i_mdhd {
            None => {
                return Err(Error::invalid_data("Missing mandatory 'mdhd' box in 'mdia' box"));
            },
            Some(i) => {
                let (x, _) = MdhdBox::decode(v[i].1)?;
                x
            },
        };
        let i_hdlr = find_first(&v, &hdlr_codes);
        let hdlr_box = match i_hdlr {
            None => {
                return Err(Error::invalid_data("Missing mandatory 'hdlr' box in 'mdia' box"));
            },
            Some(i) => {
                let (x, _) = HdlrBox::decode(v[i].1)?;
                x
            },
        };
        let i_minf = find_first(&v, &minf_codes);
        let minf_box = match i_minf {
            None => {
                return Err(Error::invalid_data("Missing mandatory 'minf' box in 'mdia' box"));
            },
            Some(i) => {
                let (x, _) = MinfBox::decode(v[i].1)?;
                x
            },
        };
        let picks = [i_mdhd, i_hdlr, i_minf];
        let none: [[u8; 4]; 0] = [];
        let flags = interp_flags(&v, &picks, &none);
        proof {
            assert forall|k: int| 0 <= k < flags@.len() implies #[trigger] flags@[k] == mdia_interp(cs)(k) by {
                if flags@[k] {
                    if in_codes(codes_view(none@))(cs[k].0) {
                        assert(codes_view(none@).len() == 0);
                    } else {
                        let j = choose|j: int| 0 <= j < picks@.len() && picks@[j] == Some(k as usize);
                        assert(j == 0 || j == 1 || j == 2);
                    }
                }
                if mdia_interp(cs)(k) {
                    if first_matching(cs, is_mdhd()) == Some(k) {
                        assert(picks@[0] == Some(k as usize));
                    } else if first_matching(cs, is_hdlr()) == Some(k) {
                        assert(picks@[1] == Some(k as usize));
                    } else {
                        assert(picks@[2] == Some(k as usize));
                    }
                }
            }
        }
        let unknown_boxes = decode_raw(&v, &flags, Ghost(mdia_interp(cs)));
        Ok((MdiaBox { mdhd_box, hdlr_box, minf_box, unknown_boxes }, end))
    }
}

/// Type code of `trak`.
pub open spec fn trak_code() -> Seq<u8> {
    seq![0x74u8, 0x72, 0x61, 0x6b]
}

/// Picks `tkhd` children.
pub open spec fn is_tkhd() -> spec_fn(Seq<u8>) -> bool {
    in_codes(seq![tkhd_code()])
}

/// Picks `edts` children.
pub open spec fn is_edts() -> spec_fn(Seq<u8>) -> bool {
    in_codes(seq![edts_code()])
}

/// Picks `mdia` children.
pub open spec fn is_mdia() -> spec_fn(Seq<u8>) -> bool {
    in_codes(seq![mdia_code()])
}

/// `x` is the `tkhd` box `c`.
pub open spec fn tkhd_decoded(c: Seq<u8>, x: TkhdBox) -> bool {
    tkhd_decode_spec(c) matches Some((f, v, _)) && tkhd_matches(x, f, v)
}

/// The children that `trak` interprets: its first `tkhd`, `edts` and `mdia`.
pub open spec fn trak_interp(cs: Children) -> spec_fn(int) -> bool {
    |i: int|
        first_matching(cs, is_tkhd()) == Some(i) || first_matching(cs, is_edts()) == Some(i)
            || first_matching(cs, is_mdia()) == Some(i)
}

/// Whether the `trak` box at the start of `s` decodes: its payload splits
/// into boxes, it has `tkhd` and `mdia` children whose first instances
/// decode, and its first `edts` (if any) decodes.
#[verifier::opaque]
pub open spec fn trak_decodable(s: Seq<u8>) -> bool {
    &&& container_children(s, trak_code()) matches Some((cs, _))
    &&& first_matching(cs, is_tkhd()) matches Some(i) && tkhd_decode_spec(cs[i].1) is Some
    &&& first_matching(cs, is_edts()) matches Some(i) ==> edts_decodable(cs[i].1)
    &&& first_matching(cs, is_mdia()) matches Some(i) && mdia_decodable(cs[i].1)
}

/// Whether decoding the `trak` box at the start of `s` gives `b` of size `n`.
#[verifier::opaque]
pub open spec fn trak_decoded(s: Seq<u8>, b: TrakBox, n: nat) -> bool {
    &&& container_children(s, trak_code()) matches Some((cs, size))
    &&& n == size
    &&& slot(Some(b.tkhd_box), cs, first_matching(cs, is_tkhd()), |x: TkhdBox, c: Seq<u8>| tkhd_decoded(c, x))
    &&& slot(b.edts_box, cs, first_matching(cs, is_edts()), |x: EdtsBox, c: Seq<u8>| edts_decoded(c, x, c.len()))
    &&& slot(Some(b.mdia_box), cs, first_matching(cs, is_mdia()), |x: MdiaBox, c: Seq<u8>| mdia_decoded(c, x, c.len()))
    &&& unknown_list_matches(b.unknown_boxes@, raw_children(cs, cs.len() as int, trak_interp(cs)))
}

impl TrakBox {
    /// Decodes the `trak` box at the start of `buf`, returning it and its size.
    #[verifier::spinoff_prover]
    #[verifier::rlimit(60)]
    pub fn decode(buf: &[u8]) -> (r: Result<(TrakBox, usize), Error>)
        ensures
            r is Ok <==> trak_decodable(buf@),
            r matches Ok((b, n)) ==> trak_decoded(buf@, b, n as nat),
            r matches Ok((_, n)) ==> (box_header_spec(buf@) matches Some((_, _, size)) && n == size),
            r matches Err(e) ==> e.kind == ErrorKind::InvalidData,
    {
        proof {
            reveal(trak_decodable);
            reveal(trak_decoded);
        }
        proof {
            assert([0x74u8, 0x72, 0x61, 0x6b]@ =~= trak_code());
        }
        let (v, end) = container_split(buf, [0x74u8, 0x72, 0x61, 0x6b])?;
        let ghost cs = children_view(v@);
        let tkhd_codes = [[0x74u8, 0x6b, 0x68, 0x64]];
        let edts_codes = [[0x65u8, 0x64, 0x74, 0x73]];
        let mdia_codes = [[0x6du8, 0x64, 0x69, 0x61]];
        proof {
            assert(codes_view(tkhd_codes@) =~= seq![tkhd_code()]);
            assert(codes_view(edts_codes@) =~= seq![edts_code()]);
            assert(codes_view(mdia_codes@) =~= seq![mdia_code()]);
            lemma_first_matching_bounds(cs, is_tkhd());
            lemma_first_matching_bounds(cs, is_edts());
            lemma_first_matching_bounds(cs, is_mdia());
        }
        let i_tkhd = find_first(&v, &tkhd_codes);
        let tkhd_box = match i_tkhd {
            None => {
                return Err(Error::invalid_data("Missing mandatory 'tkhd' box in 'trak' box"));
            },
            Some(i) => {
                let (x, _) = TkhdBox::decode(v[i].1)?;
                x
            },
        };
        let i_edts = find_first(&v, &edts_codes);
        let edts_box = match i_edts {
            None => None,
            Some(i) => {
                let (x, _) = EdtsBox::decode(v[i].1)?;
                Some(x)
            },
        };
        let i_mdia = find_first(&v, &mdia_codes);
        let mdia_box = match i_mdia {
            None => {
                return Err(Error::invalid_data("Missing mandatory 'mdia' box in 'trak' box"));
            },
            Some(i) => {
                let (x, _) = MdiaBox::decode(v[i].1)?;
                x
            },
        };
        let picks = [i_tkhd, i_edts, i_mdia];
        let none: [[u8; 4]; 0] = [];
        let flags = interp_flags(&v, &picks, &none);
        proof {
            assert forall|k: int| 0 <= k < flags@.len() implies #[trigger] flags@[k] == trak_interp(cs)(k) by {
                if flags@[k] {
                    if in_codes(codes_view(none@))(cs[k].0) {
                        assert(codes_view(none@).len() == 0);
                    } else {
                        let j = choose|j: int| 0 <= j < picks@.len() && picks@[j] == Some(k as usize);
                        assert(j == 0 || j == 1 || j == 2);
                    }
                }
                if trak_interp(cs)(k) {
                    if first_matching(cs, is_tkhd()) == Some(k) {
                        assert(picks@[0] == Some(k as usize));
                    } else if first_matching(cs, is_edts()) == Some(k) {
                        assert(picks@[1] == Some(k as usize));
                    } else {
                        assert(picks@[2] == Some(k as usize));
                    }
                }
            }
        }
        let unknown_boxes = decode_raw(&v, &flags, Ghost(trak_interp(cs)));
        Ok((TrakBox { tkhd_box, edts_box, mdia_box, unknown_boxes }, end))
    }
}

} // verus!

verus! {

/// Type code of `mvex`.
pub open spec fn mvex_code() -> Seq<u8> {
    seq![0x6du8, 0x76, 0x65, 0x78]
}

/// Picks `mehd` children.
pub open spec fn is_mehd() -> spec_fn(Seq<u8>) -> bool {
    in_codes(seq![mehd_code()])
}

/// Picks `trex` children.
pub open spec fn is_trex() -> spec_fn(Seq<u8>) -> bool {
    in_codes(seq![trex_code()])
}

/// `x` is the `mehd` box `c`.
pub open spec fn mehd_decoded(c: Seq<u8>, x: MehdBox) -> bool {
    mehd_decode_spec(c) matches Some((d, _)) && d == x.fragment_duration
}

/// `x` is the `trex` box `c`.
pub open spec fn trex_decoded(c: Seq<u8>, x: TrexBox) -> bool {
    fixed_decode_spec(c, trex_code(), same_widths(5, 4)) matches Some((_, v, _)) && trex_matches(x, v)
}

/// Whether the box `c` decodes as `trex`.
pub open spec fn trex_decodable(c: Seq<u8>) -> bool {
    fixed_decode_spec(c, trex_code(), same_widths(5, 4)) is Some
}

/// The children that `mvex` interprets: its first `mehd` and every `trex`.
pub open spec fn mvex_interp(cs: Children) -> spec_fn(int) -> bool {
    |i: int| first_matching(cs, is_mehd()) == Some(i) || is_trex()(cs[i].0)
}

/// Whether the `mvex` box at the start of `s` decodes: its payload splits
/// into boxes, its first `mehd` (if any) and every `trex` decode.
#[verifier::opaque]
pub open spec fn mvex_decodable(s: Seq<u8>) -> bool {
    &&& container_children(s, mvex_code()) matches Some((cs, _))
    &&& first_matching(cs, is_mehd()) matches Some(i) ==> mehd_decode_spec(cs[i].1) is Some
    &&& all_decode(cs, is_trex(), |c: Seq<u8>| trex_decodable(c))
}

/// Whether decoding the `mvex` box at the start of `s` gives `b` of size `n`.
#[verifier::opaque]
pub open spec fn mvex_decoded(s: Seq<u8>, b: MvexBox, n: nat) -> bool {
    &&& container_children(s, mvex_code()) matches Some((cs, size))
    &&& n == size
    &&& slot(b.mehd_box, cs, first_matching(cs, is_mehd()), |x: MehdBox, c: Seq<u8>| mehd_decoded(c, x))
    &&& list_matches(b.trex_boxes@, children_matching(cs, cs.len() as int, is_trex()), |x: TrexBox, c: Seq<u8>| trex_decoded(c, x))
    &&& unknown_list_matches(b.unknown_boxes@, raw_children(cs, cs.len() as int, mvex_interp(cs)))
}

/// Decodes every `trex` child, in order.
fn decode_trex_children(v: &Vec<(BoxType, &[u8])>) -> (r: Result<Vec<TrexBox>, Error>)
    ensures
        r is Ok <==> all_decode(children_view(v@), is_trex(), |c: Seq<u8>| trex_decodable(c)),
        r matches Ok(xs) ==> list_matches(
            xs@,
            children_matching(children_view(v@), v@.len() as int, is_trex()),
            |x: TrexBox, c: Seq<u8>| trex_decoded(c, x),
        ),
        r matches Err(e) ==> e.kind == ErrorKind::InvalidData,
{
    let ghost cs = children_view(v@);
    let codes = [[0x74u8, 0x72, 0x65, 0x78]];
    proof {
        assert(codes_view(codes@) =~= seq![trex_code()]);
        assert([0x74u8, 0x72, 0x65, 0x78]@ =~= trex_code());
    }
    let mut out: Vec<TrexBox> = Vec::new();
    let mut k: usize = 0;
    while k < v.len()
        invariant
            cs == children_view(v@),
            codes_view(codes@) == seq![trex_code()],
            k <= v@.len(),
            forall|i: int| 0 <= i < k && is_trex()((#[trigger] cs[i]).0) ==> trex_decodable(cs[i].1),
            list_matches(out@, children_matching(cs, k as int, is_trex()), |x: TrexBox, c: Seq<u8>| trex_decoded(c, x)),
        decreases v@.len() - k,
    {
        let hit = codes_match(&v[k].0, &codes);
        proof {
            assert(cs[k as int].0 == box_type_bytes(v@[k as int].0));
            assert(cs[k as int].1 == v@[k as int].1@);
        }
        if hit {
            match TrexBox::decode(v[k].1) {
                Ok((x, _)) => {
                    let ghost before = out@;
                    out.push(x);
                    proof {
                        let want = children_matching(cs, k + 1, is_trex());
                        assert(want == children_matching(cs, k as int, is_trex()).push(cs[k as int].1));
                        assert forall|i: int| 0 <= i < want.len() implies #[trigger] trex_decoded(want[i], out@[i]) by {
                            if i < before.len() {
                                assert(out@[i] == before[i]);
                            }
                        }
                    }
                },
                Err(e) => {
                    proof {
                        assert(!trex_decodable(cs[k as int].1));
                    }
                    return Err(e);
                },
            }
        }
        k += 1;
    }
    Ok(out)
}

impl MvexBox {
    /// Decodes the `mvex` box at the start of `buf`, returning it and its size.
    pub fn decode(buf: &[u8]) -> (r: Result<(MvexBox, usize), Error>)
        ensures
            r is Ok <==> mvex_decodable(buf@),
            r matches Ok((b, n)) ==> mvex_decoded(buf@, b, n as nat),
            r matches Ok((_, n)) ==> (box_header_spec(buf@) matches Some((_, _, size)) && n == size),
            r matches Err(e) ==> e.kind == ErrorKind::InvalidData,
    {
        proof {
            reveal(mvex_decodable);
            reveal(mvex_decoded);
            assert([0x6du8, 0x76, 0x65, 0x78]@ =~= mvex_code());
        }
        let (v, end) = container_split(buf, [0x6du8, 0x76, 0x65, 0x78])?;
        let ghost cs = children_view(v@);
        let mehd_codes = [[0x6du8, 0x65, 0x68, 0x64]];
        let trex_codes = [[0x74u8, 0x72, 0x65, 0x78]];
        proof {
            assert(codes_view(mehd_codes@) =~= seq![mehd_code()]);
            assert(codes_view(trex_codes@) =~= seq![trex_code()]);
            lemma_first_matching_bounds(cs, is_mehd());
        }
        let i_mehd = find_first(&v, &mehd_codes);
        let mehd_box = match i_mehd {
            None => None,
            Some(i) => {
                let (x, _) = MehdBox::decode(v[i].1)?;
                Some(x)
            },
        };
        let trex_boxes = decode_trex_children(&v)?;
        let picks = [i_mehd];
        let flags = interp_flags(&v, &picks, &trex_codes);
        proof {
            assert forall|k: int| 0 <= k < flags@.len() implies #[trigger] flags@[k] == mvex_interp(cs)(k) by {
                if flags@[k] && !in_codes(codes_view(trex_codes@))(cs[k].0) {
                    let j = choose|j: int| 0 <= j < picks@.len() && picks@[j] == Some(k as usize);
                    assert(j == 0);
                }
                if mvex_interp(cs)(k) && first_matching(cs, is_mehd()) == Some(k) {
                    assert(picks@[0] == Some(k as usize));
                }
            }
        }
        let unknown_boxes = decode_raw(&v, &flags, Ghost(mvex_interp(cs)));
        Ok((MvexBox { mehd_box, trex_boxes, unknown_boxes }, end))
    }
}

/// Type code of `moov`.
pub open spec fn moov_code() -> Seq<u8> {
    seq![0x6du8, 0x6f, 0x6f, 0x76]
}

/// Picks `mvhd` children.
pub open spec fn is_mvhd() -> spec_fn(Seq<u8>) -> bool {
    in_codes(seq![mvhd_code()])
}

/// Picks `trak` children.
pub open spec fn is_trak() -> spec_fn(Seq<u8>) -> bool {
    in_codes(seq![trak_code()])
}

/// Picks `mvex` children.
pub open spec fn is_mvex() -> spec_fn(Seq<u8>) -> bool {
    in_codes(seq![mvex_code()])
}

/// `x` is the `mvhd` box `c`.
pub open spec fn mvhd_decoded(c: Seq<u8>, x: MvhdBox) -> bool {
    mvhd_decode_spec(c) matches Some((v, _)) && mvhd_matches(x, v)
}

/// The children that `moov` interprets: its first `mvhd` and `mvex`, and every `trak`.
pub open spec fn moov_interp(cs: Children) -> spec_fn(int) -> bool {
    |i: int|
        first_matching(cs, is_mvhd()) == Some(i) || is_trak()(cs[i].0) || first_matching(cs, is_mvex())
            == Some(i)
}

/// Whether the `moov` box at the start of `s` decodes: its payload splits
/// into boxes, it has an `mvhd` child whose first instance decodes, every
/// `trak` decodes, and its first `mvex` (if any) decodes.
#[verifier::opaque]
pub open spec fn moov_decodable(s: Seq<u8>) -> bool {
    &&& container_children(s, moov_code()) matches Some((cs, _))
    &&& first_matching(cs, is_mvhd()) matches Some(i) && mvhd_decode_spec(cs[i].1) is Some
    &&& all_decode(cs, is_trak(), |c: Seq<u8>| trak_decodable(c))
    &&& first_matching(cs, is_mvex()) matches Some(i) ==> mvex_decodable(cs[i].1)
}

/// Whether decoding the `moov` box at the start of `s` gives `b` of size `n`.
#[verifier::opaque]
pub open spec fn moov_decoded(s: Seq<u8>, b: MoovBox, n: nat) -> bool {
    &&& container_children(s, moov_code()) matches Some((cs, size))
    &&& n == size
    &&& slot(Some(b.mvhd_box), cs, first_matching(cs, is_mvhd()), |x: MvhdBox, c: Seq<u8>| mvhd_decoded(c, x))
    &&& list_matches(b.trak_boxes@, children_matching(cs, cs.len() as int, is_trak()), |x: TrakBox, c: Seq<u8>| trak_decoded(c, x, c.len()))
    &&& slot(b.mvex_box, cs, first_matching(cs, is_mvex()), |x: MvexBox, c: Seq<u8>| mvex_decoded(c, x, c.len()))
    &&& unknown_list_matches(b.unknown_boxes@, raw_children(cs, cs.len() as int, moov_interp(cs)))
}

/// Decodes every `trak` child, in order.
fn decode_trak_children(v: &Vec<(BoxType, &[u8])>) -> (r: Result<Vec<TrakBox>, Error>)
    requires
        children_whole(v@),
    ensures
        r is Ok <==> all_decode(children_view(v@), is_trak(), |c: Seq<u8>| trak_decodable(c)),
        r matches Ok(xs) ==> list_matches(
            xs@,
            children_matching(children_view(v@), v@.len() as int, is_trak()),
            |x: TrakBox, c: Seq<u8>| trak_decoded(c, x, c.len()),
        ),
        r matches Err(e) ==> e.kind == ErrorKind::InvalidData,
{
    let ghost cs = children_view(v@);
    let codes = [[0x74u8, 0x72, 0x61, 0x6b]];
    proof {
        assert(codes_view(codes@) =~= seq![trak_code()]);
    }
    let mut out: Vec<TrakBox> = Vec::new();
    let mut k: usize = 0;
    while k < v.len()
        invariant
            cs == children_view(v@),
            children_whole(v@),
            codes_view(codes@) == seq![trak_code()],
            k <= v@.len(),
            forall|i: int| 0 <= i < k && is_trak()((#[trigger] cs[i]).0) ==> trak_decodable(cs[i].1),
            list_matches(out@, children_matching(cs, k as int, is_trak()), |x: TrakBox, c: Seq<u8>| trak_decoded(c, x, c.len())),
        decreases v@.len() - k,
    {
        let hit = codes_match(&v[k].0, &codes);
        proof {
            assert(cs[k as int].0 == box_type_bytes(v@[k as int].0));
            assert(cs[k as int].1 == v@[k as int].1@);
            assert(box_header_spec(v@[k as int].1@) is Some);
        }
        if hit {
            match TrakBox::decode(v[k].1) {
                Ok((x, _)) => {
                    let ghost before = out@;
                    out.push(x);
                    proof {
                        let want = children_matching(cs, k + 1, is_trak());
                        assert(want == children_matching(cs, k as int, is_trak()).push(cs[k as int].1));
                        assert forall|i: int| 0 <= i < want.len() implies #[trigger] trak_decoded(want[i], out@[i], want[i].len()) by {
                            if i < before.len() {
                                assert(out@[i] == before[i]);
                            }
                        }
                    }
                },
                Err(e) => {
                    proof {
                        assert(!trak_decodable(cs[k as int].1));
                    }
                    return Err(e);
                },
            }
        }
        k += 1;
    }
    Ok(out)
}

impl MoovBox {
    /// Decodes the `moov` box at the start of `buf`, returning it and its size.
    pub fn decode(buf: &[u8]) -> (r: Result<(MoovBox, usize), Error>)
        ensures
            r is Ok <==> moov_decodable(buf@),
            r matches Ok((b, n)) ==> moov_decoded(buf@, b, n as nat),
            r matches Ok((_, n)) ==> (box_header_spec(buf@) matches Some((_, _, size)) && n == size),
            r matches Err(e) ==> e.kind == ErrorKind::InvalidData,
    {
        proof {
            reveal(moov_decodable);
            reveal(moov_decoded);
            assert([0x6du8, 0x6f, 0x6f, 0x76]@ =~= moov_code());
        }
        let (v, end) = container_split(buf, [0x6du8, 0x6f, 0x6f, 0x76])?;
        let ghost cs = children_view(v@);
        let mvhd_codes = [[0x6du8, 0x76, 0x68, 0x64]];
        let trak_codes = [[0x74u8, 0x72, 0x61, 0x6b]];
        let mvex_codes = [[0x6du8, 0x76, 0x65, 0x78]];
        proof {
            assert(codes_view(mvhd_codes@) =~= seq![mvhd_code()]);
            assert(codes_view(trak_codes@) =~= seq![trak_code()]);
            assert(codes_view(mvex_codes@) =~= seq![mvex_code()]);
            lemma_first_matching_bounds(cs, is_mvhd());
            lemma_first_matching_bounds(cs, is_mvex());
        }
        let i_mvhd = find_first(&v, &mvhd_codes);
        let mvhd_box = match i_mvhd {
            None => {
                return Err(Error::invalid_data("Missing mandatory 'mvhd' box in 'moov' box"));
            },
            Some(i) => {
                let (x, _) = MvhdBox::decode(v[i].1)?;
                x
            },
        };
        let trak_boxes = decode_trak_children(&v)?;
        let i_mvex = find_first(&v, &mvex_codes);
        let mvex_box = match i_mvex {
            None => None,
            Some(i) => {
                let (x, _) = MvexBox::decode(v[i].1)?;
                Some(x)
            },
        };
        let picks = [i_mvhd, i_mvex];
        let flags = interp_flags(&v, &picks, &trak_codes);
        proof {
            assert forall|k: int| 0 <= k < flags@.len() implies #[trigger] flags@[k] == moov_interp(cs)(k) by {
                if flags@[k] && !in_codes(codes_view(trak_codes@))(cs[k].0) {
                    let j = choose|j: int| 0 <= j < picks@.len() && picks@[j] == Some(k as usize);
                    assert(j == 0 || j == 1);
                }
                if moov_interp(cs)(k) {
                    if first_matching(cs, is_mvhd()) == Some(k) {
                        assert(picks@[0] == Some(k as usize));
                    } else if first_matching(cs, is_mvex()) == Some(k) {
                        assert(picks@[1] == Some(k as usize));
                    }
                }
            }
        }
        let unknown_boxes = decode_raw(&v, &flags, Ghost(moov_interp(cs)));
        Ok((MoovBox { mvhd_box, trak_boxes, mvex_box, unknown_boxes }, end))
    }
}

} // verus!

verus! {

/// A box is at least 8 bytes longer than its payload.
pub proof fn lemma_box_bytes_len(t: BoxType, payload: Seq<u8>)
    ensures
        box_bytes(t, payload).len() >= payload.len() + 8,
{
    lemma_be_bytes_len(8 + payload.len() + match t {
        BoxType::Normal(_) => 0nat,
        BoxType::Uuid(_) => 16nat,
    }, 4);
    lemma_be_bytes_len(1, 4);
    lemma_be_bytes_len(16 + payload.len() + match t {
        BoxType::Normal(_) => 0nat,
        BoxType::Uuid(_) => 16nat,
    }, 8);
}

/// The bytes of an optional child.
pub open spec fn opt_bytes<T>(o: Option<T>, f: spec_fn(T) -> Seq<u8>) -> Seq<u8> {
    match o {
        None => Seq::empty(),
        Some(x) => f(x),
    }
}

/// An `edts` box of `b`: its `elst`, then its other children.
pub open spec fn edts_box_bytes(b: EdtsBox) -> Seq<u8> {
    box_bytes(
        BoxType::Normal([0x65u8, 0x64, 0x74, 0x73]),
        opt_bytes(b.elst_box, |e: ElstBox| elst_box_bytes(e.entries@)) + unknown_boxes_bytes(b.unknown_boxes@),
    )
}

impl EdtsBox {
    /// Encodes the box.
    pub fn encode(&self) -> (r: Vec<u8>)
        requires
            self.elst_box matches Some(e) ==> e.entries@.len() <= u32::MAX && 32 * e.entries@.len() + 64
                <= usize::MAX,
            edts_box_bytes(*self).len() + 64 <= usize::MAX,
        ensures
            r@ == edts_box_bytes(*self),
    {
        let mut payload: Vec<u8> = Vec::new();
        match &self.elst_box {
            None => {},
            Some(e) => {
                let b = e.encode();
                put_bytes(&mut payload, b.as_slice());
            },
        }
        encode_unknown_boxes(&mut payload, &self.unknown_boxes);
        proof {
            assert(payload@ =~= opt_bytes(self.elst_box, |e: ElstBox| elst_box_bytes(e.entries@)) + unknown_boxes_bytes(
                self.unknown_boxes@,
            ));
            lemma_box_bytes_len(BoxType::Normal([0x65u8, 0x64, 0x74, 0x73]), payload@);
        }
        let mut out: Vec<u8> = Vec::new();
        put_box(&mut out, &BoxType::Normal([0x65u8, 0x64, 0x74, 0x73]), payload.as_slice());
        out
    }
}

/// A `dref` box of `b`: version and flags 0, the entry count, its `url `
/// entry, then its other entries.
pub open spec fn dref_box_bytes(b: DrefBox) -> Seq<u8> {
    let count: nat = (if b.url_box is Some { 1nat } else { 0nat }) + b.unknown_boxes@.len();
    box_bytes(
        BoxType::Normal([0x64u8, 0x72, 0x65, 0x66]),
        Seq::new(4, |i: int| 0u8) + be_bytes(count, 4) + opt_bytes(b.url_box, |u: UrlBox| url_box_bytes(u))
            + unknown_boxes_bytes(b.unknown_boxes@),
    )
}

impl DrefBox {
    /// Encodes the box.
    pub fn encode(&self) -> (r: Vec<u8>)
        requires
            self.unknown_boxes@.len() < u32::MAX,
            self.url_box matches Some(u) ==> (u.location matches Some(l) ==> l@.len() + 64 <= usize::MAX),
            dref_box_bytes(*self).len() + 64 <= usize::MAX,
        ensures
            r@ == dref_box_bytes(*self),
    {
        let mut payload: Vec<u8> = Vec::new();
        put_be(&mut payload, 0, 4);
        let count: u64 = (if self.url_box.is_some() {
            1u64
        } else {
            0u64
        }) + self.unknown_boxes.len() as u64;
        put_be(&mut payload, count, 4);
        match &self.url_box {
            None => {},
            Some(u) => {
                let b = u.encode();
                put_bytes(&mut payload, b.as_slice());
            },
        }
        encode_unknown_boxes(&mut payload, &self.unknown_boxes);
        proof {
            assert(be_bytes(0, 4) =~= Seq::new(4, |i: int| 0u8)) by {
                reveal_with_fuel(be_bytes, 5);
            }
            assert(payload@ =~= Seq::new(4, |i: int| 0u8) + be_bytes(
                (if self.url_box is Some { 1nat } else { 0nat }) + self.unknown_boxes@.len(),
                4,
            ) + opt_bytes(self.url_box, |u: UrlBox| url_box_bytes(u)) + unknown_boxes_bytes(self.unknown_boxes@));
            lemma_box_bytes_len(BoxType::Normal([0x64u8, 0x72, 0x65, 0x66]), payload@);
        }
        let mut out: Vec<u8> = Vec::new();
        put_box(&mut out, &BoxType::Normal([0x64u8, 0x72, 0x65, 0x66]), payload.as_slice());
        out
    }
}

/// A `dinf` box of `b`: its `dref`, then its other children.
pub open spec fn dinf_box_bytes(b: DinfBox) -> Seq<u8> {
    box_bytes(
        BoxType::Normal([0x64u8, 0x69, 0x6e, 0x66]),
        dref_box_bytes(b.dref_box) + unknown_boxes_bytes(b.unknown_boxes@),
    )
}

impl DinfBox {
    /// Encodes the box.
    pub fn encode(&self) -> (r: Vec<u8>)
        requires
            self.dref_box.unknown_boxes@.len() < u32::MAX,
            self.dref_box.url_box matches Some(u) ==> (u.location matches Some(l) ==> l@.len() + 64 <= usize::MAX),
            dinf_box_bytes(*self).len() + 64 <= usize::MAX,
        ensures
            r@ == dinf_box_bytes(*self),
    {
        proof {
            lemma_box_bytes_len(
                BoxType::Normal([0x64u8, 0x69, 0x6e, 0x66]),
                dref_box_bytes(self.dref_box) + unknown_boxes_bytes(self.unknown_boxes@),
            );
        }
        let mut payload: Vec<u8> = self.dref_box.encode();
        encode_unknown_boxes(&mut payload, &self.unknown_boxes);
        let mut out: Vec<u8> = Vec::new();
        put_box(&mut out, &BoxType::Normal([0x64u8, 0x69, 0x6e, 0x66]), payload.as_slice());
        out
    }
}

/// A media header box.
pub open spec fn media_header_bytes(h: MediaHeader) -> Seq<u8> {
    match h {
        MediaHeader::Smhd(x) => smhd_box_bytes(x),
        MediaHeader::Vmhd(x) => vmhd_box_bytes(x),
        MediaHeader::Sthd(_) => box_bytes(BoxType::Normal([0x73u8, 0x74, 0x68, 0x64]), full_box_header(0)),
        MediaHeader::Nmhd(_) => box_bytes(BoxType::Normal([0x6eu8, 0x6d, 0x68, 0x64]), full_box_header(0)),
    }
}

impl MediaHeader {
    /// Encodes the media header box.
    pub fn encode(&self) -> (r: Vec<u8>)
        ensures
            r@ == media_header_bytes(*self),
    {
        match self {
            MediaHeader::Smhd(x) => x.encode(),
            MediaHeader::Vmhd(x) => x.encode(),
            MediaHeader::Sthd(x) => x.encode(),
            MediaHeader::Nmhd(x) => x.encode(),
        }
    }
}

/// The `trex` boxes one after another.
pub open spec fn trex_boxes_bytes(ts: Seq<TrexBox>) -> Seq<u8> {
    concat_records(ts.map_values(|t: TrexBox| trex_box_bytes(t)))
}

/// An `mvex` box of `b`: its `mehd`, its `trex` boxes, then its other children.
pub open spec fn mvex_box_bytes(b: MvexBox) -> Seq<u8> {
    box_bytes(
        BoxType::Normal([0x6du8, 0x76, 0x65, 0x78]),
        opt_bytes(b.mehd_box, |m: MehdBox| mehd_box_bytes(m)) + trex_boxes_bytes(b.trex_boxes@)
            + unknown_boxes_bytes(b.unknown_boxes@),
    )
}

impl MvexBox {
    /// Encodes the box.
    pub fn encode(&self) -> (r: Vec<u8>)
        requires
            mvex_box_bytes(*self).len() + 64 <= usize::MAX,
        ensures
            r@ == mvex_box_bytes(*self),
    {
        let mut payload: Vec<u8> = Vec::new();
        match &self.mehd_box {
            None => {},
            Some(m) => {
                let b = m.encode();
                put_bytes(&mut payload, b.as_slice());
            },
        }
        let ghost head = payload@;
        let ghost recs = self.trex_boxes@.map_values(|t: TrexBox| trex_box_bytes(t));
        let mut i: usize = 0;
        proof {
            assert(recs.take(0) =~= Seq::<Seq<u8>>::empty());
        }
        while i < self.trex_boxes.len()
            invariant
                recs == self.trex_boxes@.map_values(|t: TrexBox| trex_box_bytes(t)),
                i <= self.trex_boxes@.len(),
                payload@ == head + concat_records(recs.take(i as int)),
            decreases self.trex_boxes@.len() - i,
        {
            let b = self.trex_boxes[i].encode();
            put_bytes(&mut payload, b.as_slice());
            proof {
                lemma_concat_records_push(recs, i as int);
                assert(payload@ =~= head + concat_records(recs.take(i + 1)));
            }
            i += 1;
        }
        proof {
            assert(recs.take(i as int) =~= recs);
        }
        encode_unknown_boxes(&mut payload, &self.unknown_boxes);
        proof {
            assert(payload@ =~= opt_bytes(self.mehd_box, |m: MehdBox| mehd_box_bytes(m)) + trex_boxes_bytes(
                self.trex_boxes@,
            ) + unknown_boxes_bytes(self.unknown_boxes@));
            lemma_box_bytes_len(BoxType::Normal([0x6du8, 0x76, 0x65, 0x78]), payload@);
        }
        let mut out: Vec<u8> = Vec::new();
        put_box(&mut out, &BoxType::Normal([0x6du8, 0x76, 0x65, 0x78]), payload.as_slice());
        out
    }
}

} // verus!

