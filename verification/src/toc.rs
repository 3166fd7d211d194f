use vstd::prelude::*;
use vstd::bytes::spec_u32_from_le_bytes;
use vstd::bytes::spec_u32_to_le_bytes;
use vstd::bytes::spec_u64_from_le_bytes;
use vstd::bytes::spec_u64_to_le_bytes;
use vstd::bytes::u32_from_le_bytes;
use vstd::bytes::u32_to_le_bytes;
use vstd::bytes::u64_from_le_bytes;
use vstd::bytes::u64_to_le_bytes;
use vstd::bytes::lemma_auto_spec_u32_to_from_le_bytes;
use vstd::bytes::lemma_auto_spec_u64_to_from_le_bytes;
use crate::errors::DbError;
use crate::io::Db;
use crate::io::read_at;
use crate::io::write_at;
use crate::io::write_bytes;
use crate::io::lemma_write_bytes_index;
use crate::io::get_eof;
use crate::io::clone_bytes;
use crate::json::JsonValue;
use crate::json::enc;
use crate::json::doc_of;
use crate::json::encode_json;
use crate::json::decode_json;
use crate::json::bytes_eq;
use crate::utils::schema_ok;
use crate::utils::validate_against_schema;
use crate::header::HEADER_SIZE;
use crate::header::TOC_CAP;
use crate::header::DATA_START;

verus! {

/// One table-of-contents entry: where the collection's segment starts, and
/// its optional schema, stored as encoded document bytes.
pub struct TocEntry {
    /// Start offset of the collection's document segment.
    pub offset: u64,
    /// The collection's schema as encoded document bytes, if one was set.
    pub schema: Option<Vec<u8>>,
}

/// The model of a table-of-contents entry.
pub struct TocEntryModel {
    pub offset: u64,
    pub schema: Option<Seq<u8>>,
}

impl View for TocEntry {
    type V = TocEntryModel;

    open spec fn view(&self) -> TocEntryModel {
        TocEntryModel {
            offset: self.offset,
            schema: match self.schema {
                Option::None => Option::None,
                Option::Some(s) => Option::Some(s@),
            },
        }
    }
}

/// The table of contents as held in memory: collection names, unique by
/// construction, each with its entry, in insertion order.
pub type TocMap = Vec<(Vec<u8>, TocEntry)>;

/// The model of a table of contents.
pub open spec fn toc_view(ps: Seq<(Vec<u8>, TocEntry)>) -> Seq<(Seq<u8>, TocEntryModel)>
    decreases ps,
{
    if ps.len() == 0 {
        Seq::empty()
    } else {
        seq![(ps[0].0@, ps[0].1@)] + toc_view(ps.skip(1))
    }
}

/// `toc_view` pinned down pointwise.
pub proof fn lemma_toc_view_index(ps: Seq<(Vec<u8>, TocEntry)>)
    ensures
        toc_view(ps).len() == ps.len(),
        forall|i: int| 0 <= i < ps.len() ==> toc_view(ps)[i] == (ps[i].0@, ps[i].1@),
    decreases ps,
{
    if ps.len() > 0 {
        lemma_toc_view_index(ps.skip(1));
        assert(toc_view(ps) == seq![(ps[0].0@, ps[0].1@)] + toc_view(ps.skip(1)));
        assert forall|i: int|
            0 <= i < ps.len() implies toc_view(ps)[i] == (ps[i].0@, ps[i].1@) by {
            if i > 0 {
                assert(toc_view(ps)[i] == toc_view(ps.skip(1))[i - 1]);
                assert(ps.skip(1)[i - 1] == ps[i]);
            }
        }
    }
}

/// The serialized form of one entry: the name length, the name bytes, the
/// offset, then a schema tag byte followed, when the tag is one, by the
/// schema length and bytes.
pub open spec fn enc_entry(name: Seq<u8>, e: TocEntryModel) -> Seq<u8> {
    spec_u32_to_le_bytes(name.len() as u32) + name + spec_u64_to_le_bytes(e.offset) + (
    match e.schema {
        Option::None => seq![0u8],
        Option::Some(sch) => seq![1u8] + spec_u32_to_le_bytes(sch.len() as u32) + sch,
    })
}

/// The serialized entries, one after another.
pub open spec fn enc_entries(es: Seq<(Seq<u8>, TocEntryModel)>) -> Seq<u8>
    decreases es.len(),
{
    if es.len() == 0 {
        Seq::empty()
    } else {
        enc_entry(es[0].0, es[0].1) + enc_entries(es.skip(1))
    }
}

/// The serialized table of contents: an entry count, then the entries.
pub open spec fn toc_bytes(es: Seq<(Seq<u8>, TocEntryModel)>) -> Seq<u8> {
    spec_u32_to_le_bytes(es.len() as u32) + enc_entries(es)
}

/// Whether every length the serialization stores fits its field.
pub open spec fn toc_wf(es: Seq<(Seq<u8>, TocEntryModel)>) -> bool {
    &&& es.len() <= u32::MAX
    &&& forall|i: int|
        0 <= i < es.len() ==> (#[trigger] es[i]).0.len() <= u32::MAX && (match es[i].1.schema {
            Option::None => true,
            Option::Some(sch) => sch.len() <= u32::MAX,
        })
}

/// Parses one serialized entry at `pos`: the entry and the position just
/// past it.
pub open spec fn parse_entry(s: Seq<u8>, pos: int) -> Option<((Seq<u8>, TocEntryModel), int)> {
    if pos < 0 || pos + 4 > s.len() {
        None
    } else {
        let nl = spec_u32_from_le_bytes(s.subrange(pos, pos + 4)) as int;
        if pos + 4 + nl + 9 > s.len() {
            None
        } else {
            let name = s.subrange(pos + 4, pos + 4 + nl);
            let off = spec_u64_from_le_bytes(s.subrange(pos + 4 + nl, pos + 4 + nl + 8));
            let tag = s[pos + 4 + nl + 8];
            let p = pos + 4 + nl + 9;
            if tag == 0 {
                Some(((name, TocEntryModel { offset: off, schema: Option::None }), p))
            } else if tag == 1 {
                if p + 4 > s.len() {
                    None
                } else {
                    let sl = spec_u32_from_le_bytes(s.subrange(p, p + 4)) as int;
                    if p + 4 + sl > s.len() {
                        None
                    } else {
                        Some(
                            (
                                (
                                    name,
                                    TocEntryModel {
                                        offset: off,
                                        schema: Option::Some(s.subrange(p + 4, p + 4 + sl)),
                                    },
                                ),
                                p + 4 + sl,
                            ),
                        )
                    }
                }
            } else {
                None
            }
        }
    }
}

/// Parses `k` serialized entries starting at `pos`.
pub open spec fn parse_entries(s: Seq<u8>, pos: int, k: nat) -> Option<
    (Seq<(Seq<u8>, TocEntryModel)>, int),
>
    decreases k,
{
    if k == 0 {
        Some((Seq::empty(), pos))
    } else {
        match parse_entry(s, pos) {
            Some((e, p)) => match parse_entries(s, p, (k - 1) as nat) {
                Some((es, q)) => Some((seq![e] + es, q)),
                None => None,
            },
            None => None,
        }
    }
}

/// The entries a serialized table-of-contents region holds. Damaged bytes
/// are not an error: they degrade to an empty table, losing the directory
/// but never the underlying document bytes.
pub open spec fn parse_toc(region: Seq<u8>) -> Seq<(Seq<u8>, TocEntryModel)> {
    if region.len() < 4 {
        Seq::empty()
    } else {
        let c = spec_u32_from_le_bytes(region.take(4)) as nat;
        match parse_entries(region, 4, c) {
            Some((es, _)) => es,
            None => Seq::empty(),
        }
    }
}

/// The table of contents an image holds in its reserved region.
pub open spec fn toc_entries(im: Seq<u8>) -> Seq<(Seq<u8>, TocEntryModel)> {
    if im.len() >= DATA_START {
        parse_toc(im.subrange(HEADER_SIZE as int, DATA_START as int))
    } else {
        Seq::empty()
    }
}

/// The position of the first entry named `name`, searched front to back.
pub open spec fn toc_index(es: Seq<(Seq<u8>, TocEntryModel)>, name: Seq<u8>) -> Option<int>
    decreases es.len(),
{
    if es.len() == 0 {
        None
    } else if es[0].0 == name {
        Some(0)
    } else {
        match toc_index(es.skip(1), name) {
            Some(i) => Some(i + 1),
            None => None,
        }
    }
}

/// The entry a table of contents holds for `name`: the first one, searched
/// front to back.
pub open spec fn toc_lookup(es: Seq<(Seq<u8>, TocEntryModel)>, name: Seq<u8>) -> Option<
    TocEntryModel,
> {
    match toc_index(es, name) {
        Some(i) => Some(es[i].1),
        None => None,
    }
}

/// A first-match search characterized by its outcome: if the entries before
/// `i` all have another name, a match at `i` is the first, and reaching the
/// end without one means there is none.
pub proof fn lemma_toc_index_char(es: Seq<(Seq<u8>, TocEntryModel)>, name: Seq<u8>, i: int)
    requires
        0 <= i <= es.len(),
        forall|j: int| 0 <= j < i ==> (#[trigger] es[j]).0 != name,
    ensures
        i < es.len() && es[i].0 == name ==> toc_index(es, name) == Some(i),
        i == es.len() ==> toc_index(es, name) is None,
    decreases i,
{
    if i > 0 {
        assert(es[0].0 != name);
        lemma_toc_index_char(es.skip(1), name, i - 1);
        assert forall|j: int| 0 <= j < i - 1 implies (#[trigger] es.skip(1)[j]).0 != name by {
            assert(es.skip(1)[j] == es[j + 1]);
        }
        lemma_toc_index_char(es.skip(1), name, i - 1);
        if i < es.len() && es[i].0 == name {
            assert(es.skip(1)[i - 1] == es[i]);
        }
    }
}


/// Sizes inside a serialized entry list: each entry costs at least 13
/// bytes, and every name and schema lies whole inside the serialization.
pub proof fn lemma_enc_entries_bound(es: Seq<(Seq<u8>, TocEntryModel)>)
    ensures
        enc_entries(es).len() >= 13 * es.len(),
        forall|i: int|
            0 <= i < es.len() ==> (#[trigger] es[i]).0.len() <= enc_entries(es).len() && (
            match es[i].1.schema {
                Option::None => true,
                Option::Some(sch) => sch.len() <= enc_entries(es).len(),
            }),
    decreases es.len(),
{
    lemma_auto_spec_u32_to_from_le_bytes();
    lemma_auto_spec_u64_to_from_le_bytes();
    if es.len() > 0 {
        lemma_enc_entries_bound(es.skip(1));
        assert(enc_entries(es) == enc_entry(es[0].0, es[0].1) + enc_entries(es.skip(1)));
        assert(enc_entry(es[0].0, es[0].1).len() >= 13);
        assert forall|i: int|
            0 <= i < es.len() implies (#[trigger] es[i]).0.len() <= enc_entries(es).len() && (
        match es[i].1.schema {
            Option::None => true,
            Option::Some(sch) => sch.len() <= enc_entries(es).len(),
        }) by {
            if i > 0 {
                assert(es.skip(1)[i - 1] == es[i]);
            }
        }
    }
}

/// A serialized table that fits the reserved region has every stored
/// length within its field.
pub proof fn lemma_toc_wf_from_size(es: Seq<(Seq<u8>, TocEntryModel)>)
    requires
        toc_bytes(es).len() <= TOC_CAP,
    ensures
        toc_wf(es),
{
    vstd::bytes::lemma_auto_spec_u32_to_from_le_bytes();
    lemma_enc_entries_bound(es);
}

/// Parsing one serialized entry yields it back.
pub proof fn lemma_toc_rt_entry(name: Seq<u8>, e: TocEntryModel, s: Seq<u8>, pos: int)
    requires
        name.len() <= u32::MAX,
        match e.schema {
            Option::None => true,
            Option::Some(sch) => sch.len() <= u32::MAX,
        },
        0 <= pos,
        pos + enc_entry(name, e).len() <= s.len(),
        s.subrange(pos, pos + enc_entry(name, e).len()) == enc_entry(name, e),
    ensures
        parse_entry(s, pos) == Some(((name, e), pos + enc_entry(name, e).len())),
{
    lemma_auto_spec_u32_to_from_le_bytes();
    lemma_auto_spec_u64_to_from_le_bytes();
    let ee = enc_entry(name, e);
    let l = ee.len() as int;
    let nl = name.len() as int;
    assert forall|k: int| pos <= k < pos + l implies s[k] == ee[k - pos] by {
        assert(ee[k - pos] == s.subrange(pos, pos + l)[k - pos]);
    }
    assert(s.subrange(pos, pos + 4) =~= spec_u32_to_le_bytes(name.len() as u32)) by {
        assert forall|k: int|
            0 <= k < 4 implies #[trigger] s.subrange(pos, pos + 4)[k] == spec_u32_to_le_bytes(
            name.len() as u32,
        )[k] by {
            assert(s[pos + k] == ee[k]);
        }
    }
    assert(spec_u32_from_le_bytes(s.subrange(pos, pos + 4)) == name.len() as u32);
    assert(s.subrange(pos + 4, pos + 4 + nl) =~= name) by {
        assert forall|k: int|
            0 <= k < nl implies #[trigger] s.subrange(pos + 4, pos + 4 + nl)[k] == name[k] by {
            assert(s[pos + 4 + k] == ee[4 + k]);
        }
    }
    assert(s.subrange(pos + 4 + nl, pos + 4 + nl + 8) =~= spec_u64_to_le_bytes(e.offset)) by {
        assert forall|k: int|
            0 <= k < 8 implies #[trigger] s.subrange(pos + 4 + nl, pos + 4 + nl + 8)[k]
            == spec_u64_to_le_bytes(e.offset)[k] by {
            assert(s[pos + 4 + nl + k] == ee[4 + nl + k]);
        }
    }
    let p = pos + 4 + nl + 9;
    match e.schema {
        Option::None => {
            assert(s[pos + 4 + nl + 8] == ee[4 + nl + 8]);
            assert(ee[4 + nl + 8] == 0u8);
        },
        Option::Some(sch) => {
            let sl = sch.len() as int;
            assert(s[pos + 4 + nl + 8] == ee[4 + nl + 8]);
            assert(ee[4 + nl + 8] == 1u8);
            assert(s.subrange(p, p + 4) =~= spec_u32_to_le_bytes(sch.len() as u32)) by {
                assert forall|k: int|
                    0 <= k < 4 implies #[trigger] s.subrange(p, p + 4)[k] == spec_u32_to_le_bytes(
                    sch.len() as u32,
                )[k] by {
                    assert(s[p + k] == ee[4 + nl + 9 + k]);
                }
            }
            assert(s.subrange(p + 4, p + 4 + sl) =~= sch) by {
                assert forall|k: int|
                    0 <= k < sl implies #[trigger] s.subrange(p + 4, p + 4 + sl)[k] == sch[k] by {
                    assert(s[p + 4 + k] == ee[4 + nl + 13 + k]);
                }
            }
        },
    }
}

/// Parsing a serialized entry list yields the entries back, whatever
/// follows them.
pub proof fn lemma_toc_rt_entries(es: Seq<(Seq<u8>, TocEntryModel)>, s: Seq<u8>, pos: int)
    requires
        toc_wf(es),
        0 <= pos,
        pos + enc_entries(es).len() <= s.len(),
        s.subrange(pos, pos + enc_entries(es).len()) == enc_entries(es),
    ensures
        parse_entries(s, pos, es.len()) == Some((es, pos + enc_entries(es).len())),
    decreases es.len(),
{
    if es.len() == 0 {
        assert(es =~= Seq::<(Seq<u8>, TocEntryModel)>::empty());
    } else {
        let ee = enc_entry(es[0].0, es[0].1);
        let l0 = ee.len() as int;
        let le = enc_entries(es).len() as int;
        assert(enc_entries(es) == ee + enc_entries(es.skip(1)));
        assert forall|k: int| pos <= k < pos + le implies s[k] == enc_entries(es)[k - pos] by {
            assert(enc_entries(es)[k - pos] == s.subrange(pos, pos + le)[k - pos]);
        }
        assert(s.subrange(pos, pos + l0) =~= ee) by {
            assert forall|k: int| 0 <= k < l0 implies #[trigger] s.subrange(pos, pos + l0)[k]
                == ee[k] by {
                assert(s[pos + k] == enc_entries(es)[k]);
            }
        }
        lemma_toc_rt_entry(es[0].0, es[0].1, s, pos);
        let pos2 = pos + l0;
        let lr = enc_entries(es.skip(1)).len() as int;
        assert(s.subrange(pos2, pos2 + lr) =~= enc_entries(es.skip(1))) by {
            assert forall|k: int|
                0 <= k < lr implies #[trigger] s.subrange(pos2, pos2 + lr)[k] == enc_entries(
                es.skip(1),
            )[k] by {
                assert(s[pos2 + k] == enc_entries(es)[l0 + k]);
                assert(enc_entries(es)[l0 + k] == enc_entries(es.skip(1))[k]);
            }
        }
        assert(toc_wf(es.skip(1))) by {
            assert forall|i: int|
                0 <= i < es.skip(1).len() implies (#[trigger] es.skip(1)[i]).0.len() <= u32::MAX
                && (match es.skip(1)[i].1.schema {
                Option::None => true,
                Option::Some(sch) => sch.len() <= u32::MAX,
            }) by {
                assert(es.skip(1)[i] == es[i + 1]);
            }
        }
        lemma_toc_rt_entries(es.skip(1), s, pos2);
        assert(parse_entries(s, pos, es.len()) == Some((seq![es[0]] + es.skip(1), pos + le)));
        assert(seq![es[0]] + es.skip(1) =~= es);
    }
}

/// The reserved-region bytes a table serializes to: the serialization,
/// zero-padded to the region's capacity.
pub open spec fn toc_region_bytes(es: Seq<(Seq<u8>, TocEntryModel)>) -> Seq<u8> {
    toc_bytes(es) + crate::io::zeros(TOC_CAP - toc_bytes(es).len())
}

/// A table that fits the region reads back from its padded serialization.
pub proof fn lemma_toc_round_trip(es: Seq<(Seq<u8>, TocEntryModel)>)
    requires
        toc_bytes(es).len() <= TOC_CAP,
    ensures
        toc_region_bytes(es).len() == TOC_CAP,
        parse_toc(toc_region_bytes(es)) == es,
{
    lemma_auto_spec_u32_to_from_le_bytes();
    lemma_toc_wf_from_size(es);
    let region = toc_region_bytes(es);
    let tb = toc_bytes(es);
    assert(tb == spec_u32_to_le_bytes(es.len() as u32) + enc_entries(es));
    assert(region.take(4) =~= spec_u32_to_le_bytes(es.len() as u32));
    assert(spec_u32_from_le_bytes(region.take(4)) == es.len() as u32);
    let le = enc_entries(es).len() as int;
    assert(region.subrange(4, 4 + le) =~= enc_entries(es));
    lemma_toc_rt_entries(es, region, 4);
}

/// Copies `n` bytes of `v` starting at `start`.
fn copy_range(v: &Vec<u8>, start: usize, n: usize) -> (r: Vec<u8>)
    requires
        start + n <= v@.len(),
    ensures
        r@ == v@.subrange(start as int, start + n),
{
    let vn = v.len();
    let mut out: Vec<u8> = Vec::new();
    let mut i: usize = 0;
    while i < n
        invariant
            start + n <= v@.len(),
            start + n <= vn <= usize::MAX,
            i <= n,
            out@ == v@.subrange(start as int, start + i),
        decreases n - i,
    {
        out.push(v[start + i]);
        proof {
            assert(out@ =~= v@.subrange(start as int, start + i + 1));
        }
        i = i + 1;
    }
    out
}

/// Appends the bytes of `v` to `out`.
fn push_bytes(out: &mut Vec<u8>, v: &Vec<u8>)
    ensures
        final(out)@ == old(out)@ + v@,
{
    let mut i: usize = 0;
    while i < v.len()
        invariant
            i <= v@.len(),
            out@ == old(out)@ + v@.take(i as int),
        decreases v@.len() - i,
    {
        out.push(v[i]);
        proof {
            assert(out@ =~= old(out)@ + v@.take(i + 1));
        }
        i = i + 1;
    }
    proof {
        assert(v@.take(v@.len() as int) =~= v@);
    }
}

/// Parses one serialized entry of `s` at `pos`, mirroring `parse_entry`.
fn p_toc_entry(s: &Vec<u8>, pos: usize) -> (r: Option<((Vec<u8>, TocEntry), usize)>)
    requires
        pos <= s@.len(),
    ensures
        match r {
            Some((e, p)) => pos < p <= s@.len() && parse_entry(s@, pos as int) == Some(
                ((e.0@, e.1@), p as int),
            ),
            None => parse_entry(s@, pos as int) is None,
        },
{
    let n = s.len();
    if n - pos < 4 {
        return None;
    }
    let nl_bytes = copy_range(s, pos, 4);
    let nl32 = u32_from_le_bytes(nl_bytes.as_slice());
    let nl = nl32 as usize;
    if n - pos < 4 {
        return None;
    }
    if n - pos - 4 < nl || n - pos - 4 - nl < 9 {
        return None;
    }
    let name = copy_range(s, pos + 4, nl);
    let off_bytes = copy_range(s, pos + 4 + nl, 8);
    let off = u64_from_le_bytes(off_bytes.as_slice());
    let tag = s[pos + 4 + nl + 8];
    let p = pos + 4 + nl + 9;
    if tag == 0 {
        Some(((name, TocEntry { offset: off, schema: None }), p))
    } else if tag == 1 {
        if n - p < 4 {
            return None;
        }
        let sl_bytes = copy_range(s, p, 4);
        let sl32 = u32_from_le_bytes(sl_bytes.as_slice());
        let sl = sl32 as usize;
        if n - p - 4 < sl {
            return None;
        }
        let sch = copy_range(s, p + 4, sl);
        Some(((name, TocEntry { offset: off, schema: Some(sch) }), p + 4 + sl))
    } else {
        None
    }
}

/// Parses `k` serialized entries of `s` at `pos`, mirroring `parse_entries`.
fn p_toc_entries(s: &Vec<u8>, pos: usize, k: u32) -> (r: Option<(TocMap, usize)>)
    requires
        pos <= s@.len(),
    ensures
        match r {
            Some((es, p)) => p <= s@.len() && parse_entries(s@, pos as int, k as nat) == Some(
                (toc_view(es@), p as int),
            ),
            None => parse_entries(s@, pos as int, k as nat) is None,
        },
    decreases k,
{
    if k == 0 {
        let es: TocMap = Vec::new();
        proof {
            assert(toc_view(es@) =~= Seq::<(Seq<u8>, TocEntryModel)>::empty());
        }
        return Some((es, pos));
    }
    match p_toc_entry(s, pos) {
        Some((e, p)) => {
            match p_toc_entries(s, p, k - 1) {
                Some((mut es, q)) => {
                    let ghost tail = es@;
                    let ghost e_model = (e.0@, e.1@);
                    es.insert(0, e);
                    proof {
                        assert(es@.skip(1) =~= tail);
                        assert(es@[0] == e);
                        assert(toc_view(es@) == seq![e_model] + toc_view(tail));
                    }
                    Some((es, q))
                },
                None => None,
            }
        },
        None => None,
    }
}

/// Decodes a reserved-region image into a table of contents; damaged bytes
/// degrade to an empty table.
fn decode_toc(region: &Vec<u8>) -> (t: TocMap)
    ensures
        toc_view(t@) == parse_toc(region@),
{
    if region.len() < 4 {
        let es: TocMap = Vec::new();
        proof {
            assert(toc_view(es@) =~= Seq::<(Seq<u8>, TocEntryModel)>::empty());
        }
        return es;
    }
    let c_bytes = copy_range(region, 0, 4);
    proof {
        assert(region@.subrange(0, 4) =~= region@.take(4));
    }
    let c = u32_from_le_bytes(c_bytes.as_slice());
    match p_toc_entries(region, 4, c) {
        Some((es, _)) => es,
        None => {
            let es: TocMap = Vec::new();
            proof {
                assert(toc_view(es@) =~= Seq::<(Seq<u8>, TocEntryModel)>::empty());
            }
            es
        },
    }
}

/// Serializes the entries of `toc` from `i` on.
fn enc_entries_into(toc: &TocMap, i: usize, out: &mut Vec<u8>)
    requires
        i <= toc@.len(),
    ensures
        final(out)@ == old(out)@ + enc_entries(toc_view(toc@).skip(i as int)),
    decreases toc@.len() - i,
{
    proof {
        lemma_toc_view_index(toc@);
    }
    if i == toc.len() {
        proof {
            assert(toc_view(toc@).skip(i as int) =~= Seq::<(Seq<u8>, TocEntryModel)>::empty());
            assert(out@ =~= out@ + enc_entries(toc_view(toc@).skip(i as int)));
        }
        return ;
    }
    let ghost q = toc_view(toc@).skip(i as int);
    proof {
        assert(q[0] == toc_view(toc@)[i as int]);
    }
    let mut nl_bytes = u32_to_le_bytes(toc[i].0.len() as u32);
    out.append(&mut nl_bytes);
    push_bytes(out, &toc[i].0);
    let mut off_bytes = u64_to_le_bytes(toc[i].1.offset);
    out.append(&mut off_bytes);
    match &toc[i].1.schema {
        None => {
            out.push(0u8);
        },
        Some(sch) => {
            out.push(1u8);
            let mut sl_bytes = u32_to_le_bytes(sch.len() as u32);
            out.append(&mut sl_bytes);
            push_bytes(out, sch);
        },
    }
    proof {
        assert(out@ =~= old(out)@ + enc_entry(q[0].0, q[0].1));
    }
    enc_entries_into(toc, i + 1, out);
    proof {
        assert(q.skip(1) =~= toc_view(toc@).skip(i + 1));
        assert(out@ =~= old(out)@ + enc_entries(q));
    }
}

/// The serialized bytes of a table of contents.
fn encode_toc(toc: &TocMap) -> (r: Vec<u8>)
    ensures
        r@ == toc_bytes(toc_view(toc@)),
{
    proof {
        lemma_toc_view_index(toc@);
    }
    let mut out = u32_to_le_bytes(toc.len() as u32);
    enc_entries_into(toc, 0, &mut out);
    proof {
        assert(toc_view(toc@).skip(0) =~= toc_view(toc@));
        assert(out@ =~= toc_bytes(toc_view(toc@)));
    }
    out
}

/// Loads the table of contents from the image's reserved region. A region
/// holding damaged bytes yields an empty table, not an error; an image too
/// short to hold the region is an `IoError`.
pub fn load_toc(db: &Db) -> (r: Result<TocMap, DbError>)
    ensures
        match r {
            Ok(t) => db@.len() >= DATA_START && toc_view(t@) == toc_entries(db@),
            Err(e) => e == DbError::IoError && db@.len() < DATA_START,
        },
{
    let region = match read_at(db, HEADER_SIZE, 1024) {
        Ok(b) => b,
        Err(_) => {
            return Err(DbError::IoError);
        },
    };
    Ok(decode_toc(&region))
}

/// Saves the table of contents into the reserved region, zero-padded; fails
/// with `TocOverflow`, changing nothing, when the serialization exceeds the
/// region's fixed capacity. Bytes outside the region are untouched.
pub fn save_toc(db: &mut Db, toc: &TocMap) -> (r: Result<(), DbError>)
    ensures
        match r {
            Ok(()) => {
                let tv = toc_view(toc@);
                &&& toc_bytes(tv).len() <= TOC_CAP
                &&& final(db)@ == write_bytes(old(db)@, HEADER_SIZE as int, toc_region_bytes(tv))
                &&& toc_entries(final(db)@) == tv
                &&& final(db)@.len() == (if old(db)@.len() >= DATA_START {
                    old(db)@.len() as int
                } else {
                    DATA_START as int
                })
                &&& final(db)@.take(HEADER_SIZE as int).len() == HEADER_SIZE
                &&& old(db)@.len() >= HEADER_SIZE ==> final(db)@.take(HEADER_SIZE as int) == old(
                    db,
                )@.take(HEADER_SIZE as int)
                &&& old(db)@.len() >= DATA_START ==> final(db)@.skip(DATA_START as int) == old(
                    db,
                )@.skip(DATA_START as int)
            },
            Err(e) => e == DbError::TocOverflow && toc_bytes(toc_view(toc@)).len() > TOC_CAP
                && final(db)@ == old(db)@,
        },
{
    let mut region = encode_toc(toc);
    if region.len() > 1024 {
        return Err(DbError::TocOverflow);
    }
    let ghost tv = toc_view(toc@);
    let ghost tb = toc_bytes(tv);
    while region.len() < 1024
        invariant
            tb.len() <= 1024,
            tb.len() <= region@.len() <= 1024,
            region@ == tb + crate::io::zeros(region@.len() - tb.len()),
        decreases 1024 - region@.len(),
    {
        region.push(0u8);
        proof {
            assert(region@ =~= tb + crate::io::zeros(region@.len() - tb.len()));
        }
    }
    proof {
        assert(region@ =~= toc_region_bytes(tv));
    }
    let r = write_at(db, HEADER_SIZE, &region);
    proof {
        assert(r is Ok);
        let w = write_bytes(old(db)@, HEADER_SIZE as int, toc_region_bytes(tv));
        lemma_write_bytes_index(old(db)@, HEADER_SIZE as int, toc_region_bytes(tv));
        lemma_toc_round_trip(tv);
        assert(w.subrange(HEADER_SIZE as int, DATA_START as int) =~= toc_region_bytes(tv));
        if old(db)@.len() >= HEADER_SIZE {
            assert(w.take(HEADER_SIZE as int) =~= old(db)@.take(HEADER_SIZE as int));
        }
        if old(db)@.len() >= DATA_START {
            assert(w.skip(DATA_START as int) =~= old(db)@.skip(DATA_START as int));
        }
    }
    Ok(())
}


/// Appending an entry appends its model.
pub proof fn lemma_toc_view_push(ps: Seq<(Vec<u8>, TocEntry)>, x: (Vec<u8>, TocEntry))
    ensures
        toc_view(ps.push(x)) == toc_view(ps).push((x.0@, x.1@)),
{
    lemma_toc_view_index(ps);
    lemma_toc_view_index(ps.push(x));
    let pushed = toc_view(ps).push((x.0@, x.1@));
    assert forall|i: int|
        0 <= i < ps.len() + 1 implies toc_view(ps.push(x))[i] == pushed[i] by {
        if i < ps.len() {
            assert(ps.push(x)[i] == ps[i]);
        } else {
            assert(ps.push(x)[i] == x);
        }
    }
    assert(toc_view(ps.push(x)) =~= toc_view(ps).push((x.0@, x.1@)));
}

/// Replacing an entry replaces its model.
pub proof fn lemma_toc_view_update(ps: Seq<(Vec<u8>, TocEntry)>, i: int, x: (Vec<u8>, TocEntry))
    requires
        0 <= i < ps.len(),
    ensures
        toc_view(ps.update(i, x)) == toc_view(ps).update(i, (x.0@, x.1@)),
{
    lemma_toc_view_index(ps);
    lemma_toc_view_index(ps.update(i, x));
    let updated = toc_view(ps).update(i, (x.0@, x.1@));
    assert forall|j: int|
        0 <= j < ps.len() implies toc_view(ps.update(i, x))[j] == updated[j] by {
        if j == i {
            assert(ps.update(i, x)[j] == x);
        } else {
            assert(ps.update(i, x)[j] == ps[j]);
        }
    }
    assert(toc_view(ps.update(i, x)) =~= toc_view(ps).update(i, (x.0@, x.1@)));
}

/// Finds the first entry named `name`: its index, or nothing when absent.
pub fn toc_find(toc: &TocMap, name: &Vec<u8>) -> (r: Option<usize>)
    ensures
        match r {
            Some(i) => i < toc@.len() && toc@[i as int].0@ == name@ && toc_index(
                toc_view(toc@),
                name@,
            ) == Some(i as int) && toc_lookup(toc_view(toc@), name@) == Some(
                toc@[i as int].1@,
            ),
            None => toc_index(toc_view(toc@), name@) is None && toc_lookup(
                toc_view(toc@),
                name@,
            ) is None,
        },
{
    let ghost tv = toc_view(toc@);
    let mut i: usize = 0;
    while i < toc.len()
        invariant
            i <= toc@.len(),
            tv == toc_view(toc@),
            forall|j: int| 0 <= j < i ==> (#[trigger] tv[j]).0 != name@,
        decreases toc@.len() - i,
    {
        proof {
            lemma_toc_view_index(toc@);
        }
        if bytes_eq(&toc[i].0, name) {
            proof {
                lemma_toc_index_char(tv, name@, i as int);
            }
            return Some(i);
        }
        i = i + 1;
    }
    proof {
        lemma_toc_view_index(toc@);
        lemma_toc_index_char(tv, name@, toc@.len() as int);
    }
    None
}

/// Ensures `collection` has an entry: inserts one pointing at `offset` only
/// if none exists; an existing entry and its schema are untouched, and the
/// image is unchanged. A new entry that no longer fits the reserved region
/// is a `TocOverflow`, changing nothing.
pub fn ensure_collection_entry(db: &mut Db, collection: &Vec<u8>, offset: u64) -> (r: Result<
    (),
    DbError,
>)
    ensures
        ({
            let es = toc_entries(old(db)@);
            let new_es = es.push(
                (collection@, (TocEntryModel { offset: offset, schema: Option::None })),
            );
            match r {
                Ok(()) => old(db)@.len() >= DATA_START && (if toc_lookup(es, collection@) is Some {
                    final(db)@ == old(db)@
                } else {
                    &&& toc_bytes(new_es).len() <= TOC_CAP
                    &&& final(db)@ == write_bytes(
                        old(db)@,
                        HEADER_SIZE as int,
                        toc_region_bytes(new_es),
                    )
                    &&& toc_entries(final(db)@) == new_es
                    &&& final(db)@.len() == old(db)@.len()
                    &&& final(db)@.take(HEADER_SIZE as int) == old(db)@.take(HEADER_SIZE as int)
                    &&& final(db)@.skip(DATA_START as int) == old(db)@.skip(DATA_START as int)
                }),
                Err(e) => final(db)@ == old(db)@ && ((e == DbError::IoError && old(db)@.len()
                    < DATA_START) || (e == DbError::TocOverflow && old(db)@.len() >= DATA_START
                    && toc_lookup(es, collection@) is None && toc_bytes(new_es).len() > TOC_CAP)),
            }
        }),
{
    let toc = match load_toc(db) {
        Ok(t) => t,
        Err(e) => {
            return Err(e);
        },
    };
    match toc_find(&toc, collection) {
        Some(_) => Ok(()),
        None => {
            let mut t2 = toc;
            let ghost prev = t2@;
            let key = clone_bytes(collection);
            t2.push((key, TocEntry { offset, schema: None }));
            proof {
                let x = t2@[t2@.len() - 1];
                assert(t2@ == prev.push(x));
                lemma_toc_view_push(prev, x);
                assert(x.0@ == collection@);
                assert(x.1@ == (TocEntryModel { offset: offset, schema: Option::None }));
            }
            save_toc(db, &t2)
        },
    }
}


/// The table after a schema is set: an existing entry keeps its offset and
/// has only its schema replaced; a collection with no entry yet gets one
/// whose offset is the image's current end.
pub open spec fn toc_with_schema(
    es: Seq<(Seq<u8>, TocEntryModel)>,
    name: Seq<u8>,
    eof: u64,
    sb: Seq<u8>,
) -> Seq<(Seq<u8>, TocEntryModel)> {
    match toc_index(es, name) {
        Some(i) => es.update(
            i,
            (name, (TocEntryModel { offset: es[i].1.offset, schema: Option::Some(sb) })),
        ),
        None => es.push((name, (TocEntryModel { offset: eof, schema: Option::Some(sb) }))),
    }
}

/// Sets or replaces the schema stored for `collection`, keeping an existing
/// entry's offset; a collection without an entry gets one owning all bytes
/// appended from the current end of the image on.
pub fn set_collection_schema(db: &mut Db, collection: &Vec<u8>, schema: &JsonValue) -> (r: Result<
    (),
    DbError,
>)
    ensures
        ({
            let es = toc_entries(old(db)@);
            let new_es = toc_with_schema(es, collection@, old(db)@.len() as u64, enc(schema@));
            match r {
                Ok(()) => old(db)@.len() >= DATA_START && {
                    &&& toc_bytes(new_es).len() <= TOC_CAP
                    &&& final(db)@ == write_bytes(
                        old(db)@,
                        HEADER_SIZE as int,
                        toc_region_bytes(new_es),
                    )
                    &&& toc_entries(final(db)@) == new_es
                    &&& final(db)@.len() == old(db)@.len()
                    &&& final(db)@.take(HEADER_SIZE as int) == old(db)@.take(HEADER_SIZE as int)
                    &&& final(db)@.skip(DATA_START as int) == old(db)@.skip(DATA_START as int)
                },
                Err(e) => final(db)@ == old(db)@ && ((e == DbError::IoError && old(db)@.len()
                    < DATA_START) || (e == DbError::TocOverflow && old(db)@.len() >= DATA_START
                    && toc_bytes(new_es).len() > TOC_CAP)),
            }
        }),
{
    let toc = match load_toc(db) {
        Ok(t) => t,
        Err(e) => {
            return Err(e);
        },
    };
    let sb = encode_json(schema);
    let mut t2 = toc;
    match toc_find(&t2, collection) {
        Some(i) => {
            let ghost prev = t2@;
            let off = t2[i].1.offset;
            let key = clone_bytes(collection);
            t2[i] = (key, TocEntry { offset: off, schema: Some(sb) });
            proof {
                let x = t2@[i as int];
                assert(t2@ == prev.update(i as int, x));
                lemma_toc_view_update(prev, i as int, x);
                lemma_toc_view_index(prev);
                assert(x.0@ == collection@);
                assert(toc_view(t2@) =~= toc_with_schema(
                    toc_view(prev),
                    collection@,
                    old(db)@.len() as u64,
                    enc(schema@),
                ));
            }
            save_toc(db, &t2)
        },
        None => {
            let eof = get_eof(db);
            let ghost prev = t2@;
            let key = clone_bytes(collection);
            t2.push((key, TocEntry { offset: eof, schema: Some(sb) }));
            proof {
                let x = t2@[t2@.len() - 1];
                assert(t2@ == prev.push(x));
                lemma_toc_view_push(prev, x);
                assert(x.0@ == collection@);
                assert(toc_view(t2@) =~= toc_with_schema(
                    toc_view(prev),
                    collection@,
                    old(db)@.len() as u64,
                    enc(schema@),
                ));
            }
            save_toc(db, &t2)
        },
    }
}

/// Validates a document against the schema stored for `collection`, if any:
/// absent entries and absent schemas let everything through; a stored schema
/// whose bytes no longer decode is a `DecodeError`; a document missing a
/// required key is a `SchemaMismatch`. The image is never changed.
pub fn validate_collection_schema(db: &Db, collection: &Vec<u8>, doc: &JsonValue) -> (r: Result<
    (),
    DbError,
>)
    ensures
        ({
            let lk = toc_lookup(toc_entries(db@), collection@);
            match r {
                Ok(()) => db@.len() >= DATA_START && (match lk {
                    Some(ent) => match ent.schema {
                        Some(sb) => doc_of(sb) is Some && schema_ok(doc@, doc_of(sb).unwrap()),
                        None => true,
                    },
                    None => true,
                }),
                Err(e) => (e == DbError::IoError && db@.len() < DATA_START) || (db@.len()
                    >= DATA_START && lk is Some && lk.unwrap().schema is Some && (match doc_of(
                    lk.unwrap().schema.unwrap(),
                ) {
                    Some(sv) => e == DbError::SchemaMismatch && !schema_ok(doc@, sv),
                    None => e == DbError::DecodeError,
                })),
            }
        }),
{
    let toc = match load_toc(db) {
        Ok(t) => t,
        Err(e) => {
            return Err(e);
        },
    };
    match toc_find(&toc, collection) {
        Some(i) => {
            match &toc[i].1.schema {
                Some(sb) => {
                    match decode_json(sb) {
                        Some(sv) => {
                            if validate_against_schema(doc, &sv) {
                                Ok(())
                            } else {
                                Err(DbError::SchemaMismatch)
                            }
                        },
                        None => Err(DbError::DecodeError),
                    }
                },
                None => Ok(()),
            }
        },
        None => Ok(()),
    }
}


/// Appending an entry under a fresh name makes it the one found.
pub proof fn lemma_toc_lookup_push(es: Seq<(Seq<u8>, TocEntryModel)>, x: (Seq<u8>, TocEntryModel))
    requires
        toc_index(es, x.0) is None,
    ensures
        toc_index(es.push(x), x.0) == Some(es.len() as int),
        toc_lookup(es.push(x), x.0) == Some(x.1),
    decreases es.len(),
{
    if es.len() == 0 {
        assert(es.push(x)[0] == x);
    } else {
        assert(es[0].0 != x.0);
        assert(es.push(x)[0] == es[0]);
        assert(es.push(x).skip(1) =~= es.skip(1).push(x));
        lemma_toc_lookup_push(es.skip(1), x);
        assert(es.push(x)[es.len() as int] == x);
    }
}

} // verus!
