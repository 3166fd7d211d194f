use vstd::prelude::*;
use vstd::bytes::spec_u32_to_le_bytes;
use vstd::bytes::lemma_auto_spec_u32_to_from_le_bytes;
use crate::errors::DbError;
use crate::io::Db;
use crate::io::read_at;
use crate::io::write_at;
use crate::io::write_bytes;
use crate::io::zeros;
use crate::io::rec_at;
use crate::io::frame;
use crate::io::read_document;
use crate::io::write_document;
use crate::io::get_eof;
use crate::io::truncate;
use crate::header::MAGIC_LEN;
use crate::header::HEADER_SIZE;
use crate::header::TOC_CAP;
use crate::header::DATA_START;
use crate::header::magic;
use crate::header::magic_ok;
use crate::header::header_bytes;
use crate::header::header_of;
use crate::header::get_header_magic;
use crate::header::write_header;
use crate::json::Json;
use crate::json::JsonValue;
use crate::json::enc;
use crate::json::doc_of;
use crate::json::wf_json;
use crate::json::encode_json;
use crate::json::decode_json;
use crate::json::value_eq;
use crate::json::obj_get;
use crate::json::obj_get_index;
use crate::json::filter_matches;
use crate::json::view_obj;
use crate::json::lemma_view_obj_index;
use crate::json::lemma_view_wf;
use crate::json::lemma_doc_round_trip;
use crate::toc::TocMap;
use crate::toc::TocEntryModel;
use crate::toc::toc_entries;
use crate::toc::toc_lookup;
use crate::toc::toc_bytes;
use crate::toc::toc_region_bytes;
use crate::toc::load_toc;
use crate::toc::save_toc;
use crate::toc::ensure_collection_entry;
use crate::toc::validate_collection_schema;
use crate::toc::set_collection_schema;
use crate::toc::toc_with_schema;
use crate::toc::toc_find;
use crate::toc::lemma_toc_lookup_push;
use crate::json::view_arr;
use crate::json::lemma_view_arr_push;
use crate::json::lemma_view_arr_index;
use crate::utils::schema_ok;

verus! {

/// The payloads of the length-prefixed records from `pos` to wherever the
/// framing runs out: the scan stops at the first record whose prefix or
/// payload would run past the image's end.
pub open spec fn records_from(im: Seq<u8>, pos: int) -> Seq<Seq<u8>>
    decreases im.len() - pos,
{
    match rec_at(im, pos) {
        Some(pr) => seq![pr.0] + records_from(im, pr.1),
        None => Seq::empty(),
    }
}

/// Whether the records from `pos` on tile the image exactly to its end.
pub open spec fn well_framed(im: Seq<u8>, pos: int) -> bool
    decreases im.len() - pos,
{
    pos == im.len() || (match rec_at(im, pos) {
        Some(pr) => well_framed(im, pr.1),
        None => false,
    })
}

/// The documents a record sequence holds, or nothing if any record's bytes
/// do not decode to exactly one document.
pub open spec fn docs_of_records(recs: Seq<Seq<u8>>) -> Option<Seq<Json>>
    decreases recs.len(),
{
    if recs.len() == 0 {
        Some(Seq::empty())
    } else {
        match doc_of(recs[0]) {
            Some(d) => match docs_of_records(recs.skip(1)) {
                Some(ds) => Some(seq![d] + ds),
                None => None,
            },
            None => None,
        }
    }
}

/// The documents of the collection segment starting at `off`.
pub open spec fn collection_docs(im: Seq<u8>, off: int) -> Option<Seq<Json>> {
    docs_of_records(records_from(im, off))
}

/// The documents of `ds` that match the filter, in order.
pub open spec fn filter_docs(ds: Seq<Json>, f: Json) -> Seq<Json>
    decreases ds.len(),
{
    if ds.len() == 0 {
        Seq::empty()
    } else {
        let rest = filter_docs(ds.skip(1), f);
        if filter_matches(ds[0], f) {
            seq![ds[0]] + rest
        } else {
            rest
        }
    }
}

/// The documents of `ds` that do not match the filter, in order.
pub open spec fn keep_docs(ds: Seq<Json>, f: Json) -> Seq<Json>
    decreases ds.len(),
{
    if ds.len() == 0 {
        Seq::empty()
    } else {
        let rest = keep_docs(ds.skip(1), f);
        if filter_matches(ds[0], f) {
            rest
        } else {
            seq![ds[0]] + rest
        }
    }
}

/// `ds` with every document matching the filter replaced by `r`.
pub open spec fn apply_update_docs(ds: Seq<Json>, f: Json, r: Json) -> Seq<Json>
    decreases ds.len(),
{
    if ds.len() == 0 {
        Seq::empty()
    } else {
        let rest = apply_update_docs(ds.skip(1), f, r);
        if filter_matches(ds[0], f) {
            seq![r] + rest
        } else {
            seq![ds[0]] + rest
        }
    }
}

/// The framed bytes of a document sequence: each document encoded and
/// length-prefixed, one after another.
pub open spec fn enc_records(ds: Seq<Json>) -> Seq<u8>
    decreases ds.len(),
{
    if ds.len() == 0 {
        Seq::empty()
    } else {
        frame(enc(ds[0])) + enc_records(ds.skip(1))
    }
}

/// Filtering one more document appends its match, if it is one.
pub proof fn lemma_filter_docs_push(ds: Seq<Json>, f: Json, d: Json)
    ensures
        filter_docs(ds.push(d), f) == if filter_matches(d, f) {
            filter_docs(ds, f).push(d)
        } else {
            filter_docs(ds, f)
        },
    decreases ds.len(),
{
    if ds.len() == 0 {
        assert(ds.push(d).skip(1) =~= Seq::<Json>::empty());
        assert(filter_docs(Seq::<Json>::empty(), f) == Seq::<Json>::empty());
        assert(ds =~= Seq::<Json>::empty());
        assert(ds.push(d)[0] == d);
        if filter_matches(d, f) {
            assert(filter_docs(ds.push(d), f) =~= filter_docs(ds, f).push(d));
        }
    } else {
        lemma_filter_docs_push(ds.skip(1), f, d);
        assert(ds.push(d).skip(1) =~= ds.skip(1).push(d));
        assert(ds.push(d)[0] == ds[0]);
        if filter_matches(d, f) {
            if filter_matches(ds[0], f) {
                assert(filter_docs(ds.push(d), f) =~= filter_docs(ds, f).push(d));
            } else {
                assert(filter_docs(ds.push(d), f) =~= filter_docs(ds, f).push(d));
            }
        }
    }
}

/// Keeping one more document appends it when it does not match.
pub proof fn lemma_keep_docs_push(ds: Seq<Json>, f: Json, d: Json)
    ensures
        keep_docs(ds.push(d), f) == if filter_matches(d, f) {
            keep_docs(ds, f)
        } else {
            keep_docs(ds, f).push(d)
        },
    decreases ds.len(),
{
    if ds.len() == 0 {
        assert(ds.push(d).skip(1) =~= Seq::<Json>::empty());
        assert(keep_docs(Seq::<Json>::empty(), f) == Seq::<Json>::empty());
        assert(ds =~= Seq::<Json>::empty());
        assert(ds.push(d)[0] == d);
        if !filter_matches(d, f) {
            assert(keep_docs(ds.push(d), f) =~= keep_docs(ds, f).push(d));
        }
    } else {
        lemma_keep_docs_push(ds.skip(1), f, d);
        assert(ds.push(d).skip(1) =~= ds.skip(1).push(d));
        assert(ds.push(d)[0] == ds[0]);
        if !filter_matches(d, f) {
            if filter_matches(ds[0], f) {
                assert(keep_docs(ds.push(d), f) =~= keep_docs(ds, f).push(d));
            } else {
                assert(keep_docs(ds.push(d), f) =~= keep_docs(ds, f).push(d));
            }
        }
    }
}

/// Updating one more document appends its replacement, or itself.
pub proof fn lemma_apply_update_push(ds: Seq<Json>, f: Json, r: Json, d: Json)
    ensures
        apply_update_docs(ds.push(d), f, r) == apply_update_docs(ds, f, r).push(
            if filter_matches(d, f) {
                r
            } else {
                d
            },
        ),
    decreases ds.len(),
{
    let tail = if filter_matches(d, f) {
        r
    } else {
        d
    };
    if ds.len() == 0 {
        assert(ds.push(d).skip(1) =~= Seq::<Json>::empty());
        assert(apply_update_docs(Seq::<Json>::empty(), f, r) == Seq::<Json>::empty());
        assert(ds =~= Seq::<Json>::empty());
        assert(ds.push(d)[0] == d);
        assert(apply_update_docs(ds.push(d), f, r) =~= apply_update_docs(ds, f, r).push(tail));
    } else {
        lemma_apply_update_push(ds.skip(1), f, r, d);
        assert(ds.push(d).skip(1) =~= ds.skip(1).push(d));
        assert(ds.push(d)[0] == ds[0]);
        assert(apply_update_docs(ds.push(d), f, r) =~= apply_update_docs(ds, f, r).push(tail));
    }
}

/// A record lying whole inside an image stays the same record when bytes
/// are appended after the image.
pub proof fn lemma_rec_at_append(im: Seq<u8>, ext: Seq<u8>, pos: int)
    requires
        rec_at(im, pos) is Some,
    ensures
        rec_at(im + ext, pos) == rec_at(im, pos),
{
    let pr = rec_at(im, pos).unwrap();
    assert((im + ext).subrange(pos, pos + 4) =~= im.subrange(pos, pos + 4));
    assert((im + ext).subrange(pos + 4, pr.1) =~= im.subrange(pos + 4, pr.1));
}

/// Appending one framed record to an exactly framed segment appends its
/// payload to the records, and the segment stays exactly framed.
pub proof fn lemma_records_append(im: Seq<u8>, payload: Seq<u8>, pos: int)
    requires
        0 <= pos <= im.len(),
        well_framed(im, pos),
        payload.len() <= u32::MAX,
    ensures
        records_from(im + frame(payload), pos) == records_from(im, pos).push(payload),
        well_framed(im + frame(payload), pos),
    decreases im.len() - pos,
{
    lemma_auto_spec_u32_to_from_le_bytes();
    let im2 = im + frame(payload);
    if pos == im.len() {
        assert(records_from(im, pos) =~= Seq::<Seq<u8>>::empty());
        assert(im2.subrange(pos, pos + 4) =~= spec_u32_to_le_bytes(payload.len() as u32));
        assert(im2.subrange(pos + 4, pos + 4 + payload.len()) =~= payload);
        assert(rec_at(im2, pos) == Some((payload, im2.len() as int)));
        assert(records_from(im2, im2.len() as int) =~= Seq::<Seq<u8>>::empty());
        assert(records_from(im2, pos) =~= records_from(im, pos).push(payload));
        assert(well_framed(im2, im2.len() as int));
        assert(well_framed(im2, pos));
    } else {
        let pr = rec_at(im, pos).unwrap();
        lemma_rec_at_append(im, frame(payload), pos);
        lemma_records_append(im, payload, pr.1);
        assert(records_from(im2, pos) =~= records_from(im, pos).push(payload));
    }
}

/// Records and framing depend only on the bytes from `k` on: two images of
/// one length that agree there hold the same records past any `pos >= k`.
pub proof fn lemma_records_same_tail(im1: Seq<u8>, im2: Seq<u8>, k: int, pos: int)
    requires
        im1.len() == im2.len(),
        0 <= k <= pos,
        im1.skip(k) == im2.skip(k),
    ensures
        records_from(im1, pos) == records_from(im2, pos),
        well_framed(im1, pos) == well_framed(im2, pos),
    decreases im1.len() - pos,
{
    assert forall|j: int| k <= j < im1.len() implies im1[j] == im2[j] by {
        assert(im1.skip(k)[j - k] == im2.skip(k)[j - k]);
    }
    if pos <= im1.len() {
        assert(rec_at(im1, pos) == rec_at(im2, pos)) by {
            if 0 <= pos && pos + 4 <= im1.len() {
                assert(im1.subrange(pos, pos + 4) =~= im2.subrange(pos, pos + 4));
                let l = vstd::bytes::spec_u32_from_le_bytes(im1.subrange(pos, pos + 4)) as int;
                if pos + 4 + l <= im1.len() {
                    assert(im1.subrange(pos + 4, pos + 4 + l) =~= im2.subrange(pos + 4, pos + 4 + l));
                }
            }
        }
        match rec_at(im1, pos) {
            Some(pr) => {
                lemma_records_same_tail(im1, im2, k, pr.1);
            },
            None => {},
        }
    } else {
        assert(rec_at(im1, pos) is None);
        assert(rec_at(im2, pos) is None);
    }
}

/// The framed encodings of documents appended to any base tile it exactly,
/// and read back as exactly those documents' encodings.
pub proof fn lemma_records_of_enc_records(base: Seq<u8>, ds: Seq<Json>)
    requires
        forall|i: int| 0 <= i < ds.len() ==> enc(#[trigger] ds[i]).len() <= u32::MAX,
    ensures
        records_from(base + enc_records(ds), base.len() as int) == ds.map_values(|d: Json| enc(d)),
        well_framed(base + enc_records(ds), base.len() as int),
    decreases ds.len(),
{
    lemma_auto_spec_u32_to_from_le_bytes();
    let im = base + enc_records(ds);
    let pos = base.len() as int;
    if ds.len() == 0 {
        assert(im =~= base);
        assert(rec_at(im, pos) is None);
        assert(records_from(im, pos) =~= ds.map_values(|d: Json| enc(d)));
    } else {
        let e0 = enc(ds[0]);
        let base2 = base + frame(e0);
        assert(enc_records(ds) == frame(e0) + enc_records(ds.skip(1)));
        assert(im =~= base2 + enc_records(ds.skip(1)));
        assert forall|i: int| 0 <= i < ds.skip(1).len() implies enc(
            #[trigger] ds.skip(1)[i],
        ).len() <= u32::MAX by {
            assert(ds.skip(1)[i] == ds[i + 1]);
        }
        lemma_records_of_enc_records(base2, ds.skip(1));
        assert(im.subrange(pos, pos + 4) =~= spec_u32_to_le_bytes(e0.len() as u32));
        assert(im.subrange(pos + 4, pos + 4 + e0.len()) =~= e0);
        assert(rec_at(im, pos) == Some((e0, pos + 4 + e0.len())));
        assert(pos + 4 + e0.len() == base2.len());
        assert(records_from(im, pos) == seq![e0] + records_from(im, base2.len() as int));
        assert(records_from(im, pos) =~= ds.map_values(|d: Json| enc(d)));
    }
}

/// Encoded well-formed documents read back as exactly those documents.
pub proof fn lemma_docs_of_enc(ds: Seq<Json>)
    requires
        forall|i: int| 0 <= i < ds.len() ==> wf_json(#[trigger] ds[i]),
    ensures
        docs_of_records(ds.map_values(|d: Json| enc(d))) == Some(ds),
    decreases ds.len(),
{
    let recs = ds.map_values(|d: Json| enc(d));
    if ds.len() == 0 {
        assert(recs.len() == 0);
        assert(Seq::<Json>::empty() =~= ds);
    } else {
        lemma_doc_round_trip(ds[0]);
        assert forall|i: int| 0 <= i < ds.skip(1).len() implies wf_json(
            #[trigger] ds.skip(1)[i],
        ) by {
            assert(ds.skip(1)[i] == ds[i + 1]);
        }
        lemma_docs_of_enc(ds.skip(1));
        assert(recs[0] == enc(ds[0]));
        assert(recs.skip(1) =~= ds.skip(1).map_values(|d: Json| enc(d)));
        assert(seq![ds[0]] + ds.skip(1) =~= ds);
    }
}


/// The bytes of a freshly created container: a header whose bounds frame
/// the reserved region, then the serialized empty table of contents,
/// zero-padded to the region's capacity.
pub open spec fn fresh_image() -> Seq<u8> {
    write_bytes(
        write_bytes(Seq::empty(), 0, header_bytes(HEADER_SIZE, DATA_START)),
        HEADER_SIZE as int,
        toc_region_bytes(Seq::empty()),
    )
}

/// Creates a container image. An existing image is returned unchanged, so
/// creating twice changes nothing and is no error; otherwise the fresh image
/// holds the magic header, an empty table of contents, and no documents.
pub fn create(existing: Option<Db>) -> (r: Db)
    ensures
        existing matches Some(d) ==> r@ == d@,
        existing is None ==> {
            &&& r@ == fresh_image()
            &&& r@.len() == DATA_START
            &&& header_of(r@) == Some((magic(), HEADER_SIZE, DATA_START))
            &&& magic_ok(r@)
            &&& toc_entries(r@) == Seq::<(Seq<u8>, TocEntryModel)>::empty()
            &&& well_framed(r@, DATA_START as int)
            &&& records_from(r@, DATA_START as int) == Seq::<Seq<u8>>::empty()
        },
{
    match existing {
        Some(d) => d,
        None => {
            let mut db = Db::from_bytes(Vec::new());
            write_header(&mut db, HEADER_SIZE, DATA_START);
            let ghost with_header = db@;
            let empty_toc: TocMap = Vec::new();
            proof {
                lemma_auto_spec_u32_to_from_le_bytes();
                vstd::bytes::lemma_auto_spec_u64_to_from_le_bytes();
                assert(header_bytes(HEADER_SIZE, DATA_START).len() == HEADER_SIZE);
                assert(crate::toc::toc_view(empty_toc@) =~= Seq::<(
                    Seq<u8>,
                    TocEntryModel,
                )>::empty());
                assert(toc_bytes(Seq::<(Seq<u8>, TocEntryModel)>::empty()).len() == 4);
            }
            let rs = save_toc(&mut db, &empty_toc);
            proof {
                assert(rs is Ok);
                assert(with_header.len() == HEADER_SIZE);
                assert(db@.len() == DATA_START);
                assert(db@.take(HEADER_SIZE as int) == with_header.take(HEADER_SIZE as int));
                assert(with_header.take(HEADER_SIZE as int) =~= with_header);
                assert(db@.take(MAGIC_LEN as int) =~= with_header.take(MAGIC_LEN as int));
                assert(db@.subrange(MAGIC_LEN as int, 16) =~= with_header.subrange(
                    MAGIC_LEN as int,
                    16,
                ));
                assert(db@.subrange(16, HEADER_SIZE as int) =~= with_header.subrange(
                    16,
                    HEADER_SIZE as int,
                ));
                assert(rec_at(db@, DATA_START as int) is None);
                assert(records_from(db@, DATA_START as int) =~= Seq::<Seq<u8>>::empty());
            }
            db
        },
    }
}

/// Whether a document matches a filter: the filter must be an object and
/// every binding in it present and equal among the document's top-level
/// bindings. Nothing matches a filter that is not an object, and a document
/// that is not an object matches nothing.
pub fn filter_match(doc: &JsonValue, filter: &JsonValue) -> (r: bool)
    ensures
        r == filter_matches(doc@, filter@),
{
    match (doc, filter) {
        (JsonValue::Obj(dps), JsonValue::Obj(fps)) => {
            proof {
                lemma_view_obj_index(fps@);
            }
            let mut i: usize = 0;
            while i < fps.len()
                invariant
                    i <= fps@.len(),
                    doc == JsonValue::Obj(*dps),
                    filter == JsonValue::Obj(*fps),
                    forall|j: int|
                        0 <= j < i ==> obj_get(view_obj(dps@), (#[trigger] view_obj(fps@)[j]).0)
                            == Some(view_obj(fps@)[j].1),
                decreases fps@.len() - i,
            {
                proof {
                    lemma_view_obj_index(fps@);
                }
                match obj_get_index(dps, &fps[i].0) {
                    Some(idx) => {
                        if !value_eq(&dps[idx].1, &fps[i].1) {
                            proof {
                                assert(view_obj(fps@)[i as int] == (
                                    fps@[i as int].0@,
                                    fps@[i as int].1@,
                                ));
                                assert(obj_get(view_obj(dps@), view_obj(fps@)[i as int].0) == Some(
                                    dps@[idx as int].1@,
                                ));
                            }
                            return false;
                        }
                        proof {
                            assert(view_obj(fps@)[i as int] == (
                                fps@[i as int].0@,
                                fps@[i as int].1@,
                            ));
                            assert(obj_get(view_obj(dps@), view_obj(fps@)[i as int].0) == Some(
                                view_obj(fps@)[i as int].1,
                            ));
                        }
                    },
                    None => {
                        proof {
                            assert(view_obj(fps@)[i as int] == (
                                fps@[i as int].0@,
                                fps@[i as int].1@,
                            ));
                            assert(obj_get(view_obj(dps@), view_obj(fps@)[i as int].0) is None);
                        }
                        return false;
                    },
                }
                i = i + 1;
            }
            true
        },
        _ => false,
    }
}

/// Checks that the image begins with the magic tag: an image too short to
/// hold it is an `IoError`, a wrong tag an `InvalidFormat`.
fn check_magic(db: &Db) -> (r: Result<(), DbError>)
    ensures
        match r {
            Ok(()) => magic_ok(db@),
            Err(e) => (e == DbError::IoError && db@.len() < MAGIC_LEN) || (e
                == DbError::InvalidFormat && db@.len() >= MAGIC_LEN && db@.take(MAGIC_LEN as int)
                != magic()),
        },
{
    let m = match read_at(db, 0, 8) {
        Ok(b) => b,
        Err(_) => {
            return Err(DbError::IoError);
        },
    };
    let expected = get_header_magic();
    if m == expected {
        proof {
            assert(m@ =~= expected@);
            assert(m@ =~= db@.take(MAGIC_LEN as int));
        }
        Ok(())
    } else {
        proof {
            assert(m@ =~= db@.take(MAGIC_LEN as int));
        }
        Err(DbError::InvalidFormat)
    }
}

/// Sets or replaces the schema for a collection, after validating the
/// image's magic tag. An existing entry keeps its offset; a collection
/// without one gets an entry owning all bytes appended from the current end
/// of the image on. Document segments are never touched.
pub fn set_schema(db: &mut Db, collection: &Vec<u8>, schema: &JsonValue) -> (r: Result<
    (),
    DbError,
>)
    ensures
        ({
            let im = old(db)@;
            let new_es = toc_with_schema(
                toc_entries(im),
                collection@,
                im.len() as u64,
                enc(schema@),
            );
            match r {
                Ok(()) => magic_ok(im) && im.len() >= DATA_START && {
                    &&& toc_bytes(new_es).len() <= TOC_CAP
                    &&& final(db)@ == write_bytes(
                        im,
                        HEADER_SIZE as int,
                        toc_region_bytes(new_es),
                    )
                    &&& toc_entries(final(db)@) == new_es
                    &&& final(db)@.len() == im.len()
                    &&& magic_ok(final(db)@)
                    &&& final(db)@.skip(DATA_START as int) == im.skip(DATA_START as int)
                },
                Err(e) => final(db)@ == im && ((e == DbError::IoError && im.len() < MAGIC_LEN) || (
                e == DbError::InvalidFormat && im.len() >= MAGIC_LEN && im.take(MAGIC_LEN as int)
                    != magic()) || (magic_ok(im) && e == DbError::IoError && im.len() < DATA_START)
                    || (magic_ok(im) && im.len() >= DATA_START && e == DbError::TocOverflow
                    && toc_bytes(new_es).len() > TOC_CAP)),
            }
        }),
{
    match check_magic(db) {
        Ok(()) => {},
        Err(e) => {
            return Err(e);
        },
    }
    let r = set_collection_schema(db, collection, schema);
    proof {
        if r is Ok {
            assert(final(db)@.take(HEADER_SIZE as int) == old(db)@.take(HEADER_SIZE as int));
            assert(final(db)@.take(MAGIC_LEN as int) =~= old(db)@.take(MAGIC_LEN as int));
        }
    }
    r
}


/// Whether a document passes the schema stored for a collection: it does
/// when the collection has no entry or no schema, and otherwise exactly when
/// the stored schema decodes and every key it requires is present.
pub open spec fn schema_passes(im: Seq<u8>, name: Seq<u8>, d: Json) -> bool {
    match toc_lookup(toc_entries(im), name) {
        Some(ent) => match ent.schema {
            Some(sb) => doc_of(sb) is Some && schema_ok(d, doc_of(sb).unwrap()),
            None => true,
        },
        None => true,
    }
}

/// Queries a collection: every stored document of its segment that matches
/// the filter, in storage order. A collection with no entry yields an empty
/// sequence, never an error; a record that does not decode aborts the scan
/// with a `DecodeError`.
#[verifier::loop_isolation(false)]
pub fn query(db: &Db, collection: &Vec<u8>, filter: &JsonValue) -> (r: Result<
    Vec<JsonValue>,
    DbError,
>)
    ensures
        ({
            let im = db@;
            let lk = toc_lookup(toc_entries(im), collection@);
            match r {
                Ok(out) => magic_ok(im) && im.len() >= DATA_START && (match lk {
                    None => out@.len() == 0,
                    Some(ent) => collection_docs(im, ent.offset as int) is Some && view_arr(out@)
                        == filter_docs(collection_docs(im, ent.offset as int).unwrap(), filter@),
                }),
                Err(e) => (e == DbError::IoError && im.len() < MAGIC_LEN) || (e
                    == DbError::InvalidFormat && im.len() >= MAGIC_LEN && im.take(MAGIC_LEN as int)
                    != magic()) || (magic_ok(im) && e == DbError::IoError && im.len() < DATA_START)
                    || (magic_ok(im) && im.len() >= DATA_START && e == DbError::DecodeError
                    && lk is Some && collection_docs(im, lk.unwrap().offset as int) is None),
            }
        }),
{
    match check_magic(db) {
        Ok(()) => {},
        Err(e) => {
            return Err(e);
        },
    }
    let toc = match load_toc(db) {
        Ok(t) => t,
        Err(e) => {
            return Err(e);
        },
    };
    let i = match toc_find(&toc, collection) {
        Some(i) => i,
        None => {
            let out: Vec<JsonValue> = Vec::new();
            return Ok(out);
        },
    };
    let off = toc[i].1.offset;
    let ghost im = db@;
    let mut results: Vec<JsonValue> = Vec::new();
    let ghost mut done: Seq<Json> = Seq::empty();
    let mut pos: u64 = off;
    proof {
        match docs_of_records(records_from(im, off as int)) {
            Some(rest) => {
                assert(Seq::<Json>::empty() + rest =~= rest);
            },
            None => {},
        }
        assert(view_arr(results@) =~= filter_docs(done, filter@));
    }
    loop
        invariant
            db@ == im,
            off <= pos,
            docs_of_records(records_from(im, off as int)) == (match docs_of_records(
                records_from(im, pos as int),
            ) {
                Some(rest) => Some(done + rest),
                None => None::<Seq<Json>>,
            }),
            view_arr(results@) == filter_docs(done, filter@),
        decreases im.len() - pos,
    {
        match read_document(db, pos) {
            None => {
                proof {
                    assert(records_from(im, pos as int) =~= Seq::<Seq<u8>>::empty());
                    assert(docs_of_records(records_from(im, pos as int)) == Some(
                        Seq::<Json>::empty(),
                    ));
                    assert(done + Seq::<Json>::empty() =~= done);
                }
                break ;
            },
            Some((payload, next)) => {
                let ghost recs = records_from(im, pos as int);
                proof {
                    assert(recs == seq![payload@] + records_from(im, next as int));
                    assert(recs[0] == payload@);
                    assert(recs.skip(1) =~= records_from(im, next as int));
                }
                match decode_json(&payload) {
                    None => {
                        proof {
                            assert(docs_of_records(recs) is None);
                        }
                        return Err(DbError::DecodeError);
                    },
                    Some(d) => {
                        proof {
                            lemma_filter_docs_push(done, filter@, d@);
                        }
                        if filter_match(&d, filter) {
                            let ghost before = results@;
                            results.push(d);
                            proof {
                                lemma_view_arr_push(before, results@[results@.len() - 1]);
                                assert(results@ == before.push(results@[results@.len() - 1]));
                            }
                        }
                        proof {
                            let rest_next = docs_of_records(records_from(im, next as int));
                            assert(docs_of_records(recs) == (match rest_next {
                                Some(r2) => Some(seq![d@] + r2),
                                None => None::<Seq<Json>>,
                            }));
                            if rest_next is Some {
                                assert(done.push(d@) + rest_next.unwrap() =~= done + (seq![d@]
                                    + rest_next.unwrap()));
                            }
                            done = done.push(d@);
                        }
                        pos = next;
                    },
                }
            },
        }
    }
    proof {
        assert(done + Seq::<Json>::empty() =~= done);
    }
    Ok(results)
}


/// Appending the framed encoding of a well-formed document appends it to
/// the decoded documents.
pub proof fn lemma_docs_push(recs: Seq<Seq<u8>>, d: Json)
    requires
        wf_json(d),
        docs_of_records(recs) is Some,
    ensures
        docs_of_records(recs.push(enc(d))) == Some(docs_of_records(recs).unwrap().push(d)),
    decreases recs.len(),
{
    lemma_doc_round_trip(d);
    if recs.len() == 0 {
        assert(recs.push(enc(d))[0] == enc(d));
        assert(recs.push(enc(d)).skip(1) =~= Seq::<Seq<u8>>::empty());
        assert(docs_of_records(Seq::<Seq<u8>>::empty()) == Some(Seq::<Json>::empty()));
        assert(docs_of_records(recs.push(enc(d))) == Some(seq![d] + Seq::<Json>::empty()));
        assert(seq![d] + Seq::<Json>::empty() =~= docs_of_records(recs).unwrap().push(d));
    } else {
        lemma_docs_push(recs.skip(1), d);
        assert(recs.push(enc(d))[0] == recs[0]);
        assert(recs.push(enc(d)).skip(1) =~= recs.skip(1).push(enc(d)));
        let ds = docs_of_records(recs).unwrap();
        let ds1 = docs_of_records(recs.skip(1)).unwrap();
        assert(docs_of_records(recs.push(enc(d))) == Some(seq![ds[0]] + ds1.push(d)));
        assert(seq![ds[0]] + ds1.push(d) =~= ds.push(d));
    }
}

/// Inserts a document into a collection: validates the magic tag and the
/// collection's schema, appends the framed document at the image's end, then
/// ensures the collection has an entry, created at the record's offset only
/// on the collection's first touch.
#[verifier::rlimit(100)]
pub fn insert(db: &mut Db, collection: &Vec<u8>, doc: &JsonValue) -> (r: Result<(), DbError>)
    ensures
        ({
            let im = old(db)@;
            let es = toc_entries(im);
            let lk = toc_lookup(es, collection@);
            let raw = enc(doc@);
            let off: int = (match lk {
                Some(ent) => ent.offset as int,
                None => im.len() as int,
            });
            let im1 = im + frame(raw);
            let pushed = es.push(
                (collection@, (TocEntryModel { offset: im.len() as u64, schema: Option::None })),
            );
            match r {
                Ok(()) => magic_ok(im) && im.len() >= DATA_START && schema_passes(
                    im,
                    collection@,
                    doc@,
                ) && {
                    &&& raw.len() <= u32::MAX
                    &&& im.len() + 4 + raw.len() <= usize::MAX
                    &&& (match lk {
                        Some(ent) => final(db)@ == im1 && toc_entries(final(db)@) == es,
                        None => final(db)@ == write_bytes(
                            im1,
                            HEADER_SIZE as int,
                            toc_region_bytes(pushed),
                        ) && toc_entries(final(db)@) == pushed && toc_bytes(pushed).len()
                            <= TOC_CAP,
                    })
                    &&& magic_ok(final(db)@)
                    &&& final(db)@.len() == im.len() + 4 + raw.len()
                    &&& toc_lookup(toc_entries(final(db)@), collection@) is Some
                    &&& toc_lookup(toc_entries(final(db)@), collection@).unwrap().offset as int
                        == off
                    &&& (DATA_START <= off <= im.len() && well_framed(im, off) ==> records_from(
                        final(db)@,
                        off,
                    ) == records_from(im, off).push(raw) && well_framed(final(db)@, off))
                    &&& (DATA_START <= off <= im.len() && well_framed(im, off)
                        && collection_docs(im, off) is Some ==> collection_docs(final(db)@, off)
                        == Some(collection_docs(im, off).unwrap().push(doc@)))
                },
                Err(e) => (final(db)@ == im && ((e == DbError::IoError && im.len() < MAGIC_LEN) || (
                e == DbError::InvalidFormat && im.len() >= MAGIC_LEN && im.take(MAGIC_LEN as int)
                    != magic()) || (magic_ok(im) && e == DbError::IoError && im.len() < DATA_START)
                    || (magic_ok(im) && im.len() >= DATA_START && lk is Some
                    && lk.unwrap().schema is Some && (match doc_of(lk.unwrap().schema.unwrap()) {
                    Some(sv) => e == DbError::SchemaMismatch && !schema_ok(doc@, sv),
                    None => e == DbError::DecodeError,
                })) || (magic_ok(im)
                    && im.len() >= DATA_START && schema_passes(im, collection@, doc@) && e
                    == DbError::IoError && (raw.len() > u32::MAX || im.len() + 4 + raw.len()
                    > usize::MAX)))) || (magic_ok(im) && im.len() >= DATA_START && schema_passes(
                    im,
                    collection@,
                    doc@,
                ) && lk is None && e == DbError::TocOverflow && toc_bytes(pushed).len() > TOC_CAP
                    && final(db)@ == im1),
            }
        }),
{
    match check_magic(db) {
        Ok(()) => {},
        Err(e) => {
            return Err(e);
        },
    }
    match validate_collection_schema(db, collection, doc) {
        Ok(()) => {},
        Err(e) => {
            return Err(e);
        },
    }
    let raw = encode_json(doc);
    let eof = get_eof(db);
    let ghost im = old(db)@;
    match write_document(db, &raw) {
        Ok(()) => {},
        Err(e) => {
            return Err(e);
        },
    }
    let ghost im1 = db@;
    proof {
        lemma_auto_spec_u32_to_from_le_bytes();
        assert(im1.len() == im.len() + 4 + enc(doc@).len());
        assert(im1.subrange(HEADER_SIZE as int, DATA_START as int) =~= im.subrange(
            HEADER_SIZE as int,
            DATA_START as int,
        ));
        assert(toc_entries(im1) == toc_entries(im));
        assert(im1.take(MAGIC_LEN as int) =~= im.take(MAGIC_LEN as int));
        assert(im1.take(HEADER_SIZE as int) =~= im.take(HEADER_SIZE as int));
    }
    let r = ensure_collection_entry(db, collection, eof);
    match r {
        Ok(()) => {
            proof {
                let es = toc_entries(im);
                let lk = toc_lookup(es, collection@);
                let off: int = (match lk {
                    Some(ent) => ent.offset as int,
                    None => im.len() as int,
                });
                lemma_view_wf(*doc);
                if lk is Some {
                    assert(final(db)@ == im1);
                } else {
                    let pushed = es.push(
                        (
                            collection@,
                            (TocEntryModel { offset: im.len() as u64, schema: Option::None }),
                        ),
                    );
                    lemma_toc_lookup_push(
                        es,
                        (
                            collection@,
                            (TocEntryModel { offset: im.len() as u64, schema: Option::None }),
                        ),
                    );
                    assert(final(db)@.len() == im1.len());
                    assert(final(db)@.skip(DATA_START as int) == im1.skip(DATA_START as int));
                    assert(final(db)@.take(MAGIC_LEN as int) =~= im1.take(MAGIC_LEN as int));
                }
                if DATA_START <= off <= im.len() && well_framed(im, off) {
                    lemma_records_append(im, enc(doc@), off);
                    if lk is None {
                        lemma_records_same_tail(final(db)@, im1, DATA_START as int, off);
                    }
                    assert(records_from(final(db)@, off) == records_from(im, off).push(
                        enc(doc@),
                    ));
                    if collection_docs(im, off) is Some {
                        lemma_docs_push(records_from(im, off), doc@);
                    }
                }
            }
            Ok(())
        },
        Err(e) => {
            proof {
                assert(final(db)@ == im1);
                assert(e == DbError::TocOverflow);
            }
            Err(e)
        },
    }
}


/// Scans a segment: the decoded documents of every record from `off` to
/// where the framing runs out, aborting on the first record that does not
/// decode.
#[verifier::loop_isolation(false)]
fn scan_docs(db: &Db, off: u64) -> (r: Result<Vec<JsonValue>, DbError>)
    ensures
        match r {
            Ok(v) => collection_docs(db@, off as int) == Some(view_arr(v@)),
            Err(e) => e == DbError::DecodeError && collection_docs(db@, off as int) is None,
        },
{
    let ghost im = db@;
    let mut docs: Vec<JsonValue> = Vec::new();
    let ghost mut done: Seq<Json> = Seq::empty();
    let mut pos: u64 = off;
    proof {
        match docs_of_records(records_from(im, off as int)) {
            Some(rest) => {
                assert(Seq::<Json>::empty() + rest =~= rest);
            },
            None => {},
        }
        assert(view_arr(docs@) =~= done);
    }
    loop
        invariant
            db@ == im,
            off <= pos,
            docs_of_records(records_from(im, off as int)) == (match docs_of_records(
                records_from(im, pos as int),
            ) {
                Some(rest) => Some(done + rest),
                None => None::<Seq<Json>>,
            }),
            view_arr(docs@) == done,
        decreases im.len() - pos,
    {
        match read_document(db, pos) {
            None => {
                proof {
                    assert(records_from(im, pos as int) =~= Seq::<Seq<u8>>::empty());
                    assert(docs_of_records(records_from(im, pos as int)) == Some(
                        Seq::<Json>::empty(),
                    ));
                    assert(done + Seq::<Json>::empty() =~= done);
                }
                break ;
            },
            Some((payload, next)) => {
                let ghost recs = records_from(im, pos as int);
                proof {
                    assert(recs == seq![payload@] + records_from(im, next as int));
                    assert(recs[0] == payload@);
                    assert(recs.skip(1) =~= records_from(im, next as int));
                }
                match decode_json(&payload) {
                    None => {
                        proof {
                            assert(docs_of_records(recs) is None);
                        }
                        return Err(DbError::DecodeError);
                    },
                    Some(d) => {
                        let ghost before = docs@;
                        docs.push(d);
                        proof {
                            lemma_view_arr_push(before, docs@[docs@.len() - 1]);
                            let rest_next = docs_of_records(records_from(im, next as int));
                            assert(docs_of_records(recs) == (match rest_next {
                                Some(r2) => Some(seq![docs@[docs@.len() - 1]@] + r2),
                                None => None::<Seq<Json>>,
                            }));
                            if rest_next is Some {
                                assert(done.push(docs@[docs@.len() - 1]@) + rest_next.unwrap()
                                    =~= done + (seq![docs@[docs@.len() - 1]@]
                                    + rest_next.unwrap()));
                            }
                            done = done.push(docs@[docs@.len() - 1]@);
                        }
                        pos = next;
                    },
                }
            },
        }
    }
    proof {
        assert(done + Seq::<Json>::empty() =~= done);
    }
    Ok(docs)
}

/// The bytes before a segment after its rewrite: everything up to the
/// segment's offset, zero-filled if the offset lay past the old end.
pub open spec fn seg_base(im: Seq<u8>, off: int) -> Seq<u8> {
    if off <= im.len() {
        im.take(off)
    } else {
        im + zeros(off - im.len())
    }
}

/// Whether a rewritten segment cannot be addressed by the machine: its
/// offset or total extent exceeds the address space, or a document's
/// encoding no longer fits a record's length field.
pub open spec fn rewrite_too_big(off: int, ds: Seq<Json>) -> bool {
    ||| off > usize::MAX
    ||| off + enc_records(ds).len() > usize::MAX
    ||| exists|k: int| 0 <= k < ds.len() && enc(#[trigger] ds[k]).len() > u32::MAX
}

/// Framing one more document appends its framed encoding.
pub proof fn lemma_enc_records_push(ds: Seq<Json>, d: Json)
    ensures
        enc_records(ds.push(d)) == enc_records(ds) + frame(enc(d)),
    decreases ds.len(),
{
    if ds.len() == 0 {
        assert(ds.push(d)[0] == d);
        assert(ds.push(d).skip(1) =~= Seq::<Json>::empty());
        assert(enc_records(Seq::<Json>::empty()) == Seq::<u8>::empty());
        assert(enc_records(ds.push(d)) =~= enc_records(ds) + frame(enc(d)));
    } else {
        lemma_enc_records_push(ds.skip(1), d);
        assert(ds.push(d)[0] == ds[0]);
        assert(ds.push(d).skip(1) =~= ds.skip(1).push(d));
        assert(enc_records(ds.push(d)) =~= enc_records(ds) + frame(enc(d)));
    }
}

/// The framed bytes of a document sequence split at any point.
pub proof fn lemma_enc_records_split(ds: Seq<Json>, j: int)
    requires
        0 <= j <= ds.len(),
    ensures
        enc_records(ds) == enc_records(ds.take(j)) + enc_records(ds.skip(j)),
    decreases j,
{
    if j == 0 {
        assert(ds.take(0) =~= Seq::<Json>::empty());
        assert(ds.skip(0) =~= ds);
        assert(enc_records(ds) =~= enc_records(ds.take(0)) + enc_records(ds.skip(0)));
    } else {
        lemma_enc_records_split(ds, j - 1);
        lemma_enc_records_push(ds.take(j - 1), ds[j - 1]);
        assert(ds.take(j) =~= ds.take(j - 1).push(ds[j - 1]));
        assert(ds.skip(j - 1)[0] == ds[j - 1]);
        assert(ds.skip(j - 1).skip(1) =~= ds.skip(j));
        assert(enc_records(ds.skip(j - 1)) == frame(enc(ds[j - 1])) + enc_records(ds.skip(j)));
        assert(enc_records(ds) =~= enc_records(ds.take(j)) + enc_records(ds.skip(j)));
    }
}

/// An update pinned down pointwise: each document is replaced exactly when
/// it matches.
pub proof fn lemma_apply_update_index(ds: Seq<Json>, f: Json, r: Json)
    ensures
        apply_update_docs(ds, f, r).len() == ds.len(),
        forall|j: int|
            0 <= j < ds.len() ==> apply_update_docs(ds, f, r)[j] == (if filter_matches(
                #[trigger] ds[j],
                f,
            ) {
                r
            } else {
                ds[j]
            }),
    decreases ds.len(),
{
    if ds.len() > 0 {
        lemma_apply_update_index(ds.skip(1), f, r);
        assert forall|j: int|
            0 <= j < ds.len() implies apply_update_docs(ds, f, r)[j] == (if filter_matches(
            #[trigger] ds[j],
            f,
        ) {
            r
        } else {
            ds[j]
        }) by {
            if j > 0 {
                assert(apply_update_docs(ds, f, r)[j] == apply_update_docs(ds.skip(1), f, r)[j
                    - 1]);
                assert(ds.skip(1)[j - 1] == ds[j]);
            }
        }
    }
}

/// Updates every document of a collection that matches the filter,
/// replacing it whole with `replacement`, and rewrites the collection's
/// segment in place; the count of replaced documents is returned. A
/// collection with no entry is a no-op counting zero.
#[verifier::loop_isolation(false)]
#[verifier::rlimit(100)]
pub fn update(db: &mut Db, collection: &Vec<u8>, filter: &JsonValue, replacement: &JsonValue) -> (r:
    Result<usize, DbError>)
    ensures
        ({
            let im = old(db)@;
            let lk = toc_lookup(toc_entries(im), collection@);
            match r {
                Ok(count) => magic_ok(im) && im.len() >= DATA_START && (match lk {
                    None => count == 0 && final(db)@ == im,
                    Some(ent) => ({
                        let off = ent.offset as int;
                        let ds = collection_docs(im, off).unwrap();
                        let upd = apply_update_docs(ds, filter@, replacement@);
                        &&& collection_docs(im, off) is Some
                        &&& count == filter_docs(ds, filter@).len()
                        &&& final(db)@ == seg_base(im, off) + enc_records(upd)
                        &&& collection_docs(final(db)@, off) == Some(upd)
                        &&& well_framed(final(db)@, off)
                        &&& (DATA_START <= off ==> toc_entries(final(db)@) == toc_entries(im)
                            && magic_ok(final(db)@) && toc_lookup(
                            toc_entries(final(db)@),
                            collection@,
                        ) == lk)
                    }),
                }),
                Err(e) => final(db)@ == im && ((e == DbError::IoError && im.len() < MAGIC_LEN) || (
                e == DbError::InvalidFormat && im.len() >= MAGIC_LEN && im.take(MAGIC_LEN as int)
                    != magic()) || (magic_ok(im) && e == DbError::IoError && im.len() < DATA_START)
                    || (magic_ok(im) && im.len() >= DATA_START && lk is Some && e
                    == DbError::DecodeError && collection_docs(
                    im,
                    lk.unwrap().offset as int,
                ) is None) || (magic_ok(im) && im.len() >= DATA_START && lk is Some
                    && collection_docs(im, lk.unwrap().offset as int) is Some && e
                    == DbError::IoError && rewrite_too_big(
                    lk.unwrap().offset as int,
                    apply_update_docs(
                        collection_docs(im, lk.unwrap().offset as int).unwrap(),
                        filter@,
                        replacement@,
                    ),
                ))),
            }
        }),
{
    match check_magic(db) {
        Ok(()) => {},
        Err(e) => {
            return Err(e);
        },
    }
    let toc = match load_toc(db) {
        Ok(t) => t,
        Err(e) => {
            return Err(e);
        },
    };
    let i = match toc_find(&toc, collection) {
        Some(i) => i,
        None => {
            return Ok(0);
        },
    };
    let off = toc[i].1.offset;
    let docs = match scan_docs(db, off) {
        Ok(v) => v,
        Err(e) => {
            return Err(e);
        },
    };
    let ghost im = old(db)@;
    let ghost ds = view_arr(docs@);
    let ghost f = filter@;
    let ghost rep = replacement@;
    let ghost upd = apply_update_docs(ds, f, rep);
    proof {
        lemma_apply_update_index(ds, f, rep);
        lemma_view_arr_index(docs@);
    }
    let mut seg = Db::from_bytes(Vec::new());
    let mut count: usize = 0;
    let mut j: usize = 0;
    proof {
        assert(ds.take(0) =~= Seq::<Json>::empty());
        assert(seg@ =~= enc_records(apply_update_docs(ds.take(0), f, rep)));
        assert(filter_docs(apply_update_docs(ds.take(0), f, rep), f) =~= Seq::<Json>::empty());
    }
    while j < docs.len()
        invariant
            j <= docs@.len(),
            count <= j,
            count == filter_docs(ds.take(j as int), f).len(),
            seg@ == enc_records(apply_update_docs(ds.take(j as int), f, rep)),
            forall|k: int| 0 <= k < j ==> enc(#[trigger] upd[k]).len() <= u32::MAX,
        decreases docs@.len() - j,
    {
        let matched = filter_match(&docs[j], filter);
        let encoded = if matched {
            encode_json(replacement)
        } else {
            encode_json(&docs[j])
        };
        if matched {
            count = count + 1;
        }
        let ghost elem = if filter_matches(ds[j as int], f) {
            rep
        } else {
            ds[j as int]
        };
        proof {
            assert(ds[j as int] == docs@[j as int]@);
            assert(encoded@ == enc(elem));
            assert(upd[j as int] == elem);
        }
        let rw = write_document(&mut seg, &encoded);
        match rw {
            Ok(()) => {},
            Err(_) => {
                proof {
                    if encoded@.len() > u32::MAX {
                        assert(enc(upd[j as int]).len() > u32::MAX);
                        assert(rewrite_too_big(off as int, upd));
                    } else {
                        lemma_auto_spec_u32_to_from_le_bytes();
                        lemma_enc_records_split(upd, j as int);
                        lemma_enc_records_push(upd.take(j as int), upd[j as int]);
                        assert(upd.take(j as int) =~= apply_update_docs(ds.take(j as int), f, rep))
                            by {
                            lemma_apply_update_index(ds.take(j as int), f, rep);
                            assert forall|k: int|
                                0 <= k < j implies apply_update_docs(ds.take(j as int), f, rep)[k]
                                == upd[k] by {
                                assert(ds.take(j as int)[k] == ds[k]);
                            }
                        }
                        assert(upd.take(j as int + 1) =~= upd.take(j as int).push(upd[j as int]));
                        lemma_enc_records_split(upd, j as int + 1);
                        assert(enc_records(upd).len() >= seg@.len() + 4 + encoded@.len());
                        assert(rewrite_too_big(off as int, upd));
                    }
                }
                return Err(DbError::IoError);
            },
        }
        proof {
            assert(ds.take(j + 1) =~= ds.take(j as int).push(ds[j as int]));
            lemma_apply_update_push(ds.take(j as int), f, rep, ds[j as int]);
            lemma_filter_docs_push(ds.take(j as int), f, ds[j as int]);
            lemma_enc_records_push(apply_update_docs(ds.take(j as int), f, rep), elem);
        }
        j = j + 1;
    }
    proof {
        assert(ds.take(docs@.len() as int) =~= ds);
    }
    if off > (usize::MAX as u64) {
        proof {
            assert(rewrite_too_big(off as int, upd));
        }
        return Err(DbError::IoError);
    }
    if ((usize::MAX as u64) - off) < (seg.bytes.len() as u64) {
        proof {
            assert(rewrite_too_big(off as int, upd));
        }
        return Err(DbError::IoError);
    }
    let rt = truncate(db, off);
    proof {
        assert(rt is Ok);
        assert(db@ == seg_base(im, off as int));
        assert(db@.len() == off);
    }
    let buf = seg.into_bytes();
    let rw = write_at(db, off, &buf);
    proof {
        assert(rw is Ok);
        assert(final(db)@ =~= seg_base(im, off as int) + enc_records(upd));
        let base = seg_base(im, off as int);
        assert forall|k: int| 0 <= k < upd.len() implies enc(#[trigger] upd[k]).len()
            <= u32::MAX by {}
        lemma_records_of_enc_records(base, upd);
        assert(base.len() == off);
        assert(records_from(final(db)@, off as int) == upd.map_values(|d: Json| enc(d)));
        assert forall|k: int| 0 <= k < upd.len() implies wf_json(#[trigger] upd[k]) by {
            lemma_view_wf(*replacement);
            if upd[k] != rep {
                assert(upd[k] == ds[k]);
                assert(ds[k] == docs@[k]@);
                lemma_view_wf(docs@[k]);
            }
        }
        lemma_docs_of_enc(upd);
        if DATA_START <= off {
            assert(final(db)@.len() >= DATA_START);
            assert(final(db)@.subrange(HEADER_SIZE as int, DATA_START as int) =~= im.subrange(
                HEADER_SIZE as int,
                DATA_START as int,
            ));
            assert(final(db)@.take(MAGIC_LEN as int) =~= im.take(MAGIC_LEN as int));
        }
    }
    Ok(count)
}


/// Framing distributes over concatenation of document sequences.
pub proof fn lemma_enc_records_append(a: Seq<Json>, b: Seq<Json>)
    ensures
        enc_records(a + b) == enc_records(a) + enc_records(b),
    decreases a.len(),
{
    if a.len() == 0 {
        assert(a + b =~= b);
        assert(enc_records(a) + enc_records(b) =~= enc_records(b));
    } else {
        lemma_enc_records_append(a.skip(1), b);
        assert((a + b).skip(1) =~= a.skip(1) + b);
        assert((a + b)[0] == a[0]);
        assert(enc_records(a + b) =~= enc_records(a) + enc_records(b));
    }
}

/// Keeping distributes over concatenation of document sequences.
pub proof fn lemma_keep_docs_append(a: Seq<Json>, b: Seq<Json>, f: Json)
    ensures
        keep_docs(a + b, f) == keep_docs(a, f) + keep_docs(b, f),
    decreases a.len(),
{
    if a.len() == 0 {
        assert(a + b =~= b);
        assert(keep_docs(a, f) + keep_docs(b, f) =~= keep_docs(b, f));
    } else {
        lemma_keep_docs_append(a.skip(1), b, f);
        assert((a + b).skip(1) =~= a.skip(1) + b);
        assert((a + b)[0] == a[0]);
        if filter_matches(a[0], f) {
            assert(keep_docs(a + b, f) =~= keep_docs(a, f) + keep_docs(b, f));
        } else {
            assert(keep_docs(a + b, f) =~= keep_docs(a, f) + keep_docs(b, f));
        }
    }
}

/// Deletes every document of a collection that matches the filter and
/// rewrites the collection's segment with the remaining documents in their
/// original order; the count of removed documents is returned. A collection
/// with no entry is a no-op counting zero.
#[verifier::loop_isolation(false)]
#[verifier::rlimit(100)]
pub fn delete(db: &mut Db, collection: &Vec<u8>, filter: &JsonValue) -> (r: Result<usize, DbError>)
    ensures
        ({
            let im = old(db)@;
            let lk = toc_lookup(toc_entries(im), collection@);
            match r {
                Ok(count) => magic_ok(im) && im.len() >= DATA_START && (match lk {
                    None => count == 0 && final(db)@ == im,
                    Some(ent) => ({
                        let off = ent.offset as int;
                        let ds = collection_docs(im, off).unwrap();
                        let kept = keep_docs(ds, filter@);
                        &&& collection_docs(im, off) is Some
                        &&& count == filter_docs(ds, filter@).len()
                        &&& final(db)@ == seg_base(im, off) + enc_records(kept)
                        &&& collection_docs(final(db)@, off) == Some(kept)
                        &&& well_framed(final(db)@, off)
                        &&& (DATA_START <= off ==> toc_entries(final(db)@) == toc_entries(im)
                            && magic_ok(final(db)@) && toc_lookup(
                            toc_entries(final(db)@),
                            collection@,
                        ) == lk)
                    }),
                }),
                Err(e) => final(db)@ == im && ((e == DbError::IoError && im.len() < MAGIC_LEN) || (
                e == DbError::InvalidFormat && im.len() >= MAGIC_LEN && im.take(MAGIC_LEN as int)
                    != magic()) || (magic_ok(im) && e == DbError::IoError && im.len() < DATA_START)
                    || (magic_ok(im) && im.len() >= DATA_START && lk is Some && e
                    == DbError::DecodeError && collection_docs(
                    im,
                    lk.unwrap().offset as int,
                ) is None) || (magic_ok(im) && im.len() >= DATA_START && lk is Some
                    && collection_docs(im, lk.unwrap().offset as int) is Some && e
                    == DbError::IoError && rewrite_too_big(
                    lk.unwrap().offset as int,
                    keep_docs(collection_docs(im, lk.unwrap().offset as int).unwrap(), filter@),
                ))),
            }
        }),
{
    match check_magic(db) {
        Ok(()) => {},
        Err(e) => {
            return Err(e);
        },
    }
    let toc = match load_toc(db) {
        Ok(t) => t,
        Err(e) => {
            return Err(e);
        },
    };
    let i = match toc_find(&toc, collection) {
        Some(i) => i,
        None => {
            return Ok(0);
        },
    };
    let off = toc[i].1.offset;
    let docs = match scan_docs(db, off) {
        Ok(v) => v,
        Err(e) => {
            return Err(e);
        },
    };
    let ghost im = old(db)@;
    let ghost ds = view_arr(docs@);
    let ghost f = filter@;
    let ghost kept = keep_docs(ds, f);
    proof {
        lemma_view_arr_index(docs@);
    }
    let mut seg = Db::from_bytes(Vec::new());
    let mut count: usize = 0;
    let mut j: usize = 0;
    proof {
        assert(ds.take(0) =~= Seq::<Json>::empty());
        assert(seg@ =~= enc_records(keep_docs(ds.take(0), f)));
        assert(filter_docs(ds.take(0), f) =~= Seq::<Json>::empty());
    }
    while j < docs.len()
        invariant
            j <= docs@.len(),
            count <= j,
            count == filter_docs(ds.take(j as int), f).len(),
            seg@ == enc_records(keep_docs(ds.take(j as int), f)),
            forall|k: int|
                0 <= k < keep_docs(ds.take(j as int), f).len() ==> enc(
                    #[trigger] keep_docs(ds.take(j as int), f)[k],
                ).len() <= u32::MAX,
        decreases docs@.len() - j,
    {
        let matched = filter_match(&docs[j], filter);
        if matched {
            count = count + 1;
        } else {
            let encoded = encode_json(&docs[j]);
            proof {
                assert(ds[j as int] == docs@[j as int]@);
                assert(encoded@ == enc(ds[j as int]));
            }
            let rw = write_document(&mut seg, &encoded);
            match rw {
                Ok(()) => {},
                Err(_) => {
                    proof {
                        lemma_auto_spec_u32_to_from_le_bytes();
                        assert(ds.take(j + 1) =~= ds.take(j as int).push(ds[j as int]));
                        lemma_keep_docs_push(ds.take(j as int), f, ds[j as int]);
                        let kp = keep_docs(ds.take(j as int), f);
                        assert(keep_docs(ds.take(j + 1), f) == kp.push(ds[j as int]));
                        assert(ds.take(j + 1) + ds.skip(j + 1) =~= ds);
                        lemma_keep_docs_append(ds.take(j + 1), ds.skip(j + 1), f);
                        assert(kept == kp.push(ds[j as int]) + keep_docs(ds.skip(j + 1), f));
                        assert(kept[kp.len() as int] == ds[j as int]);
                        if encoded@.len() > u32::MAX {
                            assert(enc(kept[kp.len() as int]).len() > u32::MAX);
                            assert(rewrite_too_big(off as int, kept));
                        } else {
                            lemma_enc_records_append(
                                kp.push(ds[j as int]),
                                keep_docs(ds.skip(j + 1), f),
                            );
                            lemma_enc_records_push(kp, ds[j as int]);
                            assert(enc_records(kept).len() >= seg@.len() + 4 + encoded@.len());
                            assert(rewrite_too_big(off as int, kept));
                        }
                    }
                    return Err(DbError::IoError);
                },
            }
        }
        proof {
            assert(ds.take(j + 1) =~= ds.take(j as int).push(ds[j as int]));
            lemma_keep_docs_push(ds.take(j as int), f, ds[j as int]);
            lemma_filter_docs_push(ds.take(j as int), f, ds[j as int]);
            let kp = keep_docs(ds.take(j as int), f);
            if !filter_matches(ds[j as int], f) {
                lemma_enc_records_push(kp, ds[j as int]);
                assert forall|k: int|
                    0 <= k < keep_docs(ds.take(j + 1), f).len() implies enc(
                    #[trigger] keep_docs(ds.take(j + 1), f)[k],
                ).len() <= u32::MAX by {
                    if k < kp.len() {
                        assert(keep_docs(ds.take(j + 1), f)[k] == kp[k]);
                    } else {
                        assert(keep_docs(ds.take(j + 1), f)[k] == ds[j as int]);
                    }
                }
            }
        }
        j = j + 1;
    }
    proof {
        assert(ds.take(docs@.len() as int) =~= ds);
    }
    if off > (usize::MAX as u64) {
        proof {
            assert(rewrite_too_big(off as int, kept));
        }
        return Err(DbError::IoError);
    }
    if ((usize::MAX as u64) - off) < (seg.bytes.len() as u64) {
        proof {
            assert(rewrite_too_big(off as int, kept));
        }
        return Err(DbError::IoError);
    }
    let rt = truncate(db, off);
    proof {
        assert(rt is Ok);
        assert(db@ == seg_base(im, off as int));
        assert(db@.len() == off);
    }
    let buf = seg.into_bytes();
    let rw = write_at(db, off, &buf);
    proof {
        assert(rw is Ok);
        assert(final(db)@ =~= seg_base(im, off as int) + enc_records(kept));
        let base = seg_base(im, off as int);
        lemma_records_of_enc_records(base, kept);
        assert(base.len() == off);
        assert forall|k: int| 0 <= k < kept.len() implies wf_json(#[trigger] kept[k]) by {
            lemma_keep_docs_membership(ds, f, k);
            let j = choose|j: int| 0 <= j < ds.len() && kept[k] == ds[j];
            lemma_view_arr_index(docs@);
            lemma_view_wf(docs@[j]);
        }
        lemma_docs_of_enc(kept);
        if DATA_START <= off {
            assert(final(db)@.len() >= DATA_START);
            assert(final(db)@.subrange(HEADER_SIZE as int, DATA_START as int) =~= im.subrange(
                HEADER_SIZE as int,
                DATA_START as int,
            ));
            assert(final(db)@.take(MAGIC_LEN as int) =~= im.take(MAGIC_LEN as int));
        }
    }
    Ok(count)
}

/// Every kept document is one of the originals.
pub proof fn lemma_keep_docs_membership(ds: Seq<Json>, f: Json, k: int)
    requires
        0 <= k < keep_docs(ds, f).len(),
    ensures
        exists|j: int| 0 <= j < ds.len() && keep_docs(ds, f)[k] == ds[j],
    decreases ds.len(),
{
    if ds.len() > 0 {
        if filter_matches(ds[0], f) {
            lemma_keep_docs_membership(ds.skip(1), f, k);
            let j = choose|j: int|
                0 <= j < ds.skip(1).len() && keep_docs(ds.skip(1), f)[k] == ds.skip(1)[j];
            assert(ds.skip(1)[j] == ds[j + 1]);
        } else {
            if k == 0 {
                assert(keep_docs(ds, f)[0] == ds[0]);
            } else {
                lemma_keep_docs_membership(ds.skip(1), f, k - 1);
                let j = choose|j: int|
                    0 <= j < ds.skip(1).len() && keep_docs(ds.skip(1), f)[k - 1] == ds.skip(1)[j];
                assert(ds.skip(1)[j] == ds[j + 1]);
                assert(keep_docs(ds, f)[k] == keep_docs(ds.skip(1), f)[k - 1]);
            }
        }
    }
}


/// Querying with the empty object filter keeps every stored document: for
/// object documents the empty filter asks nothing, so a query with it
/// returns exactly the documents inserted, in insertion order.
pub proof fn lemma_empty_filter_keeps_all(ds: Seq<Json>)
    requires
        forall|i: int| 0 <= i < ds.len() ==> (#[trigger] ds[i]) is Obj,
    ensures
        filter_docs(ds, Json::Obj(Seq::empty())) == ds,
    decreases ds.len(),
{
    let f = Json::Obj(Seq::empty());
    if ds.len() > 0 {
        assert(filter_matches(ds[0], f));
        assert forall|i: int| 0 <= i < ds.skip(1).len() implies (#[trigger] ds.skip(1)[i]) is Obj by {
            assert(ds.skip(1)[i] == ds[i + 1]);
        }
        lemma_empty_filter_keeps_all(ds.skip(1));
        assert(filter_docs(ds, f) =~= ds);
    }
}

/// After an update whose replacement does not itself match the filter, no
/// document matches the filter any more: querying with it finds nothing.
pub proof fn lemma_update_clears_filter(ds: Seq<Json>, f: Json, r: Json)
    requires
        !filter_matches(r, f),
    ensures
        filter_docs(apply_update_docs(ds, f, r), f) == Seq::<Json>::empty(),
    decreases ds.len(),
{
    if ds.len() > 0 {
        lemma_update_clears_filter(ds.skip(1), f, r);
        let rest = apply_update_docs(ds.skip(1), f, r);
        if filter_matches(ds[0], f) {
            assert((seq![r] + rest).skip(1) =~= rest);
            assert(filter_docs(seq![r] + rest, f) =~= Seq::<Json>::empty());
        } else {
            assert((seq![ds[0]] + rest).skip(1) =~= rest);
            assert(filter_docs(seq![ds[0]] + rest, f) =~= Seq::<Json>::empty());
        }
    }
}

/// Deleting removes exactly the matching documents: what remains holds no
/// match, so a second delete with the same filter removes nothing and
/// counts zero.
pub proof fn lemma_delete_clears_filter(ds: Seq<Json>, f: Json)
    ensures
        filter_docs(keep_docs(ds, f), f) == Seq::<Json>::empty(),
        keep_docs(keep_docs(ds, f), f) == keep_docs(ds, f),
    decreases ds.len(),
{
    if ds.len() > 0 {
        lemma_delete_clears_filter(ds.skip(1), f);
        let rest = keep_docs(ds.skip(1), f);
        if !filter_matches(ds[0], f) {
            assert((seq![ds[0]] + rest).skip(1) =~= rest);
            assert(filter_docs(seq![ds[0]] + rest, f) =~= Seq::<Json>::empty());
            assert(keep_docs(seq![ds[0]] + rest, f) =~= seq![ds[0]] + rest);
        }
    }
}


/// Inserted documents come back whole: a segment holding exactly the framed
/// encodings of object documents, queried with the empty filter, yields
/// exactly those documents, in insertion order.
pub proof fn lemma_query_returns_all_inserted(base: Seq<u8>, ds: Seq<Json>)
    requires
        forall|i: int|
            0 <= i < ds.len() ==> wf_json(#[trigger] ds[i]) && ds[i] is Obj && enc(ds[i]).len()
                <= u32::MAX,
    ensures
        collection_docs(base + enc_records(ds), base.len() as int) == Some(ds),
        filter_docs(ds, Json::Obj(Seq::empty())) == ds,
{
    lemma_records_of_enc_records(base, ds);
    lemma_docs_of_enc(ds);
    lemma_empty_filter_keeps_all(ds);
}

} // verus!
