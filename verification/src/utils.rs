use vstd::prelude::*;
use crate::json::Json;
use crate::json::JsonValue;
use crate::json::obj_get;
use crate::json::obj_get_index;
use crate::json::lemma_view_obj_index;

verus! {

/// Whether a document satisfies a schema: both are objects and every
/// top-level key of the schema is present in the document. The check is
/// presence-only: no types, values or nesting are inspected.
pub open spec fn schema_ok(d: Json, s: Json) -> bool {
    match d {
        Json::Obj(dps) => match s {
            Json::Obj(sps) => forall|i: int|
                0 <= i < sps.len() ==> obj_get(dps, (#[trigger] sps[i]).0) is Some,
            _ => false,
        },
        _ => false,
    }
}

/// Checks a document against a schema: every key the schema requires at top
/// level must be present in the document.
pub fn validate_against_schema(doc: &JsonValue, schema: &JsonValue) -> (r: bool)
    ensures
        r == schema_ok(doc@, schema@),
{
    match (doc, schema) {
        (JsonValue::Obj(dps), JsonValue::Obj(sps)) => {
            proof {
                lemma_view_obj_index(sps@);
            }
            let mut i: usize = 0;
            while i < sps.len()
                invariant
                    i <= sps@.len(),
                    doc == JsonValue::Obj(*dps),
                    schema == JsonValue::Obj(*sps),
                    forall|j: int|
                        0 <= j < i ==> obj_get(view_obj_of(doc@), (#[trigger] view_obj_of(
                            schema@,
                        )[j]).0) is Some,
                decreases sps@.len() - i,
            {
                proof {
                    lemma_view_obj_index(sps@);
                }
                match obj_get_index(dps, &sps[i].0) {
                    Some(_) => {},
                    None => {
                        proof {
                            assert(view_obj_of(schema@)[i as int] == (
                                sps@[i as int].0@,
                                sps@[i as int].1@,
                            ));
                            assert(obj_get(
                                view_obj_of(doc@),
                                view_obj_of(schema@)[i as int].0,
                            ) is None);
                        }
                        return false;
                    },
                }
                i = i + 1;
            }
            proof {
                lemma_view_obj_index(sps@);
            }
            true
        },
        _ => false,
    }
}

/// The bindings of an object model; empty for any other value.
pub open spec fn view_obj_of(v: Json) -> Seq<(Seq<u8>, Json)> {
    match v {
        Json::Obj(ps) => ps,
        _ => Seq::empty(),
    }
}

} // verus!
