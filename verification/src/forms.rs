//! The form-submission endpoint's decision: echo the received fields
//! back, with a success flag that is false only for an empty form.

use vstd::prelude::*;
use crate::json::{JsonValue, JsonSpec, entries_view, lemma_view_object};

verus! {

/// A submitted form: its fields, in arrival order.
pub struct FormData {
    pub fields: Vec<(String, String)>,
}

pub open spec fn form_fields_view(fs: Seq<(String, String)>) -> Seq<(Seq<char>, JsonSpec)> {
    Seq::new(fs.len(), |i: int| (fs[i].0@, JsonSpec::Str(fs[i].1@)))
}

/// The response body: `{success, received}`, succeeding exactly when
/// the form held at least one field.
pub open spec fn form_response_spec(fs: Seq<(String, String)>) -> (bool, JsonSpec) {
    let ok = fs.len() > 0;
    (
        ok,
        JsonSpec::Obj(
            seq![
                ("success"@, JsonSpec::Bool(ok)),
                ("received"@, JsonSpec::Obj(form_fields_view(fs))),
            ],
        ),
    )
}

/// Decide a form submission: the success flag and the response body.
pub fn handle_form_submission(form: &FormData) -> (r: (bool, JsonValue))
    ensures
        r.0 == form_response_spec(form.fields@).0,
        r.1@ == form_response_spec(form.fields@).1,
{
    let ok = form.fields.len() > 0;
    let mut received: Vec<(String, JsonValue)> = Vec::new();
    let n = form.fields.len();
    for i in 0..n
        invariant
            n == form.fields@.len(),
            received@.len() == i,
            forall|j: int|
                0 <= j < i ==> received@[j].0@ == form.fields@[j].0@ && received@[j].1
                    == JsonValue::Str(form.fields@[j].1),
    {
        received.push((form.fields[i].0.clone(), JsonValue::Str(form.fields[i].1.clone())));
    }
    proof {
        lemma_view_object(received);
        assert(entries_view(received@) =~= form_fields_view(form.fields@));
    }
    let mut es: Vec<(String, JsonValue)> = Vec::new();
    es.push(("success".to_owned(), JsonValue::Bool(ok)));
    es.push(("received".to_owned(), JsonValue::Object(received)));
    proof {
        lemma_view_object(es);
        assert(entries_view(es@) =~= form_response_spec(form.fields@).1->Obj_0);
    }
    (ok, JsonValue::Object(es))
}

} // verus!
