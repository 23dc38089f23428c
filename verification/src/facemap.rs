//! The face-to-axis mapping document of the six-face analysis: a JSON object
//! from face to axis, either the document itself or its `faces` value.
use crate::logtext::{check_face_mapping, face_index, mapping_refusal, FaceMappingError};
use vstd::prelude::*;

verus! {

/// One entry of a mapping object as text: the face, and the axis when its
/// value is a string.
pub type EntryText = (Seq<char>, Option<Seq<char>>);

/// What a parsed mapping document holds, as text: the entries of its `faces`
/// value (`None` when it has no such field, `Some(None)` when that value is
/// not an object), and the entries of the document itself (`None` when it is
/// not an object).
pub type DocumentText = (Option<Option<Seq<EntryText>>>, Option<Seq<EntryText>>);

/// The entries of a JSON object, each face with its axis when the axis is a
/// string, in the order the parser keeps them.
pub type Entries = Vec<(String, Option<String>)>;

/// A parsed mapping document, taken apart as far as the mapping needs.
pub struct MappingDocument {
    /// The entries of the `faces` field: `None` when the document has no such
    /// field, `Some(None)` when its value is not an object.
    pub faces: Option<Option<Entries>>,
    /// The entries of the document itself; `None` when it is not an object.
    pub document: Option<Entries>,
}

/// An optional string as text.
pub open spec fn option_text(s: Option<String>) -> Option<Seq<char>> {
    match s {
        Some(t) => Some(t@),
        None => None,
    }
}

/// Entries as text.
pub open spec fn entries_text(v: Seq<(String, Option<String>)>) -> Seq<EntryText> {
    Seq::new(v.len(), |i: int| (v[i].0@, option_text(v[i].1)))
}

/// Optional entries as text.
pub open spec fn object_text(o: Option<Entries>) -> Option<Seq<EntryText>> {
    match o {
        Some(v) => Some(entries_text(v@)),
        None => None,
    }
}

impl View for MappingDocument {
    type V = DocumentText;

    open spec fn view(&self) -> DocumentText {
        (
            match self.faces {
                Some(f) => Some(object_text(f)),
                None => None,
            },
            object_text(self.document),
        )
    }
}

/// A parse as text: the document, or the parser's message.
pub open spec fn parsed_text(r: Result<MappingDocument, String>) -> Result<DocumentText, Seq<char>> {
    match r {
        Ok(d) => Ok(d@),
        Err(m) => Err(m@),
    }
}

/// What `serde_json` makes of `text` as a mapping document: the document taken
/// apart, or its error message.
pub uninterp spec fn mapping_document(text: Seq<char>) -> Result<DocumentText, Seq<char>>;

/// `serde_json::from_str` into a `serde_json::Value`; on success, the entries
/// of the value under `faces` (as `Value::get` finds it) and of the document
/// (as `Value::as_object` gives them), each axis kept when `Value::as_str`
/// gives one; on failure, the error's message. The contract claims only that
/// this is a function of the text.
#[verifier::external_body]
fn read_mapping_document(text: &str) -> (r: Result<MappingDocument, String>)
    ensures
        mapping_document(text@) == parsed_text(r),
{
    let entries = |v: &serde_json::Value| {
        v.as_object().map(|o| o.iter().map(|(k, a)| (k.clone(), a.as_str().map(str::to_string))).collect::<Entries>())
    };
    match serde_json::from_str::<serde_json::Value>(text) {
        Ok(v) => Ok(MappingDocument { faces: v.get("faces").map(entries), document: entries(&v) }),
        Err(e) => Err(e.to_string()),
    }
}

/// Why a mapping document was refused.
#[derive(Debug, Clone, PartialEq, Eq)]
pub enum FaceMappingLoadError {
    /// The text is not JSON; the parser's message.
    Json(String),
    /// Neither the `faces` value, when there is one, nor the document is an
    /// object.
    NotObject,
    /// The mapping object was refused.
    Refused(FaceMappingError),
}

/// The mapping object of a document: its `faces` value when it has that
/// field, otherwise the document itself.
pub open spec fn chosen_object<T>(faces: Option<Option<T>>, document: Option<T>) -> Option<T> {
    match faces {
        Some(f) => f,
        None => document,
    }
}

/// The first entry that a mapping refuses: an axis that is not a string, or a
/// face or axis that is not one of the six.
pub open spec fn refused_entry(es: Seq<EntryText>) -> Option<EntryText>
    decreases es.len(),
{
    if es.len() == 0 {
        None
    } else {
        match es[0].1 {
            None => Some(es[0]),
            Some(a) => if face_index(es[0].0) is None || face_index(a) is None {
                Some(es[0])
            } else {
                refused_entry(es.drop_first())
            },
        }
    }
}

/// `r` is what the mapping check gives for the entries `es`: the refusal of
/// the first refused entry, or every pair, in order.
pub open spec fn mapping_checked(es: Seq<EntryText>, r: Result<Vec<(String, String)>, FaceMappingLoadError>) -> bool {
    match refused_entry(es) {
        Some((_, None)) => r == Err::<Vec<(String, String)>, FaceMappingLoadError>(
            FaceMappingLoadError::Refused(FaceMappingError::NotString),
        ),
        Some((f, Some(a))) => r matches Err(FaceMappingLoadError::Refused(FaceMappingError::Invalid { face, axis })) && face@ == f
            && axis@ == a,
        None => r matches Ok(pairs) && pairs@.len() == es.len() && forall|i: int|
            0 <= i < es.len() ==> (#[trigger] pairs@[i]).0@ == es[i].0 && Some(pairs@[i].1@) == es[i].1,
    }
}

/// `r` is what loading gives for the parse `doc`: the parser's message, a
/// refusal when there is no mapping object, or the check of its entries.
pub open spec fn mapping_loaded(doc: Result<DocumentText, Seq<char>>, r: Result<Vec<(String, String)>, FaceMappingLoadError>) -> bool {
    match doc {
        Err(m) => r matches Err(FaceMappingLoadError::Json(x)) && x@ == m,
        Ok((faces, document)) => match chosen_object(faces, document) {
            None => r == Err::<Vec<(String, String)>, FaceMappingLoadError>(FaceMappingLoadError::NotObject),
            Some(es) => mapping_checked(es, r),
        },
    }
}

/// The refusal of the mapping check is that of the first refused entry.
proof fn lemma_refusal_text(v: Seq<(String, Option<String>)>)
    ensures
        match refused_entry(entries_text(v)) {
            Some((_, None)) => mapping_refusal(v) == Some(FaceMappingError::NotString),
            Some((f, Some(a))) => mapping_refusal(v) matches Some(FaceMappingError::Invalid { face, axis }) && face@ == f
                && axis@ == a,
            None => mapping_refusal(v) is None,
        },
    decreases v.len(),
{
    let t = entries_text(v);
    if v.len() > 0 {
        assert(t.drop_first() =~= entries_text(v.drop_first()));
        lemma_refusal_text(v.drop_first());
    }
}

/// The mapping in a parsed document: the parser's message when it did not
/// parse; otherwise the `faces` object when there is that field, or else the
/// document, checked entry by entry.
pub fn mapping_from_document(doc: Result<MappingDocument, String>) -> (r: Result<
    Vec<(String, String)>,
    FaceMappingLoadError,
>)
    ensures
        mapping_loaded(parsed_text(doc), r),
{
    match doc {
        Err(m) => Err(FaceMappingLoadError::Json(m)),
        Ok(d) => {
            let chosen = match d.faces {
                Some(f) => f,
                None => d.document,
            };
            match chosen {
                None => Err(FaceMappingLoadError::NotObject),
                Some(entries) => {
                    let ghost es = entries@;
                    proof {
                        lemma_refusal_text(es);
                    }
                    match check_face_mapping(entries) {
                        Ok(pairs) => Ok(pairs),
                        Err(e) => Err(FaceMappingLoadError::Refused(e)),
                    }
                },
            }
        },
    }
}

/// Reads a face mapping from the text of a JSON document: the `faces` object
/// when the document has that field, otherwise the document itself, mapping
/// each of `+X, -X, +Y, -Y, +Z, -Z` to one of them.
pub fn load_face_mapping(text: &str) -> (r: Result<Vec<(String, String)>, FaceMappingLoadError>)
    ensures
        mapping_loaded(mapping_document(text@), r),
{
    let doc = read_mapping_document(text);
    mapping_from_document(doc)
}

} // verus!
