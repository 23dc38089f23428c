use mpu6050_validation::facemap::{
    load_face_mapping, mapping_from_document, FaceMappingLoadError, MappingDocument,
};
use mpu6050_validation::logtext::FaceMappingError;
use std::collections::BTreeMap;

fn entry(face: &str, axis: Option<&str>) -> (String, Option<String>) {
    (face.to_string(), axis.map(str::to_string))
}

#[test]
fn sixface_mapping_parser_accepts_example() {
    let text = r#"{
        "faces": {"+X": "+X", "-X": "-X", "+Y": "+Y", "-Y": "-Y", "+Z": "+Z", "-Z": "-Z"}
    }"#;
    let m: BTreeMap<String, String> = load_face_mapping(text).unwrap().into_iter().collect();
    assert_eq!(m["+X"], "+X");
    assert_eq!(m["-Z"], "-Z");
    assert_eq!(m.len(), 6);
}

#[test]
fn a_document_without_faces_is_the_mapping_itself() {
    let m = load_face_mapping(r#"{"+X": "-Y", "-Z": "+Z"}"#).unwrap();
    assert_eq!(
        m,
        vec![("+X".to_string(), "-Y".to_string()), ("-Z".to_string(), "+Z".to_string())]
    );
}

#[test]
fn mapping_documents_that_are_refused() {
    assert!(matches!(load_face_mapping("{not json"), Err(FaceMappingLoadError::Json(_))));
    assert_eq!(load_face_mapping("[1, 2]"), Err(FaceMappingLoadError::NotObject));
    assert_eq!(
        load_face_mapping(r#"{"faces": ["+X"]}"#),
        Err(FaceMappingLoadError::NotObject)
    );
    assert_eq!(
        load_face_mapping(r#"{"faces": {"+X": 1}}"#),
        Err(FaceMappingLoadError::Refused(FaceMappingError::NotString))
    );
    assert_eq!(
        load_face_mapping(r#"{"+X": "up"}"#),
        Err(FaceMappingLoadError::Refused(FaceMappingError::Invalid {
            face: "+X".to_string(),
            axis: "up".to_string(),
        }))
    );
}

#[test]
fn a_parsed_document_prefers_its_faces_object() {
    let doc = MappingDocument {
        faces: Some(Some(vec![entry("+Y", Some("+Y"))])),
        document: Some(vec![entry("faces", None)]),
    };
    assert_eq!(
        mapping_from_document(Ok(doc)),
        Ok(vec![("+Y".to_string(), "+Y".to_string())])
    );
    let no_faces = MappingDocument { faces: None, document: Some(vec![entry("-X", Some("+Z"))]) };
    assert_eq!(
        mapping_from_document(Ok(no_faces)),
        Ok(vec![("-X".to_string(), "+Z".to_string())])
    );
    let faces_not_object = MappingDocument { faces: Some(None), document: Some(vec![]) };
    assert_eq!(mapping_from_document(Ok(faces_not_object)), Err(FaceMappingLoadError::NotObject));
    assert_eq!(
        mapping_from_document(Err("eof".to_string())),
        Err(FaceMappingLoadError::Json("eof".to_string()))
    );
}
