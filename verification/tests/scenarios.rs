use path_extract::error::PathExtractionError;
use path_extract::extract::Path;
use path_extract::scalar::{Scalar, ScalarKind};
use path_extract::shape::{Decoded, Field, Shape};

fn record_shape(fields: Vec<(&str, ScalarKind)>) -> Shape {
    Shape::Record(fields.into_iter().map(|(n, k)| Field::new(n, k)).collect())
}

#[test]
fn record_decode_end_to_end() {
    let shape = record_shape(vec![("id", ScalarKind::Integer), ("name", ScalarKind::Text)]);
    let p = Path::extract("/dynamic/resource/42/axum", "/dynamic/resource/{id}/{name}", &shape)
        .unwrap();
    match p.0 {
        Decoded::Record(params) => {
            assert_eq!(params.len(), 2);
            assert_eq!(params.get("id"), Some(&Scalar::Integer(42)));
            assert_eq!(params.get("name"), Some(&Scalar::Text(String::from("axum"))));
        }
        Decoded::Tuple(_) => panic!("expected a record"),
    }
}

#[test]
fn tuple_decode_end_to_end() {
    let shape = Shape::Tuple(vec![ScalarKind::Integer, ScalarKind::Text]);
    let p = Path::extract("/dynamic/resource/42/axum", "/dynamic/resource/{id}/{name}", &shape)
        .unwrap();
    assert_eq!(
        p.0,
        Decoded::Tuple(vec![Scalar::Integer(42), Scalar::Text(String::from("axum"))])
    );
}

#[test]
fn segment_count_mismatch_is_missing_params() {
    let r = Path::extract("/a/b", "/a/b/c", &Shape::Dynamic);
    assert_eq!(r.unwrap_err(), PathExtractionError::MissingParams);
}

#[test]
fn literal_mismatch_is_invalid_format() {
    let shape = Shape::Tuple(vec![ScalarKind::Integer]);
    let r = Path::extract("/x/42", "/y/{id}", &shape);
    assert_eq!(r.unwrap_err(), PathExtractionError::InvalidFormat);
}

#[test]
fn boolean_record_decode() {
    let shape = record_shape(vec![("on", ScalarKind::Boolean)]);
    let p = Path::extract("/flag/true", "/flag/{on}", &shape).unwrap();
    match p.0 {
        Decoded::Record(params) => {
            assert_eq!(params.get("on"), Some(&Scalar::Boolean(true)));
        }
        Decoded::Tuple(_) => panic!("expected a record"),
    }
}

#[test]
fn type_swapped_record_is_unsupported_type() {
    let shape = record_shape(vec![("id", ScalarKind::Text), ("name", ScalarKind::Integer)]);
    let r = Path::extract("/dynamic/resource/42/axum", "/dynamic/resource/{id}/{name}", &shape);
    assert_eq!(r.unwrap_err(), PathExtractionError::UnsupportedType);
}

#[test]
fn tuple_values_come_in_ascending_name_order() {
    // the template declares {b} before {a}; the tuple still receives the
    // values sorted by name: (a = "Y", b = "X")
    let shape = Shape::Tuple(vec![ScalarKind::Text, ScalarKind::Text]);
    let p = Path::extract("/X/Y", "/{b}/{a}", &shape).unwrap();
    assert_eq!(
        p.0,
        Decoded::Tuple(vec![Scalar::Text(String::from("Y")), Scalar::Text(String::from("X"))])
    );
}

#[test]
fn record_entries_come_in_ascending_name_order() {
    let p = Path::extract("/X/Y", "/{b}/{a}", &Shape::Dynamic).unwrap();
    match p.0 {
        Decoded::Record(params) => {
            assert_eq!(params.len(), 2);
            assert_eq!(params.entry(0).name, "a");
            assert_eq!(params.entry(0).value, Scalar::Text(String::from("Y")));
            assert_eq!(params.entry(1).name, "b");
            assert_eq!(params.entry(1).value, Scalar::Text(String::from("X")));
        }
        Decoded::Tuple(_) => panic!("expected a record"),
    }
}

#[test]
fn identical_calls_yield_identical_results() {
    let shape = record_shape(vec![("id", ScalarKind::Integer), ("name", ScalarKind::Text)]);
    let r1 = Path::extract("/dynamic/resource/42/axum", "/dynamic/resource/{id}/{name}", &shape);
    let r2 = Path::extract("/dynamic/resource/42/axum", "/dynamic/resource/{id}/{name}", &shape);
    assert_eq!(r1, r2);
    let e1 = Path::extract("/a/b", "/a/b/c", &Shape::Dynamic);
    let e2 = Path::extract("/a/b", "/a/b/c", &Shape::Dynamic);
    assert_eq!(e1, e2);
}

#[test]
fn repeated_placeholder_last_write_wins() {
    let p = Path::extract("/1/2", "/{a}/{a}", &Shape::Dynamic).unwrap();
    match p.0 {
        Decoded::Record(params) => {
            assert_eq!(params.len(), 1);
            assert_eq!(params.get("a"), Some(&Scalar::Integer(2)));
        }
        Decoded::Tuple(_) => panic!("expected a record"),
    }
}

#[test]
fn extra_slashes_are_insignificant() {
    let p = Path::extract("//a///b/", "/a/b", &Shape::Dynamic).unwrap();
    match p.0 {
        Decoded::Record(params) => assert_eq!(params.len(), 0),
        Decoded::Tuple(_) => panic!("expected a record"),
    }
}

#[test]
fn empty_strings_match_trivially() {
    let p = Path::extract("", "", &Shape::Dynamic).unwrap();
    match p.0 {
        Decoded::Record(params) => assert_eq!(params.len(), 0),
        Decoded::Tuple(_) => panic!("expected a record"),
    }
}

#[test]
fn record_ignores_parameters_no_field_names() {
    let shape = record_shape(vec![("a", ScalarKind::Integer)]);
    let p = Path::extract("/1/2", "/{a}/{b}", &shape).unwrap();
    match p.0 {
        Decoded::Record(params) => {
            assert_eq!(params.len(), 1);
            assert_eq!(params.get("a"), Some(&Scalar::Integer(1)));
            assert_eq!(params.get("b"), None);
        }
        Decoded::Tuple(_) => panic!("expected a record"),
    }
}

#[test]
fn record_missing_field_is_unsupported_type() {
    let shape = record_shape(vec![("c", ScalarKind::Integer)]);
    let r = Path::extract("/1/2", "/{a}/{b}", &shape);
    assert_eq!(r.unwrap_err(), PathExtractionError::UnsupportedType);
}

#[test]
fn tuple_arity_mismatch_is_unsupported_type() {
    let shape = Shape::Tuple(vec![ScalarKind::Integer]);
    let r = Path::extract("/1/2", "/{a}/{b}", &shape);
    assert_eq!(r.unwrap_err(), PathExtractionError::UnsupportedType);
}

#[test]
fn error_messages() {
    assert_eq!(PathExtractionError::MissingParams.message(), "Missing URL parameters");
    assert_eq!(PathExtractionError::InvalidFormat.message(), "Invalid URL parameter format");
    assert_eq!(PathExtractionError::UnsupportedType.message(), "Unsupported target type");
}
