use path_extract::extract::Path;
use path_extract::scalar::ScalarKind;
use path_extract::shape::{Field, Shape};

#[test]
fn test_extract_hash_map() {
    let url = "/dynamic/resource/42/axum";
    let pattern = "/dynamic/resource/{id}/{name}";

    match Path::extract(url, pattern, &Shape::Dynamic) {
        Ok(v) => println!("{v:?}"),
        Err(e) => println!("Error: {}", e.message()),
    }
}

#[test]
fn test_extract_struct() {
    let url = "/dynamic/resource/42/axum";
    let pattern = "/dynamic/resource/{id}/{name}";

    let shape = Shape::Record(vec![
        Field::new("id", ScalarKind::Integer),
        Field::new("name", ScalarKind::Text),
    ]);

    match Path::extract(url, pattern, &shape) {
        Ok(v) => println!("{v:?}"),
        Err(e) => println!("Error: {}", e.message()),
    }
}

#[test]
fn test_extract_tuple() {
    let url = "/dynamic/resource/42/axum";
    let pattern = "/dynamic/resource/{id}/{name}";

    match Path::extract(url, pattern, &Shape::Tuple(vec![ScalarKind::Integer, ScalarKind::Text])) {
        Ok(v) => println!("Tuple: {:?}", v),
        Err(e) => println!("Error: {}", e.message()),
    }

    match Path::extract(url, pattern, &Shape::Tuple(vec![ScalarKind::Text, ScalarKind::Text])) {
        Ok(v) => println!("String Tuple: {:?}", v),
        Err(e) => println!("Error: {}", e.message()),
    }
}
