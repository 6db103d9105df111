use path_extract::calculator::{EchoRequest, SubRequest, SubResponse, SumRequest};

#[test]
fn sum_request_computes_the_sum() {
    let req = SumRequest { a: 40, b: 2 };
    assert_eq!(req.sum(), 42);
    let req = SumRequest { a: -5, b: 3 };
    assert_eq!(req.sum(), -2);
}

#[test]
fn sub_request_computes_the_difference() {
    let req = SubRequest { a: 40, b: 2 };
    assert_eq!(req.difference(), SubResponse { result: 38 });
}

#[test]
fn echo_request_round_trips() {
    let req = EchoRequest { a: 1, b: 2 };
    let copy = req;
    assert_eq!(req, copy);
}
