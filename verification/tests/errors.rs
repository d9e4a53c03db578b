use ingress_guard::error::response_for;
use ingress_guard::error::Error;

#[test]
fn known_codes_keep_their_status() {
    let r = response_for(404, "no such user");
    assert_eq!((r.status, r.body.as_str()), (404, "404 Not Found\nno such user"));
    let r = response_for(403, "not yours");
    assert_eq!((r.status, r.body.as_str()), (403, "403 Forbidden\nnot yours"));
    let r = response_for(409, "taken");
    assert_eq!((r.status, r.body.as_str()), (409, "409 Conflict\ntaken"));
    let r = response_for(500, "boom");
    assert_eq!((r.status, r.body.as_str()), (500, "500 Internal Server Error\nboom"));
}

#[test]
fn other_codes_become_500() {
    for code in [0, 200, 400, 401, 418, 502, 65535] {
        let r = response_for(code, "x");
        assert_eq!((r.status, r.body.as_str()), (500, "500 Internal Server Error\nx"));
    }
}

#[test]
fn errors_say_what_they_are() {
    assert_eq!(Error::CtxFail.message(), "Fail to get Ctx");
    assert_eq!(Error::UntisError.message(), "Fetching from Untis failed");
    assert_eq!(Error::Surreal("db down".to_string()).message(), "db down");
    assert_eq!(Error::IO("disk full".to_string()).message(), "disk full");
    assert_eq!(Error::Reqwest("timed out".to_string()).message(), "timed out");
}

#[test]
fn every_error_is_reported_as_500() {
    for error in [Error::CtxFail, Error::UntisError, Error::IO("disk full".to_string())] {
        assert_eq!(error.status_code(), 500);
        let r = error.error_response();
        assert_eq!(r.status, 500);
        assert_eq!(r.body, format!("500 Internal Server Error\n{}", error.message()));
    }
    assert_eq!(Error::CtxFail.error_response().body, "500 Internal Server Error\nFail to get Ctx");
}
