use ingress_guard::models::user_model::has_lanes_in_range;
use ingress_guard::models::user_model::PasswordError;
use ingress_guard::models::user_model::User;
use ingress_guard::models::user_model::UserCreate;

const HASH_OF_PASSWORD: &str =
    "$argon2d$v=16$m=32,t=2,p=3,data=Dw8PDw8P$AAAAAAAAAAA$KnH4gniiaFnDvlA1xev3yovC4cnrrI6tnHOYtmja90o";

fn user(password_hash: &str) -> User {
    User {
        id: "users:1".to_string(),
        peer_id: "p1".to_string(),
        name: "Ada".to_string(),
        avatar: String::new(),
        email: "ada@example.org".to_string(),
        password_hash: password_hash.to_string(),
        creation_date: "2023-01-01".to_string(),
        is_visible: true,
        is_inactive: false,
    }
}

#[test]
fn right_password_is_accepted() {
    assert_eq!(user(HASH_OF_PASSWORD).verify_password("password".to_string()), Ok(()));
}

#[test]
fn wrong_password_is_refused() {
    let user = user(HASH_OF_PASSWORD);
    assert_eq!(user.verify_password("sassword".to_string()), Err(PasswordError::Mismatch));
    assert_eq!(user.verify_password(String::new()), Err(PasswordError::Mismatch));
    assert_eq!(user.verify_password(HASH_OF_PASSWORD.to_string()), Err(PasswordError::Mismatch));
}

#[test]
fn malformed_hash_is_refused() {
    for hash in ["", "password", "argon2d$v=16", "$argon2d$v=16$m=32,t=2,p=3$!$!", "$"] {
        assert_eq!(
            user(hash).verify_password("password".to_string()),
            Err(PasswordError::Malformed),
            "hash {:?}",
            hash
        );
    }
}

#[test]
fn hash_without_salt_and_output_is_not_verified() {
    assert_eq!(
        user("$argon2d$v=16$m=32,t=2,p=3").verify_password("password".to_string()),
        Err(PasswordError::Mismatch)
    );
}

#[test]
fn hash_that_argon2_does_not_take_is_unsupported() {
    let unknown = "$argon2d$v=16$m=32,t=2,p=3,x=1$AAAAAAAAAAA$KnH4gniiaFnDvlA1xev3yovC4cnrrI6tnHOYtmja90o";
    assert_eq!(user(unknown).verify_password("password".to_string()), Err(PasswordError::Unsupported));
    let no_lanes = "$argon2d$v=16$m=32,t=2,p=0$AAAAAAAAAAA$KnH4gniiaFnDvlA1xev3yovC4cnrrI6tnHOYtmja90o";
    assert_eq!(user(no_lanes).verify_password("password".to_string()), Err(PasswordError::Unsupported));
}

#[test]
fn hash_with_too_many_lanes_is_unsupported() {
    for lanes in ["16777216", "536870912", "4294967295", "4294967296", "99999999999999999999", "x", ""] {
        let hash = format!(
            "$argon2id$v=19$m=65536,t=2,p={}$c29tZXNhbHQ$CTFhFdXPJO1aFaMaO6Mm5c8y7cJHAph8ArZWb2GRPPc",
            lanes
        );
        assert!(!has_lanes_in_range(&hash), "lanes {:?}", lanes);
        assert_eq!(
            user(&hash).verify_password("password".to_string()),
            Err(PasswordError::Unsupported),
            "lanes {:?}",
            lanes
        );
    }
    assert_eq!(
        user("p=536870912").verify_password("password".to_string()),
        Err(PasswordError::Unsupported)
    );
}

#[test]
fn lanes_are_looked_for_in_every_piece() {
    assert!(has_lanes_in_range(""));
    assert!(has_lanes_in_range(HASH_OF_PASSWORD));
    assert!(has_lanes_in_range("$argon2id$v=19$m=65536,t=2,p=16777215$c29tZXNhbHQ$AAAA"));
    assert!(has_lanes_in_range("$argon2id$v=19$m=65536,t=2,p=0000000001$c29tZXNhbHQ$AAAA"));
    assert!(has_lanes_in_range("$argon2id$v=19$m=4294967295,t=4294967295,q=4294967295$x$y"));
    assert!(has_lanes_in_range("$argon2id$v=19$m=65536,t=2,pp=99999999999$c29tZXNhbHQ$AAAA"));
    assert!(has_lanes_in_range("$argon2id$p"));
    assert!(!has_lanes_in_range("$argon2id$p=16777216"));
    assert!(!has_lanes_in_range("$argon2id$p=1,p=16777216"));
    assert!(!has_lanes_in_range("$argon2id$v=19$salt$hash$p=16777216"));
    assert!(!has_lanes_in_range("p=16777216,m=1"));
    assert!(!has_lanes_in_range("$argon2id$p=16777216=1"));
    assert!(!has_lanes_in_range("$argon2id$p="));
    assert!(!has_lanes_in_range("$argon2id$p=-1"));
    assert!(has_lanes_in_range("$argon2id$\u{fc}=16777216"));
}

#[test]
fn hash_made_by_the_library_is_accepted() {
    let salt = argon2::password_hash::SaltString::from_b64("c29tZXNhbHQ").unwrap();
    let params = argon2::Params::new(32, 2, 1, None).unwrap();
    let hasher = argon2::Argon2::new(argon2::Algorithm::Argon2id, argon2::Version::V0x13, params);
    let hash = argon2::PasswordHasher::hash_password(&hasher, b"correct horse", &salt)
        .unwrap()
        .to_string();
    assert_eq!(user(&hash).verify_password("correct horse".to_string()), Ok(()));
    assert_eq!(
        user(&hash).verify_password("correct horse ".to_string()),
        Err(PasswordError::Mismatch)
    );
}

#[test]
fn user_to_create_has_no_identifier() {
    let data = UserCreate {
        peer_id: "p1".to_string(),
        name: "Ada".to_string(),
        avatar: String::new(),
        email: "ada@example.org".to_string(),
        password_hash: HASH_OF_PASSWORD.to_string(),
        creation_date: "2023-01-01".to_string(),
        is_visible: true,
        is_inactive: false,
    };
    let copy = data.clone();
    assert_eq!(copy.email, "ada@example.org");
    assert_eq!(copy.password_hash, HASH_OF_PASSWORD);
    assert!(copy.is_visible && !copy.is_inactive);
}
