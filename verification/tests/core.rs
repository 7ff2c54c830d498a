use golem::allocator::IdAllocator;
use golem::auth::{check_passwords, hash_password, make_cookie, parse_token};
use golem::codec::{i64_to_string, parse_i64_dec, parse_u64_dec, str_eq};
use golem::snowflake::{IdError, Snowflake};

#[test]
fn snowflake_packs_and_unpacks() {
    let f = Snowflake::from_parts(123456, 7, 89);
    assert_eq!(f.timestamp(), 123456);
    assert_eq!(f.node_id(), 7);
    assert_eq!(f.sequence(), 89);
    assert_eq!(f.id(), 123456 * 0x100000 + 7 * 0x1000 + 89);
}

#[test]
fn snowflake_rejects_negative() {
    assert!(matches!(Snowflake::try_from(-1), Err(IdError::InvalidId)));
    assert!(Snowflake::try_from(0).is_ok());
}

#[test]
fn snowflake_decimal_round_trip() {
    let f = Snowflake::from_parts(1650667342, 1, 0);
    let s = f.to_dec_string();
    let back = Snowflake::from_str(s.as_str()).unwrap();
    assert_eq!(back.id(), f.id());
    assert!(Snowflake::from_str("").is_none());
    assert!(Snowflake::from_str("12x").is_none());
    assert!(Snowflake::from_str("-5").is_none());
}

#[test]
fn allocator_constructor_checks_inputs() {
    assert!(matches!(IdAllocator::new(256, 0, 10), Err(IdError::NodeOutOfRange)));
    assert!(matches!(IdAllocator::new(-1, 0, 10), Err(IdError::NodeOutOfRange)));
    assert!(matches!(IdAllocator::new(1, 20, 10), Err(IdError::EpochInFuture)));
    assert!(IdAllocator::new(1, 10, 10).is_ok());
}

#[test]
fn allocator_sequences_are_dense_within_a_millisecond() {
    let mut a = IdAllocator::new(1, 0, 100).unwrap();
    let f0 = a.next_id_at(100).unwrap();
    let f1 = a.next_id_at(100).unwrap();
    let f2 = a.next_id_at(100).unwrap();
    assert_eq!(f0.sequence(), 0);
    assert_eq!(f1.sequence(), 1);
    assert_eq!(f2.sequence(), 2);
    assert_eq!(f0.timestamp(), 100);
    assert!(f0.id() < f1.id() && f1.id() < f2.id());
    // a later millisecond resets the sequence
    let f3 = a.next_id_at(101).unwrap();
    assert_eq!(f3.sequence(), 0);
    assert_eq!(f3.timestamp(), 101);
    assert!(f2.id() < f3.id());
}

#[test]
fn allocator_ids_are_pairwise_distinct() {
    let mut a = IdAllocator::new(3, 0, 50).unwrap();
    let mut seen = Vec::new();
    for step in 0..200u64 {
        let f = a.next_id_at(50 + step / 10).unwrap();
        assert!(!seen.contains(&f.id()));
        seen.push(f.id());
    }
}

#[test]
fn allocator_surfaces_clock_regression() {
    let mut a = IdAllocator::new(1, 0, 100).unwrap();
    a.next_id_at(100).unwrap();
    assert!(matches!(a.next_id_at(99), Err(IdError::ClockRegression)));
    // the failed call changed nothing; the clock catching up works again
    assert!(a.next_id_at(100).is_ok());
}

#[test]
fn allocator_exhausts_after_4096_in_one_millisecond() {
    let mut a = IdAllocator::new(1, 0, 7).unwrap();
    for _ in 0..4096 {
        a.next_id_at(7).unwrap();
    }
    assert!(matches!(a.next_id_at(7), Err(IdError::SequenceExhausted)));
    // the next millisecond frees it again, starting at sequence zero
    let f = a.next_id_at(8).unwrap();
    assert_eq!(f.sequence(), 0);
}

#[test]
fn allocator_clocked_path_issues_ids() {
    let mut a = IdAllocator::new_now(1, 0).unwrap();
    let f = a.next_id().unwrap();
    assert!(f.id() > 0);
}

#[test]
fn password_hash_verifies_and_is_salted() {
    let h1 = hash_password(String::from("hunter2")).unwrap();
    let h2 = hash_password(String::from("hunter2")).unwrap();
    // a fresh salt every call: equal passwords, different hashes
    assert_ne!(h1, h2);
    // the hash is not the password handed back
    assert_ne!(h1, "hunter2");
    assert!(check_passwords(String::from("hunter2"), h1.clone()));
    assert!(check_passwords(String::from("hunter2"), h2));
    assert!(!check_passwords(String::from("hunter3"), h1));
}

#[test]
fn hash_and_check_round_trips() {
    assert_eq!(golem::auth::hash_and_check(String::from("any password")), Some(true));
    assert_eq!(golem::auth::hash_and_check(String::new()), Some(true));
}

#[test]
fn malformed_hash_fails_closed() {
    assert!(!check_passwords(String::from("pw"), String::from("not a phc string")));
    assert!(!check_passwords(String::from("pw"), String::new()));
}

#[test]
fn decimal_parsing_is_exact() {
    assert_eq!(parse_u64_dec(b"0"), Some(0));
    assert_eq!(parse_u64_dec(b"18446744073709551615"), Some(u64::MAX));
    assert_eq!(parse_u64_dec(b"18446744073709551616"), None);
    assert_eq!(parse_u64_dec(b""), None);
    assert_eq!(parse_u64_dec(b"12a"), None);
    assert_eq!(parse_i64_dec(b"-42"), Some(-42));
    assert_eq!(parse_i64_dec(b"-9223372036854775808"), Some(i64::MIN));
    assert_eq!(parse_i64_dec(b"9223372036854775808"), None);
}

#[test]
fn decimal_strings_round_trip() {
    for n in [0i64, 1, 9, 10, 42, i64::MAX, -1, -10, i64::MIN] {
        let s = i64_to_string(n);
        assert_eq!(parse_i64_dec(s.as_bytes()), Some(n));
    }
    assert_eq!(i64_to_string(1234567), "1234567");
    assert_eq!(i64_to_string(-89), "-89");
}

#[test]
fn cookies_carry_the_token() {
    let cookie = make_cookie(42);
    assert_eq!(cookie, "token=42; HttpOnly; SameSite=Lax; Path=/;");
    let negative = make_cookie(-7);
    assert_eq!(negative, "token=-7; HttpOnly; SameSite=Lax; Path=/;");
}

#[test]
fn tokens_parse_from_cookie_text() {
    assert_eq!(parse_token("123456789"), Some(123456789));
    assert_eq!(parse_token("-42"), Some(-42));
    assert_eq!(parse_token(""), None);
    assert_eq!(parse_token("12 34"), None);
    assert_eq!(parse_token("token=1"), None);
}

#[test]
fn str_eq_compares_contents() {
    assert!(str_eq("abc", "abc"));
    assert!(!str_eq("abc", "abd"));
    assert!(!str_eq("abc", "ab"));
    assert!(str_eq("", ""));
    assert!(str_eq("héllo", "héllo"));
    assert!(!str_eq("héllo", "hello"));
}
