use zense::{Matcher, Route, RouteError};

#[test]
fn literal_beats_named_capture() {
    let mut m: Matcher<u32> = Matcher::new();
    m.add(Route::parse(b"/{id}").unwrap(), 1).unwrap();
    m.add(Route::parse(b"/users").unwrap(), 2).unwrap();
    let (value, params) = m.resolve(b"/users").unwrap();
    assert_eq!(*value, 2);
    assert!(params.is_empty());
    let (value, params) = m.resolve(b"/42").unwrap();
    assert_eq!(*value, 1);
    assert_eq!(params, vec![(b"id".to_vec(), b"42".to_vec())]);
}

#[test]
fn named_beats_wildcard() {
    let mut m: Matcher<u32> = Matcher::new();
    m.add(Route::parse(b"/{*rest}").unwrap(), 1).unwrap();
    m.add(Route::parse(b"/a/{x}").unwrap(), 2).unwrap();
    let (value, params) = m.resolve(b"/a/b").unwrap();
    assert_eq!(*value, 2);
    assert_eq!(params, vec![(b"x".to_vec(), b"b".to_vec())]);
}

#[test]
fn non_final_wildcard_fails_at_registration() {
    assert_eq!(Route::parse(b"/a/{*w}/b").unwrap_err(), RouteError::NonFinalWildcard);
}

#[test]
fn structural_duplicate_fails_at_registration() {
    let mut m: Matcher<u32> = Matcher::new();
    m.add(Route::parse(b"/users/{id}").unwrap(), 1).unwrap();
    let err = m.add(Route::parse(b"/users/{name}").unwrap(), 2).unwrap_err();
    assert_eq!(err, RouteError::Ambiguous);
    let err = m.add(Route::parse(b"/users/{id}").unwrap(), 3).unwrap_err();
    assert_eq!(err, RouteError::Ambiguous);
}

#[test]
fn distinct_literals_are_not_duplicates() {
    let mut m: Matcher<u32> = Matcher::new();
    m.add(Route::parse(b"/users").unwrap(), 1).unwrap();
    m.add(Route::parse(b"/admin").unwrap(), 2).unwrap();
    assert_eq!(*m.resolve(b"/admin").unwrap().0, 2);
    assert_eq!(*m.resolve(b"/users").unwrap().0, 1);
}

#[test]
fn pattern_must_begin_with_slash() {
    assert_eq!(Route::parse(b"users").unwrap_err(), RouteError::BadPattern);
    assert_eq!(Route::parse(b"").unwrap_err(), RouteError::BadPattern);
}

#[test]
fn wildcard_binds_the_joined_remainder() {
    let mut m: Matcher<u32> = Matcher::new();
    m.add(Route::parse(b"/files/{*path}").unwrap(), 7).unwrap();
    let (value, params) = m.resolve(b"/files/a/b/c.txt").unwrap();
    assert_eq!(*value, 7);
    assert_eq!(params, vec![(b"path".to_vec(), b"a/b/c.txt".to_vec())]);
}

#[test]
fn wildcard_requires_at_least_one_segment() {
    let mut m: Matcher<u32> = Matcher::new();
    m.add(Route::parse(b"/files/{*path}").unwrap(), 7).unwrap();
    assert!(m.resolve(b"/files").is_none());
    assert!(m.resolve(b"/files/").is_some());
}

#[test]
fn named_capture_requires_a_non_empty_segment() {
    let mut m: Matcher<u32> = Matcher::new();
    m.add(Route::parse(b"/u/{id}").unwrap(), 1).unwrap();
    assert!(m.resolve(b"/u/").is_none());
    assert!(m.resolve(b"/u/7").is_some());
}

#[test]
fn matching_is_case_sensitive_and_keeps_trailing_slashes() {
    let mut m: Matcher<u32> = Matcher::new();
    m.add(Route::parse(b"/a").unwrap(), 1).unwrap();
    assert!(m.resolve(b"/A").is_none());
    assert!(m.resolve(b"/a/").is_none());
    assert!(m.resolve(b"/a").is_some());
}

#[test]
fn no_match_returns_none() {
    let mut m: Matcher<u32> = Matcher::new();
    m.add(Route::parse(b"/only").unwrap(), 1).unwrap();
    assert!(m.resolve(b"/other").is_none());
    assert!(m.resolve(b"no-slash").is_none());
}

#[test]
fn specificity_is_decided_left_to_right() {
    let mut m: Matcher<u32> = Matcher::new();
    m.add(Route::parse(b"/{x}/fixed").unwrap(), 1).unwrap();
    m.add(Route::parse(b"/fixed/{y}").unwrap(), 2).unwrap();
    // Both match; the first differing segment (position 0) decides.
    let (value, _) = m.resolve(b"/fixed/fixed").unwrap();
    assert_eq!(*value, 2);
}
