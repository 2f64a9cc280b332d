use serde_columnar::args::ArgsErrorKind;
use serde_columnar::{borrow_lifetimes, BorrowOverride};

fn names(v: &[&str]) -> Vec<String> {
    v.iter().map(|s| s.to_string()).collect()
}

fn explicit(s: &str) -> Option<BorrowOverride> {
    Some(BorrowOverride::Explicit(s.to_string()))
}

fn kind_of(r: Result<Option<Vec<String>>, serde_columnar::args::ArgsError>) -> ArgsErrorKind {
    r.unwrap_err().kind
}

#[test]
fn no_borrow_option_borrows_nothing() {
    assert_eq!(borrow_lifetimes(&None, &names(&["'a"])).unwrap(), None);
}

#[test]
fn borrow_alone_takes_every_lifetime() {
    let field = names(&["'a", "'b"]);
    assert_eq!(
        borrow_lifetimes(&Some(BorrowOverride::Inherit), &field).unwrap(),
        Some(names(&["'a", "'b"]))
    );
    assert_eq!(
        kind_of(borrow_lifetimes(&Some(BorrowOverride::Inherit), &Vec::new())),
        ArgsErrorKind::NoBorrowedLifetime
    );
}

#[test]
fn explicit_list_is_read() {
    let field = names(&["'a", "'b", "'c"]);
    assert_eq!(borrow_lifetimes(&explicit("'a + 'b"), &field).unwrap(), Some(names(&["'a", "'b"])));
    assert_eq!(borrow_lifetimes(&explicit("'c+'a"), &field).unwrap(), Some(names(&["'a", "'c"])));
    assert_eq!(borrow_lifetimes(&explicit("  'b +"), &field).unwrap(), Some(names(&["'b"])));
    assert_eq!(borrow_lifetimes(&explicit("'de"), &names(&["'de"])).unwrap(), Some(names(&["'de"])));
}

#[test]
fn explicit_list_errors() {
    let field = names(&["'a", "'b"]);
    assert_eq!(kind_of(borrow_lifetimes(&explicit(""), &field)), ArgsErrorKind::NoBorrowedLifetime);
    assert_eq!(kind_of(borrow_lifetimes(&explicit("   "), &field)), ArgsErrorKind::NoBorrowedLifetime);
    assert_eq!(kind_of(borrow_lifetimes(&explicit("'a + 'a"), &field)), ArgsErrorKind::BadBorrowedLifetimes);
    assert_eq!(kind_of(borrow_lifetimes(&explicit("'a 'b"), &field)), ArgsErrorKind::BadBorrowedLifetimes);
    assert_eq!(kind_of(borrow_lifetimes(&explicit("a"), &field)), ArgsErrorKind::BadBorrowedLifetimes);
    assert_eq!(kind_of(borrow_lifetimes(&explicit("+ 'a"), &field)), ArgsErrorKind::BadBorrowedLifetimes);
    assert_eq!(kind_of(borrow_lifetimes(&explicit("'a + + 'b"), &field)), ArgsErrorKind::BadBorrowedLifetimes);
    assert_eq!(kind_of(borrow_lifetimes(&explicit("'"), &field)), ArgsErrorKind::BadBorrowedLifetimes);
    assert_eq!(kind_of(borrow_lifetimes(&explicit("'c"), &field)), ArgsErrorKind::LifetimeNotInField);
}

#[test]
fn borrow_error_messages() {
    let field = names(&["'a"]);
    let e = borrow_lifetimes(&explicit(""), &field).unwrap_err();
    assert_eq!(e.message(), "at least one lifetime must be borrowed");
    let e = borrow_lifetimes(&explicit("'a 'a"), &field).unwrap_err();
    assert_eq!(e.message(), "failed to parse borrowed lifetimes");
    let e = borrow_lifetimes(&explicit("'z"), &field).unwrap_err();
    assert_eq!(e.message(), "field does not have the borrowed lifetime");
}

#[test]
fn explicit_list_takes_unicode_names_blanks_and_comments() {
    let field = names(&["'a", "'b", "'é", "'r#x"]);
    assert_eq!(borrow_lifetimes(&explicit("'é"), &field).unwrap(), Some(names(&["'é"])));
    assert_eq!(
        borrow_lifetimes(&explicit("'a\u{3000}+\u{a0}'b"), &field).unwrap(),
        Some(names(&["'a", "'b"]))
    );
    assert_eq!(
        borrow_lifetimes(&explicit("'a /* one /* nested */ */ + // rest\n'b"), &field).unwrap(),
        Some(names(&["'a", "'b"]))
    );
    assert_eq!(borrow_lifetimes(&explicit("'a /**/ + 'b"), &field).unwrap(), Some(names(&["'a", "'b"])));
    assert_eq!(borrow_lifetimes(&explicit("\u{feff}'a"), &field).unwrap(), Some(names(&["'a"])));
    assert_eq!(borrow_lifetimes(&explicit("'r#x"), &field).unwrap(), Some(names(&["'r#x"])));
}

#[test]
fn explicit_list_refuses_doc_comments_and_bad_names() {
    let field = names(&["'a", "'b"]);
    for s in ["'a /// doc\n", "'a //! doc", "'a /** doc */", "'a /*! doc */", "'a /* open", "'r#self", "'a'", "'1"] {
        assert_eq!(
            kind_of(borrow_lifetimes(&explicit(s), &field)),
            ArgsErrorKind::BadBorrowedLifetimes,
            "{}",
            s
        );
    }
}
