use serde_columnar::args::ArgsErrorKind;
use serde_columnar::type_shape::{
    collect_lifetimes, type_borrow_lifetimes, GenericArgShape, TokenShape, TypeShape,
};
use serde_columnar::BorrowOverride;

fn path(args: Vec<GenericArgShape>) -> TypeShape {
    TypeShape::Path(None, vec![Vec::new(), args])
}

fn reference(l: Option<&str>, ty: TypeShape) -> TypeShape {
    TypeShape::Reference(l.map(|s| s.to_string()), Box::new(ty))
}

fn strings(v: &[&str]) -> Vec<String> {
    v.iter().map(|s| s.to_string()).collect()
}

#[test]
fn lifetimes_come_sorted_and_once() {
    // (&'b str, Cow<'a, [&'b u8]>)
    let ty = TypeShape::Tuple(vec![
        reference(Some("'b"), TypeShape::Other),
        path(vec![
            GenericArgShape::Lifetime("'a".to_string()),
            GenericArgShape::Type(TypeShape::Slice(Box::new(reference(Some("'b"), TypeShape::Other)))),
        ]),
    ]);
    assert_eq!(collect_lifetimes(&ty), strings(&["'a", "'b"]));
}

#[test]
fn lifetimes_of_every_shape() {
    assert_eq!(collect_lifetimes(&TypeShape::Other), Vec::<String>::new());
    assert_eq!(collect_lifetimes(&reference(None, TypeShape::Other)), Vec::<String>::new());
    let qualified = TypeShape::Path(
        Some(Box::new(reference(Some("'q"), TypeShape::Other))),
        vec![vec![GenericArgShape::AssocType(reference(Some("'z"), TypeShape::Other)), GenericArgShape::Other]],
    );
    assert_eq!(collect_lifetimes(&qualified), strings(&["'q", "'z"]));
    let nested = TypeShape::Paren(Box::new(TypeShape::Group(Box::new(TypeShape::Array(Box::new(
        TypeShape::Ptr(Box::new(reference(Some("'p"), TypeShape::Other))),
    ))))));
    assert_eq!(collect_lifetimes(&nested), strings(&["'p"]));
}

#[test]
fn lifetimes_in_macro_tokens() {
    // m!('x, ('y) 'z)  with `'` joined to the identifier after it, and a
    // lone apostrophe at the end
    let ty = TypeShape::Macro(vec![
        TokenShape::Punct('\'', true),
        TokenShape::Ident("x".to_string()),
        TokenShape::Punct(',', false),
        TokenShape::Group(vec![TokenShape::Punct('\'', true), TokenShape::Ident("y".to_string())]),
        TokenShape::Punct('\'', false),
        TokenShape::Ident("w".to_string()),
        TokenShape::Literal,
        TokenShape::Punct('\'', true),
        TokenShape::Group(vec![TokenShape::Ident("v".to_string())]),
        TokenShape::Punct('\'', true),
    ]);
    assert_eq!(collect_lifetimes(&ty), strings(&["'x", "'y"]));
}

#[test]
fn order_is_the_order_of_strings() {
    let ty = TypeShape::Tuple(vec![
        reference(Some("'é"), TypeShape::Other),
        reference(Some("'b"), TypeShape::Other),
        reference(Some("'B"), TypeShape::Other),
        reference(Some("'ab"), TypeShape::Other),
        reference(Some("'a"), TypeShape::Other),
    ]);
    assert_eq!(collect_lifetimes(&ty), strings(&["'B", "'a", "'ab", "'b", "'é"]));
}

#[test]
fn borrow_over_a_type() {
    // Cow<'é, str>
    let ty = path(vec![GenericArgShape::Lifetime("'é".to_string()), GenericArgShape::Type(TypeShape::Other)]);
    assert_eq!(
        type_borrow_lifetimes(&Some(BorrowOverride::Explicit("'é".to_string())), &ty).unwrap(),
        Some(strings(&["'é"]))
    );
    assert_eq!(
        type_borrow_lifetimes(&Some(BorrowOverride::Inherit), &ty).unwrap(),
        Some(strings(&["'é"]))
    );
    assert_eq!(
        type_borrow_lifetimes(&Some(BorrowOverride::Inherit), &TypeShape::Other).unwrap_err().kind,
        ArgsErrorKind::NoBorrowedLifetime
    );
    assert_eq!(type_borrow_lifetimes(&None, &ty).unwrap(), None);
}
