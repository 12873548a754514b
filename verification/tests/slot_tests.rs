use form_codec::slot::{IntoIter, ValOrVec};

#[test]
fn cow_borrowed() {
    let mut x = ValOrVec::Scalar("a".to_string());
    x.push("b".to_string());
    x.push("c".to_string());
    assert!(matches!(
        x,
        ValOrVec::List(ref v) if *v == vec!["a".to_string(), "b".to_string(), "c".to_string()]
    ));
}

#[test]
fn cow_owned() {
    let mut x = ValOrVec::Scalar("a".to_owned());
    x.push("b".to_owned());
    x.push("c".to_owned());
    assert!(matches!(
        x,
        ValOrVec::List(ref v) if *v == vec!["a".to_owned(), "b".to_owned(), "c".to_owned()]
    ));
}

#[test]
fn scalar_stays_until_first_push() {
    let x = ValOrVec::Scalar("only".to_string());
    assert!(matches!(x, ValOrVec::Scalar(_)));
    assert_eq!(x.len(), 1);
    assert_eq!(x.into_sequence(), vec!["only".to_string()]);
}

#[test]
fn into_iter_yields_in_arrival_order() {
    let mut x = ValOrVec::Scalar("1".to_string());
    x.push("2".to_string());
    let mut it = IntoIter::new(x);
    assert_eq!(it.next(), Some("1".to_string()));
    assert_eq!(it.next(), Some("2".to_string()));
    assert_eq!(it.next(), None);

    let mut lone = IntoIter::new(ValOrVec::Scalar("a".to_string()));
    assert_eq!(lone.next(), Some("a".to_string()));
    assert_eq!(lone.next(), None);
}
