use rewatch::grouplike::{Monoid, Semigroup};

#[test]
fn strings_concatenate() {
    let a = "ab".to_string();
    assert_eq!(a.mappend("cd".to_string()), "abcd");
    let e = String::mempty();
    assert_eq!(e, "");
    assert_eq!(e.mappend("x".to_string()), "x");
    assert_eq!("x".to_string().mappend(String::mempty()), "x");
    let l = "a".to_string().mappend("b".to_string()).mappend("c".to_string());
    let r = "a".to_string().mappend("b".to_string().mappend("c".to_string()));
    assert_eq!(l, r);
}

#[test]
fn options_treat_none_as_neutral() {
    let some: Option<String> = Some("a".to_string());
    assert_eq!(some.mappend(None), Some("a".to_string()));
    assert_eq!(None::<String>.mappend(Some("b".to_string())), Some("b".to_string()));
    assert_eq!(some.mappend(Some("b".to_string())), Some("ab".to_string()));
    assert_eq!(None::<String>.mappend(None), None);
}
