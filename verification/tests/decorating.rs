use rox::decoration::{BlockDecoration, Dec, Decorator, NameDecoration};
use rox::punctuated::Punctuated;
use rox::span::Span;

#[test]
fn decorator_counts_by_kind() {
    let mut decorator = Decorator::new();
    let a = decorator.decorate::<NameDecoration>();
    let b = decorator.decorate::<NameDecoration>();
    let c = decorator.decorate::<BlockDecoration>();
    assert_eq!(a.index(), 0);
    assert_eq!(b.index(), 1);
    assert_eq!(c.index(), 0);
    assert_eq!(decorator.count::<NameDecoration>(), 2);
    assert_eq!(decorator.count::<BlockDecoration>(), 1);
}

#[test]
fn dec_fills_and_unwraps() {
    let mut decorator = Decorator::new();
    let a = decorator.decorate::<NameDecoration>();
    let b = decorator.decorate::<NameDecoration>();
    let mut table: Dec<NameDecoration, &str> = Dec::new(&decorator);
    table.insert(b, "second");
    table.insert(a, "first");
    assert_eq!(table.get(a), Some(&"first"));
    assert_eq!(table.unwrap(), vec!["first", "second"]);
}

#[test]
fn punctuated_values() {
    let mut list: Punctuated<u32, Span> = Punctuated::new();
    assert!(list.is_empty());
    list.push(1);
    list.push_punct(Span::new(1, 2));
    list.push(2);
    assert_eq!(list.len(), 2);
    assert_eq!(list.iter(), vec![&1, &2]);
    assert!(!list.is_empty());
}

#[test]
fn punctuated_spans() {
    let mut list: Punctuated<Span, Span> = Punctuated::new();
    assert_eq!(list.span_start(), None);
    list.push(Span::new(2, 3));
    list.push_punct(Span::new(3, 4));
    assert_eq!(list.span_start(), Some(2));
    assert_eq!(list.span_end(), Some(4));
    list.push(Span::new(5, 9));
    assert_eq!(list.span_end(), Some(9));
}

#[test]
fn span_basics() {
    let span = Span::new(2, 5);
    assert_eq!(span.start(), 2);
    assert_eq!(span.end(), 5);
    assert_eq!(span.get(b"abcdefg"), b"cde");
    assert_eq!(Span::null(), Span::new(0, 0));
    assert_eq!(Span::across(&Span::new(1, 2), &Span::new(4, 8)), Span::new(1, 8));
}
