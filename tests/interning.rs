use imdb::interner::Interner;

#[test]
fn interning_twice_gives_the_same_id() {
    let mut t = Interner::new();
    let a = t.intern("Liga".to_string());
    let b = t.intern("Cup".to_string());
    let c = t.intern("Liga".to_string());
    assert_eq!(a, 1);
    assert_eq!(b, 2);
    assert_eq!(c, 1);
    assert_eq!(t.len(), 2);
    assert_eq!(t.name_at(1), "Liga");
    assert_eq!(t.name_at(2), "Cup");
}
