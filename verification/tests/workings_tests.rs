use discrete_math::workings::WorkingsMonad;

#[test]
fn workings_accumulate() {
    let w = WorkingsMonad::new(2)
        .workings("start with 2".to_string())
        .map(|x| x * 3)
        .and_then(|x| WorkingsMonad::new(x + 1).workings("add one".to_string()));
    assert_eq!(*w.as_ref(), 7);
}

#[test]
fn workings_as_mut() {
    let mut w = WorkingsMonad::new(5);
    w.add_workings("five".to_string());
    *w.as_mut() = 9;
    assert_eq!(*w.as_ref(), 9);
    let d: WorkingsMonad<i32> = Default::default();
    assert_eq!(*d.as_ref(), 0);
}
