//! Basic crate sanity.

#[test]
fn it_works() {
    let x = 2;
    assert_eq!(x + x, 4);
}

#[test]
fn lib_it_works() {
    let x = 2;
    assert_eq!(x + x, 4);
}
