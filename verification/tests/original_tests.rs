#[test]
fn it_works() {
    let a = u8::MAX;
    let b = 1;
    println!("{}", a);
    println!("{}", a ^ b);
    assert_eq!(2 + 2, 4);
}
