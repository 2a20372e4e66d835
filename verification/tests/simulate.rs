use mrcpsp::simulate::x;

#[test]
fn x_works() {
    assert_eq!(x(1), 2)
}
