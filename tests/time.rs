use dbsp::time::{Lattice, PartialOrder, Product, Timestamp};

#[test]
fn product_lattice() {
    let a = Product::new(3u32, 7u32);
    let b = Product::new(5u32, 2u32);
    assert_eq!(a.join(&b), Product::new(5, 7));
    assert_eq!(a.meet(&b), Product::new(3, 2));
    assert!(!a.less_equal(&b));
    assert!(a.meet(&b).less_equal(&a));
    assert!(a.less_equal(&a.join(&b)));
}

#[test]
fn product_advance_and_recede() {
    let t = Product::new(Product::new((), 4u32), 9u32);
    assert_eq!(t.advance(0), Product::new(Product::new((), 4), 10));
    assert_eq!(t.advance(1), Product::new(Product::new((), 5), 0));
    assert_eq!(t.advance(0).recede(0), t);
    assert_eq!(t.recede(1), Product::new(Product::new((), 3), 9));
}

#[test]
fn product_epochs() {
    let t = Product::new(Product::new((), 4u32), 9u32);
    assert_eq!(t.epoch_start(0), Product::new(Product::new((), 4), 0));
    assert_eq!(t.epoch_end(0), Product::new(Product::new((), 4), u32::MAX));
    assert_eq!(t.epoch_start(1), Product::new(Product::new((), 0), 0));
    assert_eq!(
        <Product<Product<(), u32>, u32> as Timestamp>::minimum(),
        Product::new(Product::new((), 0), 0)
    );
    assert_eq!(
        <Product<Product<(), u32>, u32> as Timestamp>::clock_start(),
        Product::new(Product::new((), 0), 0)
    );
}
