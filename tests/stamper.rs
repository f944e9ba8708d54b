use tantivy::stamper::Stamper;

#[test]
fn stamps_are_contiguous_and_unique() {
    let mut stamper = Stamper::new(10);
    assert_eq!(stamper.stamp(), 10);
    let r = stamper.stamps(3);
    assert_eq!(r, 11..14);
    assert_eq!(stamper.stamp(), 14);
    let empty = stamper.stamps(0);
    assert_eq!(empty, 15..15);
    assert_eq!(stamper.peek(), 15);
}
