use tantivy::compressors::Compressor;

#[test]
fn compressor_ids_round_trip() {
    for id in 1u8..=4 {
        assert_eq!(Compressor::from_id(id).get_id(), id);
    }
    assert_eq!(Compressor::from_id(1), Compressor::Lz4Block);
    assert_eq!(Compressor::from_id(2), Compressor::Lz4Frame);
    assert_eq!(Compressor::from_id(3), Compressor::Brotli);
    assert_eq!(Compressor::Snap.get_id(), 4);
}
