use taffle::id::{AudioId, BlockIndex};

#[test]
fn audio_id_round_trips_and_displays_as_decimal() {
    let id = AudioId::new(0x5017_1234);

    assert_eq!(id.get(), 0x5017_1234);
    assert_eq!(id.to_text(), "1343689268");
}

#[test]
fn block_index_round_trips() {
    let index = BlockIndex::new(0x5017_1234);

    assert_eq!(index.get(), 0x5017_1234);
}
