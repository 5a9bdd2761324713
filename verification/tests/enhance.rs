use photo2video::enhance::Preset;

#[test]
fn preset_ids_come_back() {
    for p in Preset::ALL {
        assert_eq!(Preset::from_id(p.id()), Some(p));
    }
    assert_eq!(Preset::from_id("nope"), None);
}
