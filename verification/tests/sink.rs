use homepod_sink::sink::{
    contains_ignore_ascii_case_str, decode_pcm_le, derived_device_id, select_device, DeviceEntry,
    HostAddr, SelectError, PCM_CHANNELS, PCM_READ_BYTES,
};

#[test]
fn decodes_little_endian_samples() {
    let bytes = [0x01u8, 0x00, 0xff, 0xff, 0x00, 0x80, 0xff, 0x7f, 0x34, 0x12, 0x05];
    assert_eq!(decode_pcm_le(&bytes), vec![1i16, -1, -32768, 32767, 0x1234]);
    assert!(decode_pcm_le(&[]).is_empty());
    assert!(decode_pcm_le(&[7]).is_empty());
}

#[test]
fn read_chunk_is_256_stereo_frames() {
    assert_eq!(PCM_READ_BYTES, 256 * PCM_CHANNELS as usize * 2);
    assert_eq!(decode_pcm_le(&vec![0u8; PCM_READ_BYTES]).len(), 512);
}

#[test]
fn device_id_from_ipv4() {
    assert_eq!(derived_device_id(HostAddr::V4(192, 168, 0, 13)).unwrap(), "C0:A8:00:0D:00:00");
    assert_eq!(derived_device_id(HostAddr::V4(0, 255, 10, 171)).unwrap(), "00:FF:0A:AB:00:00");
    assert!(derived_device_id(HostAddr::V6(1)).is_none());
}

#[test]
fn name_match_ignores_ascii_case() {
    assert!(contains_ignore_ascii_case_str("Living Room", "living"));
    assert!(contains_ignore_ascii_case_str("Living Room", "ROOM"));
    assert!(contains_ignore_ascii_case_str("Bedroom", ""));
    assert!(!contains_ignore_ascii_case_str("Bedroom", "living"));
    assert!(!contains_ignore_ascii_case_str("Bed", "Bedroom"));
}

fn entry(name: &str, id_matches: bool, addresses: Vec<HostAddr>) -> DeviceEntry {
    DeviceEntry { name: name.to_string(), id_matches, addresses }
}

fn two_homepods() -> Vec<DeviceEntry> {
    vec![
        entry("Living Room", false, vec![HostAddr::V4(192, 168, 0, 13)]),
        entry("Bedroom", false, vec![HostAddr::V4(192, 168, 0, 21)]),
    ]
}

#[test]
fn selects_by_address() {
    let devices = two_homepods();
    assert_eq!(select_device(&devices, Some(HostAddr::V4(192, 168, 0, 21)), None), Ok(1));
    assert_eq!(select_device(&devices, Some(HostAddr::V4(192, 168, 0, 99)), Some("bed")), Err(SelectError::NotFound));
}

#[test]
fn selects_first_by_derived_id() {
    let devices = vec![
        entry("A", false, vec![]),
        entry("B", true, vec![]),
        entry("C", false, vec![HostAddr::V4(10, 0, 0, 1)]),
    ];
    assert_eq!(select_device(&devices, Some(HostAddr::V4(10, 0, 0, 1)), None), Ok(1));
}

#[test]
fn single_device_is_selected_without_address() {
    let devices = vec![entry("Kitchen", false, vec![])];
    assert_eq!(select_device(&devices, None, None), Ok(0));
    assert_eq!(select_device(&devices, None, Some("living")), Ok(0));
}

#[test]
fn several_devices_need_a_name() {
    let devices = two_homepods();
    assert_eq!(select_device(&devices, None, None), Err(SelectError::NotUnique));
    assert_eq!(select_device(&devices, None, Some("living")), Ok(0));
    assert_eq!(select_device(&devices, None, Some("BED")), Ok(1));
    assert_eq!(select_device(&devices, None, Some("ROOM")), Err(SelectError::NotUnique));
    assert_eq!(select_device(&devices, None, Some("o")), Err(SelectError::NotUnique));
    assert_eq!(select_device(&devices, None, Some("garage")), Err(SelectError::NotUnique));
}

#[test]
fn no_device_is_not_unique() {
    assert_eq!(select_device(&[], None, None), Err(SelectError::NotUnique));
    assert_eq!(select_device(&[], Some(HostAddr::V6(5)), None), Err(SelectError::NotFound));
}
