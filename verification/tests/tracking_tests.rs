use std::collections::BTreeMap;
use waypipe_core::tracking::{
    add_advertised_modifiers, insert_new_object, is_server_object, parse_dev_array,
    parse_format_table, process_dmabuf_feedback, rebuild_format_table, setup_object_map,
    space_le, write_dev_array, DmabufDevice, DmabufTranche, FormatTableError, ObjZwpLinuxDmabufFeedback,
    ObjectError, WpExtra, WpObject, WL_DISPLAY,
};

fn tranche(device: u64, values: &[(u32, u64)]) -> DmabufTranche {
    DmabufTranche { flags: 1, values: values.to_vec(), indices: Vec::new(), device }
}

fn feedback(main: Option<u64>, tranches: Vec<DmabufTranche>) -> ObjZwpLinuxDmabufFeedback {
    ObjZwpLinuxDmabufFeedback {
        input_format_table: None,
        output_format_table: None,
        main_device: main,
        tranches,
        current: tranche(0, &[]),
        processed: false,
    }
}

fn entry(format: u32, modifier: u64) -> Vec<u8> {
    let mut e = format.to_le_bytes().to_vec();
    e.extend_from_slice(&[0, 0, 0, 0]);
    e.extend_from_slice(&modifier.to_le_bytes());
    e
}

#[test]
fn object_map_starts_with_the_display() {
    let map = setup_object_map();
    assert_eq!(map.len(), 1);
    assert_eq!(map.get(&1).unwrap().obj_type, WL_DISPLAY);
    assert!(matches!(map.get(&1).unwrap().extra, WpExtra::Plain));
}

#[test]
fn inserting_an_id_twice_is_an_error_and_replaces() {
    let mut map = setup_object_map();
    assert!(insert_new_object(&mut map, 5, WpObject { obj_type: 7, extra: WpExtra::Plain }).is_ok());
    match insert_new_object(&mut map, 5, WpObject { obj_type: 9, extra: WpExtra::Plain }) {
        Err(ObjectError::IdInUse { id, new_type, old_type }) => {
            assert_eq!((id, new_type, old_type), (5, 9, 7));
        }
        Ok(()) => panic!("expected an error"),
    }
    assert_eq!(map.get(&5).unwrap().obj_type, 9);
}

#[test]
fn server_object_ids_and_space() {
    assert!(is_server_object(0xff000000));
    assert!(is_server_object(0xffffffff));
    assert!(!is_server_object(0xfeffffff));
    assert!(space_le((3, 1), (3, 1)));
    assert!(!space_le((4, 0), (3, 1)));
    assert!(!space_le((0, 2), (3, 1)));
}

#[test]
fn format_table_entries_are_parsed() {
    let mut data = entry(0x34325258, 0x0100000000000002);
    data.extend_from_slice(&entry(7, 9));
    data.extend_from_slice(&[1, 2, 3]);
    assert_eq!(parse_format_table(&data), vec![(0x34325258, 0x0100000000000002), (7, 9)]);
    assert_eq!(parse_format_table(&[0u8; 15]), vec![]);
}

#[test]
fn device_arrays() {
    assert_eq!(parse_dev_array(&[1, 2, 0, 0]), Some(0x201));
    assert_eq!(parse_dev_array(&[1, 0, 0, 0, 0, 0, 0, 0x80]), Some(0x8000000000000001));
    assert_eq!(parse_dev_array(&[1, 2, 3]), None);
    let w = write_dev_array(0x1234_5678_9abc);
    assert_eq!(w, vec![0xbc, 0x9a, 0x78, 0x56, 0x34, 0x12, 0, 0]);
    assert_eq!(parse_dev_array(&w), Some(0x1234_5678_9abc));
}

#[test]
fn advertised_modifiers_are_kept_once() {
    let mut map = BTreeMap::new();
    add_advertised_modifiers(&mut map, 3, &[]);
    assert!(map.is_empty());
    add_advertised_modifiers(&mut map, 3, &[1, 2, 1]);
    add_advertised_modifiers(&mut map, 3, &[2, 5]);
    add_advertised_modifiers(&mut map, 4, &[0]);
    assert_eq!(map.get(&3).unwrap(), &vec![1, 2, 5]);
    assert_eq!(map.get(&4).unwrap(), &vec![0]);
}

#[test]
fn format_table_lists_each_pair_once_in_order() {
    let mut fb = feedback(Some(1), vec![tranche(1, &[(2, 5), (1, 7)]), tranche(2, &[(1, 7), (3, 0)])]);
    let table = process_dmabuf_feedback(&mut fb).unwrap();
    let mut expected = entry(1, 7);
    expected.extend_from_slice(&entry(2, 5));
    expected.extend_from_slice(&entry(3, 0));
    assert_eq!(table, expected);
    assert_eq!(fb.tranches[0].indices, vec![1, 0, 0, 0]);
    assert_eq!(fb.tranches[1].indices, vec![0, 0, 2, 0]);
    assert_eq!(fb.tranches[1].values, vec![(1, 7), (3, 0)]);
    assert_eq!(fb.tranches[0].flags, 1);
    assert_eq!(parse_format_table(&table), vec![(1, 7), (2, 5), (3, 0)]);
}

#[test]
fn rebuilt_tranches_offer_local_modifiers() {
    let mut modifiers = BTreeMap::new();
    modifiers.insert(1u32, vec![100u64, 101]);
    modifiers.insert(4u32, vec![7u64]);
    let dev = DmabufDevice { modifiers };
    let mut fb = feedback(
        Some(10),
        vec![
            tranche(10, &[(1, 0), (1, 1), (2, 0)]),
            tranche(11, &[(3, 0)]),
            tranche(10, &[(2, 0), (4, 0)]),
        ],
    );
    assert!(rebuild_format_table(&dev, &mut fb).is_ok());
    assert_eq!(fb.tranches.len(), 2);
    assert_eq!(fb.tranches[0].values, vec![(1, 100), (1, 101)]);
    assert_eq!(fb.tranches[1].values, vec![(4, 7)]);
    for t in &fb.tranches {
        assert_eq!(t.device, 10);
        assert_eq!(t.flags, 0);
        assert!(t.indices.is_empty());
    }
}

#[test]
fn rebuild_without_common_formats_fails() {
    let dev = DmabufDevice { modifiers: BTreeMap::new() };
    let mut fb = feedback(Some(10), vec![tranche(10, &[(1, 0)]), tranche(11, &[(2, 0)])]);
    assert!(matches!(rebuild_format_table(&dev, &mut fb), Err(FormatTableError::NoCommonFormats)));
    assert_eq!(fb.tranches.len(), 2);
    assert_eq!(fb.tranches[0].values, vec![(1, 0)]);
}
