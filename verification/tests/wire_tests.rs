use std::collections::BTreeMap;
use waypipe_core::tracking::{
    default_proc_way_msg, register_generic_new_ids, setup_object_map, ObjectError, ProcMsg,
    RegisterError, WaylandArgument, WaylandMethod, WpExtra, WpObject,
};
use waypipe_core::wire::{copy_msg, copy_msg_tag_fd, parse_array, parse_string, parse_u32, MsgError, MsgOutput};

fn header(id: u32, h2: u32) -> Vec<u8> {
    let mut v = id.to_le_bytes().to_vec();
    v.extend_from_slice(&h2.to_le_bytes());
    v
}

fn string_arg(s: &str) -> Vec<u8> {
    let len = s.len() as u32 + 1;
    let mut v = len.to_le_bytes().to_vec();
    v.extend_from_slice(s.as_bytes());
    v.push(0);
    while v.len() % 4 != 0 {
        v.push(0);
    }
    v
}

#[test]
fn messages_are_copied_in_order() {
    let mut out = MsgOutput::new(16);
    copy_msg(&[1, 2, 3, 4], &mut out);
    copy_msg(&[5, 6], &mut out);
    assert_eq!(out.written(), &[1, 2, 3, 4, 5, 6]);
    assert_eq!(out.space(), 10);
}

#[test]
fn fd_tags_are_set_and_cleared() {
    let mut msg = header(5, 0x000c_0701);
    msg.extend_from_slice(&[9, 9, 9, 9]);
    let mut out = MsgOutput::new(32);
    assert!(copy_msg_tag_fd(&msg, &mut out, false).is_ok());
    assert_eq!(out.written(), &[5, 0, 0, 0, 0x01, 0x08, 0x0c, 0x00, 9, 9, 9, 9]);

    let tagged = out.written().to_vec();
    let mut back = MsgOutput::new(32);
    assert!(copy_msg_tag_fd(&tagged, &mut back, true).is_ok());
    assert_eq!(back.written(), &[5, 0, 0, 0, 0x01, 0x00, 0x0c, 0x00, 9, 9, 9, 9]);

    let mut refused = MsgOutput::new(32);
    assert_eq!(copy_msg_tag_fd(&msg, &mut refused, true), Err(MsgError::MissingFdTag(0x000c_0701)));
    assert_eq!(refused.written().len(), 0);
}

#[test]
fn arguments_are_read() {
    let mut msg = 7u32.to_le_bytes().to_vec();
    msg.extend_from_slice(&string_arg("abcd"));
    msg.extend_from_slice(&0u32.to_le_bytes());
    msg.extend_from_slice(&3u32.to_le_bytes());
    msg.extend_from_slice(&[1, 2, 3, 0]);
    let mut pos = 0;
    assert_eq!(parse_u32(&msg, &mut pos), Ok(7));
    assert_eq!(parse_string(&msg, &mut pos), Ok(Some((8, 12))));
    assert_eq!(&msg[8..12], b"abcd");
    assert_eq!(pos, 16);
    assert_eq!(parse_string(&msg, &mut pos), Ok(None));
    assert_eq!(parse_array(&msg, &mut pos), Ok((24, 27)));
    assert_eq!(pos, msg.len());
    assert_eq!(parse_u32(&msg, &mut pos), Err(MsgError::Truncated));
    assert_eq!(pos, msg.len());

    let mut bad = 3u32.to_le_bytes().to_vec();
    bad.extend_from_slice(b"abc\0");
    let mut p = 0;
    assert_eq!(parse_string(&bad, &mut p), Err(MsgError::UnterminatedString));
    assert_eq!(p, 0);
    let mut short = 9u32.to_le_bytes().to_vec();
    short.extend_from_slice(b"abcd");
    assert_eq!(parse_array(&short, &mut p), Err(MsgError::Truncated));
}

#[test]
fn new_objects_are_registered() {
    let names = vec![b"wl_a".to_vec(), b"wl_b".to_vec()];
    let sig = [WaylandArgument::Uint, WaylandArgument::NewId(3), WaylandArgument::GenericNewId, WaylandArgument::String];
    let mut msg = header(2, 0);
    msg.extend_from_slice(&7u32.to_le_bytes());
    msg.extend_from_slice(&20u32.to_le_bytes());
    msg.extend_from_slice(&string_arg("wl_b"));
    msg.extend_from_slice(&1u32.to_le_bytes());
    msg.extend_from_slice(&21u32.to_le_bytes());
    msg.extend_from_slice(&string_arg("x"));
    let mut objects = setup_object_map();
    assert!(register_generic_new_ids(&msg, &sig, &names, &mut objects).is_ok());
    assert_eq!(objects.get(&20).unwrap().obj_type, 3);
    assert_eq!(objects.get(&21).unwrap().obj_type, 1);

    let mut again = objects;
    match register_generic_new_ids(&msg, &sig, &names, &mut again) {
        Err(RegisterError::Object(ObjectError::IdInUse { id: 20, .. })) => {}
        _ => panic!("expected the id to be in use"),
    }
    let mut unknown = BTreeMap::new();
    let mut msg2 = header(2, 0);
    msg2.extend_from_slice(&string_arg("wl_zzz"));
    msg2.extend_from_slice(&1u32.to_le_bytes());
    msg2.extend_from_slice(&30u32.to_le_bytes());
    assert!(register_generic_new_ids(&msg2, &[WaylandArgument::GenericNewId], &names, &mut unknown).is_ok());
    assert!(unknown.is_empty());
}

#[test]
fn destructors_forget_their_object() {
    let names: Vec<Vec<u8>> = vec![];
    let meth = WaylandMethod { sig: vec![], destructor: true };
    let mut objects = setup_object_map();
    objects.insert(9, WpObject { obj_type: 4, extra: WpExtra::Plain });
    let msg = header(9, 8 << 16);
    let mut small = MsgOutput::new(4);
    assert_eq!(default_proc_way_msg(&msg, &mut small, &meth, &names, false, 9, &mut objects).unwrap(), ProcMsg::NeedsSpace((8, 0)));
    let mut out = MsgOutput::new(64);
    assert_eq!(default_proc_way_msg(&msg, &mut out, &meth, &names, true, 9, &mut objects).unwrap(), ProcMsg::Done);
    assert!(objects.contains_key(&9));
    assert_eq!(default_proc_way_msg(&msg, &mut out, &meth, &names, false, 9, &mut objects).unwrap(), ProcMsg::Done);
    assert!(!objects.contains_key(&9));
    assert_eq!(out.written().len(), 16);
}

use std::collections::VecDeque;
use waypipe_core::tracking::{file_has_pending_apply_tasks, proc_unknown_way_msg, PassError, PassedFd};

fn fd(remote_id: i32, pending: Option<u32>) -> PassedFd {
    PassedFd { remote_id, pending_apply_tasks: pending }
}

#[test]
fn pending_apply_tasks() {
    assert_eq!(file_has_pending_apply_tasks(&fd(1, Some(3))), Ok(true));
    assert_eq!(file_has_pending_apply_tasks(&fd(1, Some(0))), Ok(false));
    assert_eq!(file_has_pending_apply_tasks(&fd(1, None)), Err(PassError::NotAFile));
}

#[test]
fn unknown_messages_carry_their_files() {
    let mut msg = header(7, 0x000c_1003);
    msg.extend_from_slice(&[1, 2, 3, 4]);
    let mut out = MsgOutput::new(64);
    let mut incoming: VecDeque<PassedFd> = VecDeque::from(vec![fd(1, Some(0)), fd(2, None), fd(3, Some(5))]);
    let mut outgoing: VecDeque<PassedFd> = VecDeque::new();
    let r = proc_unknown_way_msg(&msg, &mut out, true, &mut incoming, &mut outgoing, 28).unwrap();
    assert_eq!(r, ProcMsg::Done);
    assert_eq!(incoming, VecDeque::from(vec![fd(3, Some(5))]));
    assert_eq!(outgoing, VecDeque::from(vec![fd(1, Some(0)), fd(2, None)]));
    assert_eq!(out.written(), &[7, 0, 0, 0, 0x03, 0x00, 0x0c, 0x00, 1, 2, 3, 4]);

    let mut waiting: VecDeque<PassedFd> = VecDeque::from(vec![fd(1, Some(0)), fd(9, Some(2))]);
    let r = proc_unknown_way_msg(&msg, &mut out, true, &mut waiting, &mut outgoing, 28).unwrap();
    assert_eq!(r, ProcMsg::WaitFor(9));
    assert_eq!(waiting.len(), 2);

    let mut short: VecDeque<PassedFd> = VecDeque::from(vec![fd(1, Some(0))]);
    assert_eq!(proc_unknown_way_msg(&msg, &mut out, true, &mut short, &mut outgoing, 28), Err(PassError::MissingFd));

    let r = proc_unknown_way_msg(&msg, &mut out, true, &mut incoming, &mut outgoing, 3).unwrap();
    assert_eq!(r, ProcMsg::NeedsSpace((12, 2)));

    let mut plain = MsgOutput::new(64);
    let mut none: VecDeque<PassedFd> = VecDeque::new();
    let r = proc_unknown_way_msg(&msg, &mut plain, false, &mut none, &mut outgoing, 0).unwrap();
    assert_eq!(r, ProcMsg::Done);
    assert_eq!(plain.written(), &msg[..]);
}
