use std::collections::{BTreeMap, VecDeque};
use waypipe_core::dispatch::{
    commit_damage_history, process_way_msg, InterfaceMethods, ProcError, ProtocolState, Routed, WL_CALLBACK,
    WL_COMPOSITOR, WL_SURFACE, WP_VIEWPORT, WP_VIEWPORTER, XDG_TOPLEVEL,
};
use waypipe_core::surface::WlOutputTransform;
use waypipe_core::tracking::{PassedFd, ProcMsg, WaylandArgument, WaylandMethod, WpExtra, WpObject, WL_DISPLAY};
use waypipe_core::wire::MsgOutput;

use WaylandArgument::{Fixed, Int, NewId, Object, Uint};

fn m(sig: Vec<WaylandArgument>, destructor: bool) -> WaylandMethod {
    WaylandMethod { sig, destructor }
}

/// Methods of the interfaces used here, by interface number.
fn table() -> Vec<InterfaceMethods> {
    vec![
        // wl_display
        InterfaceMethods { reqs: vec![m(vec![NewId(WL_CALLBACK)], false), m(vec![NewId(7)], false)], evts: vec![m(vec![Object(0), Uint, WaylandArgument::String], false), m(vec![Uint], false)] },
        // wl_callback
        InterfaceMethods { reqs: vec![], evts: vec![m(vec![Uint], true)] },
        // wl_compositor
        InterfaceMethods { reqs: vec![m(vec![NewId(WL_SURFACE)], false)], evts: vec![] },
        // wl_surface
        InterfaceMethods {
            reqs: vec![
                m(vec![], true),
                m(vec![Object(8), Int, Int], false),
                m(vec![Int, Int, Int, Int], false),
                m(vec![NewId(WL_CALLBACK)], false),
                m(vec![Object(9)], false),
                m(vec![Object(9)], false),
                m(vec![], false),
                m(vec![Int], false),
                m(vec![Int], false),
                m(vec![Int, Int, Int, Int], false),
            ],
            evts: vec![],
        },
        // wp_viewporter
        InterfaceMethods { reqs: vec![m(vec![], true), m(vec![NewId(WP_VIEWPORT), Object(WL_SURFACE)], false)], evts: vec![] },
        // wp_viewport
        InterfaceMethods { reqs: vec![m(vec![], true), m(vec![Fixed, Fixed, Fixed, Fixed], false), m(vec![Int, Int], false)], evts: vec![] },
        // xdg_toplevel
        InterfaceMethods { reqs: vec![m(vec![], true), m(vec![Object(XDG_TOPLEVEL)], false), m(vec![WaylandArgument::String], false)], evts: vec![] },
    ]
}

fn names() -> Vec<Vec<u8>> {
    ["wl_display", "wl_callback", "wl_compositor", "wl_surface", "wp_viewporter", "wp_viewport", "xdg_toplevel"]
        .iter()
        .map(|n| n.as_bytes().to_vec())
        .collect()
}

fn process(m: &[u8], out: &mut MsgOutput, from_channel: bool, st: &mut ProtocolState) -> Result<Routed, ProcError> {
    let mut inc: VecDeque<PassedFd> = VecDeque::new();
    let mut outg: VecDeque<PassedFd> = VecDeque::new();
    process_way_msg(m, out, from_channel, st, &table(), &names(), &mut inc, &mut outg, 28)
}

fn msg(id: u32, opcode: u32, args: &[u32]) -> Vec<u8> {
    let len = 8 + 4 * args.len() as u32;
    let mut m = Vec::new();
    m.extend_from_slice(&id.to_le_bytes());
    m.extend_from_slice(&((len << 16) | opcode).to_le_bytes());
    for a in args {
        m.extend_from_slice(&a.to_le_bytes());
    }
    m
}

fn plain(t: u32) -> WpObject {
    WpObject { obj_type: t, extra: WpExtra::Plain }
}

/// The application side: display 1, compositor 2, viewporter 4.
fn app_side() -> ProtocolState {
    let mut objects = BTreeMap::new();
    objects.insert(1, plain(WL_DISPLAY));
    objects.insert(2, plain(WL_COMPOSITOR));
    objects.insert(4, plain(WP_VIEWPORTER));
    ProtocolState { objects, on_display_side: false, title_prefix: b"[remote] ".to_vec() }
}

fn request(state: &mut ProtocolState, m: &[u8]) -> (Result<Routed, ProcError>, MsgOutput) {
    let mut out = MsgOutput::new(256);
    let r = process(m, &mut out, false, state);
    (r, out)
}

fn surface_of(state: &ProtocolState, id: u32) -> &waypipe_core::surface::ObjWlSurface {
    match &state.objects.get(&id).unwrap().extra {
        WpExtra::WlSurface(s) => s,
        _ => panic!("not a surface"),
    }
}

#[test]
fn surfaces_collect_their_pending_state() {
    let mut st = app_side();
    let m = msg(2, 0, &[3]);
    let (r, out) = request(&mut st, &m);
    assert!(matches!(r, Ok(Routed::Handled(ProcMsg::Done))));
    assert_eq!(out.pos, m.len());
    assert_eq!(&out.data[..m.len()], &m[..]);
    assert_eq!(st.objects.get(&3).unwrap().obj_type, WL_SURFACE);

    let (r, _) = request(&mut st, &msg(3, 2, &[1, 2, 3, 4]));
    assert!(matches!(r, Ok(Routed::Handled(ProcMsg::Done))));
    let (r, _) = request(&mut st, &msg(3, 9, &[0, 0, 8, 8]));
    assert!(matches!(r, Ok(Routed::Handled(ProcMsg::Done))));
    // Degenerate damage is passed on and dropped.
    let (r, _) = request(&mut st, &msg(3, 2, &[0, 0, 0, 5]));
    assert!(matches!(r, Ok(Routed::Handled(ProcMsg::Done))));
    let s = surface_of(&st, 3);
    assert_eq!(s.damage_history[0].damage.len(), 1);
    let d = s.damage_history[0].damage[0];
    assert_eq!((d.x, d.y, d.width, d.height), (1, 2, 3, 4));
    assert_eq!(s.damage_history[0].damage_buffer.len(), 1);

    let (r, _) = request(&mut st, &msg(3, 1, &[7, 0, 0]));
    assert!(matches!(r, Ok(Routed::Handled(ProcMsg::Done))));
    assert_eq!(surface_of(&st, 3).attached_buffer_id, Some(7));
    let (r, _) = request(&mut st, &msg(3, 8, &[2]));
    assert!(matches!(r, Ok(Routed::Handled(ProcMsg::Done))));
    let (r, _) = request(&mut st, &msg(3, 7, &[5]));
    assert!(matches!(r, Ok(Routed::Handled(ProcMsg::Done))));
    let a = surface_of(&st, 3).damage_history[0].attachment;
    assert_eq!(a.scale, 2);
    assert_eq!(a.transform, WlOutputTransform::Flipped90);

    let (r, _) = request(&mut st, &msg(3, 6, &[]));
    assert_eq!(r.unwrap(), Routed::Commit);
}

#[test]
fn bad_surface_requests_are_errors() {
    let mut st = app_side();
    request(&mut st, &msg(2, 0, &[3])).0.unwrap();
    assert!(matches!(request(&mut st, &msg(3, 8, &[0])).0, Err(ProcError::BadScale(0))));
    assert!(matches!(request(&mut st, &msg(3, 7, &[8])).0, Err(ProcError::BadTransform(8))));
    assert!(matches!(request(&mut st, &msg(3, 7, &[u32::MAX])).0, Err(ProcError::BadTransform(-1))));
    assert!(matches!(request(&mut st, &msg(3, 1, &[7])).0, Err(ProcError::Msg(_))));
    // The surface id is taken.
    assert!(matches!(request(&mut st, &msg(2, 0, &[3])).0, Err(ProcError::Object(_))));
}

#[test]
fn routing_of_other_messages() {
    let mut st = app_side();
    request(&mut st, &msg(2, 0, &[3])).0.unwrap();
    // A message for an unknown object is passed on as it is.
    let unknown = msg(99, 0, &[]);
    let (r, out) = request(&mut st, &unknown);
    assert_eq!(r.unwrap(), Routed::Handled(ProcMsg::Done));
    assert_eq!(&out.data[..out.pos], &unknown[..]);
    // So is one whose interface has no such method.
    let (r, out) = request(&mut st, &msg(3, 20, &[]));
    assert_eq!(r.unwrap(), Routed::Handled(ProcMsg::Done));
    assert_eq!(out.pos, 8);
    // wl_surface.frame takes the default path: copied, and its callback registered.
    let frame = msg(3, 3, &[10]);
    let (r, out) = request(&mut st, &frame);
    assert_eq!(r.unwrap(), Routed::Handled(ProcMsg::Done));
    assert_eq!(&out.data[..out.pos], &frame[..]);
    assert_eq!(st.objects.get(&10).unwrap().obj_type, WL_CALLBACK);
    // Too little room in the output.
    let m = msg(3, 2, &[1, 2, 3, 4]);
    let mut small = MsgOutput::new(8);
    let r = process(&m, &mut small, false, &mut st);
    assert_eq!(r.unwrap(), Routed::Handled(ProcMsg::NeedsSpace((24, 0))));
    assert_eq!(small.pos, 0);
    assert_eq!(surface_of(&st, 3).damage_history[0].damage.len(), 0);
}

#[test]
fn viewports_follow_their_surface() {
    let mut st = app_side();
    request(&mut st, &msg(2, 0, &[3])).0.unwrap();
    request(&mut st, &msg(4, 1, &[5, 3])).0.unwrap();
    assert_eq!(st.objects.get(&5).unwrap().obj_type, WP_VIEWPORT);
    request(&mut st, &msg(5, 2, &[10, 20])).0.unwrap();
    assert_eq!(surface_of(&st, 3).damage_history[0].attachment.viewport_dst, Some((10, 20)));
    request(&mut st, &msg(5, 1, &[0, 256, 512, 768])).0.unwrap();
    assert_eq!(surface_of(&st, 3).damage_history[0].attachment.viewport_src, Some((0, 256, 512, 768)));
    assert!(matches!(request(&mut st, &msg(5, 2, &[0, 20])).0, Err(ProcError::BadDestination(0, 20))));
    request(&mut st, &msg(5, 2, &[u32::MAX, u32::MAX])).0.unwrap();
    assert_eq!(surface_of(&st, 3).damage_history[0].attachment.viewport_dst, None);
    request(&mut st, &msg(5, 0, &[])).0.unwrap();
    assert_eq!(surface_of(&st, 3).damage_history[0].attachment.viewport_src, None);
    match &st.objects.get(&5).unwrap().extra {
        WpExtra::WpViewport(t) => assert_eq!(*t, None),
        _ => panic!("not a viewport"),
    }
}

#[test]
fn deletions_come_as_events() {
    let mut st = app_side();
    request(&mut st, &msg(2, 0, &[3])).0.unwrap();
    st.objects.insert(6, plain(WL_CALLBACK));
    let mut out = MsgOutput::new(64);
    // From the other side, on the application side: events.
    let r = process(&msg(6, 0, &[42]), &mut out, true, &mut st);
    assert!(matches!(r, Ok(Routed::Handled(ProcMsg::Done))));
    assert!(st.objects.get(&6).is_none());
    let r = process(&msg(1, 1, &[3]), &mut out, true, &mut st);
    assert!(matches!(r, Ok(Routed::Handled(ProcMsg::Done))));
    assert!(st.objects.get(&3).is_none());
    let r = process(&msg(1, 1, &[1]), &mut out, true, &mut st);
    assert!(matches!(r, Err(ProcError::DeleteDisplay)));
    assert!(st.objects.get(&1).is_some());
}

#[test]
fn commits_rotate_the_damage_history() {
    let mut st = app_side();
    request(&mut st, &msg(2, 0, &[3])).0.unwrap();
    request(&mut st, &msg(3, 2, &[1, 2, 3, 4])).0.unwrap();
    let mut s = match st.objects.remove(&3).unwrap().extra {
        WpExtra::WlSurface(s) => s,
        _ => panic!("not a surface"),
    };
    let mut cur = s.damage_history[0].attachment;
    cur.buffer_uid = 77;
    cur.buffer_size = (64, 32);
    commit_damage_history(&mut s, cur, true);
    assert_eq!(s.damage_history[0].damage.len(), 0);
    assert_eq!(s.damage_history[0].attachment, cur);
    assert_eq!(s.damage_history[1].damage.len(), 1);
    assert_eq!(s.damage_history[1].attachment, cur);
    commit_damage_history(&mut s, cur, false);
    for b in s.damage_history.iter() {
        assert_eq!(b.damage.len(), 0);
        assert_eq!(b.attachment.buffer_uid, 0);
        assert_eq!(b.attachment.buffer_size, (0, 0));
    }
}

fn string_msg(id: u32, opcode: u32, text: &[u8]) -> Vec<u8> {
    let padded = (text.len() + 1 + 3) / 4 * 4;
    let len = 12 + padded as u32;
    let mut v = Vec::new();
    v.extend_from_slice(&id.to_le_bytes());
    v.extend_from_slice(&((len << 16) | opcode).to_le_bytes());
    v.extend_from_slice(&(text.len() as u32 + 1).to_le_bytes());
    v.extend_from_slice(text);
    v.resize(len as usize, 0);
    v
}

#[test]
fn window_titles_get_the_prefix() {
    let mut st = app_side();
    st.objects.insert(8, plain(XDG_TOPLEVEL));
    let (r, out) = request(&mut st, &string_msg(8, 2, b"Editor"));
    assert_eq!(r.unwrap(), Routed::Handled(ProcMsg::Done));
    assert_eq!(&out.data[..out.pos], &string_msg(8, 2, b"[remote] Editor")[..]);
    // Not enough room for the longer request.
    let m = string_msg(8, 2, b"Editor");
    let mut small = MsgOutput::new(m.len());
    let r = process(&m, &mut small, false, &mut st);
    assert_eq!(r.unwrap(), Routed::Handled(ProcMsg::NeedsSpace((28, 0))));
    assert_eq!(small.pos, 0);
    // A title without its terminating zero is an error.
    let mut bad = string_msg(8, 2, b"abc");
    bad[15] = b'x';
    assert!(matches!(request(&mut st, &bad).0, Err(ProcError::Msg(_))));
}
