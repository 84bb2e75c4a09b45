//! Processing one protocol message: the state kept about surfaces and viewports, object
//! lifetimes, and which generic path handles the other messages.
use std::collections::{BTreeMap, VecDeque};
use vstd::prelude::*;
use crate::bytes::{le_bytes, le_value, push_le};
use crate::surface::{BufferAttachment, DamageBatch, ObjWlSurface, WlOutputTransform, WlRect};
use crate::tracking::{
    default_path, default_proc_way_msg, lemma_reg_keeps, name_bytes, proc_unknown_way_msg, unknown_path, ObjId,
    ObjectError, PassError, PassedFd, ProcMsg, RegisterError, WaylandMethod, WpExtra, WpObject, WL_DISPLAY,
};
use crate::wire::{copy_msg, pad4, parse_string, parse_u32, spliced, string_arg, word_at, MsgError, MsgOutput};

verus! {

/// Interface numbers, as indices of the table of interface names.
pub const WL_CALLBACK: u32 = 1;
pub const WL_COMPOSITOR: u32 = 2;
pub const WL_SURFACE: u32 = 3;
pub const WP_VIEWPORTER: u32 = 4;
pub const WP_VIEWPORT: u32 = 5;
pub const XDG_TOPLEVEL: u32 = 6;

/// The shared state of one connection: the live objects, and on which side the proxy runs.
pub struct ProtocolState {
    pub objects: BTreeMap<ObjId, WpObject>,
    /// The proxy runs next to the compositor (rather than next to the application).
    pub on_display_side: bool,
    /// Put before every window title.
    pub title_prefix: Vec<u8>,
}

/// A damage batch as values.
pub struct BatchView {
    pub attachment: BufferAttachment,
    pub damage: Seq<WlRect>,
    pub damage_buffer: Seq<WlRect>,
}

pub open spec fn batch_view(b: DamageBatch) -> BatchView {
    BatchView { attachment: b.attachment, damage: b.damage@, damage_buffer: b.damage_buffer@ }
}

/// A surface as values; the first batch of its history is the pending one.
pub struct SurfaceView {
    pub attached_buffer_id: Option<u32>,
    pub history: Seq<BatchView>,
    pub viewport_id: Option<u32>,
}

pub open spec fn surface_view(s: ObjWlSurface) -> SurfaceView {
    SurfaceView {
        attached_buffer_id: s.attached_buffer_id,
        history: s.damage_history@.map_values(|b: DamageBatch| batch_view(b)),
        viewport_id: s.viewport_id,
    }
}

/// What is kept about an object beyond its interface, as values.
pub enum ExtraView {
    Plain,
    Surface(SurfaceView),
    Viewport(Option<ObjId>),
}

pub struct ObjectView {
    pub obj_type: u32,
    pub extra: ExtraView,
}

pub open spec fn object_view(o: WpObject) -> ObjectView {
    ObjectView {
        obj_type: o.obj_type,
        extra: match o.extra {
            WpExtra::Plain => ExtraView::Plain,
            WpExtra::WlSurface(s) => ExtraView::Surface(surface_view(s)),
            WpExtra::WpViewport(v) => ExtraView::Viewport(v),
        },
    }
}

/// The live objects as values.
pub open spec fn objects_view(m: Map<ObjId, WpObject>) -> Map<ObjId, ObjectView> {
    m.map_values(|o: WpObject| object_view(o))
}

/// The methods of one interface: its requests and its events, by opcode.
pub struct InterfaceMethods {
    pub reqs: Vec<WaylandMethod>,
    pub evts: Vec<WaylandMethod>,
}

/// The method of interface `t` for a request (`is_req`) or event with `opcode`, if the
/// table has one.
pub open spec fn method_of(table: Seq<InterfaceMethods>, t: u32, is_req: bool, opcode: u32) -> Option<WaylandMethod> {
    if t < table.len() {
        let ms = if is_req { table[t as int].reqs@ } else { table[t as int].evts@ };
        if opcode < ms.len() {
            Some(ms[opcode as int])
        } else {
            None
        }
    } else {
        None
    }
}

/// How a message was handled.
#[derive(Debug, PartialEq, Eq)]
pub enum Routed {
    /// Processed, with this outcome.
    Handled(ProcMsg),
    /// A surface commit: the caller updates the buffers, then records the commit with
    /// `commit_damage_history`.
    Commit,
}

/// Why a message could not be processed.
#[derive(Debug, Clone, Copy)]
pub enum ProcError {
    /// The path for messages of unknown type failed.
    Pass(PassError),
    /// The default path failed.
    Register(RegisterError),
    Msg(MsgError),
    Object(ObjectError),
    /// The display object cannot be deleted.
    DeleteDisplay,
    /// The object does not hold what its interface needs.
    WrongExtra(ObjId),
    /// A buffer scale that is not positive.
    BadScale(i32),
    /// A buffer transform that is not one of the eight.
    BadTransform(i32),
    /// A viewport destination that is neither unset nor positive.
    BadDestination(i32, i32),
    /// A viewport source that is neither unset nor a nonnegative position and positive size.
    BadSource(i32, i32, i32, i32),
}

/// The messages handled here.
#[derive(Debug, Clone, Copy, PartialEq, Eq, Structural)]
pub enum MsgKind {
    DeleteId,
    CallbackDone,
    CreateSurface,
    SurfaceDestroy,
    Attach,
    Damage,
    DamageBuffer,
    SetBufferTransform,
    SetBufferScale,
    Commit,
    GetViewport,
    ViewportDestroy,
    SetSource,
    SetDestination,
    SetTitle,
}

/// Which handled message a request (`is_req`) or event with `opcode` to an object of
/// interface `t` is, if any.
pub open spec fn msg_kind(t: u32, is_req: bool, opcode: u32) -> Option<MsgKind> {
    if !is_req {
        if t == WL_DISPLAY && opcode == 1 {
            Some(MsgKind::DeleteId)
        } else if t == WL_CALLBACK && opcode == 0 {
            Some(MsgKind::CallbackDone)
        } else {
            None
        }
    } else if t == WL_COMPOSITOR && opcode == 0 {
        Some(MsgKind::CreateSurface)
    } else if t == WL_SURFACE {
        if opcode == 0 {
            Some(MsgKind::SurfaceDestroy)
        } else if opcode == 1 {
            Some(MsgKind::Attach)
        } else if opcode == 2 {
            Some(MsgKind::Damage)
        } else if opcode == 6 {
            Some(MsgKind::Commit)
        } else if opcode == 7 {
            Some(MsgKind::SetBufferTransform)
        } else if opcode == 8 {
            Some(MsgKind::SetBufferScale)
        } else if opcode == 9 {
            Some(MsgKind::DamageBuffer)
        } else {
            None
        }
    } else if t == XDG_TOPLEVEL && opcode == 2 {
        Some(MsgKind::SetTitle)
    } else if t == WP_VIEWPORTER && opcode == 1 {
        Some(MsgKind::GetViewport)
    } else if t == WP_VIEWPORT {
        if opcode == 0 {
            Some(MsgKind::ViewportDestroy)
        } else if opcode == 1 {
            Some(MsgKind::SetSource)
        } else if opcode == 2 {
            Some(MsgKind::SetDestination)
        } else {
            None
        }
    } else {
        None
    }
}

fn msg_kind_of(t: u32, is_req: bool, opcode: u32) -> (r: Option<MsgKind>)
    ensures
        r == msg_kind(t, is_req, opcode),
{
    if !is_req {
        if t == WL_DISPLAY && opcode == 1 {
            Some(MsgKind::DeleteId)
        } else if t == WL_CALLBACK && opcode == 0 {
            Some(MsgKind::CallbackDone)
        } else {
            None
        }
    } else if t == WL_COMPOSITOR && opcode == 0 {
        Some(MsgKind::CreateSurface)
    } else if t == WL_SURFACE {
        if opcode == 0 {
            Some(MsgKind::SurfaceDestroy)
        } else if opcode == 1 {
            Some(MsgKind::Attach)
        } else if opcode == 2 {
            Some(MsgKind::Damage)
        } else if opcode == 6 {
            Some(MsgKind::Commit)
        } else if opcode == 7 {
            Some(MsgKind::SetBufferTransform)
        } else if opcode == 8 {
            Some(MsgKind::SetBufferScale)
        } else if opcode == 9 {
            Some(MsgKind::DamageBuffer)
        } else {
            None
        }
    } else if t == XDG_TOPLEVEL && opcode == 2 {
        Some(MsgKind::SetTitle)
    } else if t == WP_VIEWPORTER && opcode == 1 {
        Some(MsgKind::GetViewport)
    } else if t == WP_VIEWPORT {
        if opcode == 0 {
            Some(MsgKind::ViewportDestroy)
        } else if opcode == 1 {
            Some(MsgKind::SetSource)
        } else if opcode == 2 {
            Some(MsgKind::SetDestination)
        } else {
            None
        }
    } else {
        None
    }
}

/// The transform with protocol value `t`.
pub open spec fn transform_of(t: u32) -> Option<WlOutputTransform> {
    if t == 0 {
        Some(WlOutputTransform::Normal)
    } else if t == 1 {
        Some(WlOutputTransform::Item90)
    } else if t == 2 {
        Some(WlOutputTransform::Item180)
    } else if t == 3 {
        Some(WlOutputTransform::Item270)
    } else if t == 4 {
        Some(WlOutputTransform::Flipped)
    } else if t == 5 {
        Some(WlOutputTransform::Flipped90)
    } else if t == 6 {
        Some(WlOutputTransform::Flipped180)
    } else if t == 7 {
        Some(WlOutputTransform::Flipped270)
    } else {
        None
    }
}

/// The values of the `wl_output.transform` enum: 0 normal, 1 90 degrees, 2 180 degrees,
/// 3 270 degrees, then the same four flipped; no other value is a transform.
pub proof fn lemma_transform_codes(t: u32)
    ensures
        t == 0 ==> transform_of(t) == Some(WlOutputTransform::Normal),
        t == 1 ==> transform_of(t) == Some(WlOutputTransform::Item90),
        t == 2 ==> transform_of(t) == Some(WlOutputTransform::Item180),
        t == 3 ==> transform_of(t) == Some(WlOutputTransform::Item270),
        t == 4 ==> transform_of(t) == Some(WlOutputTransform::Flipped),
        t == 5 ==> transform_of(t) == Some(WlOutputTransform::Flipped90),
        t == 6 ==> transform_of(t) == Some(WlOutputTransform::Flipped180),
        t == 7 ==> transform_of(t) == Some(WlOutputTransform::Flipped270),
        t >= 8 ==> transform_of(t) is None,
{
}

fn transform_from_code(t: u32) -> (r: Option<WlOutputTransform>)
    ensures
        r == transform_of(t),
        t == 1 ==> r == Some(WlOutputTransform::Item90),
        t == 3 ==> r == Some(WlOutputTransform::Item270),
{
    if t == 0 {
        Some(WlOutputTransform::Normal)
    } else if t == 1 {
        Some(WlOutputTransform::Item90)
    } else if t == 2 {
        Some(WlOutputTransform::Item180)
    } else if t == 3 {
        Some(WlOutputTransform::Item270)
    } else if t == 4 {
        Some(WlOutputTransform::Flipped)
    } else if t == 5 {
        Some(WlOutputTransform::Flipped90)
    } else if t == 6 {
        Some(WlOutputTransform::Flipped180)
    } else if t == 7 {
        Some(WlOutputTransform::Flipped270)
    } else {
        None
    }
}

/// The attachment of a new surface: scale 1, no transform or viewport, no buffer.
pub open spec fn initial_attachment() -> BufferAttachment {
    BufferAttachment {
        scale: 1,
        transform: WlOutputTransform::Normal,
        viewport_src: None,
        viewport_dst: None,
        buffer_uid: 0,
        buffer_size: (0, 0),
    }
}

/// A new surface: no buffer, no viewport, and seven empty batches.
pub open spec fn new_surface_view() -> SurfaceView {
    SurfaceView {
        attached_buffer_id: None,
        history: Seq::new(7, |i: int| BatchView { attachment: initial_attachment(), damage: Seq::empty(), damage_buffer: Seq::empty() }),
        viewport_id: None,
    }
}

/// Argument word `k` of a message, after its two header words.
pub open spec fn arg(msg: Seq<u8>, k: int) -> Option<u32> {
    word_at(msg, 8 + 4 * k)
}

/// The first `n` argument words are there.
pub open spec fn has_args(msg: Seq<u8>, n: int) -> bool {
    8 + 4 * n <= msg.len()
}

/// The surface view `sv` with pending batch `b`.
pub open spec fn with_pending(sv: SurfaceView, b: BatchView) -> SurfaceView {
    SurfaceView { history: sv.history.update(0, b), ..sv }
}

/// A change to a surface's state.
#[derive(Debug, Clone, Copy)]
pub enum SurfaceOp {
    /// Attach this buffer, or none.
    Attach(Option<u32>),
    /// Set the pending buffer scale.
    Scale(u32),
    /// Set the pending buffer transform.
    Transform(WlOutputTransform),
    /// Add pending damage in surface coordinates.
    Damage(WlRect),
    /// Add pending damage in buffer coordinates.
    DamageBuffer(WlRect),
    /// Forget the surface's viewport.
    DetachViewport,
    /// Set the pending viewport source and destination where given, and forget the
    /// surface's viewport if asked.
    Viewport(Option<Option<(i32, i32, i32, i32)>>, Option<Option<(i32, i32)>>, bool),
}

/// The surface after the change `op`.
pub open spec fn apply_op(sv: SurfaceView, op: SurfaceOp) -> SurfaceView {
    let b = sv.history[0];
    match op {
        SurfaceOp::Attach(a) => SurfaceView { attached_buffer_id: a, ..sv },
        SurfaceOp::Scale(v) => with_pending(sv, BatchView { attachment: BufferAttachment { scale: v, ..b.attachment }, ..b }),
        SurfaceOp::Transform(t) => with_pending(sv, BatchView { attachment: BufferAttachment { transform: t, ..b.attachment }, ..b }),
        SurfaceOp::Damage(r) => with_pending(sv, BatchView { damage: b.damage.push(r), ..b }),
        SurfaceOp::DamageBuffer(r) => with_pending(sv, BatchView { damage_buffer: b.damage_buffer.push(r), ..b }),
        SurfaceOp::DetachViewport => SurfaceView { viewport_id: None, ..sv },
        SurfaceOp::Viewport(src, dst, clear) => {
            let a = BufferAttachment {
                viewport_src: match src { Some(v) => v, None => b.attachment.viewport_src },
                viewport_dst: match dst { Some(v) => v, None => b.attachment.viewport_dst },
                ..b.attachment
            };
            let sv2 = with_pending(sv, BatchView { attachment: a, ..b });
            if clear { SurfaceView { viewport_id: None, ..sv2 } } else { sv2 }
        },
    }
}

/// The objects with the surface at `sid` changed to `sv`.
pub open spec fn set_surface(objs: Map<ObjId, ObjectView>, sid: ObjId, sv: SurfaceView) -> Map<ObjId, ObjectView> {
    objs.insert(sid, ObjectView { obj_type: objs[sid].obj_type, extra: ExtraView::Surface(sv) })
}

/// The objects with the viewport at `vid` now belonging to `s`.
pub open spec fn set_viewport(objs: Map<ObjId, ObjectView>, vid: ObjId, s: Option<ObjId>) -> Map<ObjId, ObjectView> {
    objs.insert(vid, ObjectView { obj_type: objs[vid].obj_type, extra: ExtraView::Viewport(s) })
}

/// Apply `f` to the pending batch of the surface that viewport `vid` belongs to, if it
/// belongs to a live object; an error if that object is not a surface.
pub open spec fn viewport_surface_update(
    objs: Map<ObjId, ObjectView>,
    target: Option<ObjId>,
    src: Option<Option<(i32, i32, i32, i32)>>,
    dst: Option<Option<(i32, i32)>>,
    clear_viewport: bool,
) -> (Result<Routed, ProcError>, Map<ObjId, ObjectView>) {
    match target {
        Some(sid) => if objs.contains_key(sid) {
            match objs[sid].extra {
                ExtraView::Surface(sv) => (
                    Ok(Routed::Handled(ProcMsg::Done)),
                    set_surface(objs, sid, apply_op(sv, SurfaceOp::Viewport(src, dst, clear_viewport))),
                ),
                _ => (Err(ProcError::WrongExtra(sid)), objs),
            }
        } else {
            (Ok(Routed::Handled(ProcMsg::Done)), objs)
        },
        None => (Ok(Routed::Handled(ProcMsg::Done)), objs),
    }
}

/// Handling a message of kind `k` to the live object `id`, once the output has room for
/// it: the result, the objects after it, and whether the message was copied to the output.
/// Most messages are copied before their arguments are checked, as the protocol passes
/// them on regardless; deletions, new surfaces and attachments are copied only once they
/// succeed.
pub open spec fn handle_spec(
    k: MsgKind,
    msg: Seq<u8>,
    id: ObjId,
    on_display_side: bool,
    objs: Map<ObjId, ObjectView>,
    prefix: Seq<u8>,
) -> (Result<Routed, ProcError>, Map<ObjId, ObjectView>, Option<Seq<u8>>) {
    let done = Ok::<Routed, ProcError>(Routed::Handled(ProcMsg::Done));
    let trunc = Err::<Routed, ProcError>(ProcError::Msg(MsgError::Truncated));
    match k {
        MsgKind::DeleteId => match arg(msg, 0) {
            None => (trunc, objs, None),
            Some(d) => if d == 1 {
                (Err(ProcError::DeleteDisplay), objs, None)
            } else {
                (done, objs.remove(d), Some(msg))
            },
        },
        MsgKind::CallbackDone => (done, objs.remove(id), Some(msg)),
        MsgKind::CreateSurface => match arg(msg, 0) {
            None => (trunc, objs, None),
            Some(n) => {
                let o2 = objs.insert(n, ObjectView { obj_type: WL_SURFACE, extra: ExtraView::Surface(new_surface_view()) });
                if objs.contains_key(n) {
                    (Err(ProcError::Object(ObjectError::IdInUse { id: n, new_type: WL_SURFACE, old_type: objs[n].obj_type })), o2, None)
                } else {
                    (done, o2, Some(msg))
                }
            },
        },
        MsgKind::SurfaceDestroy => match objs[id].extra {
            ExtraView::Surface(sv) => {
                let o1 = set_surface(objs, id, apply_op(sv, SurfaceOp::DetachViewport));
                match sv.viewport_id {
                    Some(vp) => if o1.contains_key(vp) {
                        match o1[vp].extra {
                            ExtraView::Viewport(_) => (done, set_viewport(o1, vp, None), Some(msg)),
                            _ => (Err(ProcError::WrongExtra(vp)), o1, Some(msg)),
                        }
                    } else {
                        (done, o1, Some(msg))
                    },
                    None => (done, o1, Some(msg)),
                }
            },
            _ => (Err(ProcError::WrongExtra(id)), objs, Some(msg)),
        },
        MsgKind::Attach => if !has_args(msg, 3) {
            (trunc, objs, None)
        } else {
            let b = arg(msg, 0)->0;
            match objs[id].extra {
                ExtraView::Surface(sv) => (
                    done,
                    set_surface(objs, id, apply_op(sv, SurfaceOp::Attach(if b != 0 { Some(b) } else { None }))),
                    Some(msg),
                ),
                _ => (Err(ProcError::WrongExtra(id)), objs, None),
            }
        },
        MsgKind::SetBufferScale => match arg(msg, 0) {
            None => (trunc, objs, Some(msg)),
            Some(v) => if (v as i32) <= 0 {
                (Err(ProcError::BadScale(v as i32)), objs, Some(msg))
            } else {
                match objs[id].extra {
                    ExtraView::Surface(sv) => (done, set_surface(objs, id, apply_op(sv, SurfaceOp::Scale(v))), Some(msg)),
                    _ => (Err(ProcError::WrongExtra(id)), objs, Some(msg)),
                }
            },
        },
        MsgKind::SetBufferTransform => match arg(msg, 0) {
            None => (trunc, objs, Some(msg)),
            Some(v) => match objs[id].extra {
                ExtraView::Surface(sv) => if (v as i32) < 0 {
                    (Err(ProcError::BadTransform(v as i32)), objs, Some(msg))
                } else {
                    match transform_of(v) {
                        None => (Err(ProcError::BadTransform(v as i32)), objs, Some(msg)),
                        Some(t) => (done, set_surface(objs, id, apply_op(sv, SurfaceOp::Transform(t))), Some(msg)),
                    }
                },
                _ => (Err(ProcError::WrongExtra(id)), objs, Some(msg)),
            },
        },
        MsgKind::Damage | MsgKind::DamageBuffer => if on_display_side {
            (done, objs, Some(msg))
        } else {
            match objs[id].extra {
                ExtraView::Surface(sv) => if !has_args(msg, 4) {
                    (trunc, objs, Some(msg))
                } else {
                    let r = WlRect {
                        x: arg(msg, 0)->0 as i32,
                        y: arg(msg, 1)->0 as i32,
                        width: arg(msg, 2)->0 as i32,
                        height: arg(msg, 3)->0 as i32,
                    };
                    if r.width <= 0 || r.height <= 0 {
                        (done, objs, Some(msg))
                    } else {
                        let op = if k == MsgKind::Damage { SurfaceOp::Damage(r) } else { SurfaceOp::DamageBuffer(r) };
                        (done, set_surface(objs, id, apply_op(sv, op)), Some(msg))
                    }
                },
                _ => (Err(ProcError::WrongExtra(id)), objs, Some(msg)),
            }
        },
        MsgKind::GetViewport => if !has_args(msg, 2) {
            (trunc, objs, Some(msg))
        } else {
            let n = arg(msg, 0)->0;
            let s = arg(msg, 1)->0;
            let o2 = objs.insert(n, ObjectView { obj_type: WP_VIEWPORT, extra: ExtraView::Viewport(Some(s)) });
            if objs.contains_key(n) {
                (Err(ProcError::Object(ObjectError::IdInUse { id: n, new_type: WP_VIEWPORT, old_type: objs[n].obj_type })), o2, Some(msg))
            } else {
                (done, o2, Some(msg))
            }
        },
        MsgKind::ViewportDestroy => match objs[id].extra {
            ExtraView::Viewport(target) => {
                let o1 = set_viewport(objs, id, None);
                let r = viewport_surface_update(o1, target, Some(None), Some(None), true);
                (r.0, r.1, Some(msg))
            },
            _ => (Err(ProcError::WrongExtra(id)), objs, Some(msg)),
        },
        MsgKind::SetDestination => if !has_args(msg, 2) {
            (trunc, objs, Some(msg))
        } else {
            let w = arg(msg, 0)->0 as i32;
            let h = arg(msg, 1)->0 as i32;
            if !(w == -1 && h == -1) && (w <= 0 || h <= 0) {
                (Err(ProcError::BadDestination(w, h)), objs, Some(msg))
            } else {
                let d: Option<(i32, i32)> = if w == -1 && h == -1 { None } else { Some((w, h)) };
                match objs[id].extra {
                    ExtraView::Viewport(target) => {
                        let r = viewport_surface_update(objs, target, None, Some(d), false);
                        (r.0, r.1, Some(msg))
                    },
                    _ => (Err(ProcError::WrongExtra(id)), objs, Some(msg)),
                }
            }
        },
        MsgKind::SetSource => if !has_args(msg, 4) {
            (trunc, objs, Some(msg))
        } else {
            let x = arg(msg, 0)->0 as i32;
            let y = arg(msg, 1)->0 as i32;
            let w = arg(msg, 2)->0 as i32;
            let h = arg(msg, 3)->0 as i32;
            let unset = x == -256 && y == -256 && w == -256 && h == -256;
            if !unset && (x < 0 || y < 0 || w <= 0 || h <= 0) {
                (Err(ProcError::BadSource(x, y, w, h)), objs, Some(msg))
            } else {
                let v: Option<(i32, i32, i32, i32)> = if unset { None } else { Some((x, y, w, h)) };
                match objs[id].extra {
                    ExtraView::Viewport(target) => {
                        let r = viewport_surface_update(objs, target, Some(v), None, false);
                        (r.0, r.1, Some(msg))
                    },
                    _ => (Err(ProcError::WrongExtra(id)), objs, Some(msg)),
                }
            }
        },
        MsgKind::SetTitle => match string_arg(msg, 8) {
            Err(e) => (Err(ProcError::Msg(e)), objs, None),
            Ok((None, _)) => (Err(ProcError::Msg(MsgError::NullString)), objs, None),
            Ok((Some((a, b)), _)) => (done, objs, Some(title_msg(id, prefix + msg.subrange(a, b)))),
        },
        MsgKind::Commit => (Ok(Routed::Commit), objs, None),
    }
}

/// The length of a window title request carrying `n` bytes of title.
pub open spec fn title_msg_len(n: int) -> int {
    12 + pad4(n + 1)
}

/// The request setting the title of window `id` to `title`: the header (with the length
/// in its upper 16 bits, wrapping as a 16-bit field, and opcode 2), then the title as a
/// string argument: its length with the terminating zero, its bytes, the zero, and zero
/// padding to a multiple of four.
pub open spec fn title_msg(id: ObjId, title: Seq<u8>) -> Seq<u8> {
    let n = title.len() as int;
    let len = title_msg_len(n);
    le_bytes(id as int, 4) + le_bytes((len % 65536) * 65536 + 2, 4) + le_bytes(n + 1, 4) + title + Seq::new(
        (pad4(n + 1) - n) as nat,
        |i: int| 0u8,
    )
}

/// The object a message is for.
pub open spec fn msg_object(msg: Seq<u8>) -> ObjId {
    le_value(msg.subrange(0, 4)) as u32
}

/// The opcode of a message: the low 11 bits of its second header word.
pub open spec fn msg_opcode(msg: Seq<u8>) -> u32 {
    (le_value(msg.subrange(4, 8)) as u32) & 0x7ffu32
}

/// Processing a message of a kind handled here (other than a commit), with `space` bytes
/// left in the output: it needs room for itself (a window title, once read, for the
/// request that replaces it), and is then processed as `handle_spec` says.
pub open spec fn handled_spec(
    k: MsgKind,
    msg: Seq<u8>,
    on_display_side: bool,
    objs: Map<ObjId, ObjectView>,
    prefix: Seq<u8>,
    space: int,
) -> (Result<Routed, ProcError>, Map<ObjId, ObjectView>, Option<Seq<u8>>) {
    if k == MsgKind::SetTitle {
        match string_arg(msg, 8) {
            Ok((Some((a, b)), _)) => if title_msg_len(prefix.len() + (b - a)) > space {
                (Ok(Routed::Handled(ProcMsg::NeedsSpace((title_msg_len(prefix.len() + (b - a)) as usize, 0usize)))), objs, None)
            } else {
                handle_spec(k, msg, msg_object(msg), on_display_side, objs, prefix)
            },
            _ => handle_spec(k, msg, msg_object(msg), on_display_side, objs, prefix),
        }
    } else if msg.len() > space {
        (Ok(Routed::Handled(ProcMsg::NeedsSpace((msg.len() as usize, 0usize)))), objs, None)
    } else {
        handle_spec(k, msg, msg_object(msg), on_display_side, objs, prefix)
    }
}

/// The path of the message for unknown messages, with result `res` lifted.
pub open spec fn unknown_outcome(
    msg: Seq<u8>,
    from_channel: bool,
    max_fds: usize,
    d0: MsgOutput,
    d1: MsgOutput,
    in0: Seq<PassedFd>,
    in1: Seq<PassedFd>,
    out0: Seq<PassedFd>,
    out1: Seq<PassedFd>,
    res: Result<Routed, ProcError>,
) -> bool {
    match res {
        Ok(Routed::Handled(p)) => unknown_path(msg, from_channel, max_fds, d0, d1, in0, in1, out0, out1, Ok(p)),
        Err(ProcError::Pass(e)) => unknown_path(msg, from_channel, max_fds, d0, d1, in0, in1, out0, out1, Err(e)),
        _ => false,
    }
}

/// The default path of the message, with result `res` lifted.
pub open spec fn default_outcome(
    msg: Seq<u8>,
    meth: WaylandMethod,
    names: Seq<Seq<u8>>,
    is_req: bool,
    id: ObjId,
    objs0: Map<ObjId, WpObject>,
    objs1: Map<ObjId, WpObject>,
    d0: MsgOutput,
    d1: MsgOutput,
    res: Result<Routed, ProcError>,
) -> bool {
    match res {
        Ok(Routed::Handled(p)) => default_path(msg, meth, names, is_req, id, objs0, objs1, d0, d1, Ok(p)),
        Err(ProcError::Register(e)) => default_path(msg, meth, names, is_req, id, objs0, objs1, d0, d1, Err(e)),
        _ => false,
    }
}

/// What processing did, as `expected` says: the result, the objects, and what was written
/// to the output (else the output is unchanged).
pub open spec fn outcome(
    expected: (Result<Routed, ProcError>, Map<ObjId, ObjectView>, Option<Seq<u8>>),
    res: Result<Routed, ProcError>,
    objs: Map<ObjId, ObjectView>,
    d0: MsgOutput,
    d1: MsgOutput,
    msg: Seq<u8>,
) -> bool {
    &&& res == expected.0
    &&& objs == expected.1
    &&& d1.wf()
    &&& match expected.2 {
        Some(w) => d1.pos == d0.pos + w.len() && d1.data@ == spliced(d0.data@, d0.pos as int, w),
        None => d1 == d0,
    }
}

proof fn lemma_view_insert(m: Map<ObjId, WpObject>, k: ObjId, v: WpObject)
    ensures
        objects_view(m.insert(k, v)) == objects_view(m).insert(k, object_view(v)),
{
    assert(objects_view(m.insert(k, v)) =~= objects_view(m).insert(k, object_view(v)));
}

proof fn lemma_view_remove(m: Map<ObjId, WpObject>, k: ObjId)
    ensures
        objects_view(m.remove(k)) == objects_view(m).remove(k),
{
    assert(objects_view(m.remove(k)) =~= objects_view(m).remove(k));
}

proof fn lemma_view_get(m: Map<ObjId, WpObject>, k: ObjId)
    ensures
        objects_view(m).contains_key(k) == m.contains_key(k),
        m.contains_key(k) ==> objects_view(m)[k] == object_view(m[k]),
{
}

/// Putting back an object just taken out, changed, is updating it in place.
proof fn lemma_view_replace(m: Map<ObjId, WpObject>, k: ObjId, v: WpObject)
    requires
        m.contains_key(k),
    ensures
        objects_view(m.remove(k).insert(k, v)) == objects_view(m).insert(k, object_view(v)),
{
    assert(m.remove(k).insert(k, v) =~= m.insert(k, v));
    lemma_view_insert(m, k, v);
}

fn arg_word(msg: &[u8], k: usize) -> (r: Option<u32>)
    requires
        k <= 4,
    ensures
        r == arg(msg@, k as int),
{
    let mut pos: usize = 8 + 4 * k;
    if pos > msg.len() {
        return None;
    }
    match parse_u32(msg, &mut pos) {
        Ok(v) => Some(v),
        Err(_) => None,
    }
}

/// Take the object `id` out of the map.
fn take_object(objects: &mut BTreeMap<ObjId, WpObject>, id: ObjId) -> (o: WpObject)
    requires
        old(objects)@.contains_key(id),
    ensures
        o == old(objects)@[id],
        final(objects)@ == old(objects)@.remove(id),
{
    match objects.remove(&id) {
        Some(o) => o,
        None => {
            proof {
                assert(false);
            }
            WpObject { obj_type: 0, extra: WpExtra::Plain }
        },
    }
}

fn is_live(objects: &BTreeMap<ObjId, WpObject>, id: ObjId) -> (r: bool)
    ensures
        r == objects@.contains_key(id),
{
    objects.contains_key(&id)
}

/// An empty batch with the attachment of a new surface.
fn empty_batch() -> (b: DamageBatch)
    ensures
        batch_view(b) == (BatchView { attachment: initial_attachment(), damage: Seq::empty(), damage_buffer: Seq::empty() }),
{
    DamageBatch {
        attachment: BufferAttachment {
            scale: 1,
            transform: WlOutputTransform::Normal,
            viewport_src: None,
            viewport_dst: None,
            buffer_uid: 0,
            buffer_size: (0, 0),
        },
        damage: Vec::new(),
        damage_buffer: Vec::new(),
    }
}

/// A new surface (see `new_surface_view`).
fn new_surface() -> (s: ObjWlSurface)
    ensures
        surface_view(s) == new_surface_view(),
{
    let s = ObjWlSurface {
        attached_buffer_id: None,
        damage_history: [empty_batch(), empty_batch(), empty_batch(), empty_batch(), empty_batch(), empty_batch(), empty_batch()],
        viewport_id: None,
    };
    proof {
        assert(surface_view(s).history =~= new_surface_view().history);
    }
    s
}

/// Deleting objects and creating surfaces and viewports.
fn handle_lifetime(k: MsgKind, msg: &[u8], id: ObjId, dst: &mut MsgOutput, state: &mut ProtocolState) -> (res: Result<Routed, ProcError>)
    requires
        old(dst).wf(),
        msg@.len() >= 8,
        msg@.len() <= old(dst).remaining(),
        old(state).objects@.contains_key(id),
        k == MsgKind::DeleteId || k == MsgKind::CallbackDone || k == MsgKind::CreateSurface || k == MsgKind::GetViewport,
    ensures
        final(state).on_display_side == old(state).on_display_side,
        final(state).title_prefix@ == old(state).title_prefix@,
        outcome(
            handle_spec(k, msg@, id, old(state).on_display_side, objects_view(old(state).objects@), old(state).title_prefix@),
            res,
            objects_view(final(state).objects@),
            *old(dst),
            *final(dst),
            msg@,
        ),
{
    let ghost m0 = state.objects@;
    match k {
        MsgKind::DeleteId => {
            let d = match arg_word(msg, 0) {
                Some(d) => d,
                None => {
                    return Err(ProcError::Msg(MsgError::Truncated));
                },
            };
            if d == 1 {
                return Err(ProcError::DeleteDisplay);
            }
            state.objects.remove(&d);
            proof {
                lemma_view_remove(m0, d);
            }
            copy_msg(msg, dst);
            Ok(Routed::Handled(ProcMsg::Done))
        },
        MsgKind::CallbackDone => {
            copy_msg(msg, dst);
            state.objects.remove(&id);
            proof {
                lemma_view_remove(m0, id);
            }
            Ok(Routed::Handled(ProcMsg::Done))
        },
        MsgKind::CreateSurface => {
            let n = match arg_word(msg, 0) {
                Some(n) => n,
                None => {
                    return Err(ProcError::Msg(MsgError::Truncated));
                },
            };
            let surf = new_surface();
            let obj = WpObject { obj_type: WL_SURFACE, extra: WpExtra::WlSurface(surf) };
            let r = crate::tracking::insert_new_object(&mut state.objects, n, obj);
            proof {
                lemma_view_insert(m0, n, obj);
                lemma_view_get(m0, n);
            }
            match r {
                Ok(()) => {},
                Err(e) => {
                    return Err(ProcError::Object(e));
                },
            }
            copy_msg(msg, dst);
            Ok(Routed::Handled(ProcMsg::Done))
        },
        _ => {
            copy_msg(msg, dst);
            let n = match arg_word(msg, 0) {
                Some(n) => n,
                None => {
                    return Err(ProcError::Msg(MsgError::Truncated));
                },
            };
            let sid = match arg_word(msg, 1) {
                Some(v) => v,
                None => {
                    return Err(ProcError::Msg(MsgError::Truncated));
                },
            };
            let obj = WpObject { obj_type: WP_VIEWPORT, extra: WpExtra::WpViewport(Some(sid)) };
            let r = crate::tracking::insert_new_object(&mut state.objects, n, obj);
            proof {
                lemma_view_insert(m0, n, obj);
                lemma_view_get(m0, n);
            }
            match r {
                Ok(()) => Ok(Routed::Handled(ProcMsg::Done)),
                Err(e) => Err(ProcError::Object(e)),
            }
        },
    }
}

/// Apply the change `op` to a surface.
fn apply_surface_op(s: &mut ObjWlSurface, op: SurfaceOp)
    ensures
        surface_view(*final(s)) == apply_op(surface_view(*old(s)), op),
{
    match op {
        SurfaceOp::Attach(a) => {
            s.attached_buffer_id = a;
        },
        SurfaceOp::Scale(v) => {
            s.damage_history[0].attachment.scale = v;
        },
        SurfaceOp::Transform(t) => {
            s.damage_history[0].attachment.transform = t;
        },
        SurfaceOp::Damage(r) => {
            s.damage_history[0].damage.push(r);
        },
        SurfaceOp::DamageBuffer(r) => {
            s.damage_history[0].damage_buffer.push(r);
        },
        SurfaceOp::DetachViewport => {
            s.viewport_id = None;
        },
        SurfaceOp::Viewport(src, dst, clear) => {
            match src {
                Some(v) => {
                    s.damage_history[0].attachment.viewport_src = v;
                },
                None => {},
            }
            match dst {
                Some(v) => {
                    s.damage_history[0].attachment.viewport_dst = v;
                },
                None => {},
            }
            if clear {
                s.viewport_id = None;
            }
        },
    }
    proof {
        let h0 = old(s).damage_history@;
        let h1 = s.damage_history@;
        assert(h1.len() == 7 && h0.len() == 7);
        assert forall|j: int| 1 <= j < 7 implies h1[j] == h0[j] by {}
        assert(surface_view(*s).history =~= apply_op(surface_view(*old(s)), op).history);
    }
}

/// Apply the change `op` to the surface with id `sid`; an error if that object is not a
/// surface.
fn modify_surface(objects: &mut BTreeMap<ObjId, WpObject>, sid: ObjId, op: SurfaceOp) -> (r: Result<(), ProcError>)
    requires
        old(objects)@.contains_key(sid),
    ensures
        match objects_view(old(objects)@)[sid].extra {
            ExtraView::Surface(sv) => r is Ok && objects_view(final(objects)@) == set_surface(objects_view(old(objects)@), sid, apply_op(sv, op)),
            _ => r == Err::<(), ProcError>(ProcError::WrongExtra(sid)) && final(objects)@ == old(objects)@,
        },
{
    let ghost m0 = objects@;
    proof {
        lemma_view_get(m0, sid);
    }
    let mut o = take_object(objects, sid);
    let is_surface = match &o.extra {
        WpExtra::WlSurface(_) => true,
        _ => false,
    };
    if !is_surface {
        objects.insert(sid, o);
        proof {
            assert(objects@ =~= m0);
        }
        return Err(ProcError::WrongExtra(sid));
    }
    match &mut o.extra {
        WpExtra::WlSurface(s) => {
            apply_surface_op(s, op);
        },
        _ => {},
    }
    proof {
        lemma_view_replace(m0, sid, o);
    }
    objects.insert(sid, o);
    Ok(())
}

/// The viewport of the surface `id`, if the object is a surface.
fn surface_viewport(objects: &BTreeMap<ObjId, WpObject>, id: ObjId) -> (r: Option<Option<u32>>)
    requires
        objects@.contains_key(id),
    ensures
        match objects_view(objects@)[id].extra {
            ExtraView::Surface(sv) => r == Some(sv.viewport_id),
            _ => r is None,
        },
{
    proof {
        lemma_view_get(objects@, id);
    }
    match objects.get(&id) {
        Some(o) => match &o.extra {
            WpExtra::WlSurface(s) => Some(s.viewport_id),
            _ => None,
        },
        None => None,
    }
}

/// The surface that viewport `id` belongs to, if the object is a viewport.
fn viewport_target(objects: &BTreeMap<ObjId, WpObject>, id: ObjId) -> (r: Option<Option<ObjId>>)
    requires
        objects@.contains_key(id),
    ensures
        match objects_view(objects@)[id].extra {
            ExtraView::Viewport(t) => r == Some(t),
            _ => r is None,
        },
{
    proof {
        lemma_view_get(objects@, id);
    }
    match objects.get(&id) {
        Some(o) => match &o.extra {
            WpExtra::WpViewport(t) => Some(*t),
            _ => None,
        },
        None => None,
    }
}

/// Make the object `vid` a viewport belonging to `t`.
fn set_viewport_target(objects: &mut BTreeMap<ObjId, WpObject>, vid: ObjId, t: Option<ObjId>)
    requires
        old(objects)@.contains_key(vid),
    ensures
        objects_view(final(objects)@) == set_viewport(objects_view(old(objects)@), vid, t),
{
    let ghost m0 = objects@;
    proof {
        lemma_view_get(m0, vid);
    }
    let o = take_object(objects, vid);
    let o2 = WpObject { obj_type: o.obj_type, extra: WpExtra::WpViewport(t) };
    proof {
        lemma_view_replace(m0, vid, o2);
    }
    objects.insert(vid, o2);
}

/// Surface requests: destroy, attach, buffer scale and transform, damage.
#[verifier::rlimit(40)]
fn handle_surface(k: MsgKind, msg: &[u8], id: ObjId, dst: &mut MsgOutput, state: &mut ProtocolState) -> (res: Result<Routed, ProcError>)
    requires
        old(dst).wf(),
        msg@.len() >= 8,
        msg@.len() <= old(dst).remaining(),
        old(state).objects@.contains_key(id),
        k == MsgKind::SurfaceDestroy || k == MsgKind::Attach || k == MsgKind::SetBufferScale || k
            == MsgKind::SetBufferTransform || k == MsgKind::Damage || k == MsgKind::DamageBuffer,
    ensures
        final(state).on_display_side == old(state).on_display_side,
        final(state).title_prefix@ == old(state).title_prefix@,
        outcome(
            handle_spec(k, msg@, id, old(state).on_display_side, objects_view(old(state).objects@), old(state).title_prefix@),
            res,
            objects_view(final(state).objects@),
            *old(dst),
            *final(dst),
            msg@,
        ),
{
    proof {
        lemma_view_get(state.objects@, id);
    }
    match k {
        MsgKind::SurfaceDestroy => {
            copy_msg(msg, dst);
            let vp = match surface_viewport(&state.objects, id) {
                Some(v) => v,
                None => {
                    return Err(ProcError::WrongExtra(id));
                },
            };
            let _ = modify_surface(&mut state.objects, id, SurfaceOp::DetachViewport);
            match vp {
                Some(v) => {
                    proof {
                        lemma_view_get(state.objects@, v);
                    }
                    if is_live(&state.objects, v) {
                        match viewport_target(&state.objects, v) {
                            Some(_) => {
                                set_viewport_target(&mut state.objects, v, None);
                            },
                            None => {
                                return Err(ProcError::WrongExtra(v));
                            },
                        }
                    }
                },
                None => {},
            }
            Ok(Routed::Handled(ProcMsg::Done))
        },
        MsgKind::Attach => {
            if arg_word(msg, 2).is_none() {
                return Err(ProcError::Msg(MsgError::Truncated));
            }
            let b = match arg_word(msg, 0) {
                Some(b) => b,
                None => {
                    return Err(ProcError::Msg(MsgError::Truncated));
                },
            };
            let a = if b != 0 {
                Some(b)
            } else {
                None
            };
            match modify_surface(&mut state.objects, id, SurfaceOp::Attach(a)) {
                Ok(()) => {},
                Err(e) => {
                    return Err(e);
                },
            }
            copy_msg(msg, dst);
            Ok(Routed::Handled(ProcMsg::Done))
        },
        MsgKind::SetBufferScale => {
            copy_msg(msg, dst);
            let v = match arg_word(msg, 0) {
                Some(v) => v,
                None => {
                    return Err(ProcError::Msg(MsgError::Truncated));
                },
            };
            if (v as i32) <= 0 {
                return Err(ProcError::BadScale(v as i32));
            }
            match modify_surface(&mut state.objects, id, SurfaceOp::Scale(v)) {
                Ok(()) => Ok(Routed::Handled(ProcMsg::Done)),
                Err(e) => Err(e),
            }
        },
        MsgKind::SetBufferTransform => {
            copy_msg(msg, dst);
            let v = match arg_word(msg, 0) {
                Some(v) => v,
                None => {
                    return Err(ProcError::Msg(MsgError::Truncated));
                },
            };
            if surface_viewport(&state.objects, id).is_none() {
                return Err(ProcError::WrongExtra(id));
            }
            if (v as i32) < 0 {
                return Err(ProcError::BadTransform(v as i32));
            }
            let t = match transform_from_code(v) {
                Some(t) => t,
                None => {
                    return Err(ProcError::BadTransform(v as i32));
                },
            };
            match modify_surface(&mut state.objects, id, SurfaceOp::Transform(t)) {
                Ok(()) => Ok(Routed::Handled(ProcMsg::Done)),
                Err(e) => Err(e),
            }
        },
        _ => {
            copy_msg(msg, dst);
            if state.on_display_side {
                return Ok(Routed::Handled(ProcMsg::Done));
            }
            if surface_viewport(&state.objects, id).is_none() {
                return Err(ProcError::WrongExtra(id));
            }
            if arg_word(msg, 3).is_none() {
                return Err(ProcError::Msg(MsgError::Truncated));
            }
            let (x, y, w, h) = match (arg_word(msg, 0), arg_word(msg, 1), arg_word(msg, 2), arg_word(msg, 3)) {
                (Some(x), Some(y), Some(w), Some(h)) => (x as i32, y as i32, w as i32, h as i32),
                _ => {
                    return Err(ProcError::Msg(MsgError::Truncated));
                },
            };
            if w <= 0 || h <= 0 {
                return Ok(Routed::Handled(ProcMsg::Done));
            }
            let r = WlRect { x, y, width: w, height: h };
            let op = if k == MsgKind::Damage {
                SurfaceOp::Damage(r)
            } else {
                SurfaceOp::DamageBuffer(r)
            };
            match modify_surface(&mut state.objects, id, op) {
                Ok(()) => Ok(Routed::Handled(ProcMsg::Done)),
                Err(e) => Err(e),
            }
        },
    }
}

/// Change the pending viewport of the surface `target`, if it is a live object.
fn update_viewport_surface(
    objects: &mut BTreeMap<ObjId, WpObject>,
    target: Option<ObjId>,
    src: Option<Option<(i32, i32, i32, i32)>>,
    dst: Option<Option<(i32, i32)>>,
    clear: bool,
) -> (r: Result<Routed, ProcError>)
    ensures
        ({
            let e = viewport_surface_update(objects_view(old(objects)@), target, src, dst, clear);
            r == e.0 && objects_view(final(objects)@) == e.1
        }),
{
    match target {
        Some(sid) => {
            proof {
                lemma_view_get(objects@, sid);
            }
            if is_live(objects, sid) {
                match modify_surface(objects, sid, SurfaceOp::Viewport(src, dst, clear)) {
                    Ok(()) => Ok(Routed::Handled(ProcMsg::Done)),
                    Err(e) => Err(e),
                }
            } else {
                Ok(Routed::Handled(ProcMsg::Done))
            }
        },
        None => Ok(Routed::Handled(ProcMsg::Done)),
    }
}

/// Viewport requests: destroy, source, destination.
#[verifier::rlimit(40)]
fn handle_viewport(k: MsgKind, msg: &[u8], id: ObjId, dst: &mut MsgOutput, state: &mut ProtocolState) -> (res: Result<Routed, ProcError>)
    requires
        old(dst).wf(),
        msg@.len() >= 8,
        msg@.len() <= old(dst).remaining(),
        old(state).objects@.contains_key(id),
        k == MsgKind::ViewportDestroy || k == MsgKind::SetSource || k == MsgKind::SetDestination,
    ensures
        final(state).on_display_side == old(state).on_display_side,
        final(state).title_prefix@ == old(state).title_prefix@,
        outcome(
            handle_spec(k, msg@, id, old(state).on_display_side, objects_view(old(state).objects@), old(state).title_prefix@),
            res,
            objects_view(final(state).objects@),
            *old(dst),
            *final(dst),
            msg@,
        ),
{
    proof {
        lemma_view_get(state.objects@, id);
    }
    copy_msg(msg, dst);
    match k {
        MsgKind::ViewportDestroy => {
            let target = match viewport_target(&state.objects, id) {
                Some(t) => t,
                None => {
                    return Err(ProcError::WrongExtra(id));
                },
            };
            set_viewport_target(&mut state.objects, id, None);
            update_viewport_surface(&mut state.objects, target, Some(None), Some(None), true)
        },
        MsgKind::SetDestination => {
            let (w, h) = match (arg_word(msg, 0), arg_word(msg, 1)) {
                (Some(w), Some(h)) => (w as i32, h as i32),
                _ => {
                    return Err(ProcError::Msg(MsgError::Truncated));
                },
            };
            let d = if w == -1 && h == -1 {
                None
            } else if w <= 0 || h <= 0 {
                return Err(ProcError::BadDestination(w, h));
            } else {
                Some((w, h))
            };
            let target = match viewport_target(&state.objects, id) {
                Some(t) => t,
                None => {
                    return Err(ProcError::WrongExtra(id));
                },
            };
            update_viewport_surface(&mut state.objects, target, None, Some(d), false)
        },
        _ => {
            let (x, y, w, h) = match (arg_word(msg, 0), arg_word(msg, 1), arg_word(msg, 2), arg_word(msg, 3)) {
                (Some(x), Some(y), Some(w), Some(h)) => (x as i32, y as i32, w as i32, h as i32),
                _ => {
                    return Err(ProcError::Msg(MsgError::Truncated));
                },
            };
            let unset = x == -256 && y == -256 && w == -256 && h == -256;
            let v = if unset {
                None
            } else if x < 0 || y < 0 || w <= 0 || h <= 0 {
                return Err(ProcError::BadSource(x, y, w, h));
            } else {
                Some((x, y, w, h))
            };
            let target = match viewport_target(&state.objects, id) {
                Some(t) => t,
                None => {
                    return Err(ProcError::WrongExtra(id));
                },
            };
            update_viewport_surface(&mut state.objects, target, Some(v), None, false)
        },
    }
}

/// The damage history after a commit with attachment `current`: when the committed buffer
/// was found, the pending batch takes `current` and moves back one place behind a fresh
/// pending batch (the oldest batch is dropped); otherwise every batch is reset to
/// `current` without a buffer.
pub open spec fn committed_history(h: Seq<BatchView>, current: BufferAttachment, found_buffer: bool) -> Seq<BatchView> {
    let fresh = BatchView { attachment: current, damage: Seq::empty(), damage_buffer: Seq::empty() };
    if found_buffer {
        seq![fresh] + h.update(0, BatchView { attachment: current, ..h[0] }).take(6)
    } else {
        let none = BatchView { attachment: BufferAttachment { buffer_uid: 0, buffer_size: (0, 0), ..current }, ..fresh };
        Seq::new(7, |i: int| none)
    }
}

fn fresh_batch(a: BufferAttachment) -> (b: DamageBatch)
    ensures
        batch_view(b) == (BatchView { attachment: a, damage: Seq::empty(), damage_buffer: Seq::empty() }),
{
    DamageBatch { attachment: a, damage: Vec::new(), damage_buffer: Vec::new() }
}

/// Record a commit in the surface's damage history (see `committed_history`).
pub fn commit_damage_history(s: &mut ObjWlSurface, current: BufferAttachment, found_buffer: bool)
    ensures
        surface_view(*final(s)) == (SurfaceView {
            history: committed_history(surface_view(*old(s)).history, current, found_buffer),
            ..surface_view(*old(s))
        }),
{
    let ghost h0 = surface_view(*s).history;
    if found_buffer {
        s.damage_history[0].attachment = current;
        let ghost h1 = s.damage_history@;
        let mut tmp = fresh_batch(current);
        let ghost first = tmp;
        let mut i: usize = 0;
        while i < 7
            invariant
                i <= 7,
                s.damage_history@.len() == 7,
                h1.len() == 7,
                forall|j: int| 1 <= j < i ==> s.damage_history@[j] == h1[j - 1],
                i > 0 ==> s.damage_history@[0] == first,
                forall|j: int| i <= j < 7 ==> s.damage_history@[j] == h1[j],
                i > 0 ==> tmp == h1[i - 1],
                i == 0 ==> tmp == first,
                s.attached_buffer_id == old(s).attached_buffer_id,
                s.viewport_id == old(s).viewport_id,
            decreases 7 - i,
        {
            std::mem::swap(&mut s.damage_history[i], &mut tmp);
            i = i + 1;
        }
        proof {
            let f = |b: DamageBatch| batch_view(b);
            assert(h1.map_values(f) =~= h0.update(0, BatchView { attachment: current, ..h0[0] }));
            assert(surface_view(*s).history =~= committed_history(h0, current, found_buffer));
        }
    } else {
        let a = BufferAttachment { buffer_uid: 0, buffer_size: (0, 0), ..current };
        let mut i: usize = 0;
        while i < 7
            invariant
                i <= 7,
                s.damage_history@.len() == 7,
                forall|j: int| 0 <= j < i ==> batch_view(#[trigger] s.damage_history@[j]) == (BatchView {
                    attachment: a,
                    damage: Seq::empty(),
                    damage_buffer: Seq::empty(),
                }),
                s.attached_buffer_id == old(s).attached_buffer_id,
                s.viewport_id == old(s).viewport_id,
                a == (BufferAttachment { buffer_uid: 0, buffer_size: (0, 0), ..current }),
            decreases 7 - i,
        {
            s.damage_history[i] = fresh_batch(a);
            i = i + 1;
        }
        proof {
            assert(surface_view(*s).history =~= committed_history(h0, current, found_buffer));
        }
    }
}

/// The method of interface `t` with `opcode`, if the table has one.
fn lookup_method<'a>(table: &'a [InterfaceMethods], t: u32, is_req: bool, opcode: u32) -> (r: Option<&'a WaylandMethod>)
    ensures
        match r {
            Some(m) => method_of(table@, t, is_req, opcode) == Some(*m),
            None => method_of(table@, t, is_req, opcode) is None,
        },
{
    if t as usize >= table.len() {
        return None;
    }
    let ms = if is_req {
        &table[t as usize].reqs
    } else {
        &table[t as usize].evts
    };
    if (opcode as usize) < ms.len() {
        Some(&ms[opcode as usize])
    } else {
        None
    }
}

/// Process one message travelling from the other proxy (`from_channel`) or from the local
/// program. A message is a request when it travels in the direction of the compositor.
/// A message for an object not known to be alive, or without a method in `table`, takes
/// the path for unknown messages (`unknown_path`). Surface and viewport state and object
/// lifetimes are kept as `handled_spec` says; a surface commit is left to the caller; any
/// other message takes the default path (`default_path`).
pub fn process_way_msg(
    msg: &[u8],
    dst: &mut MsgOutput,
    from_channel: bool,
    state: &mut ProtocolState,
    table: &[InterfaceMethods],
    names: &[Vec<u8>],
    incoming: &mut VecDeque<PassedFd>,
    outgoing: &mut VecDeque<PassedFd>,
    max_outgoing_fds: usize,
) -> (res: Result<Routed, ProcError>)
    requires
        old(dst).wf(),
        msg@.len() >= 8,
        (le_value(msg@.subrange(4, 8)) as u32) >> 16u32 == msg@.len(),
        names@.len() <= u32::MAX,
        old(state).title_prefix@.len() + msg@.len() + 16 <= usize::MAX,
    ensures
        final(state).on_display_side == old(state).on_display_side,
        final(state).title_prefix@ == old(state).title_prefix@,
        ({
            let id = msg_object(msg@);
            let is_req = old(state).on_display_side == from_channel;
            let objs0 = old(state).objects@;
            let meth = if objs0.contains_key(id) {
                method_of(table@, objs0[id].obj_type, is_req, msg_opcode(msg@))
            } else {
                None
            };
            match meth {
                None => final(state).objects@ == objs0 && unknown_outcome(
                    msg@,
                    from_channel,
                    max_outgoing_fds,
                    *old(dst),
                    *final(dst),
                    old(incoming)@,
                    final(incoming)@,
                    old(outgoing)@,
                    final(outgoing)@,
                    res,
                ),
                Some(m) => {
                    &&& final(incoming)@ == old(incoming)@
                    &&& final(outgoing)@ == old(outgoing)@
                    &&& match msg_kind(objs0[id].obj_type, is_req, msg_opcode(msg@)) {
                        None => default_outcome(
                            msg@,
                            m,
                            name_bytes(names@),
                            is_req,
                            id,
                            objs0,
                            final(state).objects@,
                            *old(dst),
                            *final(dst),
                            res,
                        ),
                        Some(MsgKind::Commit) => res == Ok::<Routed, ProcError>(Routed::Commit) && final(state).objects@
                            == objs0 && *final(dst) == *old(dst),
                        Some(k) => outcome(
                            handled_spec(k, msg@, old(state).on_display_side, objects_view(objs0), old(state).title_prefix@, old(dst).remaining()),
                            res,
                            objects_view(final(state).objects@),
                            *old(dst),
                            *final(dst),
                            msg@,
                        ),
                    }
                },
            }
        }),
{
    proof {
        crate::bytes::lemma_le_value_bound(msg@.subrange(0, 4));
        crate::bytes::lemma_le_value_bound(msg@.subrange(4, 8));
        assert(vstd::arithmetic::power::pow(256, 4) == 0x1_0000_0000) by {
            reveal_with_fuel(vstd::arithmetic::power::pow, 5);
        }
    }
    let id = crate::bytes::read_le(msg, 0, 4) as u32;
    let h2 = crate::bytes::read_le(msg, 4, 4) as u32;
    let opcode = h2 & 0x7ff;
    let is_req = state.on_display_side == from_channel;
    proof {
        lemma_view_get(state.objects@, id);
    }
    let t = match state.objects.get(&id) {
        Some(o) => o.obj_type,
        None => {
            return match proc_unknown_way_msg(msg, dst, from_channel, incoming, outgoing, max_outgoing_fds) {
                Ok(p) => Ok(Routed::Handled(p)),
                Err(e) => Err(ProcError::Pass(e)),
            };
        },
    };
    let meth = match lookup_method(table, t, is_req, opcode) {
        Some(m) => m,
        None => {
            return match proc_unknown_way_msg(msg, dst, from_channel, incoming, outgoing, max_outgoing_fds) {
                Ok(p) => Ok(Routed::Handled(p)),
                Err(e) => Err(ProcError::Pass(e)),
            };
        },
    };
    let k = match msg_kind_of(t, is_req, opcode) {
        Some(k) => k,
        None => {
            proof {
                lemma_reg_keeps(msg@, meth.sig@, name_bytes(names@), state.objects@, meth.sig@.len() as int, id);
            }
            return match default_proc_way_msg(msg, dst, meth, names, is_req, id, &mut state.objects) {
                Ok(p) => Ok(Routed::Handled(p)),
                Err(e) => Err(ProcError::Register(e)),
            };
        },
    };
    if k == MsgKind::Commit {
        return Ok(Routed::Commit);
    }
    if k == MsgKind::SetTitle {
        return handle_title(msg, id, dst, state.title_prefix.as_slice());
    }
    if dst.space() < msg.len() {
        return Ok(Routed::Handled(ProcMsg::NeedsSpace((msg.len(), 0))));
    }
    match k {
        MsgKind::DeleteId | MsgKind::CallbackDone | MsgKind::CreateSurface | MsgKind::GetViewport => handle_lifetime(k, msg, id, dst, state),
        MsgKind::ViewportDestroy | MsgKind::SetSource | MsgKind::SetDestination => handle_viewport(k, msg, id, dst, state),
        _ => handle_surface(k, msg, id, dst, state),
    }
}

/// The display object stays alive: no message handled here deletes it.
pub proof fn lemma_display_stays(k: MsgKind, msg: Seq<u8>, on_display_side: bool, objs: Map<ObjId, ObjectView>, prefix: Seq<u8>, space: int)
    requires
        objs.contains_key(1),
        objs[1].obj_type == WL_DISPLAY,
        objs.contains_key(msg_object(msg)),
        msg_kind(objs[msg_object(msg)].obj_type, on_display_side, msg_opcode(msg)) == Some(k)
            || msg_kind(objs[msg_object(msg)].obj_type, !on_display_side, msg_opcode(msg)) == Some(k),
    ensures
        handled_spec(k, msg, on_display_side, objs, prefix, space).1.contains_key(1),
{
    if k == MsgKind::CallbackDone {
        assert(msg_object(msg) != 1);
    }
}

proof fn lemma_le_bytes_len4(x: int)
    ensures
        le_bytes(x, 4).len() == 4,
{
    reveal_with_fuel(le_bytes, 5);
}

proof fn lemma_pad4(m: int)
    requires
        m >= 0,
    ensures
        pad4(m) == (m + 3) / 4 * 4,
        pad4(m) >= m,
{
}

/// Replace a window title request by one whose title has `prefix` put before it.
fn handle_title(msg: &[u8], id: ObjId, dst: &mut MsgOutput, prefix: &[u8]) -> (res: Result<Routed, ProcError>)
    requires
        old(dst).wf(),
        msg@.len() >= 8,
        prefix@.len() + msg@.len() + 16 <= usize::MAX,
    ensures
        final(dst).wf(),
        match string_arg(msg@, 8) {
            Err(e) => res == Err::<Routed, ProcError>(ProcError::Msg(e)) && *final(dst) == *old(dst),
            Ok((None, _)) => res == Err::<Routed, ProcError>(ProcError::Msg(MsgError::NullString)) && *final(dst)
                == *old(dst),
            Ok((Some((a, b)), _)) => {
                let len = title_msg_len(prefix@.len() + (b - a));
                if len > old(dst).remaining() {
                    res == Ok::<Routed, ProcError>(Routed::Handled(ProcMsg::NeedsSpace((len as usize, 0usize))))
                        && *final(dst) == *old(dst)
                } else {
                    let w = title_msg(id, prefix@ + msg@.subrange(a, b));
                    &&& res == Ok::<Routed, ProcError>(Routed::Handled(ProcMsg::Done))
                    &&& final(dst).pos == old(dst).pos + w.len()
                    &&& final(dst).data@ == spliced(old(dst).data@, old(dst).pos as int, w)
                }
            },
        },
{
    let mut pos: usize = 8;
    let (a, b) = match parse_string(msg, &mut pos) {
        Err(e) => {
            return Err(ProcError::Msg(e));
        },
        Ok(None) => {
            return Err(ProcError::Msg(MsgError::NullString));
        },
        Ok(Some(x)) => x,
    };
    let n = prefix.len() + (b - a);
    let padded = (n + 1 + 3) / 4 * 4;
    proof {
        lemma_pad4(n + 1);
    }
    let total = 12 + padded;
    if total > dst.space() {
        return Ok(Routed::Handled(ProcMsg::NeedsSpace((total, 0))));
    }
    let mut out: Vec<u8> = Vec::new();
    push_le(&mut out, id as u64, 4);
    let h: u32 = ((total % 65536) as u32) * 65536 + 2;
    push_le(&mut out, h as u64, 4);
    push_le(&mut out, (n + 1) as u64, 4);
    let ghost head = out@;
    proof {
        lemma_le_bytes_len4(id as int);
        lemma_le_bytes_len4(h as int);
        lemma_le_bytes_len4((n + 1) as int);
        assert(head.len() == 12);
    }
    out.extend_from_slice(prefix);
    out.extend_from_slice(vstd::slice::slice_subrange(msg, a, b));
    let ghost body = out@;
    let mut k: usize = n;
    while k < padded
        invariant
            n <= k <= padded,
            out@ == body + Seq::new((k - n) as nat, |i: int| 0u8),
        decreases padded - k,
    {
        let ghost before = out@;
        out.push(0);
        proof {
            assert(out@ =~= body + Seq::new((k + 1 - n) as nat, |i: int| 0u8));
        }
        k = k + 1;
    }
    proof {
        let title = prefix@ + msg@.subrange(a as int, b as int);
        assert(body =~= head + title);
        assert(out@ =~= title_msg(id, title));
    }
    copy_msg(out.as_slice(), dst);
    Ok(Routed::Handled(ProcMsg::Done))
}

/// A `set_buffer_transform` request with protocol value `v` below 8 on a surface records
/// the transform that `wl_output.transform` numbers `v` as the surface's pending one, and
/// changes nothing else about the surface.
pub proof fn lemma_set_buffer_transform(msg: Seq<u8>, id: ObjId, on_display_side: bool, objs: Map<ObjId, ObjectView>, prefix: Seq<u8>, v: u32)
    requires
        objs.contains_key(id),
        objs[id].extra is Surface,
        arg(msg, 0) == Some(v),
        v < 8,
    ensures
        ({
            let r = handle_spec(MsgKind::SetBufferTransform, msg, id, on_display_side, objs, prefix);
            let sv = objs[id].extra->Surface_0;
            let t = if v == 0 {
                WlOutputTransform::Normal
            } else if v == 1 {
                WlOutputTransform::Item90
            } else if v == 2 {
                WlOutputTransform::Item180
            } else if v == 3 {
                WlOutputTransform::Item270
            } else if v == 4 {
                WlOutputTransform::Flipped
            } else if v == 5 {
                WlOutputTransform::Flipped90
            } else if v == 6 {
                WlOutputTransform::Flipped180
            } else {
                WlOutputTransform::Flipped270
            };
            &&& r.0 == Ok::<Routed, ProcError>(Routed::Handled(ProcMsg::Done))
            &&& r.1 == objs.insert(id, ObjectView {
                obj_type: objs[id].obj_type,
                extra: ExtraView::Surface(SurfaceView {
                    history: sv.history.update(0, BatchView {
                        attachment: BufferAttachment { transform: t, ..sv.history[0].attachment },
                        ..sv.history[0]
                    }),
                    ..sv
                }),
            })
        }),
{
    assert((v as i32) >= 0) by (bit_vector)
        requires
            v < 8,
    ;
}

} // verus!
